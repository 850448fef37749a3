//! The domain model: tables, ordered items, and the deterministic
//! cooking-time estimator used during replay.
//!
//! The estimator is a fixed placeholder policy: for an item of quantity `q`
//! written at event version `v`, it charges `60` seconds per byte of the menu
//! name plus `60 * (v mod 10)` seconds, scaled by the integer part of the
//! logarithm of `q + 2` to base `2.71`.  All arithmetic wraps as unsigned
//! 64-bit arithmetic does; the logarithm is computed exactly over the
//! rational base `271/100`.

use vstd::prelude::*;
use vstd::utf8::encode_utf8;

verus! {

// ---------------------------------------------------------------------------
// Items and tables
// ---------------------------------------------------------------------------

/// One ordered menu item as a table holds it.
#[derive(Debug, Clone)]
pub struct Item {
    pub id: String,
    pub quantity: i64,
    pub cooking_time: Option<u64>,
    pub timestamp: u64,
}

/// Mathematical image of an item.
pub struct ItemV {
    pub id: Seq<char>,
    pub quantity: i64,
    pub cooking_time: Option<u64>,
    pub timestamp: u64,
}

impl View for Item {
    type V = ItemV;

    open spec fn view(&self) -> ItemV {
        ItemV {
            id: self.id@,
            quantity: self.quantity,
            cooking_time: self.cooking_time,
            timestamp: self.timestamp,
        }
    }
}

impl DeepView for Item {
    type V = ItemV;

    open spec fn deep_view(&self) -> ItemV {
        self.view()
    }
}

impl Item {
    /// A fresh item with no cooking time yet.
    pub fn new(id: String, quantity: i64, timestamp: u64) -> (r: Item)
        ensures
            r@ == (ItemV { id: id@, quantity, cooking_time: None, timestamp }),
    {
        Item { id, quantity, cooking_time: None, timestamp }
    }

    /// The same item with its cooking time filled in.
    pub fn with_cooking_time(self, time: u64) -> (r: Item)
        ensures
            r@ == (ItemV {
                id: self@.id,
                quantity: self@.quantity,
                cooking_time: Some(time),
                timestamp: self@.timestamp,
            }),
    {
        Item { cooking_time: Some(time), ..self }
    }
}

/// Image of a table's contents: items keyed by menu name.
pub open spec fn items_map(s: Seq<ItemV>) -> Map<Seq<char>, ItemV>
    decreases s.len(),
{
    if s.len() == 0 {
        Map::empty()
    } else {
        items_map(s.drop_last()).insert(s.last().id, s.last())
    }
}

/// No two stored items share a menu name.
pub open spec fn unique_ids(s: Seq<ItemV>) -> bool {
    forall|i: int, j: int| 0 <= i < j < s.len() ==> s[i].id != s[j].id
}

/// One table: its index and the items currently ordered at it, keyed by
/// menu name with unique keys.
#[derive(Debug)]
pub struct Table {
    pub id: usize,
    pub items: Vec<Item>,
}

impl Table {
    /// The items' mathematical image, as a map from menu name to item.
    pub open spec fn map_view(&self) -> Map<Seq<char>, ItemV> {
        items_map(self.items.deep_view())
    }

    /// Well-formedness: menu names are unique keys.
    pub open spec fn wf(&self) -> bool {
        unique_ids(self.items.deep_view())
    }

    /// An empty table with the given index.
    pub fn new(id: usize) -> (r: Table)
        ensures
            r.id == id,
            r.wf(),
            r.map_view() == Map::<Seq<char>, ItemV>::empty(),
            r.items@.len() == 0,
    {
        let r = Table { id, items: Vec::new() };
        proof {
            assert(r.items.deep_view() =~= Seq::<ItemV>::empty());
        }
        r
    }

    /// Clears all items.
    pub fn reset(&mut self)
        ensures
            final(self).id == old(self).id,
            final(self).wf(),
            final(self).map_view() == Map::<Seq<char>, ItemV>::empty(),
            final(self).items@.len() == 0,
    {
        self.items = Vec::new();
        proof {
            assert(self.items.deep_view() =~= Seq::<ItemV>::empty());
        }
    }
}


// ---------------------------------------------------------------------------
// Looking up, writing and removing items
// ---------------------------------------------------------------------------

/// Every stored item is in the map under its name; every key comes from a
/// stored item.
pub proof fn lemma_items_map_keys(s: Seq<ItemV>)
    ensures
        forall|k: Seq<char>|
            items_map(s).contains_key(k) ==> exists|i: int| 0 <= i < s.len() && s[i].id == k,
        forall|i: int| 0 <= i < s.len() ==> items_map(s).contains_key(#[trigger] s[i].id),
    decreases s.len(),
{
    if s.len() > 0 {
        let t = s.drop_last();
        lemma_items_map_keys(t);
        assert forall|i: int| 0 <= i < s.len() implies items_map(s).contains_key(
            #[trigger] s[i].id,
        ) by {
            if i < s.len() - 1 {
                assert(t[i] == s[i]);
            }
        }
        assert forall|k: Seq<char>| items_map(s).contains_key(k) implies exists|i: int|
            0 <= i < s.len() && s[i].id == k by {
            if k != s.last().id {
                assert(items_map(t).contains_key(k));
                let i = choose|i: int| 0 <= i < t.len() && t[i].id == k;
                assert(s[i].id == k);
            } else {
                assert(s[s.len() - 1].id == k);
            }
        }
    }
}

/// With unique names, the map sends each stored item's name to that item.
pub proof fn lemma_items_map_get(s: Seq<ItemV>, i: int)
    requires
        unique_ids(s),
        0 <= i < s.len(),
    ensures
        items_map(s).contains_key(s[i].id),
        items_map(s)[s[i].id] == s[i],
    decreases s.len(),
{
    let t = s.drop_last();
    if i == s.len() - 1 {
    } else {
        assert(unique_ids(t));
        assert(t[i] == s[i]);
        lemma_items_map_get(t, i);
        assert(s.last().id != s[i].id);
    }
}

/// Replacing the item at a position by one with the same name updates the
/// map at that name.
proof fn lemma_items_map_update(s: Seq<ItemV>, i: int, it: ItemV)
    requires
        unique_ids(s),
        0 <= i < s.len(),
        s[i].id == it.id,
    ensures
        unique_ids(s.update(i, it)),
        items_map(s.update(i, it)) == items_map(s).insert(it.id, it),
    decreases s.len(),
{
    let u = s.update(i, it);
    assert forall|a: int, b: int| 0 <= a < b < u.len() implies u[a].id != u[b].id by {
        assert(s[a].id != s[b].id);
    }
    if i == s.len() - 1 {
        assert(u.drop_last() =~= s.drop_last());
        assert(u.last() == it);
        assert(items_map(u) =~= items_map(s).insert(it.id, it));
    } else {
        let t = s.drop_last();
        assert(unique_ids(t));
        assert(t[i] == s[i]);
        lemma_items_map_update(t, i, it);
        assert(u.drop_last() =~= t.update(i, it));
        assert(u.last() == s.last());
        assert(s.last().id != it.id);
        assert(items_map(u) =~= items_map(s).insert(it.id, it));
    }
}

/// Removing the item at a position removes its name from the map.
proof fn lemma_items_map_remove(s: Seq<ItemV>, i: int)
    requires
        unique_ids(s),
        0 <= i < s.len(),
    ensures
        unique_ids(s.remove(i)),
        items_map(s.remove(i)) == items_map(s).remove(s[i].id),
    decreases s.len(),
{
    let u = s.remove(i);
    assert forall|a: int, b: int| 0 <= a < b < u.len() implies u[a].id != u[b].id by {
        let a0 = if a < i { a } else { a + 1 };
        let b0 = if b < i { b } else { b + 1 };
        assert(u[a] == s[a0]);
        assert(u[b] == s[b0]);
        assert(s[a0].id != s[b0].id);
    }
    let t = s.drop_last();
    if i == s.len() - 1 {
        assert(u =~= t);
        lemma_items_map_keys(t);
        assert(unique_ids(t));
        if items_map(t).contains_key(s[i].id) {
            let j = choose|j: int| 0 <= j < t.len() && t[j].id == s[i].id;
            assert(s[j].id == s[i].id);
            assert(false);
        }
        assert(items_map(u) =~= items_map(s).remove(s[i].id));
    } else {
        assert(unique_ids(t));
        assert(t[i] == s[i]);
        lemma_items_map_remove(t, i);
        assert(u.drop_last() =~= t.remove(i));
        assert(u.last() == s.last());
        assert(s.last().id != s[i].id);
        assert(items_map(u) =~= items_map(s).remove(s[i].id));
    }
}

impl Table {
    /// Position of the item with the given name, if any.
    fn find_item(&self, id: &str) -> (r: Option<usize>)
        ensures
            match r {
                Some(i) => i < self.items@.len() && self.items.deep_view()[i as int].id == id@,
                None => forall|i: int|
                    0 <= i < self.items@.len() ==> (#[trigger] self.items.deep_view()[i]).id
                        != id@,
            },
    {
        let mut i: usize = 0;
        while i < self.items.len()
            invariant
                i <= self.items@.len(),
                forall|j: int|
                    0 <= j < i ==> (#[trigger] self.items.deep_view()[j]).id != id@,
            decreases self.items@.len() - i,
        {
            if crate::chars::str_eq(self.items[i].id.as_str(), id) {
                return Some(i);
            }
            proof {
                assert(self.items.deep_view()[i as int] == self.items@[i as int]@);
            }
            i = i + 1;
        }
        None
    }

    /// Read-only lookup by menu name.
    pub fn get_item(&self, id: &str) -> (r: Option<&Item>)
        requires
            self.wf(),
        ensures
            match r {
                Some(it) => self.map_view().contains_key(id@) && it@ == self.map_view()[id@],
                None => !self.map_view().contains_key(id@),
            },
    {
        proof {
            lemma_items_map_keys(self.items.deep_view());
        }
        match self.find_item(id) {
            Some(i) => {
                proof {
                    lemma_items_map_get(self.items.deep_view(), i as int);
                }
                Some(&self.items[i])
            },
            None => {
                proof {
                    let s = self.items.deep_view();
                    if items_map(s).contains_key(id@) {
                        let j = choose|j: int| 0 <= j < s.len() && s[j].id == id@;
                        assert(s[j].id == id@);
                        assert(false);
                    }
                }
                None
            },
        }
    }

    /// Writes an item under its name, replacing any entry with that name.
    pub fn upsert_item(&mut self, item: Item)
        requires
            old(self).wf(),
        ensures
            final(self).wf(),
            final(self).id == old(self).id,
            final(self).map_view() == old(self).map_view().insert(item@.id, item@),
    {
        let ghost s = self.items.deep_view();
        let ghost itv = item@;
        match self.find_item(item.id.as_str()) {
            Some(i) => {
                proof {
                    lemma_items_map_update(s, i as int, itv);
                }
                self.items.set(i, item);
                proof {
                    assert(self.items.deep_view() =~= s.update(i as int, itv));
                }
            },
            None => {
                self.items.push(item);
                proof {
                    let s2 = self.items.deep_view();
                    assert(s2.drop_last() =~= s);
                    assert(s2.last() == itv);
                    assert forall|a: int, b: int| 0 <= a < b < s2.len() implies s2[a].id
                        != s2[b].id by {
                        if b < s2.len() - 1 {
                            assert(s[a].id != s[b].id);
                        } else {
                            assert(s[a].id != itv.id);
                        }
                    }
                    assert(items_map(s2) == items_map(s).insert(itv.id, itv));
                }
            },
        }
    }

    /// Removes the entry with the given name, if present.
    pub fn remove_item(&mut self, id: &str)
        requires
            old(self).wf(),
        ensures
            final(self).wf(),
            final(self).id == old(self).id,
            final(self).map_view() == old(self).map_view().remove(id@),
    {
        let ghost s = self.items.deep_view();
        match self.find_item(id) {
            Some(i) => {
                proof {
                    lemma_items_map_remove(s, i as int);
                }
                self.items.remove(i);
                proof {
                    assert(self.items.deep_view() =~= s.remove(i as int));
                }
            },
            None => {
                proof {
                    lemma_items_map_keys(s);
                    if items_map(s).contains_key(id@) {
                        let j = choose|j: int| 0 <= j < s.len() && s[j].id == id@;
                        assert(s[j].id == id@);
                        assert(false);
                    }
                    assert(items_map(s) =~= items_map(s).remove(id@));
                }
            },
        }
    }
}

// ---------------------------------------------------------------------------
// The cooking-time estimator
// ---------------------------------------------------------------------------

/// `271 ^ k`.
pub open spec fn p271(k: nat) -> int
    decreases k,
{
    if k == 0 {
        1
    } else {
        271 * p271((k - 1) as nat)
    }
}

/// `100 ^ k`.
pub open spec fn p100(k: nat) -> int
    decreases k,
{
    if k == 0 {
        1
    } else {
        100 * p100((k - 1) as nat)
    }
}

proof fn lemma_pows_pos(k: nat)
    ensures
        p100(k) >= 1,
        p271(k) >= 1,
    decreases k,
{
    if k > 0 {
        lemma_pows_pos((k - 1) as nat);
    }
}

/// The integer part of the base-`271/100` logarithm of `x`, searched upward
/// from exponent `j` and capped at `44` (beyond any unsigned 64-bit value).
pub open spec fn log_floor_from(x: int, j: nat) -> nat
    decreases 44 - j,
{
    if j >= 44 {
        44
    } else if x * p100(j + 1) < p271(j + 1) {
        j
    } else {
        log_floor_from(x, j + 1)
    }
}

/// The integer part of the base-`271/100` logarithm of `x`, for `x >= 1`.
pub open spec fn log_floor(x: int) -> nat {
    log_floor_from(x, 0)
}

proof fn lemma_log_floor_bound(x: int, j: nat)
    requires
        j <= 44,
    ensures
        j <= log_floor_from(x, j) <= 44,
    decreases 44 - j,
{
    if j < 44 && !(x * p100(j + 1) < p271(j + 1)) {
        lemma_log_floor_bound(x, j + 1);
    }
}

/// The exact values of the powers the estimator's logarithm compares.
#[verifier::rlimit(100)]
proof fn lemma_powers()
    ensures
        p271(1) == 271,
        p100(1) == 100,
        p271(2) == 73441,
        p100(2) == 10000,
        p271(3) == 19902511,
        p100(3) == 1000000,
        p271(4) == 5393580481,
        p100(4) == 100000000,
        p271(5) == 1461660310351,
        p100(5) == 10000000000,
        p271(6) == 396109944105121,
        p100(6) == 1000000000000,
        p271(7) == 107345794852487791,
        p100(7) == 100000000000000,
        p271(8) == 29090710405024191361,
        p100(8) == 10000000000000000,
        p271(9) == 7883582519761555858831,
        p100(9) == 1000000000000000000,
        p271(10) == 2136450862855381637743201,
        p100(10) == 100000000000000000000,
        p271(11) == 578978183833808423828407471,
        p100(11) == 10000000000000000000000,
        p271(12) == 156903087818962082857498424641,
        p100(12) == 1000000000000000000000000,
        p271(13) == 42520736798938724454382073077711,
        p100(13) == 100000000000000000000000000,
        p271(14) == 11523119672512394327137541804059681,
        p100(14) == 10000000000000000000000000000,
        p271(15) == 3122765431250858862654273828900173551,
        p100(15) == 1000000000000000000000000000000,
        p271(16) == 846269431868982751779308207631947032321,
        p100(16) == 100000000000000000000000000000000,
        p271(17) == 229339016036494325732192524268257645758991,
        p100(17) == 10000000000000000000000000000000000,
        p271(18) == 62150873345889962273424174076697822000686561,
        p100(18) == 1000000000000000000000000000000000000,
        p271(19) == 16842886676736179776097951174785109762186058031,
        p100(19) == 100000000000000000000000000000000000000,
        p271(20) == 4564422289395504719322544768366764745552421726401,
        p100(20) == 10000000000000000000000000000000000000000,
        p271(21) == 1236958440426181778936409632227393246044706287854671,
        p100(21) == 1000000000000000000000000000000000000000000,
        p271(22) == 335215737355495262091767010333623569678115404008615841,
        p100(22) == 100000000000000000000000000000000000000000000,
        p271(23) == 90843464823339216026868859800411987382769274486334892911,
        p100(23) == 10000000000000000000000000000000000000000000000,
        p271(24) == 24618578967124927543281461005911648580730473385796755978881,
        p100(24) == 1000000000000000000000000000000000000000000000000,
        p271(25) == 6671634900090855364229275932602056765377958287550920870276751,
        p100(25) == 100000000000000000000000000000000000000000000000000,
        p271(26) == 1808013057924621803706133777735157383417426695926299555844999521,
        p100(26) == 10000000000000000000000000000000000000000000000000000,
        p271(27) == 489971538697572508804362253766227650906122634596027179633994870191,
        p100(27) == 1000000000000000000000000000000000000000000000000000000,
        p271(28) == 132782286987042149885982170770647693395559233975523365680812609821761,
        p100(28) == 100000000000000000000000000000000000000000000000000000000,
        p271(29) == 35983999773488422619101168278845524910196552407366832099500217261697231,
        p100(29) == 10000000000000000000000000000000000000000000000000000000000,
        p271(30) == 9751663938615362529776416603567137250663265702396411498964558877919949601,
        p100(30) == 1000000000000000000000000000000000000000000000000000000000000,
        p271(31) == 2642700927364763245569408899566694194929745005349427516219395455916306341871,
        p100(31) == 100000000000000000000000000000000000000000000000000000000000000,
        p271(32) == 716171951315850839549309811782574126825960896449694856895456168553319018647041,
        p100(32) == 10000000000000000000000000000000000000000000000000000000000000000,
        p271(33) == 194082598806595577517862958993077588369835402937867306218668621677949454053348111,
        p100(33) == 1000000000000000000000000000000000000000000000000000000000000000000,
        p271(34) == 52596384276587401507340861887124026448225394196162039985259196474724302048457338081,
        p100(34) == 100000000000000000000000000000000000000000000000000000000000000000000,
        p271(35) == 14253620138955185808489373571410611167469081827159912836005242244650285855131938619951,
        p100(35) == 10000000000000000000000000000000000000000000000000000000000000000000000,
        p271(36) == 3862731057656855354100620237852275626384121175160336378557420648300227466740755366006721,
        p100(36) == 1000000000000000000000000000000000000000000000000000000000000000000000000,
        p271(37) == 1046800116625007800961268084457966694750096838468451158589060995689361643486744704187821391,
        p100(37) == 100000000000000000000000000000000000000000000000000000000000000000000000000,
        p271(38) == 283682831605377114060503650888108974277276243224950263977635529831817005384907814834899596961,
        p100(38) == 10000000000000000000000000000000000000000000000000000000000000000000000000000,
        p271(39) == 76878047365057197910396489390677532029141861913961521537939228584422408459310017820257790776431,
        p100(39) == 1000000000000000000000000000000000000000000000000000000000000000000000000000000,
        p271(40) == 20833950835930500633717448624873611179897444578683572336781530946378472692473014829289861300412801,
        p100(40) == 100000000000000000000000000000000000000000000000000000000000000000000000000000000,
        p271(41) == 5646000676537165671737428577340748629752207480823248103267794886468566099660187018737552412411869071,
        p100(41) == 10000000000000000000000000000000000000000000000000000000000000000000000000000000000,
        p271(42) == 1530066183341571897040843144459342878662848227303100235985572414232981413007910682077876703763616518241,
        p100(42) == 1000000000000000000000000000000000000000000000000000000000000000000000000000000000000,
        p271(43) == 414647935685565984098068492148481920117631869599140163952090124257137962925143794843104586719940076443311,
        p100(43) == 100000000000000000000000000000000000000000000000000000000000000000000000000000000000000,
        p271(44) == 112369590570788381690576561372238600351878236661366984431016423673684387952713968402481343001103760716137281,
        p100(44) == 10000000000000000000000000000000000000000000000000000000000000000000000000000000000000000,
{
    assert(p271(0) == 1);
    assert(p100(0) == 1);
    assert(p271(1) == 271 * p271(0));
    assert(p100(1) == 100 * p100(0));
    assert(p271(2) == 271 * p271(1));
    assert(p100(2) == 100 * p100(1));
    assert(p271(3) == 271 * p271(2));
    assert(p100(3) == 100 * p100(2));
    assert(p271(4) == 271 * p271(3));
    assert(p100(4) == 100 * p100(3));
    assert(p271(5) == 271 * p271(4));
    assert(p100(5) == 100 * p100(4));
    assert(p271(6) == 271 * p271(5));
    assert(p100(6) == 100 * p100(5));
    assert(p271(7) == 271 * p271(6));
    assert(p100(7) == 100 * p100(6));
    assert(p271(8) == 271 * p271(7));
    assert(p100(8) == 100 * p100(7));
    assert(p271(9) == 271 * p271(8));
    assert(p100(9) == 100 * p100(8));
    assert(p271(10) == 271 * p271(9));
    assert(p100(10) == 100 * p100(9));
    assert(p271(11) == 271 * p271(10));
    assert(p100(11) == 100 * p100(10));
    assert(p271(12) == 271 * p271(11));
    assert(p100(12) == 100 * p100(11));
    assert(p271(13) == 271 * p271(12));
    assert(p100(13) == 100 * p100(12));
    assert(p271(14) == 271 * p271(13));
    assert(p100(14) == 100 * p100(13));
    assert(p271(15) == 271 * p271(14));
    assert(p100(15) == 100 * p100(14));
    assert(p271(16) == 271 * p271(15));
    assert(p100(16) == 100 * p100(15));
    assert(p271(17) == 271 * p271(16));
    assert(p100(17) == 100 * p100(16));
    assert(p271(18) == 271 * p271(17));
    assert(p100(18) == 100 * p100(17));
    assert(p271(19) == 271 * p271(18));
    assert(p100(19) == 100 * p100(18));
    assert(p271(20) == 271 * p271(19));
    assert(p100(20) == 100 * p100(19));
    assert(p271(21) == 271 * p271(20));
    assert(p100(21) == 100 * p100(20));
    assert(p271(22) == 271 * p271(21));
    assert(p100(22) == 100 * p100(21));
    assert(p271(23) == 271 * p271(22));
    assert(p100(23) == 100 * p100(22));
    assert(p271(24) == 271 * p271(23));
    assert(p100(24) == 100 * p100(23));
    assert(p271(25) == 271 * p271(24));
    assert(p100(25) == 100 * p100(24));
    assert(p271(26) == 271 * p271(25));
    assert(p100(26) == 100 * p100(25));
    assert(p271(27) == 271 * p271(26));
    assert(p100(27) == 100 * p100(26));
    assert(p271(28) == 271 * p271(27));
    assert(p100(28) == 100 * p100(27));
    assert(p271(29) == 271 * p271(28));
    assert(p100(29) == 100 * p100(28));
    assert(p271(30) == 271 * p271(29));
    assert(p100(30) == 100 * p100(29));
    assert(p271(31) == 271 * p271(30));
    assert(p100(31) == 100 * p100(30));
    assert(p271(32) == 271 * p271(31));
    assert(p100(32) == 100 * p100(31));
    assert(p271(33) == 271 * p271(32));
    assert(p100(33) == 100 * p100(32));
    assert(p271(34) == 271 * p271(33));
    assert(p100(34) == 100 * p100(33));
    assert(p271(35) == 271 * p271(34));
    assert(p100(35) == 100 * p100(34));
    assert(p271(36) == 271 * p271(35));
    assert(p100(36) == 100 * p100(35));
    assert(p271(37) == 271 * p271(36));
    assert(p100(37) == 100 * p100(36));
    assert(p271(38) == 271 * p271(37));
    assert(p100(38) == 100 * p100(37));
    assert(p271(39) == 271 * p271(38));
    assert(p100(39) == 100 * p100(38));
    assert(p271(40) == 271 * p271(39));
    assert(p100(40) == 100 * p100(39));
    assert(p271(41) == 271 * p271(40));
    assert(p100(41) == 100 * p100(40));
    assert(p271(42) == 271 * p271(41));
    assert(p100(42) == 100 * p100(41));
    assert(p271(43) == 271 * p271(42));
    assert(p100(43) == 100 * p100(42));
    assert(p271(44) == 271 * p271(43));
    assert(p100(44) == 100 * p100(43));
}

/// `floor(271^j / 100^j)`, as a table of exact constants.
#[verifier::rlimit(60)]
fn ratio_floor(j: u64) -> (r: u64)
    requires
        1 <= j <= 44,
    ensures
        p100(j as nat) * r < p271(j as nat),
        p271(j as nat) < p100(j as nat) * (r + 1),
{
    if j == 1 {
        proof {
            lemma_powers();
            assert(p100(1) * 2 < p271(1));
            assert(p271(1) < p100(1) * (2 + 1));
        }
        2
    } else if j == 2 {
        proof {
            lemma_powers();
            assert(p100(2) * 7 < p271(2));
            assert(p271(2) < p100(2) * (7 + 1));
        }
        7
    } else if j == 3 {
        proof {
            lemma_powers();
            assert(p100(3) * 19 < p271(3));
            assert(p271(3) < p100(3) * (19 + 1));
        }
        19
    } else if j == 4 {
        proof {
            lemma_powers();
            assert(p100(4) * 53 < p271(4));
            assert(p271(4) < p100(4) * (53 + 1));
        }
        53
    } else if j == 5 {
        proof {
            lemma_powers();
            assert(p100(5) * 146 < p271(5));
            assert(p271(5) < p100(5) * (146 + 1));
        }
        146
    } else if j == 6 {
        proof {
            lemma_powers();
            assert(p100(6) * 396 < p271(6));
            assert(p271(6) < p100(6) * (396 + 1));
        }
        396
    } else if j == 7 {
        proof {
            lemma_powers();
            assert(p100(7) * 1073 < p271(7));
            assert(p271(7) < p100(7) * (1073 + 1));
        }
        1073
    } else if j == 8 {
        proof {
            lemma_powers();
            assert(p100(8) * 2909 < p271(8));
            assert(p271(8) < p100(8) * (2909 + 1));
        }
        2909
    } else if j == 9 {
        proof {
            lemma_powers();
            assert(p100(9) * 7883 < p271(9));
            assert(p271(9) < p100(9) * (7883 + 1));
        }
        7883
    } else if j == 10 {
        proof {
            lemma_powers();
            assert(p100(10) * 21364 < p271(10));
            assert(p271(10) < p100(10) * (21364 + 1));
        }
        21364
    } else if j == 11 {
        proof {
            lemma_powers();
            assert(p100(11) * 57897 < p271(11));
            assert(p271(11) < p100(11) * (57897 + 1));
        }
        57897
    } else if j == 12 {
        proof {
            lemma_powers();
            assert(p100(12) * 156903 < p271(12));
            assert(p271(12) < p100(12) * (156903 + 1));
        }
        156903
    } else if j == 13 {
        proof {
            lemma_powers();
            assert(p100(13) * 425207 < p271(13));
            assert(p271(13) < p100(13) * (425207 + 1));
        }
        425207
    } else if j == 14 {
        proof {
            lemma_powers();
            assert(p100(14) * 1152311 < p271(14));
            assert(p271(14) < p100(14) * (1152311 + 1));
        }
        1152311
    } else if j == 15 {
        proof {
            lemma_powers();
            assert(p100(15) * 3122765 < p271(15));
            assert(p271(15) < p100(15) * (3122765 + 1));
        }
        3122765
    } else if j == 16 {
        proof {
            lemma_powers();
            assert(p100(16) * 8462694 < p271(16));
            assert(p271(16) < p100(16) * (8462694 + 1));
        }
        8462694
    } else if j == 17 {
        proof {
            lemma_powers();
            assert(p100(17) * 22933901 < p271(17));
            assert(p271(17) < p100(17) * (22933901 + 1));
        }
        22933901
    } else if j == 18 {
        proof {
            lemma_powers();
            assert(p100(18) * 62150873 < p271(18));
            assert(p271(18) < p100(18) * (62150873 + 1));
        }
        62150873
    } else if j == 19 {
        proof {
            lemma_powers();
            assert(p100(19) * 168428866 < p271(19));
            assert(p271(19) < p100(19) * (168428866 + 1));
        }
        168428866
    } else if j == 20 {
        proof {
            lemma_powers();
            assert(p100(20) * 456442228 < p271(20));
            assert(p271(20) < p100(20) * (456442228 + 1));
        }
        456442228
    } else if j == 21 {
        proof {
            lemma_powers();
            assert(p100(21) * 1236958440 < p271(21));
            assert(p271(21) < p100(21) * (1236958440 + 1));
        }
        1236958440
    } else if j == 22 {
        proof {
            lemma_powers();
            assert(p100(22) * 3352157373 < p271(22));
            assert(p271(22) < p100(22) * (3352157373 + 1));
        }
        3352157373
    } else if j == 23 {
        proof {
            lemma_powers();
            assert(p100(23) * 9084346482 < p271(23));
            assert(p271(23) < p100(23) * (9084346482 + 1));
        }
        9084346482
    } else if j == 24 {
        proof {
            lemma_powers();
            assert(p100(24) * 24618578967 < p271(24));
            assert(p271(24) < p100(24) * (24618578967 + 1));
        }
        24618578967
    } else if j == 25 {
        proof {
            lemma_powers();
            assert(p100(25) * 66716349000 < p271(25));
            assert(p271(25) < p100(25) * (66716349000 + 1));
        }
        66716349000
    } else if j == 26 {
        proof {
            lemma_powers();
            assert(p100(26) * 180801305792 < p271(26));
            assert(p271(26) < p100(26) * (180801305792 + 1));
        }
        180801305792
    } else if j == 27 {
        proof {
            lemma_powers();
            assert(p100(27) * 489971538697 < p271(27));
            assert(p271(27) < p100(27) * (489971538697 + 1));
        }
        489971538697
    } else if j == 28 {
        proof {
            lemma_powers();
            assert(p100(28) * 1327822869870 < p271(28));
            assert(p271(28) < p100(28) * (1327822869870 + 1));
        }
        1327822869870
    } else if j == 29 {
        proof {
            lemma_powers();
            assert(p100(29) * 3598399977348 < p271(29));
            assert(p271(29) < p100(29) * (3598399977348 + 1));
        }
        3598399977348
    } else if j == 30 {
        proof {
            lemma_powers();
            assert(p100(30) * 9751663938615 < p271(30));
            assert(p271(30) < p100(30) * (9751663938615 + 1));
        }
        9751663938615
    } else if j == 31 {
        proof {
            lemma_powers();
            assert(p100(31) * 26427009273647 < p271(31));
            assert(p271(31) < p100(31) * (26427009273647 + 1));
        }
        26427009273647
    } else if j == 32 {
        proof {
            lemma_powers();
            assert(p100(32) * 71617195131585 < p271(32));
            assert(p271(32) < p100(32) * (71617195131585 + 1));
        }
        71617195131585
    } else if j == 33 {
        proof {
            lemma_powers();
            assert(p100(33) * 194082598806595 < p271(33));
            assert(p271(33) < p100(33) * (194082598806595 + 1));
        }
        194082598806595
    } else if j == 34 {
        proof {
            lemma_powers();
            assert(p100(34) * 525963842765874 < p271(34));
            assert(p271(34) < p100(34) * (525963842765874 + 1));
        }
        525963842765874
    } else if j == 35 {
        proof {
            lemma_powers();
            assert(p100(35) * 1425362013895518 < p271(35));
            assert(p271(35) < p100(35) * (1425362013895518 + 1));
        }
        1425362013895518
    } else if j == 36 {
        proof {
            lemma_powers();
            assert(p100(36) * 3862731057656855 < p271(36));
            assert(p271(36) < p100(36) * (3862731057656855 + 1));
        }
        3862731057656855
    } else if j == 37 {
        proof {
            lemma_powers();
            assert(p100(37) * 10468001166250078 < p271(37));
            assert(p271(37) < p100(37) * (10468001166250078 + 1));
        }
        10468001166250078
    } else if j == 38 {
        proof {
            lemma_powers();
            assert(p100(38) * 28368283160537711 < p271(38));
            assert(p271(38) < p100(38) * (28368283160537711 + 1));
        }
        28368283160537711
    } else if j == 39 {
        proof {
            lemma_powers();
            assert(p100(39) * 76878047365057197 < p271(39));
            assert(p271(39) < p100(39) * (76878047365057197 + 1));
        }
        76878047365057197
    } else if j == 40 {
        proof {
            lemma_powers();
            assert(p100(40) * 208339508359305006 < p271(40));
            assert(p271(40) < p100(40) * (208339508359305006 + 1));
        }
        208339508359305006
    } else if j == 41 {
        proof {
            lemma_powers();
            assert(p100(41) * 564600067653716567 < p271(41));
            assert(p271(41) < p100(41) * (564600067653716567 + 1));
        }
        564600067653716567
    } else if j == 42 {
        proof {
            lemma_powers();
            assert(p100(42) * 1530066183341571897 < p271(42));
            assert(p271(42) < p100(42) * (1530066183341571897 + 1));
        }
        1530066183341571897
    } else if j == 43 {
        proof {
            lemma_powers();
            assert(p100(43) * 4146479356855659840 < p271(43));
            assert(p271(43) < p100(43) * (4146479356855659840 + 1));
        }
        4146479356855659840
    } else if j == 44 {
        proof {
            lemma_powers();
            assert(p100(44) * 11236959057078838169 < p271(44));
            assert(p271(44) < p100(44) * (11236959057078838169 + 1));
        }
        11236959057078838169
    } else {
        proof {
            lemma_powers();
            assert(p100(44) * 11236959057078838169 < p271(44));
            assert(p271(44) < p100(44) * (11236959057078838169 + 1));
        }
        11236959057078838169
    }
}

/// The comparison against the table constant decides the exact rational
/// comparison: `x > floor(271^j/100^j)` exactly when `x * 100^j >= 271^j`,
/// because `271^j` is never a multiple of `100^j`.
proof fn lemma_ratio_decides(x: int, j: nat, c: int)
    requires
        1 <= x,
        p100(j) >= 1,
        p100(j) * c < p271(j),
        p271(j) < p100(j) * (c + 1),
    ensures
        (x > c) <==> (x * p100(j) >= p271(j)),
{
    if x > c {
        assert(x * p100(j) >= (c + 1) * p100(j)) by (nonlinear_arith)
            requires
                x >= c + 1,
                p100(j) >= 1,
        ;
        assert((c + 1) * p100(j) == p100(j) * (c + 1)) by (nonlinear_arith);
    } else {
        assert(x * p100(j) <= c * p100(j)) by (nonlinear_arith)
            requires
                x <= c,
                p100(j) >= 1,
        ;
        assert(c * p100(j) == p100(j) * c) by (nonlinear_arith);
    }
}

/// Computes `log_floor(x)` exactly.
pub fn log_floor_exec(x: u64) -> (k: u64)
    requires
        x >= 1,
    ensures
        k as nat == log_floor(x as int),
        k <= 44,
{
    let mut k: u64 = 0;
    while k < 44
        invariant
            k <= 44,
            x >= 1,
            log_floor(x as int) == log_floor_from(x as int, k as nat),
        decreases 44 - k,
    {
        let c = ratio_floor(k + 1);
        proof {
            lemma_pows_pos((k + 1) as nat);
            lemma_ratio_decides(x as int, (k + 1) as nat, c as int);
        }
        if x > c {
            k = k + 1;
        } else {
            proof {
                assert(log_floor_from(x as int, k as nat) == k as nat);
            }
            return k;
        }
    }
    k
}

/// Unsigned 64-bit wrapping addition.
pub open spec fn w_add(x: u64, y: u64) -> u64 {
    if x + y > u64::MAX {
        (x + y - 0x1_0000_0000_0000_0000) as u64
    } else {
        (x + y) as u64
    }
}

/// Unsigned 64-bit wrapping multiplication.
pub open spec fn w_mul(x: u64, y: u64) -> u64 {
    ((x as nat * y as nat) % 0x1_0000_0000_0000_0000nat) as u64
}

/// Signed 64-bit wrapping addition.
pub open spec fn w_add_i64(x: i64, y: i64) -> i64 {
    if x + y > i64::MAX {
        (x + y - 0x1_0000_0000_0000_0000) as i64
    } else if x + y < i64::MIN {
        (x + y + 0x1_0000_0000_0000_0000) as i64
    } else {
        (x + y) as i64
    }
}

/// Signed 64-bit wrapping subtraction.
pub open spec fn w_sub_i64(x: i64, y: i64) -> i64 {
    if x - y > i64::MAX {
        (x - y - 0x1_0000_0000_0000_0000) as i64
    } else if x - y < i64::MIN {
        (x - y + 0x1_0000_0000_0000_0000) as i64
    } else {
        (x - y) as i64
    }
}

/// The length in bytes of a menu name, as `String::len` reports it.
pub open spec fn id_bytes_of(id: Seq<char>) -> u64 {
    (encode_utf8(id).len() as usize) as u64
}

/// The estimated cooking time for an item whose menu name is `id_bytes`
/// bytes long, with quantity `quantity`, written at event version
/// `version`: `60` seconds per name byte plus `60 * (version mod 10)`
/// seconds, times the integer part of the base-`2.71` logarithm of
/// `quantity + 2` (zero when `quantity + 2` wraps below one).  Every
/// operation wraps as 64-bit arithmetic does.
pub open spec fn spec_estimate(id_bytes: u64, quantity: i64, version: u64) -> u64 {
    let x = w_add_i64(quantity, 2);
    let k: u64 = if 1 <= x {
        log_floor(x as int) as u64
    } else {
        0
    };
    let base = w_add(w_mul(id_bytes, 60), ((version % 10) * 60) as u64);
    w_mul(base, k)
}

/// The deterministic estimation policy applied by `New` projection steps.
pub struct CookingTimeEstimator;

impl CookingTimeEstimator {
    /// Estimates the cooking time of `item` at event version
    /// `event_version`; a pure function of the two arguments.
    pub fn estimate(item: &Item, event_version: u64) -> (r: u64)
        ensures
            r == spec_estimate(id_bytes_of(item.id@), item.quantity, event_version),
    {
        let x: i64 = item.quantity.wrapping_add(2);
        proof {
            assert(x == w_add_i64(item.quantity, 2));
        }
        let k: u64 = if x >= 1 {
            let xk = log_floor_exec(x as u64);
            proof {
                lemma_log_floor_bound(x as int, 0);
            }
            xk
        } else {
            0
        };
        let len: u64 = item.id.as_str().len() as u64;
        proof {
            assert(len == id_bytes_of(item.id@));
        }
        let a: u64 = len.wrapping_mul(60);
        proof {
            assert(a == w_mul(len, 60));
        }
        let base: u64 = a.wrapping_add((event_version % 10) * 60);
        proof {
            assert(base == w_add(a, ((event_version % 10) * 60) as u64));
        }
        let r = base.wrapping_mul(k);
        proof {
            assert(r == w_mul(base, k));
        }
        r
    }
}

} // verus!
