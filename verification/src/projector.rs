//! The projector: replays the ordered, versioned event stream into live
//! table state.
//!
//! `current_version` starts at 0 ("no events applied"); each applied event
//! advances it by exactly one, and an event whose version is not the next
//! expected one is an unrecoverable consistency fault.  Replay is a pure
//! function of the initial state and the event list, so a projector rebuilt
//! from version 1 always reaches the same state.

use crate::event::{Event, EventV, EventVersion, Payload};
use crate::restaurant::{
    id_bytes_of, spec_estimate, w_add_i64, w_sub_i64, CookingTimeEstimator, Item, ItemV, Table,
};
use crate::toro::Command;
use vstd::prelude::*;

verus! {

/// The contents of one table, keyed by menu name.
pub type TableM = Map<Seq<char>, ItemV>;

/// A failure of the persistence collaborator, as the store reports it.
#[derive(Debug)]
pub struct StoreError {
    pub message: String,
}

/// Why replay stopped.
#[derive(Debug)]
pub enum ProjectorError {
    /// The event names a table outside the fixed collection.
    TableNotFound { table_id: usize },
    /// A `New` or `Cancel` event arrived without a payload.
    MissingPayload,
    /// The store handed back an event that is not the next version.
    VersionGap { current: u64, got: u64 },
    /// Fetching from the store failed.
    Store { error: StoreError },
}

/// The capability the projector needs from the durable store: all events
/// with version at least `from_version`, in ascending version order.
pub trait EventSource {
    fn fetch(&self, from_version: EventVersion) -> Result<Vec<Event>, StoreError>;
}

// ---------------------------------------------------------------------------
// The apply rules, specified
// ---------------------------------------------------------------------------

/// The item written by a `New` step: quantities merge by wrapping addition
/// with any existing entry, the cooking time is estimated from the new
/// total and the event's version, and the timestamp is the incoming one.
pub open spec fn merged_item(prev: Option<ItemV>, inc: ItemV, version: u64) -> ItemV {
    let q = match prev {
        Some(p) => w_add_i64(p.quantity, inc.quantity),
        None => inc.quantity,
    };
    ItemV {
        id: inc.id,
        quantity: q,
        cooking_time: Some(spec_estimate(id_bytes_of(inc.id), q, version)),
        timestamp: inc.timestamp,
    }
}

/// One `New` payload item applied to a table.
pub open spec fn new_step(m: TableM, inc: ItemV, version: u64) -> TableM {
    let prev = if m.contains_key(inc.id) {
        Some(m[inc.id])
    } else {
        None
    };
    m.insert(inc.id, merged_item(prev, inc, version))
}

/// A whole `New` payload applied to a table, first item first.
pub open spec fn apply_new_items(m: TableM, items: Seq<ItemV>, version: u64) -> TableM
    decreases items.len(),
{
    if items.len() == 0 {
        m
    } else {
        new_step(apply_new_items(m, items.drop_last(), version), items.last(), version)
    }
}

/// One `Cancel` payload item applied to a table: subtract by wrapping
/// subtraction; at zero or below the entry disappears; the cooking time of
/// a surviving entry is untouched; an absent entry is ignored.
pub open spec fn cancel_step(m: TableM, inc: ItemV) -> TableM {
    if m.contains_key(inc.id) {
        let q = w_sub_i64(m[inc.id].quantity, inc.quantity);
        if q <= 0 {
            m.remove(inc.id)
        } else {
            m.insert(
                inc.id,
                ItemV {
                    id: inc.id,
                    quantity: q,
                    cooking_time: m[inc.id].cooking_time,
                    timestamp: m[inc.id].timestamp,
                },
            )
        }
    } else {
        m
    }
}

/// A whole `Cancel` payload applied to a table, first item first.
pub open spec fn apply_cancel_items(m: TableM, items: Seq<ItemV>) -> TableM
    decreases items.len(),
{
    if items.len() == 0 {
        m
    } else {
        cancel_step(apply_cancel_items(m, items.drop_last()), items.last())
    }
}

/// One event applied to the table collection.  `New` and `Cancel` need a
/// payload and an in-range table; `Yeet` empties every table; any other
/// persisted command is ignored.
pub open spec fn apply_event(tables: Seq<TableM>, e: EventV) -> Result<Seq<TableM>, ProjectorError> {
    match e.command {
        Command::New => match e.payload {
            None => Err(ProjectorError::MissingPayload),
            Some(p) => {
                if p.table_id < tables.len() {
                    Ok(
                        tables.update(
                            p.table_id as int,
                            apply_new_items(tables[p.table_id as int], p.items, e.version),
                        ),
                    )
                } else {
                    Err(ProjectorError::TableNotFound { table_id: p.table_id })
                }
            },
        },
        Command::Cancel => match e.payload {
            None => Err(ProjectorError::MissingPayload),
            Some(p) => {
                if p.table_id < tables.len() {
                    Ok(
                        tables.update(
                            p.table_id as int,
                            apply_cancel_items(tables[p.table_id as int], p.items),
                        ),
                    )
                } else {
                    Err(ProjectorError::TableNotFound { table_id: p.table_id })
                }
            },
        },
        Command::Yeet => Ok(Seq::new(tables.len(), |i: int| Map::empty())),
        Command::Check => Ok(tables),
    }
}

/// Replay of `evs` from position `i` on: each event must carry the next
/// version, and each is applied in turn; the state reached and the version
/// and error where replay stopped.
pub open spec fn spec_replay_from(
    tables: Seq<TableM>,
    version: u64,
    evs: Seq<EventV>,
    i: int,
) -> (Seq<TableM>, u64, Option<ProjectorError>)
    decreases evs.len() - i,
{
    if i < 0 || i >= evs.len() {
        (tables, version, None)
    } else {
        let e = evs[i];
        if !(version < u64::MAX && e.version == version + 1) {
            (tables, version, Some(ProjectorError::VersionGap { current: version, got: e.version }))
        } else {
            match apply_event(tables, e) {
                Err(err) => (tables, version, Some(err)),
                Ok(t2) => spec_replay_from(t2, e.version, evs, i + 1),
            }
        }
    }
}

/// Replay of a whole event list.
pub open spec fn spec_replay(tables: Seq<TableM>, version: u64, evs: Seq<EventV>) -> (
    Seq<TableM>,
    u64,
    Option<ProjectorError>,
) {
    spec_replay_from(tables, version, evs, 0)
}

// ---------------------------------------------------------------------------
// The projector, executable
// ---------------------------------------------------------------------------

/// Owns the live state of every table and replays events to advance it.
pub struct RestaurantProjector<T> {
    pub current_version: EventVersion,
    pub tables: Vec<Table>,
    pub source: T,
}

impl<T> RestaurantProjector<T> where T: EventSource {
    /// Every table is well formed and numbered by its position.
    pub open spec fn wf(&self) -> bool {
        forall|i: int|
            0 <= i < self.tables@.len() ==> (#[trigger] self.tables@[i]).wf() && self.tables@[i].id
                == i
    }

    /// The tables' contents, position by position.
    pub open spec fn model(&self) -> Seq<TableM> {
        Seq::new(self.tables@.len(), |i: int| self.tables@[i].map_view())
    }

    /// A fresh projector: `n_table` empty tables numbered from zero, no
    /// events applied.
    pub fn new(n_table: u64, source: T) -> (r: RestaurantProjector<T>)
        ensures
            r.wf(),
            r.current_version == 0,
            r.model() == Seq::new(
                (n_table as usize) as nat,
                |i: int| Map::<Seq<char>, ItemV>::empty(),
            ),
    {
        let n = n_table as usize;
        let mut tables: Vec<Table> = Vec::new();
        let mut i: usize = 0;
        while i < n
            invariant
                i <= n,
                tables@.len() == i,
                forall|j: int|
                    0 <= j < i ==> (#[trigger] tables@[j]).wf() && tables@[j].id == j
                        && tables@[j].map_view() == Map::<Seq<char>, ItemV>::empty(),
            decreases n - i,
        {
            tables.push(Table::new(i));
            i = i + 1;
        }
        let r = RestaurantProjector { current_version: 0, tables, source };
        proof {
            assert(r.model() =~= Seq::new(
                (n_table as usize) as nat,
                |k: int| Map::<Seq<char>, ItemV>::empty(),
            ));
        }
        r
    }

    /// Read-only lookup of a table; absent for out-of-range ids.
    pub fn get_table(&self, id: usize) -> (r: Option<&Table>)
        ensures
            match r {
                Some(t) => id < self.tables@.len() && t == self.tables@[id as int],
                None => id >= self.tables@.len(),
            },
    {
        if id < self.tables.len() {
            Some(&self.tables[id])
        } else {
            None
        }
    }

    /// Applies a `New` payload at the event version `version`: each item
    /// merges into the target table as `apply_new_items` says; fails when
    /// the table is out of range.
    pub fn process_new_cmd(&mut self, payload: Payload, version: u64) -> (r: Result<
        (),
        ProjectorError,
    >)
        requires
            old(self).wf(),
        ensures
            final(self).wf(),
            final(self).current_version == old(self).current_version,
            final(self).tables@.len() == old(self).tables@.len(),
            match r {
                Ok(_) => payload@.table_id < old(self).model().len() && final(self).model() == old(
                    self,
                ).model().update(
                    payload@.table_id as int,
                    apply_new_items(
                        old(self).model()[payload@.table_id as int],
                        payload@.items,
                        version,
                    ),
                ),
                Err(e) => payload@.table_id >= old(self).model().len() && final(self).model()
                    == old(self).model() && (e matches ProjectorError::TableNotFound {
                    table_id,
                } && table_id == payload@.table_id),
            },
    {
        let tid = payload.table_id;
        if tid >= self.tables.len() {
            proof {
                assert(self.model() =~= old(self).model());
            }
            return Err(ProjectorError::TableNotFound { table_id: tid });
        }
        let ghost m0 = self.tables@[tid as int].map_view();
        let ghost items_v = payload.items.deep_view();
        let items = &payload.items;
        let mut i: usize = 0;
        while i < items.len()
            invariant
                old(self).wf(),
                self.wf(),
                tid < self.tables@.len(),
                self.tables@.len() == old(self).tables@.len(),
                self.current_version == old(self).current_version,
                i <= items@.len(),
                items.deep_view() == items_v,
                self.tables@[tid as int].map_view() == apply_new_items(
                    m0,
                    items_v.subrange(0, i as int),
                    version,
                ),
                forall|j: int|
                    0 <= j < self.tables@.len() && j != tid ==> #[trigger] self.tables@[j]
                        == old(self).tables@[j],
                m0 == old(self).tables@[tid as int].map_view(),
            decreases items@.len() - i,
        {
            let ghost pre = self.tables@[tid as int].map_view();
            let item = &items[i];
            proof {
                assert(items_v[i as int] == items@[i as int]@);
            }
            let new_item = match self.tables[tid].get_item(item.id.as_str()) {
                Some(existing) => {
                    let q = existing.quantity.wrapping_add(item.quantity);
                    Item::new(item.id.clone(), q, item.timestamp)
                },
                None => Item::new(item.id.clone(), item.quantity, item.timestamp),
            };
            let ct = CookingTimeEstimator::estimate(&new_item, version);
            let new_item = new_item.with_cooking_time(ct);
            proof {
                let inc = items_v[i as int];
                let prev = if pre.contains_key(inc.id) {
                    Some(pre[inc.id])
                } else {
                    None
                };
                assert(new_item@ == merged_item(prev, inc, version));
            }
            self.tables[tid].upsert_item(new_item);
            proof {
                assert(items_v.subrange(0, i + 1 as int).drop_last() =~= items_v.subrange(
                    0,
                    i as int,
                ));
                assert(self.tables@[tid as int].map_view() == new_step(
                    pre,
                    items_v[i as int],
                    version,
                ));
            }
            i = i + 1;
        }
        proof {
            assert(items_v.subrange(0, items_v.len() as int) =~= items_v);
            assert(self.model() =~= old(self).model().update(
                tid as int,
                apply_new_items(m0, items_v, version),
            ));
        }
        Ok(())
    }

    /// Applies a `Cancel` payload: each item subtracts from the target
    /// table as `apply_cancel_items` says; fails when the table is out of
    /// range.
    pub fn process_cancel(&mut self, payload: Payload) -> (r: Result<(), ProjectorError>)
        requires
            old(self).wf(),
        ensures
            final(self).wf(),
            final(self).current_version == old(self).current_version,
            final(self).tables@.len() == old(self).tables@.len(),
            match r {
                Ok(_) => payload@.table_id < old(self).model().len() && final(self).model() == old(
                    self,
                ).model().update(
                    payload@.table_id as int,
                    apply_cancel_items(old(self).model()[payload@.table_id as int], payload@.items),
                ),
                Err(e) => payload@.table_id >= old(self).model().len() && final(self).model()
                    == old(self).model() && (e matches ProjectorError::TableNotFound {
                    table_id,
                } && table_id == payload@.table_id),
            },
    {
        let tid = payload.table_id;
        if tid >= self.tables.len() {
            proof {
                assert(self.model() =~= old(self).model());
            }
            return Err(ProjectorError::TableNotFound { table_id: tid });
        }
        let ghost m0 = self.tables@[tid as int].map_view();
        let ghost items_v = payload.items.deep_view();
        let items = &payload.items;
        let mut i: usize = 0;
        while i < items.len()
            invariant
                old(self).wf(),
                self.wf(),
                tid < self.tables@.len(),
                self.tables@.len() == old(self).tables@.len(),
                self.current_version == old(self).current_version,
                i <= items@.len(),
                items.deep_view() == items_v,
                self.tables@[tid as int].map_view() == apply_cancel_items(
                    m0,
                    items_v.subrange(0, i as int),
                ),
                forall|j: int|
                    0 <= j < self.tables@.len() && j != tid ==> #[trigger] self.tables@[j]
                        == old(self).tables@[j],
                m0 == old(self).tables@[tid as int].map_view(),
            decreases items@.len() - i,
        {
            let ghost pre = self.tables@[tid as int].map_view();
            let item = &items[i];
            proof {
                assert(items_v[i as int] == items@[i as int]@);
            }
            let found = match self.tables[tid].get_item(item.id.as_str()) {
                Some(target) => Some(target.quantity),
                None => None,
            };
            match found {
                Some(stored_q) => {
                    let q = stored_q.wrapping_sub(item.quantity);
                    if q <= 0 {
                        self.tables[tid].remove_item(item.id.as_str());
                    } else {
                        let stored = self.tables[tid].get_item(item.id.as_str());
                        let (sct, sts) = match stored {
                            Some(it) => (it.cooking_time, it.timestamp),
                            None => (None, 0),  // unreachable: just found
                        };
                        let updated = Item {
                            id: item.id.clone(),
                            quantity: q,
                            cooking_time: sct,
                            timestamp: sts,
                        };
                        self.tables[tid].upsert_item(updated);
                    }
                },
                None => {},
            }
            proof {
                assert(items_v.subrange(0, i + 1 as int).drop_last() =~= items_v.subrange(
                    0,
                    i as int,
                ));
                let inc = items_v[i as int];
                if pre.contains_key(inc.id) {
                    let q = w_sub_i64(pre[inc.id].quantity, inc.quantity);
                    if q <= 0 {
                        assert(self.tables@[tid as int].map_view() == pre.remove(inc.id));
                    } else {
                        assert(self.tables@[tid as int].map_view() == pre.insert(
                            inc.id,
                            ItemV {
                                id: inc.id,
                                quantity: q,
                                cooking_time: pre[inc.id].cooking_time,
                                timestamp: pre[inc.id].timestamp,
                            },
                        ));
                    }
                } else {
                    assert(self.tables@[tid as int].map_view() == pre);
                }
                assert(self.tables@[tid as int].map_view() == cancel_step(pre, items_v[i as int]));
            }
            i = i + 1;
        }
        proof {
            assert(items_v.subrange(0, items_v.len() as int) =~= items_v);
            assert(self.model() =~= old(self).model().update(
                tid as int,
                apply_cancel_items(m0, items_v),
            ));
        }
        Ok(())
    }

    /// Empties every table, unconditionally.
    pub fn process_yeet(&mut self) -> (r: Result<(), ProjectorError>)
        requires
            old(self).wf(),
        ensures
            final(self).wf(),
            final(self).current_version == old(self).current_version,
            final(self).tables@.len() == old(self).tables@.len(),
            r is Ok,
            final(self).model() == Seq::new(
                old(self).model().len(),
                |i: int| Map::<Seq<char>, ItemV>::empty(),
            ),
    {
        let n = self.tables.len();
        let mut i: usize = 0;
        while i < n
            invariant
                old(self).wf(),
                self.wf(),
                n == self.tables@.len(),
                self.tables@.len() == old(self).tables@.len(),
                self.current_version == old(self).current_version,
                i <= n,
                forall|j: int|
                    0 <= j < i ==> (#[trigger] self.tables@[j]).map_view() == Map::<
                        Seq<char>,
                        ItemV,
                    >::empty(),
                forall|j: int|
                    i <= j < n ==> #[trigger] self.tables@[j] == old(self).tables@[j],
            decreases n - i,
        {
            self.tables[i].reset();
            i = i + 1;
        }
        proof {
            assert(self.model() =~= Seq::new(
                old(self).model().len(),
                |k: int| Map::<Seq<char>, ItemV>::empty(),
            ));
        }
        Ok(())
    }

    /// Applies one event, exactly as `apply_event` says; the version field
    /// is the caller's to check.
    pub fn project(&mut self, event: Event) -> (r: Result<(), ProjectorError>)
        requires
            old(self).wf(),
        ensures
            final(self).wf(),
            final(self).current_version == old(self).current_version,
            final(self).tables@.len() == old(self).tables@.len(),
            match r {
                Ok(_) => apply_event(old(self).model(), event@) == Ok::<Seq<TableM>, ProjectorError>(
                    final(self).model(),
                ),
                Err(e) => apply_event(old(self).model(), event@) matches Err(e2) && err_alike(
                    e,
                    e2,
                ) && final(self).model() == old(self).model(),
            },
    {
        match event.command {
            Command::New => match event.payload {
                Some(payload) => {
                    let version = event.version;
                    match self.process_new_cmd(payload, version) {
                        Ok(_) => Ok(()),
                        Err(e) => Err(e),
                    }
                },
                None => {
                    proof {
                        assert(self.model() =~= old(self).model());
                    }
                    Err(ProjectorError::MissingPayload)
                },
            },
            Command::Cancel => match event.payload {
                Some(payload) => match self.process_cancel(payload) {
                    Ok(_) => Ok(()),
                    Err(e) => Err(e),
                },
                None => {
                    proof {
                        assert(self.model() =~= old(self).model());
                    }
                    Err(ProjectorError::MissingPayload)
                },
            },
            Command::Yeet => {
                let r = self.process_yeet();
                proof {
                    assert(apply_event(old(self).model(), event@) == Ok::<
                        Seq<TableM>,
                        ProjectorError,
                    >(self.model()));
                }
                Ok(())
            },
            Command::Check => {
                proof {
                    assert(self.model() =~= old(self).model());
                }
                Ok(())
            },
        }
    }

    /// Applies a fetched batch in order, advancing `current_version` by one
    /// per applied event, exactly as `spec_replay` says; replay stops at
    /// the first gap or failing event, leaving the prefix applied.
    #[verifier::loop_isolation(false)]
    pub fn apply_events(&mut self, events: Vec<Event>) -> (r: Result<(), ProjectorError>)
        requires
            old(self).wf(),
        ensures
            final(self).wf(),
            final(self).tables@.len() == old(self).tables@.len(),
            ({
                let (tm, v, err) = spec_replay(
                    old(self).model(),
                    old(self).current_version,
                    events.deep_view(),
                );
                final(self).model() == tm && final(self).current_version == v && (match r {
                    Ok(_) => err is None,
                    Err(e) => err matches Some(e2) && err_alike(e, e2),
                })
            }),
    {
        let ghost evs = events.deep_view();
        let n = events.len();
        let mut i: usize = 0;
        let mut events = events;
        while i < n
            invariant
                old(self).wf(),
                self.wf(),
                n == evs.len(),
                i <= n,
                events@.len() == n - i,
                events.deep_view() =~= evs.subrange(i as int, n as int),
                self.tables@.len() == old(self).tables@.len(),
                spec_replay(old(self).model(), old(self).current_version, evs)
                    == spec_replay_from(self.model(), self.current_version, evs, i as int),
            decreases n - i,
        {
            let ghost pre_model = self.model();
            let ghost pre_version = self.current_version;
            let ghost pre_events = events.deep_view();
            let ghost pre_seq = events@;
            let event = events.remove(0);
            proof {
                assert(pre_events[0] == pre_seq[0].deep_view());
                assert(event.deep_view() == evs[i as int]);
                assert forall|j: int| 0 <= j < events@.len() implies #[trigger] events.deep_view()[j]
                    == evs.subrange(i + 1 as int, n as int)[j] by {
                    assert(events@[j] == pre_seq[j + 1]);
                    assert(events.deep_view()[j] == pre_events[j + 1]);
                }
                assert(events.deep_view() =~= evs.subrange(i + 1 as int, n as int));
            }
            let got = event.version;
            if !(self.current_version < u64::MAX && got == self.current_version + 1) {
                proof {
                    assert(evs[i as int].version == got);
                    assert(spec_replay_from(pre_model, pre_version, evs, i as int) == (
                        pre_model,
                        pre_version,
                        Some(ProjectorError::VersionGap { current: pre_version, got }),
                    ));
                }
                return Err(ProjectorError::VersionGap { current: self.current_version, got });
            }
            match self.project(event) {
                Ok(_) => {
                    self.current_version = self.current_version + 1;
                },
                Err(e) => {
                    return Err(e);
                },
            }
            i = i + 1;
        }
        Ok(())
    }

    /// Catches up with the store: fetches everything from the next version
    /// on and applies it in order.  Safe to call repeatedly; on failure the
    /// state keeps the successfully applied prefix and the call may be
    /// retried.
    pub fn update(&mut self) -> (r: Result<(), ProjectorError>)
        requires
            old(self).wf(),
        ensures
            final(self).wf(),
            final(self).tables@.len() == old(self).tables@.len(),
            match r {
                Ok(_) => exists|evs: Seq<EventV>|
                    {
                        let (tm, v, err) = #[trigger] spec_replay(
                            old(self).model(),
                            old(self).current_version,
                            evs,
                        );
                        final(self).model() == tm && final(self).current_version == v && err
                            is None
                    },
                Err(e) => (e matches ProjectorError::Store { .. } && final(self).model() == old(
                    self,
                ).model() && final(self).current_version == old(self).current_version) || exists|
                    evs: Seq<EventV>,
                |
                    {
                        let (tm, v, err) = #[trigger] spec_replay(
                            old(self).model(),
                            old(self).current_version,
                            evs,
                        );
                        final(self).model() == tm && final(self).current_version == v && (
                        err matches Some(e2) && err_alike(e, e2))
                    },
            },
    {
        let from = if self.current_version < u64::MAX {
            self.current_version + 1
        } else {
            u64::MAX
        };
        match self.source.fetch(from) {
            Err(error) => {
                proof {
                    assert(self.model() =~= old(self).model());
                }
                Err(ProjectorError::Store { error })
            },
            Ok(events) => {
                let ghost evs = events.deep_view();
                let r = self.apply_events(events);
                proof {
                    let (tm, v, err) = spec_replay(
                        old(self).model(),
                        old(self).current_version,
                        evs,
                    );
                    assert(self.model() == tm && self.current_version == v);
                }
                r
            },
        }
    }
}


// ---------------------------------------------------------------------------
// Laws of replay
// ---------------------------------------------------------------------------

/// Idempotent catch-up: replaying no events leaves the tables and the
/// current version unchanged, so a second `update` that fetches nothing new
/// changes nothing.
pub proof fn lemma_replay_empty(tables: Seq<TableM>, version: u64)
    ensures
        spec_replay(tables, version, Seq::empty()) == (tables, version, None::<ProjectorError>),
{
}

/// Replay determinism: replay is a pure function, so two projectors built
/// over the same initial tables and fed the same ordered event list reach
/// identical states.
pub proof fn lemma_replay_deterministic(
    t1: Seq<TableM>,
    v1: u64,
    t2: Seq<TableM>,
    v2: u64,
    evs: Seq<EventV>,
)
    requires
        t1 == t2,
        v1 == v2,
    ensures
        spec_replay(t1, v1, evs) == spec_replay(t2, v2, evs),
{
}

/// A wrapped sum differs from the exact sum by a multiple of `2^64`.
proof fn lemma_w_add_cong(x: i64, y: i64)
    ensures
        w_add_i64(x, y) == x + y || w_add_i64(x, y) == x + y - 0x1_0000_0000_0000_0000
            || w_add_i64(x, y) == x + y + 0x1_0000_0000_0000_0000,
        i64::MIN <= w_add_i64(x, y) <= i64::MAX,
{
}

/// Wrapping 64-bit addition is associative.
proof fn lemma_w_add_assoc(x: i64, y: i64, z: i64)
    ensures
        w_add_i64(w_add_i64(x, y), z) == w_add_i64(x, w_add_i64(y, z)),
{
    lemma_w_add_cong(x, y);
    lemma_w_add_cong(w_add_i64(x, y), z);
    lemma_w_add_cong(y, z);
    lemma_w_add_cong(x, w_add_i64(y, z));
}

/// Quantity merge law: ordering an item twice at one table ends with the
/// same entry as ordering the summed quantity once, provided the later
/// version and timestamp agree; the cooking time reflects the final total
/// and version in both cases.
pub proof fn lemma_quantity_merge(m: TableM, a: ItemV, b: ItemV, c: ItemV, v1: u64, v2: u64)
    requires
        a.id == b.id,
        c.id == b.id,
        c.quantity == w_add_i64(a.quantity, b.quantity),
        c.timestamp == b.timestamp,
    ensures
        apply_new_items(apply_new_items(m, seq![a], v1), seq![b], v2) == apply_new_items(
            m,
            seq![c],
            v2,
        ),
{
    assert(seq![a].drop_last() =~= Seq::<ItemV>::empty());
    assert(seq![b].drop_last() =~= Seq::<ItemV>::empty());
    assert(seq![c].drop_last() =~= Seq::<ItemV>::empty());
    assert(apply_new_items(m, Seq::<ItemV>::empty(), v1) == m);
    assert(apply_new_items(m, Seq::<ItemV>::empty(), v2) == m);
    let m1 = new_step(m, a, v1);
    assert(seq![a].last() == a);
    assert(apply_new_items(m, seq![a], v1) == m1);
    let two = new_step(m1, b, v2);
    let one = new_step(m, c, v2);
    assert(apply_new_items(m1, Seq::<ItemV>::empty(), v2) == m1);
    assert(apply_new_items(m1, seq![b], v2) == two);
    assert(apply_new_items(m, seq![c], v2) == one);
    assert(m1.contains_key(b.id));
    assert(m1[b.id] == merged_item(
        if m.contains_key(a.id) {
            Some(m[a.id])
        } else {
            None
        },
        a,
        v1,
    ));
    if m.contains_key(a.id) {
        lemma_w_add_assoc(m[a.id].quantity, a.quantity, b.quantity);
    }
    assert(two =~= one);
}

/// Cancel floor law: after a `Cancel` payload is applied, every menu name
/// it cancels is either gone from the table or left with a quantity of at
/// least one; no cancellation leaves a zero or negative entry behind.
pub proof fn lemma_cancel_floor(m: TableM, items: Seq<ItemV>, x: Seq<char>)
    requires
        exists|i: int| 0 <= i < items.len() && items[i].id == x,
    ensures
        ({
            let r = apply_cancel_items(m, items);
            !r.contains_key(x) || r[x].quantity >= 1
        }),
    decreases items.len(),
{
    let r = apply_cancel_items(m, items);
    let prev = apply_cancel_items(m, items.drop_last());
    if items.last().id == x {
    } else {
        let i = choose|i: int| 0 <= i < items.len() && items[i].id == x;
        assert(items.drop_last()[i] == items[i]);
        lemma_cancel_floor(m, items.drop_last(), x);
    }
}

/// Yeet totality: applying a `Yeet` event always succeeds and leaves every
/// table in the collection empty, whatever was there before.
pub proof fn lemma_yeet_total(tables: Seq<TableM>, e: EventV)
    requires
        e.command == Command::Yeet,
    ensures
        ({
            let r = apply_event(tables, e);
            r is Ok && r->Ok_0.len() == tables.len() && forall|i: int|
                0 <= i < tables.len() ==> r->Ok_0[i] == Map::<Seq<char>, ItemV>::empty()
        }),
{
}

/// Equality of projector errors up to the store error's message.
pub open spec fn err_alike(a: ProjectorError, b: ProjectorError) -> bool {
    match (a, b) {
        (
            ProjectorError::TableNotFound { table_id: x },
            ProjectorError::TableNotFound { table_id: y },
        ) => x == y,
        (ProjectorError::MissingPayload, ProjectorError::MissingPayload) => true,
        (
            ProjectorError::VersionGap { current: c1, got: g1 },
            ProjectorError::VersionGap { current: c2, got: g2 },
        ) => c1 == c2 && g1 == g2,
        (ProjectorError::Store { .. }, ProjectorError::Store { .. }) => true,
        _ => false,
    }
}

} // verus!
