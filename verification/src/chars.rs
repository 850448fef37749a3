//! Character-sequence utilities shared by the command grammar: conversion
//! between `&str` and `Vec<char>`, whitespace trimming, substring search,
//! splitting, joining, and decimal number parsing and printing.

use vstd::prelude::*;

verus! {

// ---------------------------------------------------------------------------
// Whitespace
// ---------------------------------------------------------------------------

/// The Unicode `White_Space` characters, the set that `str::trim` removes.
pub open spec fn is_space(c: char) -> bool {
    let u = c as u32;
    (9 <= u && u <= 13) || u == 32 || u == 0x85 || u == 0xA0 || u == 0x1680 || (0x2000 <= u
        && u <= 0x200A) || u == 0x2028 || u == 0x2029 || u == 0x202F || u == 0x205F || u == 0x3000
}

/// Executable test for `is_space`.
pub fn space_char(c: char) -> (r: bool)
    ensures
        r == is_space(c),
{
    let u = c as u32;
    (9 <= u && u <= 13) || u == 32 || u == 0x85 || u == 0xA0 || u == 0x1680 || (0x2000 <= u
        && u <= 0x200A) || u == 0x2028 || u == 0x2029 || u == 0x202F || u == 0x205F || u == 0x3000
}

/// What remains of `s` after removing its leading whitespace.
pub open spec fn trim_front(s: Seq<char>) -> Seq<char>
    decreases s.len(),
{
    if s.len() > 0 && is_space(s.first()) {
        trim_front(s.drop_first())
    } else {
        s
    }
}

/// What remains of `s` after removing its trailing whitespace.
pub open spec fn trim_back(s: Seq<char>) -> Seq<char>
    decreases s.len(),
{
    if s.len() > 0 && is_space(s.last()) {
        trim_back(s.drop_last())
    } else {
        s
    }
}

/// What remains of `s` after removing leading and trailing whitespace,
/// as `str::trim` does.
pub open spec fn trim(s: Seq<char>) -> Seq<char> {
    trim_back(trim_front(s))
}

proof fn lemma_trim_front_skip(s: Seq<char>, i: int)
    requires
        0 <= i <= s.len(),
        forall|j: int| 0 <= j < i ==> is_space(s[j]),
    ensures
        trim_front(s) == trim_front(s.subrange(i, s.len() as int)),
    decreases i,
{
    if i == 0 {
        assert(s.subrange(0, s.len() as int) =~= s);
    } else {
        assert(is_space(s.first()));
        assert(s.drop_first() =~= s.subrange(1, s.len() as int));
        lemma_trim_front_skip(s.subrange(1, s.len() as int), i - 1);
        assert(s.subrange(1, s.len() as int).subrange(i - 1, s.len() - 1) =~= s.subrange(
            i,
            s.len() as int,
        ));
    }
}

proof fn lemma_trim_back_skip(s: Seq<char>, i: int)
    requires
        0 <= i <= s.len(),
        forall|j: int| i <= j < s.len() ==> is_space(s[j]),
    ensures
        trim_back(s) == trim_back(s.subrange(0, i)),
    decreases s.len() - i,
{
    if i == s.len() {
        assert(s.subrange(0, s.len() as int) =~= s);
    } else {
        assert(is_space(s.last()));
        assert(s.drop_last() =~= s.subrange(0, s.len() - 1));
        lemma_trim_back_skip(s.subrange(0, s.len() - 1), i);
        assert(s.subrange(0, s.len() - 1).subrange(0, i) =~= s.subrange(0, i));
    }
}

/// Trimming a sequence whose ends hold no whitespace changes nothing.
pub proof fn lemma_trim_noop(s: Seq<char>)
    requires
        s.len() > 0 ==> !is_space(s.first()) && !is_space(s.last()),
    ensures
        trim(s) == s,
{
    assert(trim_front(s) == s);
    assert(trim_back(s) == s);
}

/// Leading whitespace before `s` does not change the trimmed result.
pub proof fn lemma_trim_front_of_concat(sp: Seq<char>, s: Seq<char>)
    requires
        forall|j: int| 0 <= j < sp.len() ==> is_space(sp[j]),
    ensures
        trim_front(sp + s) == trim_front(s),
    decreases sp.len(),
{
    let t = sp + s;
    lemma_trim_front_skip(t, sp.len() as int);
    assert(t.subrange(sp.len() as int, t.len() as int) =~= s);
}

/// Trailing whitespace after `s` does not change the trimmed result.
pub proof fn lemma_trim_back_of_concat(s: Seq<char>, sp: Seq<char>)
    requires
        forall|j: int| 0 <= j < sp.len() ==> is_space(sp[j]),
    ensures
        trim_back(s + sp) == trim_back(s),
{
    let t = s + sp;
    lemma_trim_back_skip(t, s.len() as int);
    assert(t.subrange(0, s.len() as int) =~= s);
}

// ---------------------------------------------------------------------------
// Conversion between strings and character vectors
// ---------------------------------------------------------------------------

/// Materializes the characters of a string slice as a vector.
pub fn to_chars(s: &str) -> (r: Vec<char>)
    ensures
        r@ == s@,
{
    let n = s.unicode_len();
    let mut r: Vec<char> = Vec::new();
    let mut i: usize = 0;
    while i < n
        invariant
            i <= n,
            n == s@.len(),
            r@ == s@.subrange(0, i as int),
        decreases n - i,
    {
        r.push(s.get_char(i));
        proof {
            assert(r@ =~= s@.subrange(0, i + 1 as int));
        }
        i = i + 1;
    }
    proof {
        assert(r@ =~= s@);
    }
    r
}

/// Collects a character vector into an owned string.
///
/// Relies on `String::push`: appends one character to the end of the string.
#[verifier::external_body]
fn push_char(s: &mut String, c: char)
    ensures
        final(s)@ == old(s)@.push(c),
{
    s.push(c);
}

/// Builds an owned string from a vector of characters.
pub fn chars_to_string(v: &Vec<char>) -> (r: String)
    ensures
        r@ == v@,
{
    let mut r = String::new();
    let mut i: usize = 0;
    while i < v.len()
        invariant
            i <= v.len(),
            r@ == v@.subrange(0, i as int),
        decreases v.len() - i,
    {
        push_char(&mut r, v[i]);
        proof {
            assert(r@ =~= v@.subrange(0, i + 1 as int));
        }
        i = i + 1;
    }
    proof {
        assert(r@ =~= v@);
    }
    r
}

/// Compares two character slices.
pub fn eq_chars(a: &[char], b: &[char]) -> (r: bool)
    ensures
        r == (a@ == b@),
{
    if a.len() != b.len() {
        return false;
    }
    let mut i: usize = 0;
    while i < a.len()
        invariant
            i <= a@.len(),
            a@.len() == b@.len(),
            forall|j: int| 0 <= j < i ==> a@[j] == b@[j],
        decreases a@.len() - i,
    {
        if a[i] != b[i] {
            return false;
        }
        i = i + 1;
    }
    proof {
        assert(a@ =~= b@);
    }
    true
}

/// Compares two string slices by their characters.
pub fn str_eq(a: &str, b: &str) -> (r: bool)
    ensures
        r == (a@ == b@),
{
    let av = to_chars(a);
    let bv = to_chars(b);
    eq_chars(av.as_slice(), bv.as_slice())
}

/// Copies the range `[lo, hi)` of a character slice.
pub fn subrange_vec(v: &[char], lo: usize, hi: usize) -> (r: Vec<char>)
    requires
        lo <= hi <= v@.len(),
    ensures
        r@ == v@.subrange(lo as int, hi as int),
{
    let mut r: Vec<char> = Vec::new();
    let mut i: usize = lo;
    while i < hi
        invariant
            lo <= i <= hi <= v@.len(),
            r@ == v@.subrange(lo as int, i as int),
        decreases hi - i,
    {
        r.push(v[i]);
        proof {
            assert(r@ =~= v@.subrange(lo as int, i + 1 as int));
        }
        i = i + 1;
    }
    r
}

/// Removes leading and trailing whitespace from a character slice.
pub fn trim_slice(v: &[char]) -> (r: Vec<char>)
    ensures
        r@ == trim(v@),
{
    let n = v.len();
    let mut lo: usize = 0;
    while lo < n && space_char(v[lo])
        invariant
            lo <= n,
            n == v@.len(),
            forall|j: int| 0 <= j < lo ==> is_space(v@[j]),
        decreases n - lo,
    {
        lo = lo + 1;
    }
    proof {
        lemma_trim_front_skip(v@, lo as int);
    }
    if lo == n {
        // all whitespace
        proof {
            assert(v@.subrange(lo as int, n as int) =~= Seq::<char>::empty());
            assert(trim_front(v@).len() == 0);
            assert(trim(v@) =~= Seq::<char>::empty());
        }
        let r: Vec<char> = Vec::new();
        proof {
            assert(r@ =~= trim(v@));
        }
        return r;
    }
    let mut hi: usize = n;
    while hi > lo && space_char(v[hi - 1])
        invariant
            lo <= hi <= n,
            n == v@.len(),
            forall|j: int| hi <= j < n ==> is_space(v@[j]),
        decreases hi,
    {
        hi = hi - 1;
    }
    proof {
        let f = v@.subrange(lo as int, n as int);
        // trim_front(v@) == f, and f[j] for j in [hi-lo, n-lo) are spaces
        assert(forall|j: int| hi - lo <= j < f.len() ==> is_space(#[trigger] f[j]));
        lemma_trim_back_skip(f, hi - lo);
        assert(f.subrange(0, hi - lo) =~= v@.subrange(lo as int, hi as int));
    }
    subrange_vec(v, lo, hi)
}

// ---------------------------------------------------------------------------
// Search and splitting
// ---------------------------------------------------------------------------

/// Index of the first occurrence of the character `c` in `s`.
pub open spec fn find_char(s: Seq<char>, c: char) -> Option<int>
    decreases s.len(),
{
    if s.len() == 0 {
        None
    } else if s.first() == c {
        Some(0)
    } else {
        match find_char(s.drop_first(), c) {
            Some(i) => Some(i + 1),
            None => None,
        }
    }
}

/// `find_char` finds exactly the first position holding `c`.
pub proof fn lemma_find_char_some(s: Seq<char>, c: char, i: int)
    requires
        0 <= i < s.len(),
        s[i] == c,
        forall|j: int| 0 <= j < i ==> s[j] != c,
    ensures
        find_char(s, c) == Some(i),
    decreases i,
{
    if i == 0 {
    } else {
        lemma_find_char_some(s.drop_first(), c, i - 1);
    }
}

/// `find_char` reports nothing when `c` occurs nowhere in `s`.
pub proof fn lemma_find_char_none(s: Seq<char>, c: char)
    requires
        forall|j: int| 0 <= j < s.len() ==> s[j] != c,
    ensures
        find_char(s, c) == None::<int>,
    decreases s.len(),
{
    if s.len() > 0 {
        lemma_find_char_none(s.drop_first(), c);
    }
}

/// A found position is in range and the first one.
pub proof fn lemma_find_char_props(s: Seq<char>, c: char)
    ensures
        match find_char(s, c) {
            Some(i) => 0 <= i < s.len() && s[i] == c && forall|j: int| 0 <= j < i ==> s[j] != c,
            None => forall|j: int| 0 <= j < s.len() ==> s[j] != c,
        },
    decreases s.len(),
{
    if s.len() > 0 && s.first() != c {
        let t = s.drop_first();
        lemma_find_char_props(t, c);
        match find_char(t, c) {
            Some(i) => {
                assert(s[i + 1] == t[i]);
                assert forall|j: int| 0 <= j < i + 1 implies s[j] != c by {
                    if j > 0 {
                        assert(t[j - 1] == s[j]);
                        assert(t[j - 1] != c);
                    }
                }
            },
            None => {
                assert forall|j: int| 0 <= j < s.len() implies s[j] != c by {
                    if j > 0 {
                        assert(t[j - 1] == s[j]);
                        assert(t[j - 1] != c);
                    }
                }
            },
        }
    }
}

/// Executable first-occurrence search for a single character.
pub fn find_char_at(v: &[char], c: char) -> (r: Option<usize>)
    ensures
        match r {
            Some(i) => find_char(v@, c) == Some(i as int),
            None => find_char(v@, c) == None::<int>,
        },
{
    let n = v.len();
    let mut i: usize = 0;
    while i < n
        invariant
            i <= n,
            n == v@.len(),
            forall|j: int| 0 <= j < i ==> v@[j] != c,
        decreases n - i,
    {
        if v[i] == c {
            proof {
                lemma_find_char_some(v@, c, i as int);
            }
            return Some(i);
        }
        i = i + 1;
    }
    proof {
        lemma_find_char_none(v@, c);
    }
    None
}

/// Whether `c` occurs in `s`; mirrors `str::contains` for a single character.
pub open spec fn has_char(s: Seq<char>, c: char) -> bool {
    exists|j: int| 0 <= j < s.len() && s[j] == c
}

/// Executable containment test for a single character.
pub fn contains_char(v: &[char], c: char) -> (r: bool)
    ensures
        r == has_char(v@, c),
{
    proof {
        lemma_find_char_props(v@, c);
    }
    match find_char_at(v, c) {
        Some(_) => true,
        None => false,
    }
}

/// Index of the first occurrence of `p` as a contiguous subsequence of `s`.
pub open spec fn find_sub(s: Seq<char>, p: Seq<char>) -> Option<int>
    decreases s.len(),
{
    if p.len() > s.len() {
        None
    } else if p.len() == 0 {
        Some(0)
    } else if s.subrange(0, p.len() as int) == p {
        Some(0)
    } else {
        match find_sub(s.drop_first(), p) {
            Some(i) => Some(i + 1),
            None => None,
        }
    }
}

/// A found position is in range, matches, and is the first such; absence
/// means no window matches.
pub proof fn lemma_find_sub_props(s: Seq<char>, p: Seq<char>)
    ensures
        match find_sub(s, p) {
            Some(i) => 0 <= i && i + p.len() <= s.len() && s.subrange(i, i + p.len()) == p
                && forall|j: int| 0 <= j < i ==> p != #[trigger] s.subrange(j, j + p.len()),
            None => forall|j: int|
                0 <= j && j + p.len() <= s.len() ==> p != #[trigger] s.subrange(j, j + p.len()),
        },
    decreases s.len(),
{
    if p.len() > s.len() {
    } else if p.len() == 0 {
        assert(s.subrange(0, 0) =~= p);
    } else if s.subrange(0, p.len() as int) == p {
    } else {
        let t = s.drop_first();
        lemma_find_sub_props(t, p);
        match find_sub(t, p) {
            Some(i) => {
                assert(s.subrange(i + 1, i + 1 + p.len()) =~= t.subrange(i, i + p.len()));
                assert forall|j: int| 0 <= j < i + 1 implies p != #[trigger] s.subrange(
                    j,
                    j + p.len(),
                ) by {
                    if j == 0 {
                        assert(s.subrange(0, 0 + p.len() as int) =~= s.subrange(0, p.len() as int));
                    } else {
                        assert(s.subrange(j, j + p.len()) =~= t.subrange(j - 1, j - 1 + p.len()));
                        assert(p != t.subrange(j - 1, j - 1 + p.len()));
                    }
                }
            },
            None => {
                assert forall|j: int| 0 <= j && j + p.len() <= s.len() implies p
                    != #[trigger] s.subrange(j, j + p.len()) by {
                    if j == 0 {
                        assert(s.subrange(0, 0 + p.len() as int) =~= s.subrange(0, p.len() as int));
                    } else {
                        assert(s.subrange(j, j + p.len()) =~= t.subrange(j - 1, j - 1 + p.len()));
                        assert(p != t.subrange(j - 1, j - 1 + p.len()));
                    }
                }
            },
        }
    }
}

/// Compares the window of `v` starting at `i` against `p`.
fn window_eq(v: &[char], i: usize, p: &[char]) -> (r: bool)
    requires
        i + p@.len() <= v@.len(),
    ensures
        r == (p@ == v@.subrange(i as int, i as int + p@.len() as int)),
{
    let m = p.len();
    let nv = v.len();
    let mut k: usize = 0;
    while k < m
        invariant
            k <= m,
            m == p@.len(),
            nv == v@.len(),
            i + m <= nv,
            forall|j: int| 0 <= j < k ==> v@[i + j] == p@[j],
        decreases m - k,
    {
        if v[i + k] != p[k] {
            proof {
                let w = v@.subrange(i as int, i as int + m as int);
                assert(w[k as int] != p@[k as int]);
            }
            return false;
        }
        k = k + 1;
    }
    proof {
        assert(v@.subrange(i as int, i as int + m as int) =~= p@);
    }
    true
}

/// Executable first-occurrence search for a subsequence.
pub fn find_sub_at(v: &[char], p: &[char]) -> (r: Option<usize>)
    requires
        p@.len() >= 1,
    ensures
        match r {
            Some(i) => find_sub(v@, p@) == Some(i as int),
            None => find_sub(v@, p@) == None::<int>,
        },
{
    let n = v.len();
    let m = p.len();
    if m > n {
        proof {
            lemma_find_sub_props(v@, p@);
        }
        return None;
    }
    let mut i: usize = 0;
    while i <= n - m
        invariant
            1 <= m <= n,
            n == v@.len(),
            m == p@.len(),
            i <= n - m + 1,
            forall|j: int| 0 <= j < i ==> p@ != #[trigger] v@.subrange(j, j + p@.len()),
        decreases n - i,
    {
        if window_eq(v, i, p) {
            proof {
                lemma_find_sub_props(v@, p@);
                match find_sub(v@, p@) {
                    Some(k) => {
                        if k < i {
                            assert(p@ != v@.subrange(k, k + p@.len()));
                            assert(false);
                        }
                        if k > i {
                            assert(p@ != v@.subrange(i as int, i as int + p@.len()));
                            assert(false);
                        }
                    },
                    None => {
                        assert(p@ != v@.subrange(i as int, i as int + p@.len()));
                        assert(false);
                    },
                }
            }
            return Some(i);
        }
        proof {
            assert(p@ != v@.subrange(i as int, i as int + p@.len()));
        }
        i = i + 1;
    }
    proof {
        lemma_find_sub_props(v@, p@);
        match find_sub(v@, p@) {
            Some(k) => {
                assert(v@.subrange(k, k + p@.len()) == p@);
                assert(false);
            },
            None => {},
        }
    }
    None
}

/// Splits `s` at the first occurrence of `p`, mirroring `str::splitn(2, p)`:
/// the part before the occurrence, and what follows it, if any.
pub open spec fn split2(s: Seq<char>, p: Seq<char>) -> (Seq<char>, Option<Seq<char>>) {
    match find_sub(s, p) {
        Some(i) => (s.subrange(0, i), Some(s.subrange(i + p.len(), s.len() as int))),
        None => (s, None),
    }
}

/// Executable split at the first occurrence of a pattern.
pub fn split2_at(v: &[char], p: &[char]) -> (r: (Vec<char>, Option<Vec<char>>))
    requires
        p@.len() >= 1,
    ensures
        r.0@ == split2(v@, p@).0,
        match (r.1, split2(v@, p@).1) {
            (Some(a), Some(b)) => a@ == b,
            (None, None) => true,
            _ => false,
        },
{
    let n = v.len();
    proof {
        lemma_find_sub_props(v@, p@);
    }
    match find_sub_at(v, p) {
        Some(i) => {
            let before = subrange_vec(v, 0, i);
            let after = subrange_vec(v, i + p.len(), n);
            (before, Some(after))
        },
        None => {
            let whole = subrange_vec(v, 0, v.len());
            proof {
                assert(v@.subrange(0, v@.len() as int) =~= v@);
            }
            (whole, None)
        },
    }
}

/// Splits `s` on every occurrence of `c`, mirroring `str::split(c)`:
/// the result always holds at least one (possibly empty) segment.
pub open spec fn split_all(s: Seq<char>, c: char) -> Seq<Seq<char>>
    decreases s.len(),
{
    if s.len() == 0 {
        seq![s]
    } else if s.first() == c {
        seq![Seq::<char>::empty()] + split_all(s.drop_first(), c)
    } else {
        let rest = split_all(s.drop_first(), c);
        seq![seq![s.first()] + rest.first()] + rest.drop_first()
    }
}

/// A split result always holds at least one segment.
pub proof fn lemma_split_all_len(s: Seq<char>, c: char)
    ensures
        split_all(s, c).len() >= 1,
    decreases s.len(),
{
    if s.len() > 0 {
        lemma_split_all_len(s.drop_first(), c);
    }
}

/// Splitting a sequence free of the separator gives one segment.
pub proof fn lemma_split_all_no_sep(s: Seq<char>, c: char)
    requires
        forall|j: int| 0 <= j < s.len() ==> s[j] != c,
    ensures
        split_all(s, c) == seq![s],
    decreases s.len(),
{
    if s.len() > 0 {
        lemma_split_all_no_sep(s.drop_first(), c);
        assert(seq![s.first()] + s.drop_first() =~= s);
        assert(split_all(s, c) =~= seq![s]);
    }
}

/// Splitting at the first separator peels off the leading segment.
pub proof fn lemma_split_all_sep(pre: Seq<char>, suf: Seq<char>, c: char)
    requires
        forall|j: int| 0 <= j < pre.len() ==> pre[j] != c,
    ensures
        split_all(pre + seq![c] + suf, c) == seq![pre] + split_all(suf, c),
    decreases pre.len(),
{
    let s = pre + seq![c] + suf;
    if pre.len() == 0 {
        assert(s =~= seq![c] + suf);
        assert(s.first() == c);
        assert(s.drop_first() =~= suf);
        assert(pre =~= Seq::<char>::empty());
        assert(split_all(s, c) =~= seq![pre] + split_all(suf, c));
    } else {
        assert(s.first() == pre.first());
        assert(s.first() != c);
        assert(s.drop_first() =~= pre.drop_first() + seq![c] + suf);
        lemma_split_all_sep(pre.drop_first(), suf, c);
        let rest = split_all(s.drop_first(), c);
        assert(rest == seq![pre.drop_first()] + split_all(suf, c));
        lemma_split_all_len(suf, c);
        assert(rest.first() == pre.drop_first());
        assert(seq![s.first()] + rest.first() =~= pre);
        assert(rest.drop_first() =~= split_all(suf, c));
        assert(split_all(s, c) =~= seq![pre] + split_all(suf, c));
    }
}

/// Executable split on a character.
pub fn split_all_at(v: &[char], c: char) -> (r: Vec<Vec<char>>)
    ensures
        r.deep_view() == split_all(v@, c),
    decreases v@.len(),
{
    let n = v.len();
    proof {
        lemma_find_char_props(v@, c);
    }
    match find_char_at(v, c) {
        None => {
            let whole = subrange_vec(v, 0, n);
            let mut r: Vec<Vec<char>> = Vec::new();
            r.push(whole);
            proof {
                assert(v@.subrange(0, v@.len() as int) =~= v@);
                lemma_split_all_no_sep(v@, c);
                assert(whole.deep_view() =~= whole@);
                assert(r.deep_view() =~= split_all(v@, c));
            }
            r
        },
        Some(i) => {
            let before = subrange_vec(v, 0, i);
            let after = subrange_vec(v, i + 1, n);
            let rest = split_all_at(after.as_slice(), c);
            let ghost rest_seq = rest@;
            let ghost rest_dv = rest.deep_view();
            let mut r = rest;
            r.insert(0, before);
            proof {
                assert(before@ + seq![c] + after@ =~= v@);
                lemma_split_all_sep(before@, after@, c);
                assert(before.deep_view() =~= before@);
                let dv = r.deep_view();
                let goal = seq![before@] + split_all(after@, c);
                assert forall|k: int| 0 <= k < dv.len() implies dv[k] == goal[k] by {
                    if k > 0 {
                        assert(r@[k] == rest_seq[k - 1]);
                        assert(dv[k] == rest_dv[k - 1]);
                    }
                }
                assert(dv =~= goal);
                assert(r.deep_view() =~= split_all(v@, c));
            }
            r
        },
    }
}


/// Joins `parts` with the separator `sep`, mirroring how the printer writes
/// comma-separated lists.
pub open spec fn join_with(parts: Seq<Seq<char>>, sep: Seq<char>) -> Seq<char>
    decreases parts.len(),
{
    if parts.len() == 0 {
        Seq::empty()
    } else if parts.len() == 1 {
        parts[0]
    } else {
        parts[0] + sep + join_with(parts.drop_first(), sep)
    }
}

// ---------------------------------------------------------------------------
// Decimal digits
// ---------------------------------------------------------------------------

/// Whether `c` is an ASCII decimal digit.
pub open spec fn is_digit(c: char) -> bool {
    48 <= (c as u32) && (c as u32) <= 57
}

/// Numeric value of a digit character.
pub open spec fn digit_val(c: char) -> int {
    (c as u32) as int - 48
}

/// Whether every character of `s` is a decimal digit.
pub open spec fn all_digits(s: Seq<char>) -> bool {
    forall|j: int| 0 <= j < s.len() ==> is_digit(#[trigger] s[j])
}

/// Value of a digit sequence read in base ten, most significant first.
pub open spec fn digits_val(s: Seq<char>) -> int
    decreases s.len(),
{
    if s.len() == 0 {
        0
    } else {
        digits_val(s.drop_last()) * 10 + digit_val(s.last())
    }
}

/// A digit sequence has a non-negative value.
pub proof fn lemma_digits_val_nonneg(s: Seq<char>)
    requires
        all_digits(s),
    ensures
        digits_val(s) >= 0,
    decreases s.len(),
{
    if s.len() > 0 {
        lemma_digits_val_nonneg(s.drop_last());
    }
}

/// Extending a digit prefix by one digit multiplies its value by ten.
pub proof fn lemma_digits_val_step(s: Seq<char>, i: int)
    requires
        0 <= i < s.len(),
    ensures
        digits_val(s.subrange(0, i + 1)) == digits_val(s.subrange(0, i)) * 10 + digit_val(s[i]),
{
    let t = s.subrange(0, i + 1);
    assert(t.drop_last() =~= s.subrange(0, i));
    assert(t.last() == s[i]);
}

/// Once a digit prefix exceeds a bound, the whole sequence exceeds it too.
pub proof fn lemma_digits_val_grows(s: Seq<char>, i: int, bound: int)
    requires
        0 <= i <= s.len(),
        all_digits(s),
        bound >= 0,
        digits_val(s.subrange(0, i)) > bound,
    ensures
        digits_val(s) > bound,
    decreases s.len() - i,
{
    if i == s.len() {
        assert(s.subrange(0, s.len() as int) =~= s);
    } else {
        lemma_digits_val_step(s, i);
        let v = digits_val(s.subrange(0, i));
        assert(digits_val(s.subrange(0, i + 1)) == v * 10 + digit_val(s[i]));
        assert(v * 10 >= v) by (nonlinear_arith)
            requires
                v > 0,
        ;
        lemma_digits_val_grows(s, i + 1, bound);
    }
}

/// Executable digit test.
pub fn digit_char(c: char) -> (r: bool)
    ensures
        r == is_digit(c),
{
    let u = c as u32;
    48 <= u && u <= 57
}

/// Parses an unsigned decimal digit run; mirrors the digits part of
/// `u64::from_str`.  `None` when `s` is empty, holds a non-digit, or
/// overflows.
pub open spec fn parse_u64_digits(s: Seq<char>) -> Option<u64> {
    if s.len() > 0 && all_digits(s) && digits_val(s) <= u64::MAX {
        Some(digits_val(s) as u64)
    } else {
        None
    }
}

/// Executable unsigned digit-run parser.
pub fn parse_u64_digits_at(v: &[char]) -> (r: Option<u64>)
    ensures
        match r {
            Some(x) => parse_u64_digits(v@) == Some(x),
            None => parse_u64_digits(v@) == None::<u64>,
        },
{
    let n = v.len();
    if n == 0 {
        return None;
    }
    let mut acc: u64 = 0;
    let mut i: usize = 0;
    while i < n
        invariant
            i <= n,
            n == v@.len(),
            all_digits(v@.subrange(0, i as int)),
            acc == digits_val(v@.subrange(0, i as int)),
        decreases n - i,
    {
        let c = v[i];
        if !digit_char(c) {
            return None;
        }
        let d: u64 = (c as u32 - 48) as u64;
        proof {
            lemma_digits_val_step(v@, i as int);
            assert(all_digits(v@.subrange(0, i + 1 as int)));
        }
        if acc > (u64::MAX - d) / 10 {
            proof {
                if all_digits(v@) {
                    assert(digits_val(v@.subrange(0, i + 1 as int)) > u64::MAX) by (nonlinear_arith)
                        requires
                            digits_val(v@.subrange(0, i + 1 as int)) == acc as int * 10 + d,
                            acc as int > ((u64::MAX - d) as int) / 10,
                            0 <= d <= 9,
                    ;
                    lemma_digits_val_grows(v@, i + 1, u64::MAX as int);
                }
            }
            return None;
        }
        acc = acc * 10 + d;
        i = i + 1;
    }
    proof {
        assert(v@.subrange(0, n as int) =~= v@);
        lemma_digits_val_nonneg(v@);
    }
    Some(acc)
}

/// Parses a `usize` as `usize::from_str` does: an optional leading `+`,
/// then one or more digits, with the value in range.
pub open spec fn parse_usize(s: Seq<char>) -> Option<usize> {
    let body = if s.len() > 0 && s.first() == '+' {
        s.drop_first()
    } else {
        s
    };
    if body.len() > 0 && all_digits(body) && digits_val(body) <= usize::MAX {
        Some(digits_val(body) as usize)
    } else {
        None
    }
}

/// Executable `usize` parser.
pub fn parse_usize_at(v: &[char]) -> (r: Option<usize>)
    ensures
        match r {
            Some(x) => parse_usize(v@) == Some(x),
            None => parse_usize(v@) == None::<usize>,
        },
{
    let body: Vec<char> = if v.len() > 0 && v[0] == '+' {
        subrange_vec(v, 1, v.len())
    } else {
        subrange_vec(v, 0, v.len())
    };
    proof {
        if v@.len() > 0 && v@.first() == '+' {
            assert(body@ =~= v@.drop_first());
        } else {
            assert(body@ =~= v@);
        }
        if body@.len() > 0 && all_digits(body@) {
            lemma_digits_val_nonneg(body@);
        }
    }
    match parse_u64_digits_at(body.as_slice()) {
        Some(x) => {
            if x <= usize::MAX as u64 {
                Some(x as usize)
            } else {
                None
            }
        },
        None => None,
    }
}

/// Parses an `i64` as `i64::from_str` does: an optional leading `+` or `-`,
/// then one or more digits, with the value in range.
pub open spec fn parse_i64(s: Seq<char>) -> Option<i64> {
    let neg = s.len() > 0 && s.first() == '-';
    let body = if s.len() > 0 && (s.first() == '+' || s.first() == '-') {
        s.drop_first()
    } else {
        s
    };
    if body.len() > 0 && all_digits(body) {
        let v = digits_val(body);
        if neg && -v >= i64::MIN {
            Some((-v) as i64)
        } else if !neg && v <= i64::MAX {
            Some(v as i64)
        } else {
            None
        }
    } else {
        None
    }
}

/// Executable `i64` parser.
pub fn parse_i64_at(v: &[char]) -> (r: Option<i64>)
    ensures
        match r {
            Some(x) => parse_i64(v@) == Some(x),
            None => parse_i64(v@) == None::<i64>,
        },
{
    let neg = v.len() > 0 && v[0] == '-';
    let body: Vec<char> = if v.len() > 0 && (v[0] == '+' || v[0] == '-') {
        subrange_vec(v, 1, v.len())
    } else {
        subrange_vec(v, 0, v.len())
    };
    proof {
        if v@.len() > 0 && (v@.first() == '+' || v@.first() == '-') {
            assert(body@ =~= v@.drop_first());
        } else {
            assert(body@ =~= v@);
        }
        if body@.len() > 0 && all_digits(body@) {
            lemma_digits_val_nonneg(body@);
        }
    }
    match parse_u64_digits_at(body.as_slice()) {
        Some(x) => {
            if neg {
                if x <= i64::MAX as u64 {
                    Some(-(x as i64))
                } else if x == i64::MAX as u64 + 1 {
                    Some(i64::MIN)
                } else {
                    None
                }
            } else {
                if x <= i64::MAX as u64 {
                    Some(x as i64)
                } else {
                    None
                }
            }
        },
        None => None,
    }
}

// ---------------------------------------------------------------------------
// Printing numbers
// ---------------------------------------------------------------------------

/// The digit character for a value in `0 ..= 9`.
pub open spec fn char_of_digit(d: int) -> char {
    if d == 0 {
        '0'
    } else if d == 1 {
        '1'
    } else if d == 2 {
        '2'
    } else if d == 3 {
        '3'
    } else if d == 4 {
        '4'
    } else if d == 5 {
        '5'
    } else if d == 6 {
        '6'
    } else if d == 7 {
        '7'
    } else if d == 8 {
        '8'
    } else {
        '9'
    }
}

/// Decimal digit sequence of a non-negative number, as `Display` writes it.
pub open spec fn u64_digits(n: int) -> Seq<char>
    decreases n,
{
    if n < 10 {
        seq![char_of_digit(n)]
    } else {
        u64_digits(n / 10).push(char_of_digit(n % 10))
    }
}

/// Decimal text of a signed number, as `Display` writes it.
pub open spec fn i64_text(v: int) -> Seq<char> {
    if v < 0 {
        seq!['-'] + u64_digits(-v)
    } else {
        u64_digits(v)
    }
}

/// Executable digit character.
fn char_of_digit_at(d: u64) -> (r: char)
    requires
        d <= 9,
    ensures
        r == char_of_digit(d as int),
{
    if d == 0 {
        '0'
    } else if d == 1 {
        '1'
    } else if d == 2 {
        '2'
    } else if d == 3 {
        '3'
    } else if d == 4 {
        '4'
    } else if d == 5 {
        '5'
    } else if d == 6 {
        '6'
    } else if d == 7 {
        '7'
    } else if d == 8 {
        '8'
    } else {
        '9'
    }
}

/// Appends the decimal digits of `n` to `out`.
pub fn push_u64_digits(n: u64, out: &mut Vec<char>)
    ensures
        final(out)@ == old(out)@ + u64_digits(n as int),
    decreases n,
{
    if n < 10 {
        out.push(char_of_digit_at(n));
        proof {
            assert(final(out)@ =~= old(out)@ + u64_digits(n as int));
        }
    } else {
        push_u64_digits(n / 10, out);
        out.push(char_of_digit_at(n % 10));
        proof {
            assert(final(out)@ =~= old(out)@ + u64_digits(n as int));
        }
    }
}

/// Appends the decimal text of `v` to `out`.
pub fn push_i64_text(v: i64, out: &mut Vec<char>)
    ensures
        final(out)@ == old(out)@ + i64_text(v as int),
{
    if v >= 0 {
        push_u64_digits(v as u64, out);
    } else {
        out.push('-');
        let m: u64 = (-(v as i128)) as u64;
        push_u64_digits(m, out);
        proof {
            assert(final(out)@ =~= old(out)@ + i64_text(v as int));
        }
    }
}

/// Every character that `u64_digits` writes is a digit, and the first is not
/// `0` unless the number is zero.
pub proof fn lemma_u64_digits_are_digits(n: int)
    requires
        n >= 0,
    ensures
        all_digits(u64_digits(n)),
        u64_digits(n).len() >= 1,
    decreases n,
{
    if n < 10 {
        assert(is_digit(u64_digits(n)[0]));
    } else {
        lemma_u64_digits_are_digits(n / 10);
        assert(is_digit(char_of_digit(n % 10)));
        assert(forall|j: int|
            0 <= j < u64_digits(n).len() - 1 ==> u64_digits(n)[j] == u64_digits(n / 10)[j]);
    }
}

/// The digit characters carry the values they name.
pub proof fn lemma_char_digit_val(d: int)
    requires
        0 <= d <= 9,
    ensures
        digit_val(char_of_digit(d)) == d,
        is_digit(char_of_digit(d)),
{
}

/// Printing then reading a non-negative number gives the number back.
pub proof fn lemma_digits_roundtrip(n: int)
    requires
        n >= 0,
    ensures
        digits_val(u64_digits(n)) == n,
    decreases n,
{
    if n < 10 {
        lemma_char_digit_val(n);
        assert(u64_digits(n) == seq![char_of_digit(n)]);
        assert(u64_digits(n).drop_last() =~= Seq::<char>::empty());
        assert(u64_digits(n).last() == char_of_digit(n));
        assert(digits_val(Seq::<char>::empty()) == 0);
        assert(digits_val(u64_digits(n)) == 0 * 10 + digit_val(char_of_digit(n)));
        assert(digits_val(u64_digits(n)) == n);
    } else {
        lemma_digits_roundtrip(n / 10);
        lemma_char_digit_val(n % 10);
        assert(u64_digits(n).drop_last() =~= u64_digits(n / 10));
        assert(u64_digits(n).last() == char_of_digit(n % 10));
        assert(digits_val(u64_digits(n)) == n / 10 * 10 + n % 10);
        assert(n / 10 * 10 + n % 10 == n) by (nonlinear_arith);
    }
}


/// The trimmed front starts with a non-space character.
pub proof fn lemma_trim_front_first(s: Seq<char>)
    ensures
        trim_front(s).len() > 0 ==> !is_space(trim_front(s).first()),
        trim_front(s).len() <= s.len(),
    decreases s.len(),
{
    if s.len() > 0 && is_space(s.first()) {
        lemma_trim_front_first(s.drop_first());
    }
}

/// The trimmed back ends with a non-space character, and keeps the first
/// character of what it leaves.
pub proof fn lemma_trim_back_props(s: Seq<char>)
    ensures
        trim_back(s).len() > 0 ==> !is_space(trim_back(s).last()),
        trim_back(s).len() <= s.len(),
        trim_back(s).len() > 0 ==> trim_back(s).first() == s.first() && trim_back(s)[0] == s[0],
    decreases s.len(),
{
    if s.len() > 0 && is_space(s.last()) {
        lemma_trim_back_props(s.drop_last());
    }
}

/// Trimming is idempotent.
pub proof fn lemma_trim_idem(s: Seq<char>)
    ensures
        trim(trim(s)) == trim(s),
{
    let t = trim(s);
    lemma_trim_front_first(s);
    lemma_trim_back_props(trim_front(s));
    if t.len() > 0 {
        lemma_trim_noop(t);
    } else {
        assert(t =~= Seq::<char>::empty());
        lemma_trim_noop(t);
    }
}

/// Trimming the front introduces no character.
pub proof fn lemma_trim_front_chars(s: Seq<char>, c: char)
    requires
        !has_char(s, c),
    ensures
        !has_char(trim_front(s), c),
    decreases s.len(),
{
    if s.len() > 0 && is_space(s.first()) {
        assert forall|j: int| 0 <= j < s.drop_first().len() implies s.drop_first()[j] != c by {
            assert(s.drop_first()[j] == s[j + 1]);
        }
        lemma_trim_front_chars(s.drop_first(), c);
    }
}

/// Trimming the back introduces no character.
pub proof fn lemma_trim_back_chars(s: Seq<char>, c: char)
    requires
        !has_char(s, c),
    ensures
        !has_char(trim_back(s), c),
    decreases s.len(),
{
    if s.len() > 0 && is_space(s.last()) {
        assert forall|j: int| 0 <= j < s.drop_last().len() implies s.drop_last()[j] != c by {
            assert(s.drop_last()[j] == s[j]);
        }
        lemma_trim_back_chars(s.drop_last(), c);
    }
}

/// Trimming introduces no character.
pub proof fn lemma_trim_chars(s: Seq<char>, c: char)
    requires
        !has_char(s, c),
    ensures
        !has_char(trim(s), c),
{
    lemma_trim_front_chars(s, c);
    lemma_trim_back_chars(trim_front(s), c);
}

/// Reading a printed unsigned number gives the number back, through
/// `parse_usize`.
pub proof fn lemma_parse_usize_of_digits(n: usize)
    ensures
        parse_usize(u64_digits(n as int)) == Some(n),
{
    let d = u64_digits(n as int);
    lemma_u64_digits_are_digits(n as int);
    lemma_digits_roundtrip(n as int);
    assert(is_digit(d.first()));
    assert(d.first() != '+');
}

/// Reading a printed signed number gives the number back, through
/// `parse_i64`.
pub proof fn lemma_parse_i64_of_text(q: i64)
    ensures
        parse_i64(i64_text(q as int)) == Some(q),
{
    let s = i64_text(q as int);
    if q >= 0 {
        lemma_u64_digits_are_digits(q as int);
        lemma_digits_roundtrip(q as int);
        assert(is_digit(s.first()));
        assert(s.first() != '+' && s.first() != '-');
    } else {
        let d = u64_digits(-(q as int));
        lemma_u64_digits_are_digits(-(q as int));
        lemma_digits_roundtrip(-(q as int));
        assert(s.first() == '-');
        assert(s.drop_first() =~= d);
    }
}

/// A digit run holds neither separators nor signs nor whitespace.
pub proof fn lemma_digits_benign(s: Seq<char>)
    requires
        all_digits(s),
    ensures
        !has_char(s, ','),
        !has_char(s, '*'),
        !has_char(s, ':'),
        forall|j: int| 0 <= j < s.len() ==> !is_space(#[trigger] s[j]),
{
    assert forall|j: int| 0 <= j < s.len() implies s[j] != ',' && s[j] != '*' && s[j] != ':'
        && !is_space(s[j]) by {
        assert(is_digit(s[j]));
    }
}


/// The trimmed front is a suffix of the whole sequence.
pub proof fn lemma_trim_front_is_suffix(s: Seq<char>)
    ensures
        trim_front(s).len() <= s.len(),
        trim_front(s) == s.subrange(s.len() - trim_front(s).len(), s.len() as int),
    decreases s.len(),
{
    if s.len() > 0 && is_space(s.first()) {
        lemma_trim_front_is_suffix(s.drop_first());
        let t = trim_front(s);
        assert(s.drop_first().subrange(
            s.drop_first().len() - t.len(),
            s.drop_first().len() as int,
        ) =~= s.subrange(s.len() - t.len(), s.len() as int));
    } else {
        assert(s.subrange(0, s.len() as int) =~= s);
    }
}
} // verus!
