//! The round-trip law of the command grammar: a command read from text
//! prints to canonical text that reads back to the same command.

use crate::chars::{
    find_char, find_sub, has_char, i64_text, is_digit, is_space, join_with, lemma_digits_benign,
    lemma_find_sub_props, lemma_parse_i64_of_text, lemma_parse_usize_of_digits,
    lemma_split_all_no_sep, lemma_split_all_sep, lemma_trim_back_of_concat, lemma_trim_back_props,
    lemma_trim_chars, lemma_trim_front_first, lemma_trim_front_of_concat, lemma_trim_idem,
    lemma_trim_noop,
    lemma_u64_digits_are_digits, parse_i64, parse_usize, split2, split_all, trim, trim_back,
    trim_front, u64_digits,
};
use crate::toro::{
    spec_integrity, spec_parse, spec_parse_command, spec_parse_left, spec_parse_menu,
    spec_parse_param, spec_parse_quant_entry, spec_parse_quants, spec_serialize, wf_toro, Command,
    ParamV, ToroError, ToroV,
};
use vstd::prelude::*;

verus! {

/// `find_sub` finds a match at `pos` when nothing matches earlier.
proof fn lemma_find_sub_at_pos(s: Seq<char>, p: Seq<char>, pos: int)
    requires
        0 <= pos,
        pos + p.len() <= s.len(),
        s.subrange(pos, pos + p.len()) == p,
        forall|j: int| 0 <= j < pos ==> p != #[trigger] s.subrange(j, j + p.len()),
    ensures
        find_sub(s, p) == Some(pos),
{
    lemma_find_sub_props(s, p);
    match find_sub(s, p) {
        Some(k) => {
            if k < pos {
                assert(p != s.subrange(k, k + p.len()));
                assert(false);
            }
            if k > pos {
                assert(p != s.subrange(pos, pos + p.len()));
                assert(false);
            }
        },
        None => {
            assert(p != s.subrange(pos, pos + p.len()));
            assert(false);
        },
    }
}


/// A menu name as the parser leaves it: trimmed, with no separator and no
/// quantity marker in it.
pub open spec fn clean_name(n: Seq<char>) -> bool {
    trim(n) == n && !has_char(n, ',') && !has_char(n, '*')
}

/// A command whose canonical text reads back exactly: it passes the
/// integrity rule and all its menu names are clean; a bare-name list is
/// non-empty and does not end in an empty name.
pub open spec fn clean_toro(t: ToroV) -> bool {
    wf_toro(t) && match t.param {
        Some(ParamV::MenuQuantities(v)) => forall|i: int|
            0 <= i < v.len() ==> clean_name(#[trigger] v[i].0),
        Some(ParamV::Menu(names)) => names.len() >= 1 && (forall|i: int|
            0 <= i < names.len() ==> clean_name(#[trigger] names[i])) && (names.len() >= 2
            || names.last().len() > 0),
        None => true,
    }
}

/// A trimmed, non-empty text neither starts nor ends with whitespace.
proof fn lemma_clean_ends(n: Seq<char>)
    requires
        trim(n) == n,
        n.len() > 0,
    ensures
        !is_space(n.first()),
        !is_space(n.last()),
{
    lemma_trim_front_first(n);
    lemma_trim_back_props(trim_front(n));
    if is_space(n.first()) {
        assert(trim_front(n).len() < n.len());
        assert(trim(n).len() < n.len());
    }
    assert(!is_space(n.first()));
    assert(trim_front(n) == n);
    if is_space(n.last()) {
        assert(trim(n).len() < n.len());
    }
}

/// Segments of a split carry no separator and no character absent from the
/// whole.
proof fn lemma_split_all_segment_chars(s: Seq<char>, c: char, d: char)
    ensures
        forall|k: int|
            0 <= k < split_all(s, c).len() ==> !has_char(#[trigger] split_all(s, c)[k], c),
        !has_char(s, d) ==> forall|k: int|
            0 <= k < split_all(s, c).len() ==> !has_char(#[trigger] split_all(s, c)[k], d),
    decreases s.len(),
{
    if s.len() == 0 {
        assert(split_all(s, c) == seq![s]);
    } else if s.first() == c {
        lemma_split_all_segment_chars(s.drop_first(), c, d);
        let r = split_all(s, c);
        assert(r == seq![Seq::<char>::empty()] + split_all(s.drop_first(), c));
        assert(!has_char(s, d) ==> !has_char(s.drop_first(), d)) by {
            if !has_char(s, d) && has_char(s.drop_first(), d) {
                let j = choose|j: int|
                    0 <= j < s.drop_first().len() && s.drop_first()[j] == d;
                assert(s[j + 1] == d);
            }
        }
        assert forall|k: int| 0 <= k < r.len() implies !has_char(#[trigger] r[k], c) by {
            if k > 0 {
                assert(r[k] == split_all(s.drop_first(), c)[k - 1]);
            }
        }
        if !has_char(s, d) {
            assert forall|k: int| 0 <= k < r.len() implies !has_char(#[trigger] r[k], d) by {
                if k > 0 {
                    assert(r[k] == split_all(s.drop_first(), c)[k - 1]);
                }
            }
        }
    } else {
        lemma_split_all_segment_chars(s.drop_first(), c, d);
        let rest = split_all(s.drop_first(), c);
        crate::chars::lemma_split_all_len(s.drop_first(), c);
        let r = split_all(s, c);
        assert(r == seq![seq![s.first()] + rest.first()] + rest.drop_first());
        assert(!has_char(s, d) ==> !has_char(s.drop_first(), d)) by {
            if !has_char(s, d) && has_char(s.drop_first(), d) {
                let j = choose|j: int|
                    0 <= j < s.drop_first().len() && s.drop_first()[j] == d;
                assert(s[j + 1] == d);
            }
        }
        assert forall|k: int| 0 <= k < r.len() implies !has_char(#[trigger] r[k], c) by {
            if k == 0 {
                assert(!has_char(rest.first(), c));
                if has_char(r[0], c) {
                    let j = choose|j: int| 0 <= j < r[0].len() && r[0][j] == c;
                    if j == 0 {
                        assert(r[0][0] == s.first());
                    } else {
                        assert(r[0][j] == rest.first()[j - 1]);
                    }
                }
            } else {
                assert(r[k] == rest.drop_first()[k - 1]);
                assert(rest.drop_first()[k - 1] == rest[k]);
            }
        }
        if !has_char(s, d) {
            assert forall|k: int| 0 <= k < r.len() implies !has_char(#[trigger] r[k], d) by {
                if k == 0 {
                    assert(!has_char(rest.first(), d));
                    assert(s.first() != d);
                    if has_char(r[0], d) {
                        let j = choose|j: int| 0 <= j < r[0].len() && r[0][j] == d;
                        if j == 0 {
                            assert(r[0][0] == s.first());
                        } else {
                            assert(r[0][j] == rest.first()[j - 1]);
                        }
                    }
                } else {
                    assert(r[k] == rest.drop_first()[k - 1]);
                    assert(rest.drop_first()[k - 1] == rest[k]);
                }
            }
        }
    }
}

/// The join of comma-free parts by `", "` holds no character that is
/// neither in a part nor a separator character.
proof fn lemma_join_chars(parts: Seq<Seq<char>>, d: char)
    requires
        d != ',',
        d != ' ',
        forall|k: int| 0 <= k < parts.len() ==> !has_char(#[trigger] parts[k], d),
    ensures
        !has_char(join_with(parts, ", "@), d),
    decreases parts.len(),
{
    reveal_strlit(", ");
    if parts.len() == 0 {
    } else if parts.len() == 1 {
        assert(!has_char(parts[0], d));
    } else {
        assert forall|k: int| 0 <= k < parts.drop_first().len() implies !has_char(
            #[trigger] parts.drop_first()[k],
            d,
        ) by {
            assert(parts.drop_first()[k] == parts[k + 1]);
        }
        lemma_join_chars(parts.drop_first(), d);
        let w = join_with(parts, ", "@);
        assert(w == parts[0] + ", "@ + join_with(parts.drop_first(), ", "@));
        if has_char(w, d) {
            let j = choose|j: int| 0 <= j < w.len() && w[j] == d;
            let a = parts[0];
            let rest = join_with(parts.drop_first(), ", "@);
            if j < a.len() {
                assert(a[j] == d);
            } else if j < a.len() + 2 {
                assert(", "@[j - a.len()] == d);
            } else {
                assert(rest[j - a.len() - 2] == d);
            }
        }
    }
}

/// The join of parts ends as its last part ends, when that part is
/// non-empty.
proof fn lemma_join_last(parts: Seq<Seq<char>>)
    requires
        parts.len() >= 1,
        parts.last().len() > 0,
    ensures
        join_with(parts, ", "@).len() > 0,
        join_with(parts, ", "@).last() == parts.last().last(),
    decreases parts.len(),
{
    if parts.len() == 1 {
    } else {
        assert(parts.drop_first().last() == parts.last());
        lemma_join_last(parts.drop_first());
        let w = join_with(parts, ", "@);
        assert(w == parts[0] + ", "@ + join_with(parts.drop_first(), ", "@));
        assert(w.last() == join_with(parts.drop_first(), ", "@).last());
    }
}

/// Splitting a separator-free prefix plus the join of comma-free parts
/// gives the prefixed first part and the space-prefixed rest.
proof fn lemma_split_join(parts: Seq<Seq<char>>, pre: Seq<char>)
    requires
        parts.len() >= 1,
        !has_char(pre, ','),
        forall|k: int| 0 <= k < parts.len() ==> !has_char(#[trigger] parts[k], ','),
    ensures
        split_all(pre + join_with(parts, ", "@), ',').len() == parts.len(),
        split_all(pre + join_with(parts, ", "@), ',')[0] == pre + parts[0],
        forall|k: int|
            1 <= k < parts.len() ==> #[trigger] split_all(pre + join_with(parts, ", "@), ',')[k]
                == seq![' '] + parts[k],
    decreases parts.len(),
{
    reveal_strlit(", ");
    let w = pre + join_with(parts, ", "@);
    if parts.len() == 1 {
        assert(w =~= pre + parts[0]);
        assert forall|j: int| 0 <= j < w.len() implies w[j] != ',' by {
            if j < pre.len() {
                assert(pre[j] == w[j]);
            } else {
                assert(parts[0][j - pre.len()] == w[j]);
            }
        }
        lemma_split_all_no_sep(w, ',');
    } else {
        let head = pre + parts[0];
        let tail = seq![' '] + join_with(parts.drop_first(), ", "@);
        assert(", "@ =~= seq![','] + seq![' ']);
        assert(w =~= head + seq![','] + tail);
        assert forall|j: int| 0 <= j < head.len() implies head[j] != ',' by {
            if j < pre.len() {
                assert(pre[j] == head[j]);
            } else {
                assert(parts[0][j - pre.len()] == head[j]);
            }
        }
        lemma_split_all_sep(head, tail, ',');
        assert forall|k: int| 0 <= k < parts.drop_first().len() implies !has_char(
            #[trigger] parts.drop_first()[k],
            ',',
        ) by {
            assert(parts.drop_first()[k] == parts[k + 1]);
        }
        lemma_split_join(parts.drop_first(), seq![' ']);
        assert(split_all(w, ',') == seq![head] + split_all(tail, ','));
        assert forall|k: int| 1 <= k < parts.len() implies #[trigger] split_all(w, ',')[k]
            == seq![' '] + parts[k] by {
            assert(split_all(w, ',')[k] == split_all(tail, ',')[k - 1]);
            if k == 1 {
                assert(split_all(tail, ',')[0] == seq![' '] + parts.drop_first()[0]);
            } else {
                assert(split_all(tail, ',')[k - 1] == seq![' '] + parts.drop_first()[k - 1]);
            }
        }
    }
}


/// The canonical text of one quantity entry reads back to its parts.
proof fn lemma_quant_entry_reads(name: Seq<char>, q: i64)
    requires
        clean_name(name),
    ensures
        spec_parse_quant_entry(crate::toro::quant_entry_text(name, q)) == Ok::<
            (Seq<char>, i64),
            ToroError,
        >((name, q)),
{
    reveal_strlit(" * ");
    let d = i64_text(q as int);
    let e = crate::toro::quant_entry_text(name, q);
    assert(e =~= name + " * "@ + d);
    lemma_parse_i64_of_text(q);
    if q >= 0 {
        lemma_u64_digits_are_digits(q as int);
    } else {
        lemma_u64_digits_are_digits(-(q as int));
        assert(d.last() == u64_digits(-(q as int)).last());
        assert(is_digit(u64_digits(-(q as int)).last()));
    }
    assert(is_digit(d.last()));
    assert(e.last() == d.last());
    assert(!is_space(e.last()));
    assert(!is_space(d.first())) by {
        if q >= 0 {
            assert(is_digit(d.first()));
        } else {
            assert(d.first() == '-');
        }
    }
    let t0 = if name.len() > 0 {
        e
    } else {
        e.drop_first()
    };
    let pos: int = if name.len() > 0 {
        name.len() + 1 as int
    } else {
        0
    };
    if name.len() > 0 {
        lemma_clean_ends(name);
        lemma_trim_noop(e);
        assert(trim(e) == t0);
    } else {
        assert(e.first() == ' ');
        assert(trim_front(e) == trim_front(e.drop_first()));
        assert(e.drop_first().first() == '*');
        assert(trim_front(e.drop_first()) == e.drop_first());
        assert(!is_space(e.drop_first().last()));
        assert(trim_back(e.drop_first()) == e.drop_first());
        assert(trim(e) == t0);
    }
    assert(t0[pos] == '*');
    assert forall|j: int| 0 <= j < pos implies t0[j] != '*' by {
        if j < name.len() {
            assert(t0[j] == name[j]);
        } else {
            assert(t0[j] == ' ');
        }
    }
    crate::chars::lemma_find_char_some(t0, '*', pos);
    let before = t0.subrange(0, pos);
    let after = t0.subrange(pos + 1, t0.len() as int);
    if name.len() > 0 {
        assert(before =~= name + seq![' ']);
        assert forall|j: int| 0 <= j < seq![' '].len() implies is_space(seq![' '][j]) by {}
        lemma_trim_back_of_concat(name, seq![' ']);
        assert(trim_front(before) == before) by {
            lemma_clean_ends(name);
            assert(before.first() == name.first());
        }
        assert(trim_back(name) == name) by {
            lemma_clean_ends(name);
        }
        assert(trim(before) == name);
    } else {
        assert(before =~= name);
        assert(trim(before) == name);
    }
    assert(after =~= seq![' '] + d);
    assert forall|j: int| 0 <= j < seq![' '].len() implies is_space(seq![' '][j]) by {}
    lemma_trim_front_of_concat(seq![' '], d);
    assert(trim_front(after) == trim_front(d));
    assert(trim_front(d) == d);
    assert(trim_back(d) == d);
    assert(trim(after) == d);
}

/// A leading space does not change how an entry reads.
proof fn lemma_entry_space(e: Seq<char>)
    ensures
        spec_parse_quant_entry(seq![' '] + e) == spec_parse_quant_entry(e),
{
    assert(forall|j: int| 0 <= j < seq![' '].len() ==> is_space(seq![' '][j]));
    lemma_trim_front_of_concat(seq![' '], e);
    assert(trim(seq![' '] + e) == trim(e));
}

/// A read quantity list pins every entry.
proof fn lemma_quants_from_ok(entries: Seq<Seq<char>>, i: int, vals: Seq<(Seq<char>, i64)>)
    requires
        0 <= i <= entries.len(),
        crate::toro::spec_parse_quants_from(entries, i) == Ok::<
            Seq<(Seq<char>, i64)>,
            ToroError,
        >(vals),
    ensures
        vals.len() == entries.len() - i,
        forall|k: int|
            0 <= k < vals.len() ==> spec_parse_quant_entry(#[trigger] entries[i + k]) == Ok::<
                (Seq<char>, i64),
                ToroError,
            >(vals[k]),
    decreases entries.len() - i,
{
    if i == entries.len() {
    } else {
        match spec_parse_quant_entry(entries[i]) {
            Err(_) => {
                assert(false);
            },
            Ok(mq) => {
                match crate::toro::spec_parse_quants_from(entries, i + 1) {
                    Err(_) => {
                        assert(false);
                    },
                    Ok(rest) => {
                        lemma_quants_from_ok(entries, i + 1, rest);
                        assert(vals == seq![mq] + rest);
                        assert forall|k: int| 0 <= k < vals.len() implies spec_parse_quant_entry(
                            #[trigger] entries[i + k],
                        ) == Ok::<(Seq<char>, i64), ToroError>(vals[k]) by {
                            if k == 0 {
                                assert(vals[0] == mq);
                            } else {
                                assert(vals[k] == rest[k - 1]);
                                assert(entries[(i + 1) + (k - 1)] == entries[i + k]);
                            }
                        }
                    },
                }
            },
        }
    }
}

/// A name read from a comma-free entry is clean.
proof fn lemma_entry_name_clean(e: Seq<char>, n: Seq<char>, q: i64)
    requires
        spec_parse_quant_entry(e) == Ok::<(Seq<char>, i64), ToroError>((n, q)),
        !has_char(e, ','),
    ensures
        clean_name(n),
{
    let t = trim(e);
    lemma_trim_chars(e, ',');
    crate::chars::lemma_find_char_props(t, '*');
    let fi = find_char(t, '*')->Some_0;
    let raw = t.subrange(0, fi);
    assert(n == trim(raw));
    lemma_trim_idem(raw);
    assert(!has_char(raw, ',')) by {
        if has_char(raw, ',') {
            let j = choose|j: int| 0 <= j < raw.len() && raw[j] == ',';
            assert(t[j] == ',');
        }
    }
    assert(!has_char(raw, '*')) by {
        if has_char(raw, '*') {
            let j = choose|j: int| 0 <= j < raw.len() && raw[j] == '*';
            assert(t[j] == '*');
        }
    }
    lemma_trim_chars(raw, ',');
    lemma_trim_chars(raw, '*');
}

/// Whatever the parser accepts is clean, except that a bare-name list may
/// end in an empty name.
pub proof fn lemma_parse_clean(input: Seq<char>, t: ToroV)
    requires
        spec_parse(input) == Ok::<ToroV, ToroError>(t),
    ensures
        wf_toro(t),
        match t.param {
            Some(ParamV::MenuQuantities(v)) => forall|i: int|
                0 <= i < v.len() ==> clean_name(#[trigger] v[i].0),
            Some(ParamV::Menu(names)) => names.len() >= 1 && forall|i: int|
                0 <= i < names.len() ==> clean_name(#[trigger] names[i]),
            None => true,
        },
{
    let parts = split2(trim(input), ":"@);
    match t.param {
        None => {},
        Some(p) => {
            let s = parts.1->Some_0;
            assert(spec_parse_param(s) == Ok::<ParamV, ToroError>(p));
            match p {
                ParamV::MenuQuantities(v) => {
                    let entries = split_all(trim(s), ',');
                    assert(crate::toro::spec_parse_quants_from(entries, 0) == Ok::<
                        Seq<(Seq<char>, i64)>,
                        ToroError,
                    >(v));
                    lemma_quants_from_ok(entries, 0, v);
                    lemma_split_all_segment_chars(trim(s), ',', '*');
                    assert forall|i: int| 0 <= i < v.len() implies clean_name(
                        #[trigger] v[i].0,
                    ) by {
                        assert(spec_parse_quant_entry(entries[0 + i]) == Ok::<
                            (Seq<char>, i64),
                            ToroError,
                        >(v[i]));
                        assert(entries[0 + i] == entries[i]);
                        assert(!has_char(entries[i], ','));
                        lemma_entry_name_clean(entries[i], v[i].0, v[i].1);
                    }
                },
                ParamV::Menu(names) => {
                    assert(!has_char(s, '*'));
                    lemma_trim_chars(s, '*');
                    let entries = split_all(trim(s), ',');
                    crate::chars::lemma_split_all_len(trim(s), ',');
                    lemma_split_all_segment_chars(trim(s), ',', '*');
                    assert(names == entries.map(|i: int, e: Seq<char>| trim(e)));
                    assert forall|i: int| 0 <= i < names.len() implies clean_name(
                        #[trigger] names[i],
                    ) by {
                        assert(names[i] == trim(entries[i]));
                        lemma_trim_idem(entries[i]);
                        lemma_trim_chars(entries[i], ',');
                        lemma_trim_chars(entries[i], '*');
                    }
                },
            }
        },
    }
}


/// The text of one quantity entry holds no comma, and its last character
/// is a digit.
proof fn lemma_entry_shape(name: Seq<char>, q: i64)
    requires
        clean_name(name),
    ensures
        !has_char(crate::toro::quant_entry_text(name, q), ','),
        crate::toro::quant_entry_text(name, q).len() > 0,
        is_digit(crate::toro::quant_entry_text(name, q).last()),
        crate::toro::quant_entry_text(name, q)[name.len() + 1 as int] == '*',
{
    reveal_strlit(" * ");
    let d = i64_text(q as int);
    let e = crate::toro::quant_entry_text(name, q);
    assert(e =~= name + " * "@ + d);
    if q >= 0 {
        lemma_u64_digits_are_digits(q as int);
    } else {
        lemma_u64_digits_are_digits(-(q as int));
        assert(d.last() == u64_digits(-(q as int)).last());
    }
    assert(e.last() == d.last());
    assert(e[name.len() + 1 as int] == " * "@[1]);
    if has_char(e, ',') {
        let j = choose|j: int| 0 <= j < e.len() && e[j] == ',';
        if j < name.len() {
            assert(name[j] == ',');
        } else if j < name.len() + 3 {
            assert(" * "@[j - name.len()] == ',');
        } else {
            assert(d[j - name.len() - 3] == ',');
            if q >= 0 {
                assert(is_digit(d[j - name.len() - 3]));
            } else {
                if j - name.len() - 3 == 0 {
                } else {
                    assert(d[j - name.len() - 3] == u64_digits(-(q as int))[j - name.len() - 4]);
                    assert(is_digit(u64_digits(-(q as int))[j - name.len() - 4]));
                }
            }
        }
    }
}

/// The space-prefixed join of a quantity list reads back to the list.
proof fn lemma_quants_reads(v: Seq<(Seq<char>, i64)>)
    requires
        v.len() >= 1,
        forall|i: int| 0 <= i < v.len() ==> clean_name(#[trigger] v[i].0),
    ensures
        spec_parse_param(
            seq![' '] + crate::toro::param_text(ParamV::MenuQuantities(v)),
        ) == Ok::<ParamV, ToroError>(ParamV::MenuQuantities(v)),
        crate::toro::param_text(ParamV::MenuQuantities(v)).len() > 0,
        is_digit(crate::toro::param_text(ParamV::MenuQuantities(v)).last()),
{
    reveal_strlit(" * ");
    let entries = v.map(
        |i: int, mq: (Seq<char>, i64)| crate::toro::quant_entry_text(mq.0, mq.1),
    );
    let jn = join_with(entries, ", "@);
    let rest = seq![' '] + jn;
    assert(crate::toro::param_text(ParamV::MenuQuantities(v)) == jn);
    assert forall|k: int| 0 <= k < entries.len() implies !has_char(#[trigger] entries[k], ',')
        && entries[k].len() > 0 && is_digit(entries[k].last()) && entries[k][v[k].0.len()
        + 1 as int] == '*' by {
        lemma_entry_shape(v[k].0, v[k].1);
    }
    // the parameter text is non-empty and holds a star
    let e0 = entries[0];
    assert(jn.len() >= e0.len()) by {
        if v.len() >= 2 {
            assert(jn == e0 + ", "@ + join_with(entries.drop_first(), ", "@));
        }
    }
    assert(forall|k: int| 0 <= k < e0.len() ==> jn[k] == e0[k]) by {
        if v.len() >= 2 {
            assert(jn == e0 + ", "@ + join_with(entries.drop_first(), ", "@));
        }
    }
    assert(rest[v[0].0.len() + 2 as int] == '*');
    assert(has_char(rest, '*'));
    assert(rest.len() > 0);
    // trimming the text keeps exactly the joined entries, up to the first
    // entry's possible leading space
    assert(entries.last().len() > 0);
    lemma_join_last(entries);
    assert(!is_space(rest.last())) by {
        assert(rest.last() == jn.last());
        assert(is_digit(entries.last().last()));
    }
    assert(trim_back(trim_front(rest)) == trim_front(rest)) by {
        lemma_trim_front_first(rest);
        let x = trim_front(rest);
        if x.len() > 0 {
            assert(x =~= rest.subrange(rest.len() - x.len(), rest.len() as int)) by {
                crate::chars::lemma_trim_front_is_suffix(rest);
            }
            assert(x.last() == rest.last());
        }
    }
    let name0 = v[0].0;
    let first_trimmed: Seq<char> = if name0.len() > 0 {
        e0
    } else {
        e0.drop_first()
    };
    let entries2 = entries.update(0, first_trimmed);
    assert(trim_front(rest) == join_with(entries2, ", "@)) by {
        assert(e0 =~= name0 + " * "@ + i64_text(v[0].1 as int));
        if name0.len() > 0 {
            lemma_clean_ends(name0);
            assert(e0.first() == name0.first());
            assert(jn.first() == e0.first());
            assert(!is_space(jn.first()));
            assert(trim_front(rest) == trim_front(jn)) by {
                assert(forall|j: int| 0 <= j < seq![' '].len() ==> is_space(seq![' '][j]));
                lemma_trim_front_of_concat(seq![' '], jn);
            }
            assert(trim_front(jn) == jn);
            assert(entries2 =~= entries);
        } else {
            assert(e0.first() == ' ');
            assert(e0.drop_first().first() == '*');
            assert(jn.first() == ' ') by {
                if v.len() >= 2 {
                    assert(jn == e0 + ", "@ + join_with(entries.drop_first(), ", "@));
                }
            }
            assert(rest =~= seq![' '] + seq![' '] + (jn.drop_first()));
            assert(forall|j: int| 0 <= j < (seq![' '] + seq![' ']).len() ==> is_space(
                (seq![' '] + seq![' '])[j],
            ));
            lemma_trim_front_of_concat(seq![' '] + seq![' '], jn.drop_first());
            assert(jn.drop_first().first() == e0.drop_first().first()) by {
                if v.len() >= 2 {
                    assert(jn == e0 + ", "@ + join_with(entries.drop_first(), ", "@));
                    assert(jn.drop_first() =~= e0.drop_first() + ", "@ + join_with(
                        entries.drop_first(),
                        ", "@,
                    ));
                } else {
                    assert(jn.drop_first() =~= e0.drop_first());
                }
            }
            assert(trim_front(jn.drop_first()) == jn.drop_first());
            assert(jn.drop_first() =~= join_with(entries2, ", "@)) by {
                if v.len() >= 2 {
                    assert(jn == e0 + ", "@ + join_with(entries.drop_first(), ", "@));
                    assert(entries2.drop_first() =~= entries.drop_first());
                    assert(join_with(entries2, ", "@) == first_trimmed + ", "@ + join_with(
                        entries2.drop_first(),
                        ", "@,
                    ));
                } else {
                    assert(join_with(entries2, ", "@) == first_trimmed);
                }
            }
        }
    }
    assert(trim(rest) == join_with(entries2, ", "@));
    // splitting gives one segment per entry
    assert forall|k: int| 0 <= k < entries2.len() implies !has_char(
        #[trigger] entries2[k],
        ',',
    ) by {
        if k == 0 && name0.len() == 0 {
            if has_char(first_trimmed, ',') {
                let j = choose|j: int|
                    0 <= j < first_trimmed.len() && first_trimmed[j] == ',';
                assert(e0[j + 1] == ',');
            }
        }
    }
    lemma_split_join(entries2, Seq::empty());
    assert(Seq::<char>::empty() + join_with(entries2, ", "@) =~= trim(rest));
    let segs = split_all(trim(rest), ',');
    assert(segs.len() == v.len());
    // every segment holds a star, and reads to its entry of the list
    assert forall|k: int| 0 <= k < segs.len() implies has_char(#[trigger] segs[k], '*')
        && spec_parse_quant_entry(segs[k]) == Ok::<(Seq<char>, i64), ToroError>(v[k]) by {
        lemma_quant_entry_reads(v[k].0, v[k].1);
        if k == 0 {
            assert(segs[0] == Seq::<char>::empty() + first_trimmed);
            assert(segs[0] =~= first_trimmed);
            if name0.len() == 0 {
                assert(e0 =~= seq![' '] + first_trimmed);
                lemma_entry_space(first_trimmed);
                assert(first_trimmed[0] == '*');
            } else {
                assert(segs[0][name0.len() + 1 as int] == '*');
            }
        } else {
            assert(segs[k] == seq![' '] + entries[k]);
            lemma_entry_space(entries[k]);
            assert(segs[k][v[k].0.len() + 2 as int] == '*');
        }
    }
    crate::toro::lemma_parse_quants_all_ok(segs, v);
    assert(spec_parse_quants(rest) == Ok::<ParamV, ToroError>(ParamV::MenuQuantities(v))) by {
        if exists|i: int|
            0 <= i < segs.len() && !has_char(#[trigger] split_all(trim(rest), ',')[i], '*') {
            let i = choose|i: int|
                0 <= i < segs.len() && !has_char(#[trigger] split_all(trim(rest), ',')[i], '*');
            assert(has_char(segs[i], '*'));
        }
    }
}

/// The space-prefixed join of a bare-name list reads back to the list.
proof fn lemma_menu_reads(names: Seq<Seq<char>>)
    requires
        names.len() >= 1,
        forall|i: int| 0 <= i < names.len() ==> clean_name(#[trigger] names[i]),
        names.last().len() > 0,
    ensures
        spec_parse_param(seq![' '] + join_with(names, ", "@)) == Ok::<ParamV, ToroError>(
            ParamV::Menu(names),
        ),
{
    reveal_strlit(", ");
    let jn = join_with(names, ", "@);
    let rest = seq![' '] + jn;
    assert(rest.len() > 0);
    lemma_join_chars(names, '*');
    assert(!has_char(rest, '*')) by {
        if has_char(rest, '*') {
            let j = choose|j: int| 0 <= j < rest.len() && rest[j] == '*';
            if j > 0 {
                assert(jn[j - 1] == '*');
            }
        }
    }
    // the join begins with a non-space character
    assert(jn.len() > 0) by {
        lemma_join_last(names);
    }
    assert(!is_space(jn.first())) by {
        if names.len() == 1 {
            assert(jn == names[0]);
            lemma_clean_ends(names[0]);
        } else {
            assert(jn == names[0] + ", "@ + join_with(names.drop_first(), ", "@));
            if names[0].len() > 0 {
                lemma_clean_ends(names[0]);
                assert(jn.first() == names[0].first());
            } else {
                assert(jn.first() == ", "@[0]);
            }
        }
    }
    assert(forall|j: int| 0 <= j < seq![' '].len() ==> is_space(seq![' '][j]));
    lemma_trim_front_of_concat(seq![' '], jn);
    assert(trim_front(rest) == jn);
    lemma_join_last(names);
    assert(!is_space(jn.last())) by {
        lemma_clean_ends(names.last());
    }
    assert(trim(rest) == jn);
    lemma_split_join(names, Seq::empty());
    assert(Seq::<char>::empty() + jn =~= jn);
    let segs = split_all(jn, ',');
    assert(spec_parse_menu(rest) =~= names) by {
        let mapped = segs.map(|i: int, e: Seq<char>| trim(e));
        assert forall|k: int| 0 <= k < names.len() implies #[trigger] mapped[k] == names[k] by {
            if k == 0 {
                assert(segs[0] == Seq::<char>::empty() + names[0]);
                assert(segs[0] =~= names[0]);
            } else {
                assert(segs[k] == seq![' '] + names[k]);
                lemma_trim_front_of_concat(seq![' '], names[k]);
                if names[k].len() > 0 {
                    lemma_clean_ends(names[k]);
                }
                assert(trim_front(names[k]) == names[k]);
                assert(trim_back(names[k]) == names[k]);
            }
        }
        assert(mapped =~= names);
    }
    assert(spec_parse_param(rest) == Ok::<ParamV, ToroError>(ParamV::Menu(names)));
}


/// Splitting at an explicit colon whose left side holds none.
proof fn lemma_colon_split(head: Seq<char>, tail: Seq<char>)
    requires
        forall|j: int| 0 <= j < head.len() ==> head[j] != ':',
    ensures
        split2(head + seq![':'] + tail, ":"@) == (head, Some(tail)),
{
    reveal_strlit(":");
    let s = head + seq![':'] + tail;
    assert(":"@ =~= seq![':']);
    assert(s.subrange(head.len() as int, head.len() + 1 as int) =~= seq![':']);
    assert forall|j: int| 0 <= j < head.len() implies ":"@ != #[trigger] s.subrange(
        j,
        j + ":"@.len(),
    ) by {
        if ":"@ == s.subrange(j, j + 1 as int) {
            assert(s.subrange(j, j + 1 as int)[0] == s[j]);
            assert(s[j] == head[j]);
        }
    }
    lemma_find_sub_at_pos(s, ":"@, head.len() as int);
    assert(s.subrange(0, head.len() as int) =~= head);
    assert(s.subrange(head.len() + 1 as int, s.len() as int) =~= tail);
}

/// A text with no colon does not split.
proof fn lemma_no_colon_split(s: Seq<char>)
    requires
        forall|j: int| 0 <= j < s.len() ==> s[j] != ':',
    ensures
        split2(s, ":"@) == (s, None::<Seq<char>>),
{
    reveal_strlit(":");
    lemma_find_sub_props(s, ":"@);
    match find_sub(s, ":"@) {
        Some(k) => {
            assert(s.subrange(k, k + ":"@.len()) == ":"@);
            assert(s.subrange(k, k + 1 as int)[0] == s[k]);
            assert(s[k] == ':');
            assert(false);
        },
        None => {},
    }
}

/// Reading the left side of a canonical command head: the command word,
/// then `for table` and the printed table number.
proof fn lemma_parse_left_of(w: Seq<char>, c: Command, tid: usize)
    requires
        w.len() > 0,
        !is_space(w[0]),
        forall|j: int| 0 <= j < w.len() ==> w[j] != 'f',
        spec_parse_command(trim(w)) == Some(c),
    ensures
        spec_parse_left(w + "for table "@ + u64_digits(tid as int)) == Ok::<
            (Command, Option<usize>),
            ToroError,
        >((c, Some(tid))),
{
    reveal_strlit("for table ");
    reveal_strlit("for table");
    let ft = "for table "@;
    let pat = "for table"@;
    let d = u64_digits(tid as int);
    let left = w + ft + d;
    lemma_u64_digits_are_digits(tid as int);
    lemma_parse_usize_of_digits(tid);
    lemma_digits_benign(d);
    assert(!is_space(left.first())) by {
        assert(left.first() == w[0]);
    }
    assert(!is_space(left.last())) by {
        assert(left.last() == d.last());
        assert(is_digit(d.last()));
    }
    lemma_trim_noop(left);
    assert(left.subrange(w.len() as int, w.len() + 9 as int) =~= pat);
    assert forall|j: int| 0 <= j < w.len() implies pat != #[trigger] left.subrange(
        j,
        j + pat.len(),
    ) by {
        if pat == left.subrange(j, j + 9 as int) {
            assert(left.subrange(j, j + 9 as int)[0] == left[j]);
            assert(left[j] == w[j]);
            assert(pat[0] == 'f');
        }
    }
    lemma_find_sub_at_pos(left, pat, w.len() as int);
    let cmd_part = left.subrange(0, w.len() as int);
    assert(cmd_part =~= w);
    let tid_part = left.subrange(w.len() + 9 as int, left.len() as int);
    assert(tid_part =~= seq![' '] + d) by {
        assert(ft[9] == ' ');
    }
    assert(forall|j: int| 0 <= j < seq![' '].len() ==> is_space(seq![' '][j]));
    lemma_trim_front_of_concat(seq![' '], d);
    assert(trim_front(d) == d) by {
        assert(is_digit(d.first()));
    }
    assert(trim_back(d) == d) by {
        assert(is_digit(d.last()));
    }
    assert(trim(tid_part) == d);
}

/// The three command heads, spelled out: each is its word plus
/// `for table `, the word holds no `f`, no colon and no comma, and trims
/// to its command phrase.
proof fn lemma_heads()
    ensures
        "new order for table "@ =~= "new order "@ + "for table "@,
        "cancel for table "@ =~= "cancel "@ + "for table "@,
        "check for table "@ =~= "check "@ + "for table "@,
        ": "@ =~= seq![':'] + seq![' '],
        "new order "@.len() == 10 && !is_space("new order "@[0]),
        "cancel "@.len() == 7 && !is_space("cancel "@[0]),
        "check "@.len() == 6 && !is_space("check "@[0]),
        forall|j: int|
            0 <= j < 10 ==> "new order "@[j] != 'f' && "new order "@[j] != ':',
        forall|j: int| 0 <= j < 7 ==> "cancel "@[j] != 'f' && "cancel "@[j] != ':',
        forall|j: int| 0 <= j < 6 ==> "check "@[j] != 'f' && "check "@[j] != ':',
        forall|j: int| 0 <= j < 10 ==> "for table "@[j] != ':',
        "for table "@.len() == 10,
        spec_parse_command(trim("new order "@)) == Some(Command::New),
        spec_parse_command(trim("cancel "@)) == Some(Command::Cancel),
        spec_parse_command(trim("check "@)) == Some(Command::Check),
{
    reveal_strlit("new order for table ");
    reveal_strlit("cancel for table ");
    reveal_strlit("check for table ");
    reveal_strlit("new order ");
    reveal_strlit("cancel ");
    reveal_strlit("check ");
    reveal_strlit("for table ");
    reveal_strlit("new order");
    reveal_strlit("cancel");
    reveal_strlit("check");
    reveal_strlit(": ");
    assert("new order "@ =~= "new order"@ + seq![' ']);
    assert("cancel "@ =~= "cancel"@ + seq![' ']);
    assert("check "@ =~= "check"@ + seq![' ']);
    assert(forall|j: int| 0 <= j < seq![' '].len() ==> is_space(seq![' '][j]));
    lemma_trim_back_of_concat("new order"@, seq![' ']);
    lemma_trim_back_of_concat("cancel"@, seq![' ']);
    lemma_trim_back_of_concat("check"@, seq![' ']);
    assert(trim_front("new order "@) == "new order "@);
    assert(trim_back("new order"@) == "new order"@);
    assert(trim("new order "@) == "new order"@) by {
        assert(trim_back("new order "@) == trim_back("new order"@ + seq![' ']));
    }
    assert(trim_front("cancel "@) == "cancel "@);
    assert(trim_back("cancel"@) == "cancel"@);
    assert(trim("cancel "@) == "cancel"@) by {
        assert(trim_back("cancel "@) == trim_back("cancel"@ + seq![' ']));
    }
    assert(trim_front("check "@) == "check "@);
    assert(trim_back("check"@) == "check"@);
    assert(trim("check "@) == "check"@) by {
        assert(trim_back("check "@) == trim_back("check"@ + seq![' ']));
    }
    assert("new order"@ != "cancel"@ && spec_parse_command("new order"@) == Some(Command::New));
    assert(spec_parse_command("cancel"@) == Some(Command::Cancel)) by {
        assert("cancel"@.len() != "new order"@.len());
    }
    assert(spec_parse_command("check"@) == Some(Command::Check)) by {
        assert("check"@.len() != "new order"@.len());
        assert("check"@[0] != "cancel"@[0] || "check"@[2] != "cancel"@[2]);
    }
}


/// Joining from the back: the join of all but the last part, a separator,
/// then the last part.
proof fn lemma_join_snoc(parts: Seq<Seq<char>>)
    requires
        parts.len() >= 2,
    ensures
        join_with(parts, ", "@) == join_with(parts.drop_last(), ", "@) + ", "@ + parts.last(),
    decreases parts.len(),
{
    if parts.len() == 2 {
        assert(parts.drop_first().len() == 1);
        assert(parts.drop_first()[0] == parts[1]);
        assert(parts.drop_last().len() == 1);
        assert(parts.drop_last()[0] == parts[0]);
    } else {
        lemma_join_snoc(parts.drop_first());
        assert(parts.drop_first().drop_last() =~= parts.drop_last().drop_first());
        assert(parts.drop_first().last() == parts.last());
        assert(join_with(parts, ", "@) == parts[0] + ", "@ + join_with(
            parts.drop_first(),
            ", "@,
        ));
        assert(join_with(parts.drop_last(), ", "@) == parts.drop_last()[0] + ", "@ + join_with(
            parts.drop_last().drop_first(),
            ", "@,
        ));
        assert(parts.drop_last()[0] == parts[0]);
        assert((parts[0] + ", "@ + (join_with(parts.drop_last().drop_first(), ", "@) + ", "@
            + parts.last())) =~= (parts[0] + ", "@ + join_with(
            parts.drop_last().drop_first(),
            ", "@,
        )) + ", "@ + parts.last());
    }
}

/// A trailing separator adds one empty segment.
proof fn lemma_split_all_trailing_sep(s: Seq<char>, c: char)
    ensures
        split_all(s + seq![c], c) == split_all(s, c) + seq![Seq::<char>::empty()],
    decreases s.len(),
{
    let w = s + seq![c];
    if s.len() == 0 {
        assert(s =~= Seq::<char>::empty());
        assert(w =~= seq![c]);
        assert(w.first() == c);
        assert(w.drop_first() =~= Seq::<char>::empty());
        assert(split_all(w, c) == seq![Seq::<char>::empty()] + split_all(w.drop_first(), c));
        assert(split_all(w.drop_first(), c) == seq![w.drop_first()]);
        assert(split_all(s, c) == seq![s]);
        assert(split_all(w, c) =~= split_all(s, c) + seq![Seq::<char>::empty()]);
    } else if s.first() == c {
        assert(w.first() == c);
        assert(w.drop_first() =~= s.drop_first() + seq![c]);
        lemma_split_all_trailing_sep(s.drop_first(), c);
        assert(split_all(w, c) =~= split_all(s, c) + seq![Seq::<char>::empty()]);
    } else {
        assert(w.first() == s.first());
        assert(w.first() != c);
        assert(w.drop_first() =~= s.drop_first() + seq![c]);
        lemma_split_all_trailing_sep(s.drop_first(), c);
        let rest_w = split_all(w.drop_first(), c);
        let rest_s = split_all(s.drop_first(), c);
        crate::chars::lemma_split_all_len(s.drop_first(), c);
        assert(rest_w == rest_s + seq![Seq::<char>::empty()]);
        assert(rest_w.first() == rest_s.first());
        assert(rest_w.drop_first() =~= rest_s.drop_first() + seq![Seq::<char>::empty()]);
        assert(split_all(w, c) == seq![seq![w.first()] + rest_w.first()] + rest_w.drop_first());
        assert(split_all(s, c) == seq![seq![s.first()] + rest_s.first()] + rest_s.drop_first());
        assert(split_all(w, c) =~= split_all(s, c) + seq![Seq::<char>::empty()]);
    }
}

/// The join of a bare-name list ending in an empty name, less its final
/// space, still reads back to the list.
proof fn lemma_menu_reads_trailing(names: Seq<Seq<char>>)
    requires
        names.len() >= 2,
        forall|i: int| 0 <= i < names.len() ==> clean_name(#[trigger] names[i]),
        names.last().len() == 0,
    ensures
        join_with(names, ", "@).len() >= 2,
        join_with(names, ", "@).last() == ' ',
        join_with(names, ", "@)[join_with(names, ", "@).len() - 2] == ',',
        spec_parse_param(
            seq![' '] + join_with(names, ", "@).drop_last(),
        ) == Ok::<ParamV, ToroError>(ParamV::Menu(names)),
{
    reveal_strlit(", ");
    let jn = join_with(names, ", "@);
    let prefix = names.drop_last();
    let jp = join_with(prefix, ", "@);
    lemma_join_snoc(names);
    assert(jn == jp + ", "@ + names.last());
    assert(jn =~= jp + seq![','] + seq![' ']);
    assert(jn.drop_last() =~= jp + seq![',']);
    let rest = seq![' '] + jp + seq![','];
    assert(seq![' '] + jn.drop_last() =~= rest);
    // no star anywhere
    assert forall|k: int| 0 <= k < prefix.len() implies !has_char(#[trigger] prefix[k], '*') by {
        assert(prefix[k] == names[k]);
    }
    lemma_join_chars(prefix, '*');
    assert(!has_char(rest, '*')) by {
        if has_char(rest, '*') {
            let j = choose|j: int| 0 <= j < rest.len() && rest[j] == '*';
            if 0 < j < 1 + jp.len() {
                assert(jp[j - 1] == '*');
            }
        }
    }
    // the text trims to the joined prefix plus the bare separator
    let body = jp + seq![','];
    assert(!is_space(body.first())) by {
        if jp.len() == 0 {
            assert(body.first() == ',');
        } else {
            assert(body.first() == jp.first());
            if prefix.len() == 1 {
                assert(jp == prefix[0]);
                if prefix[0].len() > 0 {
                    lemma_clean_ends(prefix[0]);
                } else {
                    assert(jp.len() == 0);
                }
            } else {
                assert(jp == prefix[0] + ", "@ + join_with(prefix.drop_first(), ", "@));
                if prefix[0].len() > 0 {
                    lemma_clean_ends(prefix[0]);
                    assert(jp.first() == prefix[0].first());
                } else {
                    assert(jp.first() == ", "@[0]);
                }
            }
        }
    }
    assert(forall|j: int| 0 <= j < seq![' '].len() ==> is_space(seq![' '][j]));
    lemma_trim_front_of_concat(seq![' '], body);
    assert(rest =~= seq![' '] + body);
    assert(trim_front(rest) == trim_front(body));
    assert(trim_front(body) == body);
    assert(!is_space(body.last()));
    assert(trim_back(body) == body);
    assert(trim(rest) == body);
    // splitting gives the prefix names and one final empty segment
    assert forall|k: int| 0 <= k < prefix.len() implies !has_char(#[trigger] prefix[k], ',') by {
        assert(prefix[k] == names[k]);
    }
    lemma_split_join(prefix, Seq::empty());
    assert(Seq::<char>::empty() + jp =~= jp);
    lemma_split_all_trailing_sep(jp, ',');
    assert(body =~= jp + seq![',']);
    let segs = split_all(body, ',');
    assert(segs == split_all(jp, ',') + seq![Seq::<char>::empty()]);
    assert(segs.len() == names.len());
    assert(rest.len() > 0);
    assert(spec_parse_menu(rest) =~= names) by {
        let mapped = segs.map(|i: int, e: Seq<char>| trim(e));
        assert forall|k: int| 0 <= k < names.len() implies #[trigger] mapped[k] == names[k] by {
            if k == names.len() - 1 {
                assert(segs[k] == Seq::<char>::empty());
                assert(names[k].len() == 0);
                assert(names[k] =~= Seq::<char>::empty());
            } else if k == 0 {
                assert(segs[0] == split_all(jp, ',')[0]);
                assert(split_all(jp, ',')[0] == Seq::<char>::empty() + prefix[0]);
                assert(segs[0] =~= names[0]);
            } else {
                assert(segs[k] == split_all(jp, ',')[k]);
                assert(split_all(jp, ',')[k] == seq![' '] + prefix[k]);
                lemma_trim_front_of_concat(seq![' '], names[k]);
                if names[k].len() > 0 {
                    lemma_clean_ends(names[k]);
                }
                assert(trim_front(names[k]) == names[k]);
                assert(trim_back(names[k]) == names[k]);
            }
        }
        assert(mapped =~= names);
    }
    assert(spec_parse_param(rest) == Ok::<ParamV, ToroError>(ParamV::Menu(names)));
}

/// The round-trip of a `new order` or `cancel` command.
proof fn lemma_round_trip_quants(t: ToroV)
    requires
        clean_toro(t),
        t.command is New || t.command is Cancel,
    ensures
        spec_parse(spec_serialize(t)) == Ok::<ToroV, ToroError>(t),
{
    lemma_heads();
    reveal_strlit("for table ");
    let text = spec_serialize(t);
    let w: Seq<char> = if t.command is New {
        "new order "@
    } else {
        "cancel "@
    };
    let tid = t.table_id->Some_0;
    let v = t.param->Some_0->MenuQuantities_0;
    let d = u64_digits(tid as int);
    let head = w + "for table "@ + d;
    let jn = crate::toro::param_text(ParamV::MenuQuantities(v));
    let tail = seq![' '] + jn;
    assert(text =~= head + seq![':'] + tail);
    lemma_u64_digits_are_digits(tid as int);
    lemma_digits_benign(d);
    lemma_quants_reads(v);
    assert(!is_space(text.first())) by {
        assert(text.first() == w[0]);
    }
    assert(!is_space(text.last())) by {
        assert(text.last() == tail.last());
        assert(tail.last() == jn.last());
        assert(is_digit(jn.last()));
    }
    lemma_trim_noop(text);
    assert forall|j: int| 0 <= j < head.len() implies head[j] != ':' by {
        if j < w.len() {
            assert(head[j] == (w + "for table "@)[j]);
            assert(head[j] == w[j]);
        } else if j < w.len() + 10 {
            assert(head[j] == (w + "for table "@)[j]);
            assert(head[j] == "for table "@[j - w.len()]);
        } else {
            assert(head[j] == d[j - w.len() - 10]);
            assert(is_digit(d[j - w.len() - 10]));
        }
    }
    lemma_colon_split(head, tail);
    lemma_parse_left_of(w, t.command, tid);
    assert(spec_parse_left(head) == Ok::<(Command, Option<usize>), ToroError>((
        t.command,
        Some(tid),
    )));
    assert(spec_parse_param(tail) == Ok::<ParamV, ToroError>(ParamV::MenuQuantities(v)));
    assert(spec_parse(text) == Ok::<ToroV, ToroError>(t));
}

/// The round-trip of a `check` command.
proof fn lemma_round_trip_check(t: ToroV)
    requires
        clean_toro(t),
        t.command is Check,
    ensures
        spec_parse(spec_serialize(t)) == Ok::<ToroV, ToroError>(t),
{
    lemma_heads();
    reveal_strlit("for table ");
    let text = spec_serialize(t);
    let tid = t.table_id->Some_0;
    let d = u64_digits(tid as int);
    let head = "check "@ + "for table "@ + d;
    lemma_u64_digits_are_digits(tid as int);
    lemma_digits_benign(d);
    assert forall|j: int| 0 <= j < head.len() implies head[j] != ':' by {
        if j < 6 {
            assert(head[j] == ("check "@ + "for table "@)[j]);
            assert(head[j] == "check "@[j]);
        } else if j < 16 {
            assert(head[j] == ("check "@ + "for table "@)[j]);
            assert(head[j] == "for table "@[j - 6]);
        } else {
            assert(head[j] == d[j - 16]);
            assert(is_digit(d[j - 16]));
        }
    }
    match t.param {
        None => {
            assert(text =~= head);
            assert(!is_space(text.first())) by {
                assert(text.first() == "check "@[0]);
            }
            assert(!is_space(text.last())) by {
                assert(text.last() == d.last());
                assert(is_digit(d.last()));
            }
            lemma_trim_noop(text);
            lemma_no_colon_split(text);
            lemma_parse_left_of("check "@, Command::Check, tid);
            assert(spec_parse(text) == Ok::<ToroV, ToroError>(t));
        },
        Some(p) => {
            let names = p->Menu_0;
            let jn = join_with(names, ", "@);
            if names.last().len() > 0 {
                let tail = seq![' '] + jn;
                assert(text =~= head + seq![':'] + tail);
                lemma_menu_reads(names);
                lemma_join_last(names);
                assert(!is_space(text.first())) by {
                    assert(text.first() == "check "@[0]);
                }
                assert(!is_space(text.last())) by {
                    assert(text.last() == jn.last());
                    lemma_clean_ends(names.last());
                }
                lemma_trim_noop(text);
                lemma_colon_split(head, tail);
                lemma_parse_left_of("check "@, Command::Check, tid);
                assert(spec_parse(text) == Ok::<ToroV, ToroError>(t));
            } else {
                // the list ends in an empty name: the canonical text ends in
                // the separator, and the reading trim eats its final space
                lemma_menu_reads_trailing(names);
                let tail2 = seq![' '] + jn.drop_last();
                assert(text =~= (head + seq![':'] + tail2) + seq![' ']) by {
                    assert(jn.last() == ' ');
                    assert(jn =~= jn.drop_last() + seq![' ']);
                }
                let body = head + seq![':'] + tail2;
                assert(trim(text) == body) by {
                    assert(!is_space(text.first())) by {
                        assert(text.first() == "check "@[0]);
                    }
                    assert(trim_front(text) == text);
                    assert(text.last() == ' ');
                    assert(text.drop_last() =~= body);
                    assert(body.last() == ',') by {
                        assert(body.last() == tail2.last());
                        assert(tail2.last() == jn.drop_last().last());
                        assert(jn.drop_last().last() == jn[jn.len() - 2]);
                    }
                    assert(trim_back(text) == trim_back(text.drop_last()));
                    assert(trim_back(body) == body);
                }
                lemma_colon_split(head, tail2);
                lemma_parse_left_of("check "@, Command::Check, tid);
                assert(spec_parse_param(tail2) == Ok::<ParamV, ToroError>(ParamV::Menu(names)));
                assert(spec_parse(text) == Ok::<ToroV, ToroError>(t));
            }
        },
    }
}

/// The round-trip of a `yeet` command.
proof fn lemma_round_trip_yeet(t: ToroV)
    requires
        clean_toro(t),
        t.command is Yeet,
    ensures
        spec_parse(spec_serialize(t)) == Ok::<ToroV, ToroError>(t),
{
    let text = spec_serialize(t);
    reveal_strlit("yeet");
    reveal_strlit("for table");
    assert(text == "yeet"@);
    assert(!is_space(text.first()) && !is_space(text.last()));
    lemma_trim_noop(text);
    lemma_no_colon_split(text);
    assert("for table"@.len() > "yeet"@.len());
    assert(find_sub(trim(text), "for table"@) == None::<int>);
    assert(spec_parse_command(trim("yeet"@)) == Some(Command::Yeet)) by {
        lemma_trim_noop("yeet"@);
        assert("yeet"@.len() != "new order"@.len()) by {
            reveal_strlit("new order");
        }
        assert("yeet"@.len() != "cancel"@.len()) by {
            reveal_strlit("cancel");
        }
        assert("yeet"@[0] != "check"@[0]) by {
            reveal_strlit("check");
        }
    }
    assert(spec_parse(text) == Ok::<ToroV, ToroError>(t));
}

/// The round-trip law over clean commands: the canonical text reads back
/// to the very command it was printed from.
pub proof fn lemma_round_trip_clean(t: ToroV)
    requires
        clean_toro(t),
    ensures
        spec_parse(spec_serialize(t)) == Ok::<ToroV, ToroError>(t),
{
    match t.command {
        Command::New | Command::Cancel => {
            lemma_round_trip_quants(t);
        },
        Command::Check => {
            lemma_round_trip_check(t);
        },
        Command::Yeet => {
            lemma_round_trip_yeet(t);
        },
    }
}

/// The round-trip law: every accepted command text prints, through the
/// command it was read into, to canonical text that reads back to that
/// same command.  The one input left out: a `check` whose parameter list
/// is a single empty name, whose canonical text ends in a bare `:` and a
/// space that the reading trim removes.
pub proof fn lemma_round_trip(input: Seq<char>, t: ToroV)
    requires
        spec_parse(input) == Ok::<ToroV, ToroError>(t),
        !(t.param matches Some(ParamV::Menu(names)) && names.len() == 1 && names[0].len() == 0),
    ensures
        spec_parse(spec_serialize(t)) == Ok::<ToroV, ToroError>(t),
{
    lemma_parse_clean(input, t);
    lemma_round_trip_clean(t);
}

} // verus!
