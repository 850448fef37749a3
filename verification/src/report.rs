//! Rendering of a table's status report, as the `check` command answers
//! it: one line per item with its remaining cooking time, measured against
//! the wall-clock time the caller supplies.
//!
//! The remaining time is the stored cooking time minus the seconds elapsed
//! since the item's timestamp, floored at zero; this deliberately recomputes
//! against the current clock rather than a stored check event.

use crate::chars::{chars_to_string, to_chars, u64_digits};
use crate::restaurant::{items_map, ItemV, Table};
use vstd::prelude::*;

verus! {

/// Unsigned 64-bit wrapping subtraction.
pub open spec fn w_sub_u64(x: u64, y: u64) -> u64 {
    if x - y < 0 {
        (x - y + 0x1_0000_0000_0000_0000) as u64
    } else {
        (x - y) as u64
    }
}

/// The remaining seconds for an item at wall-clock time `now`.
pub open spec fn eta_of(cooking_time: u64, timestamp: u64, now: u64) -> u64 {
    let elapsed = w_sub_u64(now, timestamp);
    if cooking_time < elapsed {
        0
    } else {
        (cooking_time - elapsed) as u64
    }
}

/// The report line tail for an item: finished, or minutes and seconds left.
pub open spec fn eta_text(cooking_time: u64, timestamp: u64, now: u64) -> Seq<char> {
    let eta = eta_of(cooking_time, timestamp, now);
    if eta == 0 {
        " finished\n"@
    } else {
        " in "@ + u64_digits((eta / 60) as int) + " minutes "@ + u64_digits((eta % 60) as int)
            + " seconds\n"@
    }
}

/// One report line: the item, its quantity, and its remaining time.
pub open spec fn item_line(it: ItemV, now: u64) -> Seq<char> {
    it.id + " * "@ + crate::chars::i64_text(it.quantity as int) + eta_text(
        it.cooking_time->Some_0,
        it.timestamp,
        now,
    )
}

/// The lines for every stored item, in storage order, from position `i` on.
pub open spec fn lines_from(items: Seq<ItemV>, i: int, now: u64) -> Seq<char>
    decreases items.len() - i,
{
    if i < 0 || i >= items.len() {
        Seq::empty()
    } else {
        item_line(items[i], now) + lines_from(items, i + 1, now)
    }
}

/// The lines for the queried menu names, in query order, from position `j`
/// on; names with no entry are skipped.
pub open spec fn query_lines_from(
    m: Map<Seq<char>, ItemV>,
    menus: Seq<Seq<char>>,
    j: int,
    now: u64,
) -> Seq<char>
    decreases menus.len() - j,
{
    if j < 0 || j >= menus.len() {
        Seq::empty()
    } else {
        let rest = query_lines_from(m, menus, j + 1, now);
        if m.contains_key(menus[j]) {
            item_line(m[menus[j]], now) + rest
        } else {
            rest
        }
    }
}

/// The whole report: a heading with the table number, then either a line
/// saying nothing is ordered, or one line per listed item.
pub open spec fn spec_report(
    table_id: usize,
    items: Seq<ItemV>,
    query: Option<Seq<Seq<char>>>,
    now: u64,
) -> Seq<char> {
    let head = "Table "@ + u64_digits(table_id as int) + ":\n"@;
    if items.len() == 0 {
        head + "No order yet."@
    } else {
        match query {
            None => head + lines_from(items, 0, now),
            Some(menus) => head + query_lines_from(items_map(items), menus, 0, now),
        }
    }
}

/// Appends one item's report line.
fn push_item_line(it: &crate::restaurant::Item, now: u64, out: &mut Vec<char>)
    requires
        it@.cooking_time is Some,
    ensures
        final(out)@ == old(out)@ + item_line(it@, now),
{
    let idc = to_chars(it.id.as_str());
    crate::toro::extend_chars(out, idc.as_slice());
    let star = to_chars(" * ");
    crate::toro::extend_chars(out, star.as_slice());
    crate::chars::push_i64_text(it.quantity, out);
    let ct = match it.cooking_time {
        Some(c) => c,
        None => 0,  // unreachable by the precondition
    };
    let elapsed = now.wrapping_sub(it.timestamp);
    proof {
        assert(elapsed == w_sub_u64(now, it.timestamp));
    }
    let eta = if ct < elapsed {
        0u64
    } else {
        ct - elapsed
    };
    proof {
        assert(eta == eta_of(ct, it.timestamp, now));
    }
    if eta == 0 {
        let fin = to_chars(" finished\n");
        crate::toro::extend_chars(out, fin.as_slice());
    } else {
        let intro = to_chars(" in ");
        crate::toro::extend_chars(out, intro.as_slice());
        crate::chars::push_u64_digits(eta / 60, out);
        let mins = to_chars(" minutes ");
        crate::toro::extend_chars(out, mins.as_slice());
        crate::chars::push_u64_digits(eta % 60, out);
        let secs = to_chars(" seconds\n");
        crate::toro::extend_chars(out, secs.as_slice());
    }
    proof {
        assert(final(out)@ =~= old(out)@ + item_line(it@, now));
    }
}

/// Renders the status report of one table at wall-clock time `now`,
/// exactly as `spec_report` lays it out.  Every stored item must already
/// carry a cooking time, as items written by replay do.
#[verifier::loop_isolation(false)]
pub fn render_table_report(table: &Table, query: Option<&Vec<String>>, now: u64) -> (r: String)
    requires
        table.wf(),
        forall|i: int|
            0 <= i < table.items@.len() ==> (#[trigger] table.items.deep_view()[i]).cooking_time
                is Some,
    ensures
        r@ == spec_report(
            table.id,
            table.items.deep_view(),
            match query {
                Some(q) => Some(crate::toro::menus_view(q@)),
                None => None,
            },
            now,
        ),
{
    let ghost items_v = table.items.deep_view();
    let mut out: Vec<char> = Vec::new();
    let head = to_chars("Table ");
    crate::toro::extend_chars(&mut out, head.as_slice());
    crate::chars::push_u64_digits(table.id as u64, &mut out);
    let nl = to_chars(":\n");
    crate::toro::extend_chars(&mut out, nl.as_slice());
    let ghost header = out@;
    if table.items.len() == 0 {
        let none_yet = to_chars("No order yet.");
        crate::toro::extend_chars(&mut out, none_yet.as_slice());
        proof {
            assert(out@ =~= spec_report(table.id, items_v, match query {
                Some(q) => Some(crate::toro::menus_view(q@)),
                None => None,
            }, now));
        }
        return chars_to_string(&out);
    }
    match query {
        None => {
            let n = table.items.len();
            let mut i: usize = 0;
            while i < n
                invariant
                    i <= n,
                    out@ == header + lines_from(items_v, 0, now).subrange(
                        0,
                        lines_from(items_v, 0, now).len() - lines_from(
                            items_v,
                            i as int,
                            now,
                        ).len(),
                    ),
                    lines_from(items_v, i as int, now).len() <= lines_from(
                        items_v,
                        0,
                        now,
                    ).len(),
                decreases n - i,
            {
                proof {
                    lemma_lines_decompose(items_v, i as int, now);
                }
                push_item_line(&table.items[i], now, &mut out);
                proof {
                    lemma_lines_decompose(items_v, i as int, now);
                    assert(out@ =~= header + lines_from(items_v, 0, now).subrange(
                        0,
                        lines_from(items_v, 0, now).len() - lines_from(
                            items_v,
                            i + 1 as int,
                            now,
                        ).len(),
                    ));
                }
                i = i + 1;
            }
            proof {
                assert(lines_from(items_v, n as int, now) == Seq::<char>::empty());
                assert(out@ =~= header + lines_from(items_v, 0, now));
            }
            chars_to_string(&out)
        },
        Some(menus) => {
            let ghost menus_v = crate::toro::menus_view(menus@);
            let m = menus.len();
            let mut j: usize = 0;
            while j < m
                invariant
                    j <= m,
                    out@ == header + query_lines_from(items_map(items_v), menus_v, 0, now)
                        .subrange(
                        0,
                        query_lines_from(items_map(items_v), menus_v, 0, now).len()
                            - query_lines_from(items_map(items_v), menus_v, j as int, now).len(),
                    ),
                    query_lines_from(items_map(items_v), menus_v, j as int, now).len()
                        <= query_lines_from(items_map(items_v), menus_v, 0, now).len(),
                decreases m - j,
            {
                proof {
                    lemma_query_lines_decompose(items_map(items_v), menus_v, j as int, now);
                }
                match table.get_item(menus[j].as_str()) {
                    Some(it) => {
                        proof {
                            assert(menus_v[j as int] == menus@[j as int]@);
                            crate::restaurant::lemma_items_map_keys(items_v);
                            let k = choose|k: int|
                                0 <= k < items_v.len() && items_v[k].id == menus@[j as int]@;
                            crate::restaurant::lemma_items_map_get(items_v, k);
                        }
                        push_item_line(it, now, &mut out);
                    },
                    None => {
                        proof {
                            assert(menus_v[j as int] == menus@[j as int]@);
                        }
                    },
                }
                proof {
                    lemma_query_lines_decompose(items_map(items_v), menus_v, j as int, now);
                    assert(out@ =~= header + query_lines_from(items_map(items_v), menus_v, 0, now)
                        .subrange(
                        0,
                        query_lines_from(items_map(items_v), menus_v, 0, now).len()
                            - query_lines_from(items_map(items_v), menus_v, j + 1 as int, now)
                                .len(),
                    ));
                }
                j = j + 1;
            }
            proof {
                assert(query_lines_from(items_map(items_v), menus_v, m as int, now) == Seq::<
                    char,
                >::empty());
                assert(out@ =~= header + query_lines_from(items_map(items_v), menus_v, 0, now));
            }
            chars_to_string(&out)
        },
    }
}

/// The full line text splits at any position: what is written before
/// position `i` plus the lines from `i` on.
proof fn lemma_lines_decompose(items: Seq<ItemV>, i: int, now: u64)
    requires
        0 <= i <= items.len(),
    ensures
        lines_from(items, i, now).len() <= lines_from(items, 0, now).len(),
        lines_from(items, 0, now) == lines_from(items, 0, now).subrange(
            0,
            lines_from(items, 0, now).len() - lines_from(items, i, now).len(),
        ) + lines_from(items, i, now),
    decreases i,
{
    if i == 0 {
        assert(lines_from(items, 0, now).subrange(0, 0) =~= Seq::<char>::empty());
        assert(lines_from(items, 0, now) =~= Seq::<char>::empty() + lines_from(items, 0, now));
    } else {
        lemma_lines_decompose(items, i - 1, now);
        assert(lines_from(items, i - 1, now) == item_line(items[i - 1], now) + lines_from(
            items,
            i,
            now,
        ));
        let whole = lines_from(items, 0, now);
        assert(whole =~= whole.subrange(0, whole.len() - lines_from(items, i, now).len())
            + lines_from(items, i, now));
    }
}

/// The same decomposition for the queried lines.
proof fn lemma_query_lines_decompose(
    m: Map<Seq<char>, ItemV>,
    menus: Seq<Seq<char>>,
    j: int,
    now: u64,
)
    requires
        0 <= j <= menus.len(),
    ensures
        query_lines_from(m, menus, j, now).len() <= query_lines_from(m, menus, 0, now).len(),
        query_lines_from(m, menus, 0, now) == query_lines_from(m, menus, 0, now).subrange(
            0,
            query_lines_from(m, menus, 0, now).len() - query_lines_from(m, menus, j, now).len(),
        ) + query_lines_from(m, menus, j, now),
    decreases j,
{
    if j == 0 {
        assert(query_lines_from(m, menus, 0, now).subrange(0, 0) =~= Seq::<char>::empty());
        assert(query_lines_from(m, menus, 0, now) =~= Seq::<char>::empty() + query_lines_from(
            m,
            menus,
            0,
            now,
        ));
    } else {
        lemma_query_lines_decompose(m, menus, j - 1, now);
        let whole = query_lines_from(m, menus, 0, now);
        assert(whole =~= whole.subrange(0, whole.len() - query_lines_from(m, menus, j, now).len())
            + query_lines_from(m, menus, j, now));
    }
}

} // verus!
