//! Laws of the expression language and the selection engine, each proved
//! once and for all inputs.

use crate::errors::{Axis, Error};
use crate::expr::{
    parse_axis, resolve_from, resolve_spec, tokenize_from, tokenize_spec, Limit, Selector, Token,
};
use crate::select::{
    adjust_idx_spec, filter_table_spec, max_width, select_axis_spec, select_one, transpose_spec,
};
use vstd::prelude::*;

verus! {

/// The `Single` selectors an axis' numbers resolve to, in written order.
pub open spec fn singles_of(ts: Seq<Token>) -> Seq<Selector>
    decreases ts.len(),
{
    if ts.len() == 0 {
        Seq::empty()
    } else {
        let rest = singles_of(ts.skip(1));
        match ts[0] {
            Token::Num(n) => seq![Selector::Single(n)] + rest,
            _ => rest,
        }
    }
}

proof fn lemma_resolve_order_from(ts: Seq<Token>, i: int, acc: Seq<Selector>)
    requires
        0 <= i <= ts.len(),
        forall|k: int| 0 <= k < ts.len() ==> (#[trigger] ts[k]) is Num || ts[k] is Comma,
    ensures
        resolve_from(ts, i, acc) == Some(acc + singles_of(ts.skip(i))),
    decreases ts.len() - i,
{
    if i >= ts.len() {
        assert(ts.skip(i) =~= Seq::<Token>::empty());
        assert(acc + singles_of(ts.skip(i)) =~= acc);
    } else {
        assert(ts.skip(i).skip(1) =~= ts.skip(i + 1));
        assert(ts.skip(i)[0] == ts[i]);
        match ts[i] {
            Token::Num(n) => {
                assert(!(i + 1 < ts.len() && ts[i + 1] == Token::Range));
                lemma_resolve_order_from(ts, i + 1, acc.push(Selector::Single(n)));
                assert(singles_of(ts.skip(i)) == seq![Selector::Single(n)] + singles_of(
                    ts.skip(i + 1),
                ));
                assert(acc.push(Selector::Single(n)) + singles_of(ts.skip(i + 1)) =~= acc
                    + singles_of(ts.skip(i)));
            },
            Token::Comma => {
                lemma_resolve_order_from(ts, i + 1, acc);
                assert(singles_of(ts.skip(i)) == singles_of(ts.skip(i + 1)));
            },
            _ => {
                assert(false);
            },
        }
    }
}

/// Resolution preserves selector count and order exactly as written: an
/// axis of numbers and commas resolves to their `Single` selectors in the
/// written order, never sorted and never deduplicated.
pub proof fn lemma_resolve_preserves_order(ts: Seq<Token>)
    requires
        forall|k: int| 0 <= k < ts.len() ==> (#[trigger] ts[k]) is Num || ts[k] is Comma,
    ensures
        resolve_spec(ts) == Some(singles_of(ts)),
{
    lemma_resolve_order_from(ts, 0, Seq::empty());
    assert(ts.skip(0) =~= ts);
    assert(Seq::<Selector>::empty() + singles_of(ts) =~= singles_of(ts));
}

proof fn lemma_tokenize_any_from(s: Seq<char>, i: int, buf: Seq<char>, acc: Seq<Token>)
    requires
        0 <= i <= s.len(),
        exists|j: int| i <= j < s.len() && s[j] == '_',
        tokenize_from(s, i, buf, acc) is Some,
    ensures
        exists|k: int|
            0 <= k < tokenize_from(s, i, buf, acc)->Some_0.len() && tokenize_from(
                s,
                i,
                buf,
                acc,
            )->Some_0[k] == Token::Any,
    decreases s.len() - i,
{
    let j = choose|j: int| i <= j < s.len() && s[j] == '_';
    if s[i] == '-' || crate::expr::is_digit(s[i]) {
        assert(i + 1 <= j);
        lemma_tokenize_any_from(s, i + 1, buf.push(s[i]), acc);
    } else if s[i] == ',' {
        let a = crate::expr::flush_buf(buf, acc)->Some_0;
        assert(i + 1 <= j);
        lemma_tokenize_any_from(s, i + 1, Seq::empty(), a.push(Token::Comma));
    } else if s[i] == '~' {
        let a = crate::expr::flush_buf(buf, acc)->Some_0;
        assert(i + 1 <= j);
        lemma_tokenize_any_from(s, i + 1, Seq::empty(), a.push(Token::Range));
    } else if s[i] == '_' {
        let ts = tokenize_from(s, i, buf, acc)->Some_0;
        assert(ts[acc.len() as int] == Token::Any);
    } else {
        assert(false);
    }
}

proof fn lemma_resolve_any_from(ts: Seq<Token>, i: int, acc: Seq<Selector>)
    requires
        0 <= i <= ts.len(),
        exists|k: int| i <= k < ts.len() && ts[k] == Token::Any,
        resolve_from(ts, i, acc) is Some,
    ensures
        resolve_from(ts, i, acc) == Some(seq![Selector::Wildcard]),
    decreases ts.len() - i,
{
    let k = choose|k: int| i <= k < ts.len() && ts[k] == Token::Any;
    match ts[i] {
        Token::Num(n) => {
            if i + 1 < ts.len() && ts[i + 1] == Token::Range {
                if i + 2 >= ts.len() {
                    assert(false);
                } else {
                    match ts[i + 2] {
                        Token::Comma => {
                            assert(i + 3 <= k);
                            lemma_resolve_any_from(
                                ts,
                                i + 3,
                                acc.push(Selector::Range(Limit::Bounded(n), Limit::Unbounded)),
                            );
                        },
                        Token::Num(m) => {
                            assert(i + 3 <= k);
                            lemma_resolve_any_from(
                                ts,
                                i + 3,
                                acc.push(Selector::Range(Limit::Bounded(n), Limit::Bounded(m))),
                            );
                        },
                        _ => {
                            assert(false);
                        },
                    }
                }
            } else {
                assert(i + 1 <= k);
                lemma_resolve_any_from(ts, i + 1, acc.push(Selector::Single(n)));
            }
        },
        Token::Comma => {
            assert(i + 1 <= k);
            lemma_resolve_any_from(ts, i + 1, acc);
        },
        Token::Range => {
            if i + 1 < ts.len() && ts[i + 1] is Num {
                let m = ts[i + 1]->Num_0;
                assert(i + 2 <= k);
                lemma_resolve_any_from(
                    ts,
                    i + 2,
                    acc.push(Selector::Range(Limit::Unbounded, Limit::Bounded(m))),
                );
            } else {
                assert(false);
            }
        },
        Token::Any => {},
    }
}

/// Wildcard exclusivity: an axis whose text holds a `_` anywhere resolves,
/// whenever it resolves at all, to exactly `[Wildcard]` — whatever
/// selectors stand before or after the wildcard.
pub proof fn lemma_wildcard_exclusive(s: Seq<char>)
    requires
        exists|j: int| 0 <= j < s.len() && s[j] == '_',
        parse_axis(s) is Some,
    ensures
        parse_axis(s) == Some(seq![Selector::Wildcard]),
{
    let ts = tokenize_spec(s)->Some_0;
    lemma_tokenize_any_from(s, 0, Seq::empty(), Seq::empty());
    let k = choose|k: int| 0 <= k < ts.len() && ts[k] == Token::Any;
    lemma_resolve_any_from(ts, 0, Seq::empty());
}

/// The negative-index round trip: on an axis of length `len`, the index
/// `-1` resolves to the last offset `len - 1`, exactly where the positive
/// index `len` resolves, and the index `0` always fails as invalid.
pub proof fn lemma_negative_index_round_trip(len: usize, axis: Axis)
    requires
        1 <= len,
        len <= i64::MAX,
    ensures
        adjust_idx_spec(-1i64, len, axis) == Ok::<int, Error>(len as int - 1),
        adjust_idx_spec(len as i64, len, axis) == Ok::<int, Error>(len as int - 1),
        adjust_idx_spec(0i64, len, axis) == Err::<int, Error>(Error::InvalidIndex(axis)),
{
}

/// Range inclusivity: a bounded range whose resolved edges are `ll <= ul`
/// selects the contiguous block from `ll` through `ul`, both ends
/// included — `ul - ll + 1` elements, not `ul - ll`.
pub proof fn lemma_range_inclusive<A>(
    items: Seq<A>,
    lo: i64,
    hi: i64,
    axis: Axis,
    ll: int,
    ul: int,
)
    requires
        items.len() <= usize::MAX,
        adjust_idx_spec(lo, items.len() as usize, axis) == Ok::<int, Error>(ll),
        adjust_idx_spec(hi, items.len() as usize, axis) == Ok::<int, Error>(ul),
        ll <= ul,
    ensures
        select_one(items, Selector::Range(Limit::Bounded(lo), Limit::Bounded(hi)), axis) == Ok::<
            Seq<A>,
            Error,
        >(items.subrange(ll, ul + 1)),
        select_one(
            items,
            Selector::Range(Limit::Bounded(lo), Limit::Bounded(hi)),
            axis,
        )->Ok_0.len() == ul - ll + 1,
{
}

proof fn lemma_max_width_ge(rows: Seq<Seq<Seq<char>>>)
    ensures
        forall|r: int| 0 <= r < rows.len() ==> (#[trigger] rows[r]).len() <= max_width(rows),
    decreases rows.len(),
{
    if rows.len() > 0 {
        lemma_max_width_ge(rows.drop_last());
        assert forall|r: int| 0 <= r < rows.len() implies (#[trigger] rows[r]).len() <= max_width(
            rows,
        ) by {
            if r < rows.len() - 1 {
                assert(rows.drop_last()[r] == rows[r]);
            } else {
                assert(rows[r] == rows.last());
            }
        }
    }
}

/// Idempotence of the wildcard: selecting `_` on both axes of a non-empty
/// grid returns the transpose of the whole grid — every original cell at
/// its transposed position, in original order, with only the sentinel
/// padding of ragged rows added beyond the original cells.
pub proof fn lemma_wildcard_identity(grid: Seq<Seq<Seq<char>>>)
    requires
        grid.len() > 0,
        grid[0].len() > 0,
    ensures
        filter_table_spec(grid, seq![Selector::Wildcard], seq![Selector::Wildcard]) == Ok::<
            Seq<Seq<Seq<char>>>,
            Error,
        >(transpose_spec(grid)),
        transpose_spec(grid).len() == max_width(grid),
        forall|c: int|
            0 <= c < max_width(grid) ==> (#[trigger] transpose_spec(grid)[c]).len() == grid.len(),
        forall|r: int, c: int|
            0 <= r < grid.len() && 0 <= c < grid[r].len() ==> transpose_spec(grid)[c][r]
                == #[trigger] grid[r][c],
{
    lemma_max_width_ge(grid);
    assert(seq![Selector::Wildcard][0] == Selector::Wildcard);
    assert(select_axis_spec(grid, seq![Selector::Wildcard], Axis::Row) == Ok::<
        Seq<Seq<Seq<char>>>,
        Error,
    >(grid));
    assert forall|r: int, c: int|
        0 <= r < grid.len() && 0 <= c < grid[r].len() implies transpose_spec(grid)[c][r]
        == #[trigger] grid[r][c] by {
        assert(grid[r].len() <= max_width(grid));
        assert(transpose_spec(grid)[c][r] == crate::select::cell_or_sentinel(grid[r], c));
    }
}

} // verus!
