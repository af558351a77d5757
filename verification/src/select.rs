//! The selection engine: resolves signed 1-based indices against an axis,
//! selects and reorders rows, transposes the result into columns with a `_`
//! sentinel for missing cells of ragged rows, and selects columns.

use crate::errors::{Axis, Error};
use crate::expr::{Limit, Selector};
use vstd::prelude::*;
use vstd::string::*;

verus! {

/// Converts a signed 1-based index into a zero-based offset of an axis of
/// length `len`: positive `n` counts from the start, negative `n` from the
/// end, `0` is invalid, and anything outside the axis is out of range.
pub open spec fn adjust_idx_spec(n: i64, len: usize, axis: Axis) -> Result<int, Error> {
    if n == 0 {
        Err(Error::InvalidIndex(axis))
    } else {
        let off = if n > 0 {
            n as int - 1
        } else {
            n as int + len as int
        };
        if 0 <= off < len as int {
            Ok(off)
        } else {
            Err(Error::IndexOutOfRange(axis, n, len))
        }
    }
}

pub fn adjust_idx(n: i64, len: usize, axis: Axis) -> (r: Result<usize, Error>)
    ensures
        match r {
            Ok(off) => adjust_idx_spec(n, len, axis) == Ok::<int, Error>(off as int),
            Err(e) => adjust_idx_spec(n, len, axis) == Err::<int, Error>(e),
        },
{
    if n == 0 {
        Err(Error::InvalidIndex(axis))
    } else if n > 0 {
        if n as u64 > len as u64 {
            Err(Error::IndexOutOfRange(axis, n, len))
        } else {
            Ok((n as usize) - 1)
        }
    } else {
        // -(n + 1) is the distance from the last element; it cannot
        // overflow where -n could (n may be i64::MIN).
        let back: u64 = (-(n + 1)) as u64;
        if back >= len as u64 {
            Err(Error::IndexOutOfRange(axis, n, len))
        } else {
            Ok(len - 1 - (back as usize))
        }
    }
}

/// The zero-based offset of a range's lower edge: an unbounded edge means
/// the first element.
pub open spec fn lower_bound_spec(lo: Limit, len: usize, axis: Axis) -> Result<int, Error> {
    match lo {
        Limit::Bounded(n) => adjust_idx_spec(n, len, axis),
        Limit::Unbounded => Ok(0),
    }
}

/// The zero-based offset of a range's upper edge: an unbounded edge means
/// the last element.
pub open spec fn upper_bound_spec(hi: Limit, len: usize, axis: Axis) -> Result<int, Error> {
    match hi {
        Limit::Bounded(n) => adjust_idx_spec(n, len, axis),
        Limit::Unbounded => Ok(len as int - 1),
    }
}

/// What one selector picks from an axis: one element, an inclusive range
/// (empty when its edges cross), or everything.
pub open spec fn select_one<A>(items: Seq<A>, sel: Selector, axis: Axis) -> Result<Seq<A>, Error> {
    let len = items.len() as usize;
    match sel {
        Selector::Single(n) => match adjust_idx_spec(n, len, axis) {
            Ok(off) => Ok(seq![items[off]]),
            Err(e) => Err(e),
        },
        Selector::Range(lo, hi) => match lower_bound_spec(lo, len, axis) {
            Ok(ll) => match upper_bound_spec(hi, len, axis) {
                Ok(ul) => if ll <= ul {
                    Ok(items.subrange(ll, ul + 1))
                } else {
                    Ok(Seq::empty())
                },
                Err(e) => Err(e),
            },
            Err(e) => Err(e),
        },
        Selector::Wildcard => Ok(items),
    }
}

/// Applies the selectors from position `i` in order, appending what each
/// picks to `acc`: selection is additive, order-preserving and may repeat
/// elements.
pub open spec fn select_from<A>(
    items: Seq<A>,
    sels: Seq<Selector>,
    i: int,
    acc: Seq<A>,
    axis: Axis,
) -> Result<Seq<A>, Error>
    decreases sels.len() - i,
{
    if i < 0 || i >= sels.len() {
        Ok(acc)
    } else {
        match select_one(items, sels[i], axis) {
            Ok(part) => select_from(items, sels, i + 1, acc + part, axis),
            Err(e) => Err(e),
        }
    }
}

/// One whole axis: a leading wildcard selects everything in original
/// order; otherwise the selectors are applied left to right.
pub open spec fn select_axis_spec<A>(items: Seq<A>, sels: Seq<Selector>, axis: Axis) -> Result<
    Seq<A>,
    Error,
> {
    if sels.len() > 0 && sels[0] == Selector::Wildcard {
        Ok(items)
    } else {
        select_from(items, sels, 0, Seq::empty(), axis)
    }
}

/// The widest row: the number of output columns of the transpose.
pub open spec fn max_width(rows: Seq<Seq<Seq<char>>>) -> nat
    decreases rows.len(),
{
    if rows.len() == 0 {
        0
    } else {
        let w = max_width(rows.drop_last());
        if rows.last().len() > w {
            rows.last().len()
        } else {
            w
        }
    }
}

/// The cell of `row` at field `c`, or the `_` sentinel where the row is too
/// short.
pub open spec fn cell_or_sentinel(row: Seq<Seq<char>>, c: int) -> Seq<char> {
    if 0 <= c < row.len() {
        row[c]
    } else {
        seq!['_']
    }
}

/// The transpose of the selected rows: output column `c` holds, for each
/// row in order, that row's cell at field `c`, padded with the sentinel.
pub open spec fn transpose_spec(rows: Seq<Seq<Seq<char>>>) -> Seq<Seq<Seq<char>>> {
    Seq::new(max_width(rows), |c: int| Seq::new(rows.len(), |r: int| cell_or_sentinel(rows[r], c)))
}

/// The whole engine: reject an empty grid, select rows, transpose, select
/// columns; the result is column-major.
pub open spec fn filter_table_spec(
    grid: Seq<Seq<Seq<char>>>,
    row_sels: Seq<Selector>,
    col_sels: Seq<Selector>,
) -> Result<Seq<Seq<Seq<char>>>, Error> {
    if grid.len() == 0 || grid[0].len() == 0 {
        Err(Error::EmptyTable)
    } else {
        match select_axis_spec(grid, row_sels, Axis::Row) {
            Ok(rows) => select_axis_spec(transpose_spec(rows), col_sels, Axis::Col),
            Err(e) => Err(e),
        }
    }
}

fn push_string(v: &mut Vec<String>, s: String)
    ensures
        final(v).deep_view() == old(v).deep_view().push(s@),
{
    let ghost sv = s@;
    let ghost d0 = v.deep_view();
    v.push(s);
    proof {
        assert(v.deep_view().len() == d0.len() + 1);
        assert(forall|j: int| 0 <= j < d0.len() ==> v@[j] == old(v)@[j]);
        assert(forall|j: int| 0 <= j < d0.len() ==> v.deep_view()[j] == d0[j]);
        assert(v.deep_view()[d0.len() as int] == sv);
        assert(v.deep_view() =~~= d0.push(sv));
    }
}

fn push_row(v: &mut Vec<Vec<String>>, r: Vec<String>)
    ensures
        final(v).deep_view() == old(v).deep_view().push(r.deep_view()),
{
    let ghost rv = r.deep_view();
    let ghost d0 = v.deep_view();
    v.push(r);
    proof {
        assert(v.deep_view().len() == d0.len() + 1);
        assert(forall|j: int| 0 <= j < d0.len() ==> v@[j] == old(v)@[j]);
        assert(forall|j: int| 0 <= j < d0.len() ==> v.deep_view()[j] == d0[j]);
        assert(v.deep_view()[d0.len() as int] == rv);
        assert(v.deep_view() =~~= d0.push(rv));
    }
}

fn clone_row(row: &Vec<String>) -> (out: Vec<String>)
    ensures
        out.deep_view() == row.deep_view(),
{
    let mut out: Vec<String> = Vec::new();
    proof {
        assert(out.deep_view() =~~= row.deep_view().take(0));
    }
    let mut i: usize = 0;
    while i < row.len()
        invariant
            i <= row@.len(),
            out.deep_view() == row.deep_view().take(i as int),
        decreases row@.len() - i,
    {
        let ghost d0 = out.deep_view();
        push_string(&mut out, row[i].clone());
        proof {
            assert(out.deep_view() == d0.push(row.deep_view()[i as int]));
            assert(out.deep_view() =~~= row.deep_view().take(i + 1));
        }
        i += 1;
    }
    proof {
        assert(row.deep_view().take(row@.len() as int) =~~= row.deep_view());
    }
    out
}

/// Appends clones of `items[from..end]` to `out`.
fn append_range(out: &mut Vec<Vec<String>>, items: &Vec<Vec<String>>, from: usize, end: usize)
    requires
        from <= end <= items@.len(),
    ensures
        final(out).deep_view() == old(out).deep_view() + items.deep_view().subrange(
            from as int,
            end as int,
        ),
{
    proof {
        assert(out.deep_view() =~~= old(out).deep_view() + items.deep_view().subrange(
            from as int,
            from as int,
        ));
    }
    let mut k: usize = from;
    while k < end
        invariant
            from <= k <= end,
            end <= items@.len(),
            out.deep_view() == old(out).deep_view() + items.deep_view().subrange(
                from as int,
                k as int,
            ),
        decreases end - k,
    {
        let ghost d0 = out.deep_view();
        push_row(out, clone_row(&items[k]));
        proof {
            assert(out.deep_view() == d0.push(items.deep_view()[k as int]));
            assert(out.deep_view() =~~= old(out).deep_view() + items.deep_view().subrange(
                from as int,
                k + 1,
            ));
        }
        k += 1;
    }
}

/// Selects along one axis of `items`, cloning the chosen elements in
/// selector order.
pub fn select_axis(items: &Vec<Vec<String>>, sels: &Vec<Selector>, axis: Axis) -> (r: Result<
    Vec<Vec<String>>,
    Error,
>)
    ensures
        match r {
            Ok(chosen) => select_axis_spec(items.deep_view(), sels@, axis) == Ok::<
                Seq<Seq<Seq<char>>>,
                Error,
            >(chosen.deep_view()),
            Err(e) => select_axis_spec(items.deep_view(), sels@, axis) == Err::<
                Seq<Seq<Seq<char>>>,
                Error,
            >(e),
        },
{
    let n = items.len();
    if sels.len() > 0 && sels[0] == Selector::Wildcard {
        let mut all: Vec<Vec<String>> = Vec::new();
        append_range(&mut all, items, 0, n);
        proof {
            assert(all.deep_view() =~~= items.deep_view());
        }
        return Ok(all);
    }
    let mut out: Vec<Vec<String>> = Vec::new();
    proof {
        assert(out.deep_view() =~~= Seq::<Seq<Seq<char>>>::empty());
    }
    let mut j: usize = 0;
    while j < sels.len()
        invariant
            j <= sels@.len(),
            n == items@.len(),
            !(sels@.len() > 0 && sels@[0] == Selector::Wildcard),
            select_from(items.deep_view(), sels@, 0, Seq::empty(), axis) == select_from(
                items.deep_view(),
                sels@,
                j as int,
                out.deep_view(),
                axis,
            ),
        decreases sels@.len() - j,
    {
        let ghost out0 = out.deep_view();
        let ghost items_d = items.deep_view();
        proof {
            assert(items_d.len() == n as nat);
        }
        match sels[j] {
            Selector::Single(num) => {
                match adjust_idx(num, n, axis) {
                    Ok(off) => {
                        push_row(&mut out, clone_row(&items[off]));
                        proof {
                            assert(select_one(items_d, sels@[j as int], axis) == Ok::<
                                Seq<Seq<Seq<char>>>,
                                Error,
                            >(seq![items_d[off as int]]));
                            assert(out.deep_view() =~~= out0 + seq![items_d[off as int]]);
                        }
                    },
                    Err(e) => {
                        proof {
                            assert(select_one(items_d, sels@[j as int], axis) == Err::<
                                Seq<Seq<Seq<char>>>,
                                Error,
                            >(e));
                        }
                        return Err(e);
                    },
                }
            },
            Selector::Range(lo, hi) => {
                let ll: usize = match lo {
                    Limit::Bounded(num) => match adjust_idx(num, n, axis) {
                        Ok(off) => off,
                        Err(e) => {
                            return Err(e);
                        },
                    },
                    Limit::Unbounded => 0,
                };
                let ul: usize = match hi {
                    Limit::Bounded(num) => match adjust_idx(num, n, axis) {
                        Ok(off) => off,
                        Err(e) => {
                            return Err(e);
                        },
                    },
                    Limit::Unbounded => {
                        if n == 0 {
                            // An empty axis: the inclusive range up to the
                            // last element is empty whatever its edges.
                            proof {
                                assert(select_one(items.deep_view(), sels@[j as int], axis)
                                    == Ok::<Seq<Seq<Seq<char>>>, Error>(Seq::empty()));
                                assert(out.deep_view() =~= out0 + Seq::<Seq<Seq<char>>>::empty());
                            }
                            j += 1;
                            continue ;
                        }
                        n - 1
                    },
                };
                if ll <= ul {
                    proof {
                        assert(ul < n);
                    }
                    append_range(&mut out, items, ll, ul + 1);
                    proof {
                        assert(select_one(items.deep_view(), sels@[j as int], axis) == Ok::<
                            Seq<Seq<Seq<char>>>,
                            Error,
                        >(items.deep_view().subrange(ll as int, ul + 1)));
                    }
                } else {
                    proof {
                        assert(select_one(items.deep_view(), sels@[j as int], axis) == Ok::<
                            Seq<Seq<Seq<char>>>,
                            Error,
                        >(Seq::empty()));
                        assert(out.deep_view() =~= out0 + Seq::<Seq<Seq<char>>>::empty());
                    }
                }
            },
            Selector::Wildcard => {
                // Unreachable from a resolved axis, where a wildcard stands
                // alone; it selects everything, as a wildcard does.
                append_range(&mut out, items, 0, n);
                proof {
                    assert(items_d.subrange(0, n as int) =~~= items_d);
                    assert(select_one(items_d, sels@[j as int], axis) == Ok::<
                        Seq<Seq<Seq<char>>>,
                        Error,
                    >(items_d));
                }
            },
        }
        proof {
            assert(select_from(items_d, sels@, j as int, out0, axis) == select_from(
                items_d,
                sels@,
                j + 1,
                out.deep_view(),
                axis,
            ));
        }
        j += 1;
    }
    Ok(out)
}

fn sentinel_string() -> (s: String)
    ensures
        s@ == seq!['_'],
{
    let s = String::from_str("_");
    proof {
        reveal_strlit("_");
        assert(s@ =~= seq!['_']);
    }
    s
}

/// Transposes the selected rows into output columns, filling missing cells
/// of short rows with the `_` sentinel.
pub fn transpose(rows: &Vec<Vec<String>>) -> (cols: Vec<Vec<String>>)
    ensures
        cols.deep_view() == transpose_spec(rows.deep_view()),
{
    let ghost rows_d = rows.deep_view();
    let mut w: usize = 0;
    let mut r: usize = 0;
    while r < rows.len()
        invariant
            r <= rows@.len(),
            rows_d == rows.deep_view(),
            w as nat == max_width(rows_d.take(r as int)),
        decreases rows@.len() - r,
    {
        proof {
            assert(rows_d.take(r + 1).drop_last() =~~= rows_d.take(r as int));
            assert(rows_d.take(r + 1).last() == rows_d[r as int]);
            assert(rows_d[r as int].len() == rows@[r as int]@.len());
        }
        if rows[r].len() > w {
            w = rows[r].len();
        }
        r += 1;
    }
    proof {
        assert(rows_d.take(rows@.len() as int) =~~= rows_d);
    }
    let mut cols: Vec<Vec<String>> = Vec::new();
    let mut c: usize = 0;
    while c < w
        invariant
            c <= w,
            rows_d == rows.deep_view(),
            w as nat == max_width(rows_d),
            cols.deep_view().len() == c as nat,
            forall|x: int|
                0 <= x < c ==> #[trigger] cols.deep_view()[x] == transpose_spec(rows_d)[x],
        decreases w - c,
    {
        let mut col: Vec<String> = Vec::new();
        let mut r2: usize = 0;
        while r2 < rows.len()
            invariant
                r2 <= rows@.len(),
                rows_d == rows.deep_view(),
                col.deep_view().len() == r2 as nat,
                forall|y: int|
                    0 <= y < r2 ==> #[trigger] col.deep_view()[y] == cell_or_sentinel(
                        rows_d[y],
                        c as int,
                    ),
            decreases rows@.len() - r2,
        {
            let cell: String = if c < rows[r2].len() {
                rows[r2][c].clone()
            } else {
                sentinel_string()
            };
            proof {
                assert(cell@ == cell_or_sentinel(rows_d[r2 as int], c as int));
            }
            push_string(&mut col, cell);
            r2 += 1;
        }
        proof {
            assert(col.deep_view() =~~= Seq::new(
                rows_d.len(),
                |y: int| cell_or_sentinel(rows_d[y], c as int),
            ));
        }
        push_row(&mut cols, col);
        proof {
            assert(cols.deep_view()[c as int] == transpose_spec(rows_d)[c as int]);
        }
        c += 1;
    }
    proof {
        assert(cols.deep_view() =~~= transpose_spec(rows_d));
    }
    cols
}

/// Selecting along an axis whose elements all have length `l` yields
/// elements of length `l`: a selection only copies elements of the axis.
proof fn lemma_select_from_uniform(
    items: Seq<Seq<Seq<char>>>,
    sels: Seq<Selector>,
    i: int,
    acc: Seq<Seq<Seq<char>>>,
    axis: Axis,
    l: nat,
)
    requires
        items.len() <= usize::MAX,
        forall|k: int| 0 <= k < items.len() ==> (#[trigger] items[k]).len() == l,
        forall|j: int| 0 <= j < acc.len() ==> (#[trigger] acc[j]).len() == l,
        select_from(items, sels, i, acc, axis) is Ok,
    ensures
        forall|j: int|
            0 <= j < select_from(items, sels, i, acc, axis)->Ok_0.len() ==> (#[trigger] select_from(
                items,
                sels,
                i,
                acc,
                axis,
            )->Ok_0[j]).len() == l,
    decreases sels.len() - i,
{
    if 0 <= i < sels.len() {
        let part = select_one(items, sels[i], axis)->Ok_0;
        assert forall|j: int| 0 <= j < (acc + part).len() implies (#[trigger] (acc + part)[j]).len()
            == l by {
            if j < acc.len() {
                assert((acc + part)[j] == acc[j]);
            } else {
                let pj = j - acc.len();
                assert((acc + part)[j] == part[pj]);
                match sels[i] {
                    Selector::Single(n) => {
                        let off = adjust_idx_spec(n, items.len() as usize, axis)->Ok_0;
                        assert(part[pj] == items[off]);
                    },
                    Selector::Range(lo, hi) => {
                        let len = items.len() as usize;
                        let ll = lower_bound_spec(lo, len, axis)->Ok_0;
                        assert(part[pj] == items[ll + pj]);
                    },
                    Selector::Wildcard => {
                        assert(part[pj] == items[pj]);
                    },
                }
            }
        }
        lemma_select_from_uniform(items, sels, i + 1, acc + part, axis, l);
    }
}

/// The same, for a whole axis selection.
proof fn lemma_select_axis_uniform(
    items: Seq<Seq<Seq<char>>>,
    sels: Seq<Selector>,
    axis: Axis,
    l: nat,
)
    requires
        items.len() <= usize::MAX,
        forall|k: int| 0 <= k < items.len() ==> (#[trigger] items[k]).len() == l,
        select_axis_spec(items, sels, axis) is Ok,
    ensures
        forall|j: int|
            0 <= j < select_axis_spec(items, sels, axis)->Ok_0.len() ==> (
            #[trigger] select_axis_spec(items, sels, axis)->Ok_0[j]).len() == l,
{
    if !(sels.len() > 0 && sels[0] == Selector::Wildcard) {
        lemma_select_from_uniform(items, sels, 0, Seq::empty(), axis, l);
    }
}

/// The whole selection engine. The input grid is row-major; the result is
/// column-major, and all its columns have the same length (one entry per
/// selected row).
pub fn filter_table(table: &Vec<Vec<String>>, tokens: (Vec<Selector>, Vec<Selector>)) -> (r: Result<
    Vec<Vec<String>>,
    Error,
>)
    ensures
        match r {
            Ok(cols) => filter_table_spec(table.deep_view(), tokens.0@, tokens.1@) == Ok::<
                Seq<Seq<Seq<char>>>,
                Error,
            >(cols.deep_view()) && (forall|x: int|
                0 <= x < cols.deep_view().len() ==> (#[trigger] cols.deep_view()[x]).len()
                    == cols.deep_view()[0].len()),
            Err(e) => filter_table_spec(table.deep_view(), tokens.0@, tokens.1@) == Err::<
                Seq<Seq<Seq<char>>>,
                Error,
            >(e),
        },
{
    let ghost grid = table.deep_view();
    if table.len() == 0 {
        return Err(Error::EmptyTable);
    }
    if table[0].len() == 0 {
        proof {
            assert(grid[0].len() == table@[0]@.len());
        }
        return Err(Error::EmptyTable);
    }
    proof {
        assert(grid[0].len() == table@[0]@.len());
    }
    let rows = match select_axis(table, &tokens.0, Axis::Row) {
        Ok(v) => v,
        Err(e) => {
            return Err(e);
        },
    };
    let cols = transpose(&rows);
    let cols_count = cols.len();
    match select_axis(&cols, &tokens.1, Axis::Col) {
        Ok(out) => {
            proof {
                let rows_d = rows.deep_view();
                let cols_d = cols.deep_view();
                let out_d = out.deep_view();
                let picked = select_axis_spec(cols_d, tokens.1@, Axis::Col)->Ok_0;
                assert(cols_d.len() == cols_count as nat);
                assert(forall|k: int|
                    0 <= k < cols_d.len() ==> (#[trigger] cols_d[k]).len() == rows_d.len());
                lemma_select_axis_uniform(cols_d, tokens.1@, Axis::Col, rows_d.len());
                assert(picked == out_d);
                assert forall|x: int| 0 <= x < out_d.len() implies (#[trigger] out_d[x]).len()
                    == rows_d.len() by {
                    assert(out_d[x] == picked[x]);
                }
                assert(forall|x: int|
                    0 <= x < out_d.len() ==> (#[trigger] out_d[x]).len() == out_d[0].len());
            }
            Ok(out)
        },
        Err(e) => Err(e),
    }
}

} // verus!
