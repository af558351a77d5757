//! The renderer: prints a column-major grid as text, each cell left-aligned
//! and right-padded to its column's width, cells separated by one space,
//! rows ended by a newline.

use vstd::prelude::*;
use vstd::string::*;

verus! {

/// The display width of a column: the length of its longest cell.
pub open spec fn col_width(col: Seq<Seq<char>>) -> nat
    decreases col.len(),
{
    if col.len() == 0 {
        0
    } else {
        let w = col_width(col.drop_last());
        if col.last().len() > w {
            col.last().len()
        } else {
            w
        }
    }
}

/// `n` spaces (none for `n <= 0`).
pub open spec fn spaces(n: int) -> Seq<char>
    decreases n,
{
    if n <= 0 {
        Seq::empty()
    } else {
        spaces(n - 1).push(' ')
    }
}

/// A cell padded on the right to width `w`.
pub open spec fn padded(cell: Seq<char>, w: int) -> Seq<char> {
    cell + spaces(w - cell.len())
}

/// The first `c` cells of output line `r`: each column's cell at row `r`,
/// padded to that column's width and followed by one space.
pub open spec fn line_upto(cols: Seq<Seq<Seq<char>>>, r: int, c: int) -> Seq<char>
    decreases c,
{
    if c <= 0 {
        Seq::empty()
    } else {
        line_upto(cols, r, c - 1) + padded(cols[c - 1][r], col_width(cols[c - 1]) as int).push(' ')
    }
}

/// The first `r` output lines, each closed by a newline.
pub open spec fn render_upto(cols: Seq<Seq<Seq<char>>>, r: int) -> Seq<char>
    decreases r,
{
    if r <= 0 {
        Seq::empty()
    } else {
        render_upto(cols, r - 1) + line_upto(cols, r - 1, cols.len() as int).push('\n')
    }
}

/// The rendered text of a column-major grid: one line per selected row.
pub open spec fn render_spec(cols: Seq<Seq<Seq<char>>>) -> Seq<char> {
    render_upto(
        cols,
        if cols.len() == 0 {
            0
        } else {
            cols[0].len() as int
        },
    )
}

fn column_width(col: &Vec<String>) -> (w: usize)
    ensures
        w as nat == col_width(col.deep_view()),
{
    let mut w: usize = 0;
    let mut r: usize = 0;
    while r < col.len()
        invariant
            r <= col@.len(),
            w as nat == col_width(col.deep_view().take(r as int)),
        decreases col@.len() - r,
    {
        proof {
            assert(col.deep_view().take(r + 1).drop_last() =~~= col.deep_view().take(r as int));
            assert(col.deep_view().take(r + 1).last() == col.deep_view()[r as int]);
            assert(col.deep_view()[r as int].len() == col@[r as int]@.len());
        }
        let l = col[r].as_str().unicode_len();
        if l > w {
            w = l;
        }
        r += 1;
    }
    proof {
        assert(col.deep_view().take(col@.len() as int) =~~= col.deep_view());
    }
    w
}

/// Appends `cell` right-padded to width `w`, then one separating space.
fn push_padded(out: &mut String, cell: &String, w: usize)
    ensures
        final(out)@ == old(out)@ + padded(cell@, w as int).push(' '),
{
    let ghost base = out@;
    let ghost cv = cell@;
    out.append(cell.as_str());
    let cell_len = cell.as_str().unicode_len();
    let mut k = cell_len;
    while k < w
        invariant
            cell_len as nat == cv.len(),
            cell_len <= k,
            k == cell_len || k <= w,
            out@ == base + cv + spaces(k - cell_len),
        decreases w - k,
    {
        out.push(' ');
        proof {
            assert(out@ =~= base + cv + spaces(k + 1 - cell_len));
        }
        k += 1;
    }
    out.push(' ');
    proof {
        assert(k == w || (k == cell_len && w <= cell_len));
        if k == cell_len && w <= cell_len {
            assert(spaces(k - cell_len) == Seq::<char>::empty());
            assert(spaces(w as int - cv.len()) == Seq::<char>::empty());
        }
        assert(out@ =~= base + padded(cv, w as int).push(' '));
    }
}

/// Formats a column-major grid, all of whose columns have the same length,
/// as aligned text.
pub fn format_table(cols: &Vec<Vec<String>>) -> (out: String)
    requires
        forall|x: int|
            0 <= x < cols.deep_view().len() ==> (#[trigger] cols.deep_view()[x]).len()
                == cols.deep_view()[0].len(),
    ensures
        out@ == render_spec(cols.deep_view()),
{
    let ghost cols_d = cols.deep_view();
    let ncols = cols.len();
    let mut widths: Vec<usize> = Vec::new();
    let mut c: usize = 0;
    while c < ncols
        invariant
            c <= ncols,
            ncols == cols@.len(),
            cols_d == cols.deep_view(),
            widths@.len() == c as nat,
            forall|x: int| 0 <= x < c ==> (#[trigger] widths@[x]) as nat == col_width(cols_d[x]),
        decreases ncols - c,
    {
        let w = column_width(&cols[c]);
        widths.push(w);
        c += 1;
    }
    let nrows = if ncols == 0 {
        0
    } else {
        cols[0].len()
    };
    proof {
        assert(nrows as nat == (if cols_d.len() == 0 {
            0nat
        } else {
            cols_d[0].len()
        }));
    }
    let mut out = String::new();
    proof {
        assert(out@ =~= render_upto(cols_d, 0));
    }
    let mut r: usize = 0;
    while r < nrows
        invariant
            r <= nrows,
            ncols == cols@.len(),
            cols_d == cols.deep_view(),
            widths@.len() == ncols as nat,
            forall|x: int| 0 <= x < ncols ==> (#[trigger] widths@[x]) as nat == col_width(cols_d[x]),
            nrows as nat == (if cols_d.len() == 0 {
                0nat
            } else {
                cols_d[0].len()
            }),
            forall|x: int|
                0 <= x < cols_d.len() ==> (#[trigger] cols_d[x]).len() == cols_d[0].len(),
            out@ == render_upto(cols_d, r as int),
        decreases nrows - r,
    {
        let mut c2: usize = 0;
        while c2 < ncols
            invariant
                c2 <= ncols,
                r < nrows,
                ncols == cols@.len(),
                cols_d == cols.deep_view(),
                widths@.len() == ncols as nat,
                forall|x: int|
                    0 <= x < ncols ==> (#[trigger] widths@[x]) as nat == col_width(cols_d[x]),
                nrows as nat == (if cols_d.len() == 0 {
                    0nat
                } else {
                    cols_d[0].len()
                }),
                forall|x: int|
                    0 <= x < cols_d.len() ==> (#[trigger] cols_d[x]).len() == cols_d[0].len(),
                out@ == render_upto(cols_d, r as int) + line_upto(cols_d, r as int, c2 as int),
            decreases ncols - c2,
        {
            proof {
                assert(cols_d[c2 as int].len() == cols_d[0].len());
                assert(cols_d[c2 as int].len() == cols@[c2 as int]@.len());
            }
            push_padded(&mut out, &cols[c2][r], widths[c2]);
            proof {
                assert(cols_d[c2 as int][r as int] == cols@[c2 as int]@[r as int]@);
                assert(out@ =~= render_upto(cols_d, r as int) + line_upto(
                    cols_d,
                    r as int,
                    c2 + 1,
                ));
            }
            c2 += 1;
        }
        out.push('\n');
        proof {
            assert(out@ =~= render_upto(cols_d, r + 1));
        }
        r += 1;
    }
    out
}

} // verus!
