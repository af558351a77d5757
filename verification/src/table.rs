//! The table builder: splits raw text into a grid of string cells. A run of
//! spaces is one field delimiter, a newline ends a row, and a trailing
//! unterminated field or row is still emitted.

use vstd::prelude::*;
use vstd::string::*;

verus! {

/// Relies on String::push: appends one character at the end of the string.
pub assume_specification[ String::push ](s: &mut String, ch: char)
    ensures
        final(s)@ == old(s)@.push(ch),
;

/// The builder, one character at a time from position `i`, carrying the
/// current field, the current row, and the rows built so far. Only the
/// first space of a run flushes a field; at the end, a non-empty leftover
/// field and row are emitted.
pub open spec fn build_from(
    s: Seq<char>,
    i: int,
    field: Seq<char>,
    row: Seq<Seq<char>>,
    acc: Seq<Seq<Seq<char>>>,
) -> Seq<Seq<Seq<char>>>
    decreases s.len() - i,
{
    if i < 0 || i >= s.len() {
        let full_row = if field.len() > 0 {
            row.push(field)
        } else {
            row
        };
        if full_row.len() > 0 {
            acc.push(full_row)
        } else {
            acc
        }
    } else if s[i] == ' ' {
        if i == 0 || s[i - 1] != ' ' {
            build_from(s, i + 1, Seq::empty(), row.push(field), acc)
        } else {
            build_from(s, i + 1, field, row, acc)
        }
    } else if s[i] == '\n' {
        build_from(s, i + 1, Seq::empty(), Seq::empty(), acc.push(row.push(field)))
    } else {
        build_from(s, i + 1, field.push(s[i]), row, acc)
    }
}

/// The grid a raw text builds: rows of cells, possibly ragged.
pub open spec fn build_table_spec(s: Seq<char>) -> Seq<Seq<Seq<char>>> {
    build_from(s, 0, Seq::empty(), Seq::empty(), Seq::empty())
}

/// Parses raw table text into a row-major grid of cells.
pub fn create_table(buffer: &str) -> (t: Vec<Vec<String>>)
    ensures
        t.deep_view() == build_table_spec(buffer@),
{
    let len = buffer.unicode_len();
    let mut table: Vec<Vec<String>> = Vec::new();
    let mut row: Vec<String> = Vec::new();
    let mut field = String::new();
    proof {
        assert(table.deep_view() =~~= Seq::<Seq<Seq<char>>>::empty());
        assert(row.deep_view() =~~= Seq::<Seq<char>>::empty());
    }
    let mut i: usize = 0;
    while i < len
        invariant
            i <= len,
            len == buffer@.len(),
            build_table_spec(buffer@) == build_from(
                buffer@,
                i as int,
                field@,
                row.deep_view(),
                table.deep_view(),
            ),
        decreases len - i,
    {
        let ghost field0 = field@;
        let ghost row0 = row.deep_view();
        let ghost table0 = table.deep_view();
        let c = buffer.get_char(i);
        if c == ' ' {
            let first_of_run = i == 0 || buffer.get_char(i - 1) != ' ';
            if first_of_run {
                push_field(&mut row, field);
                field = String::new();
                proof {
                    assert(build_from(buffer@, i as int, field0, row0, table0) == build_from(
                        buffer@,
                        i + 1,
                        field@,
                        row.deep_view(),
                        table.deep_view(),
                    ));
                }
            }
        } else if c == '\n' {
            push_field(&mut row, field);
            field = String::new();
            push_grid_row(&mut table, row);
            row = Vec::new();
            proof {
                assert(row.deep_view() =~~= Seq::<Seq<char>>::empty());
                assert(build_from(buffer@, i as int, field0, row0, table0) == build_from(
                    buffer@,
                    i + 1,
                    field@,
                    row.deep_view(),
                    table.deep_view(),
                ));
            }
        } else {
            field.push(c);
            proof {
                assert(build_from(buffer@, i as int, field0, row0, table0) == build_from(
                    buffer@,
                    i + 1,
                    field@,
                    row.deep_view(),
                    table.deep_view(),
                ));
            }
        }
        i += 1;
    }
    if !field.as_str().is_empty() {
        push_field(&mut row, field);
    }
    if row.len() > 0 {
        push_grid_row(&mut table, row);
        table
    } else {
        table
    }
}

fn push_field(row: &mut Vec<String>, field: String)
    ensures
        final(row).deep_view() == old(row).deep_view().push(field@),
{
    let ghost fv = field@;
    let ghost d0 = row.deep_view();
    row.push(field);
    proof {
        assert(row.deep_view().len() == d0.len() + 1);
        assert(forall|j: int| 0 <= j < d0.len() ==> row@[j] == old(row)@[j]);
        assert(forall|j: int| 0 <= j < d0.len() ==> row.deep_view()[j] == d0[j]);
        assert(row.deep_view()[d0.len() as int] == fv);
        assert(row.deep_view() =~~= d0.push(fv));
    }
}

fn push_grid_row(table: &mut Vec<Vec<String>>, row: Vec<String>)
    ensures
        final(table).deep_view() == old(table).deep_view().push(row.deep_view()),
{
    let ghost rv = row.deep_view();
    let ghost d0 = table.deep_view();
    table.push(row);
    proof {
        assert(table.deep_view().len() == d0.len() + 1);
        assert(forall|j: int| 0 <= j < d0.len() ==> table@[j] == old(table)@[j]);
        assert(forall|j: int| 0 <= j < d0.len() ==> table.deep_view()[j] == d0[j]);
        assert(table.deep_view()[d0.len() as int] == rv);
        assert(table.deep_view() =~~= d0.push(rv));
    }
}

} // verus!
