use tabsel::errors::{Axis, Error};
use tabsel::expr::parse_idx;
use tabsel::render::format_table;
use tabsel::select::{adjust_idx, filter_table, transpose};
use tabsel::table::create_table;

fn project(text: &str, expr: &str) -> Result<String, Error> {
    let selectors = parse_idx(expr)?;
    let table = create_table(text);
    let filtered = filter_table(&table, selectors)?;
    Ok(format_table(&filtered))
}

fn cells(rows: &[&[&str]]) -> Vec<Vec<String>> {
    rows.iter()
        .map(|r| r.iter().map(|c| c.to_string()).collect())
        .collect()
}

#[test]
fn create_table_splits_fields_and_rows() {
    assert_eq!(
        create_table("a b\nc d\n"),
        cells(&[&["a", "b"], &["c", "d"]])
    );
}

#[test]
fn create_table_collapses_space_runs() {
    assert_eq!(create_table("a   b\n"), cells(&[&["a", "b"]]));
}

#[test]
fn create_table_keeps_leading_and_trailing_empty_fields() {
    assert_eq!(create_table(" a\n"), cells(&[&["", "a"]]));
    assert_eq!(create_table("a \n"), cells(&[&["a", ""]]));
}

#[test]
fn create_table_emits_unterminated_trailing_row() {
    assert_eq!(create_table("a b\nc d"), cells(&[&["a", "b"], &["c", "d"]]));
}

#[test]
fn create_table_of_empty_text_is_empty() {
    assert_eq!(create_table(""), cells(&[]));
}

#[test]
fn adjust_idx_negative_round_trip() {
    assert_eq!(adjust_idx(-1, 3, Axis::Row), Ok(2));
    assert_eq!(adjust_idx(3, 3, Axis::Row), Ok(2));
    assert_eq!(adjust_idx(1, 3, Axis::Row), Ok(0));
    assert_eq!(adjust_idx(-3, 3, Axis::Row), Ok(0));
}

#[test]
fn adjust_idx_zero_is_invalid() {
    assert_eq!(adjust_idx(0, 3, Axis::Row), Err(Error::InvalidIndex(Axis::Row)));
    assert_eq!(adjust_idx(0, 1, Axis::Col), Err(Error::InvalidIndex(Axis::Col)));
}

#[test]
fn adjust_idx_out_of_range() {
    assert_eq!(
        adjust_idx(4, 3, Axis::Row),
        Err(Error::IndexOutOfRange(Axis::Row, 4, 3))
    );
    assert_eq!(
        adjust_idx(-4, 3, Axis::Col),
        Err(Error::IndexOutOfRange(Axis::Col, -4, 3))
    );
}

#[test]
fn transpose_pads_ragged_rows_with_sentinel() {
    let cols = transpose(&cells(&[&["a", "b", "c"], &["d"]]));
    assert_eq!(
        cols,
        cells(&[&["a", "d"], &["b", "_"], &["c", "_"]])
    );
}

#[test]
fn filter_range_is_inclusive() {
    let table = create_table("r1\nr2\nr3\nr4\nr5\n");
    let selectors = parse_idx("2~4;_").unwrap();
    let cols = filter_table(&table, selectors).unwrap();
    assert_eq!(cols, cells(&[&["r2", "r3", "r4"]]));
}

#[test]
fn filter_reorders_and_duplicates() {
    let table = create_table("r1\nr2\nr3\n");
    let selectors = parse_idx("3,1,1;_").unwrap();
    let cols = filter_table(&table, selectors).unwrap();
    assert_eq!(cols, cells(&[&["r3", "r1", "r1"]]));
}

#[test]
fn filter_empty_table_is_rejected() {
    let table = create_table("");
    let selectors = parse_idx("1;1").unwrap();
    assert_eq!(filter_table(&table, selectors), Err(Error::EmptyTable));
}

#[test]
fn filter_descending_range_selects_nothing() {
    let table = create_table("r1\nr2\nr3\nr4\nr5\n");
    let selectors = parse_idx("4~2;_").unwrap();
    let cols = filter_table(&table, selectors).unwrap();
    assert_eq!(cols, cells(&[]));
}

#[test]
fn single_cell_projection() {
    assert_eq!(project("a b\nc d\n", "1;1").unwrap(), "a \n");
}

#[test]
fn wildcard_column_pads_to_column_width() {
    assert_eq!(project("a bb\nccc d\n", "_;2").unwrap(), "bb \nd  \n");
}

#[test]
fn negative_one_selects_last_row() {
    assert_eq!(project("r1 x\nr2 y\nr3 z\n", "-1;_").unwrap(), "r3 z \n");
}

#[test]
fn open_upper_range_runs_to_last_row() {
    assert_eq!(project("r1\nr2\nr3\n", "2~;_").unwrap(), "r2 \nr3 \n");
}

#[test]
fn open_lower_range_runs_from_first_row() {
    assert_eq!(project("r1\nr2\nr3\n", "~2;_").unwrap(), "r1 \nr2 \n");
}

#[test]
fn zero_index_fails_before_output() {
    assert_eq!(project("a b\nc d\n", "0;1"), Err(Error::InvalidIndex(Axis::Row)));
}

#[test]
fn out_of_range_index_fails_whole_projection() {
    assert_eq!(
        project("a b\nc d\n", "9;1"),
        Err(Error::IndexOutOfRange(Axis::Row, 9, 2))
    );
    assert_eq!(
        project("a b\nc d\n", "1;-7"),
        Err(Error::IndexOutOfRange(Axis::Col, -7, 2))
    );
}

#[test]
fn double_wildcard_returns_whole_grid_transposed() {
    let table = create_table("a b\nc d\n");
    let selectors = parse_idx("_;_").unwrap();
    let cols = filter_table(&table, selectors).unwrap();
    assert_eq!(cols, cells(&[&["a", "c"], &["b", "d"]]));
    assert_eq!(project("a b\nc d\n", "_;_").unwrap(), "a b \nc d \n");
}

#[test]
fn alignment_pads_each_column_independently() {
    let text = "a bbbb c\nyyy z w\n";
    assert_eq!(project(text, "_;_").unwrap(), "a   bbbb c \nyyy z    w \n");
}

#[test]
fn rows_and_columns_both_selected() {
    let text = "11 12 13\n21 22 23\n31 32 33\n";
    assert_eq!(project(text, "1,3;2~3").unwrap(), "12 13 \n32 33 \n");
}

#[test]
fn empty_row_half_selects_no_rows() {
    assert_eq!(project("a\nb\n", ";_").unwrap(), "");
}

#[test]
fn empty_column_half_selects_no_columns() {
    assert_eq!(project("a b\nc d\n", "1;").unwrap(), "");
}

#[test]
fn extreme_negative_index_is_out_of_range() {
    assert_eq!(
        adjust_idx(i64::MIN, 3, Axis::Row),
        Err(Error::IndexOutOfRange(Axis::Row, i64::MIN, 3))
    );
    assert_eq!(
        adjust_idx(i64::MAX, 3, Axis::Col),
        Err(Error::IndexOutOfRange(Axis::Col, i64::MAX, 3))
    );
}
