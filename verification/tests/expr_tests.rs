use tabsel::errors::{Axis, Error};
use tabsel::expr::{parse_idx, resolve, tokenize, Limit, Selector, Token};

fn axis_selectors(s: &str) -> Result<Vec<Selector>, Error> {
    let tokens = tokenize(s, Axis::Row)?;
    resolve(&tokens, Axis::Row)
}

#[test]
fn tokenize_numbers_and_separators() {
    let tokens = tokenize("1,2~-3", Axis::Row).unwrap();
    assert_eq!(
        tokens,
        vec![
            Token::Num(1),
            Token::Comma,
            Token::Num(2),
            Token::Range,
            Token::Num(-3),
        ]
    );
}

#[test]
fn tokenize_stops_at_wildcard() {
    let tokens = tokenize("1,_!!junk", Axis::Row).unwrap();
    assert_eq!(tokens, vec![Token::Num(1), Token::Comma, Token::Any]);
}

#[test]
fn tokenize_rejects_unexpected_character() {
    assert_eq!(
        tokenize("1,x", Axis::Col),
        Err(Error::InvalidExpression(Axis::Col))
    );
}

#[test]
fn tokenize_rejects_malformed_number() {
    assert_eq!(
        tokenize("--3", Axis::Row),
        Err(Error::InvalidExpression(Axis::Row))
    );
    assert_eq!(
        tokenize("1,-", Axis::Row),
        Err(Error::InvalidExpression(Axis::Row))
    );
}

#[test]
fn tokenize_rejects_huge_number() {
    assert_eq!(
        tokenize("99999999999999999999", Axis::Row),
        Err(Error::InvalidExpression(Axis::Row))
    );
}

#[test]
fn resolve_keeps_written_order() {
    assert_eq!(
        axis_selectors("3,1,2").unwrap(),
        vec![
            Selector::Single(3),
            Selector::Single(1),
            Selector::Single(2),
        ]
    );
}

#[test]
fn resolve_range_forms() {
    assert_eq!(
        axis_selectors("1~2,8").unwrap(),
        vec![
            Selector::Range(Limit::Bounded(1), Limit::Bounded(2)),
            Selector::Single(8),
        ]
    );
    assert_eq!(
        axis_selectors("4~").unwrap(),
        vec![Selector::Range(Limit::Bounded(4), Limit::Unbounded)]
    );
    assert_eq!(
        axis_selectors("~3").unwrap(),
        vec![Selector::Range(Limit::Unbounded, Limit::Bounded(3))]
    );
}

#[test]
fn resolve_negative_indices() {
    assert_eq!(
        axis_selectors("-4~6").unwrap(),
        vec![Selector::Range(Limit::Bounded(-4), Limit::Bounded(6))]
    );
    assert_eq!(axis_selectors("-1").unwrap(), vec![Selector::Single(-1)]);
}

#[test]
fn resolve_empty_axis_is_empty() {
    assert_eq!(axis_selectors("").unwrap(), vec![]);
    assert_eq!(axis_selectors(",,").unwrap(), vec![]);
}

#[test]
fn wildcard_supersedes_everything_before_it() {
    assert_eq!(axis_selectors("1,2,_").unwrap(), vec![Selector::Wildcard]);
}

#[test]
fn wildcard_supersedes_everything_after_it() {
    assert_eq!(axis_selectors("_,5,7").unwrap(), vec![Selector::Wildcard]);
    assert_eq!(axis_selectors("3_").unwrap(), vec![Selector::Wildcard]);
}

#[test]
fn wildcard_after_dangling_range_is_rejected() {
    // The range marker still wants a number; the wildcard does not stand
    // for one.
    assert_eq!(
        axis_selectors("5~~_"),
        Err(Error::InvalidExpression(Axis::Row))
    );
    assert_eq!(
        axis_selectors("~_"),
        Err(Error::InvalidExpression(Axis::Row))
    );
}

#[test]
fn resolve_rejects_dangling_range() {
    assert_eq!(
        axis_selectors("~"),
        Err(Error::InvalidExpression(Axis::Row))
    );
    assert_eq!(
        axis_selectors("1~~2"),
        Err(Error::InvalidExpression(Axis::Row))
    );
}

#[test]
fn parse_idx_splits_on_first_semicolon() {
    let (rows, cols) = parse_idx("1,2,3;-4~6").unwrap();
    assert_eq!(
        rows,
        vec![
            Selector::Single(1),
            Selector::Single(2),
            Selector::Single(3),
        ]
    );
    assert_eq!(
        cols,
        vec![Selector::Range(Limit::Bounded(-4), Limit::Bounded(6))]
    );
}

#[test]
fn parse_idx_ignores_text_after_second_semicolon() {
    let (rows, cols) = parse_idx("1;2;zzz").unwrap();
    assert_eq!(rows, vec![Selector::Single(1)]);
    assert_eq!(cols, vec![Selector::Single(2)]);
}

#[test]
fn parse_idx_requires_semicolon() {
    assert_eq!(parse_idx("1,2"), Err(Error::InvalidExpression(Axis::Col)));
}

#[test]
fn parse_idx_reports_row_axis_first() {
    assert_eq!(parse_idx("x;y"), Err(Error::InvalidExpression(Axis::Row)));
    assert_eq!(parse_idx("1;y"), Err(Error::InvalidExpression(Axis::Col)));
}

#[test]
fn parse_idx_wildcard_halves() {
    let (rows, cols) = parse_idx("1~2,8;_").unwrap();
    assert_eq!(
        rows,
        vec![
            Selector::Range(Limit::Bounded(1), Limit::Bounded(2)),
            Selector::Single(8),
        ]
    );
    assert_eq!(cols, vec![Selector::Wildcard]);
}

#[test]
fn dangling_sign_before_wildcard_is_rejected() {
    // The pending buffer is still finalized when the wildcard stops the
    // scan, and a lone sign does not parse.
    assert_eq!(
        tokenize("-_", Axis::Row),
        Err(Error::InvalidExpression(Axis::Row))
    );
}
