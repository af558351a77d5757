use vstd::prelude::*;

verus! {

/// The two axes of a table expression: rows before the `;`, columns after it.
#[derive(Clone, Copy, Debug, PartialEq, Eq, Structural)]
pub enum Axis {
    Row,
    Col,
}

/// Everything that can go wrong between parsing an index expression and
/// projecting a table through it.
#[derive(Clone, Copy, Debug, PartialEq, Eq, Structural)]
pub enum Error {
    /// The index string violates the expression grammar on the given axis.
    InvalidExpression(Axis),
    /// A selector on the given axis evaluated to the literal index `0`.
    InvalidIndex(Axis),
    /// A selector on the given axis resolved outside the axis: the offending
    /// 1-based index and the axis length are carried for reporting.
    IndexOutOfRange(Axis, i64, usize),
    /// The built grid has no rows, or its first row has no fields.
    EmptyTable,
}

} // verus!
