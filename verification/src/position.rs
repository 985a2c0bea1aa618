use vstd::prelude::*;

verus! {

/// A zero-based `(row, column)` position in source text, totally ordered
/// lexicographically by row, then column.
#[derive(Clone, Copy, Debug, PartialEq, Eq, Structural)]
pub struct SourcePosition {
    pub row: usize,
    pub column: usize,
}

/// `a` comes at or before `b` in the lexicographic order on positions.
pub open spec fn pos_le(a: SourcePosition, b: SourcePosition) -> bool {
    a.row < b.row || (a.row == b.row && a.column <= b.column)
}

/// `a` comes strictly before `b` in the lexicographic order on positions.
pub open spec fn pos_lt(a: SourcePosition, b: SourcePosition) -> bool {
    a.row < b.row || (a.row == b.row && a.column < b.column)
}

/// Strict lexicographic comparison of two positions.
pub fn pos_before(a: SourcePosition, b: SourcePosition) -> (r: bool)
    ensures
        r == pos_lt(a, b),
{
    a.row < b.row || (a.row == b.row && a.column < b.column)
}

/// Non-strict lexicographic comparison of two positions.
pub fn pos_at_or_before(a: SourcePosition, b: SourcePosition) -> (r: bool)
    ensures
        r == pos_le(a, b),
{
    a.row < b.row || (a.row == b.row && a.column <= b.column)
}

} // verus!
