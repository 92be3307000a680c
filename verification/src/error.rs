use vstd::prelude::*;

verus! {

/// Fault returned when a caller violates an operation's index-validity
/// precondition. It carries the offending index and the bound that was in
/// force, so the caller can diagnose the violation.
#[derive(Debug, Clone, Copy, PartialEq, Eq, Structural)]
pub enum GridError {
    /// The operation needed at least one row, but the grid has none.
    NoRows,
    /// The row index `index` was given, but the grid has only `rows` rows.
    RowOutOfBounds { index: usize, rows: usize },
    /// The column index `index` was given, but the addressed row admits
    /// only columns below (or, for insertion, up to) `size`.
    ColumnOutOfBounds { index: usize, size: usize },
}

} // verus!
