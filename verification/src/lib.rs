//! A jagged two-dimensional grid: rows of independent, changing lengths,
//! stored row-major in one contiguous buffer.
//!
//! The grid owns a flat element buffer and a table of row start offsets.
//! Every public operation keeps the two in step, including the edits that
//! change a row's length and therefore shift every later row's position in
//! the buffer.

mod error;
mod grid;

pub use error::GridError;
pub use grid::DynamicGrid;
pub use grid::last_filled_row;
pub use grid::lemma_last_filled_row_props;
pub use grid::lemma_total_size_is_flatten_len;
pub use grid::swapped;
pub use grid::total_size;
