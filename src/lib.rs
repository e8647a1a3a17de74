//! Condenses lines of component identifiers such as `R1, R2, R3, R7` into a
//! summary such as `R:1-3,7`.
use vstd::prelude::*;

pub mod ids;
pub mod line;
pub mod ranges;

pub use ids::extract_ids;
pub use line::{process_line, LineError};
pub use ranges::{condense_ranges, find_number_ranges};

verus! {

} // verus!
