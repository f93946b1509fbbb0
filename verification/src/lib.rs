//! Natural ("human") ordering of strings: runs of digits compare by their
//! numeric magnitude, everything else compares code point by code point, so
//! that `file2` sorts before `file11`.

pub mod digits;
pub mod laws;
pub mod merge;
pub mod natural_sort;
pub mod order;
pub mod runs;
pub mod token;

pub use crate::natural_sort::natural_sort;
pub use crate::natural_sort::HumanString;
pub use crate::natural_sort::StringElem;
pub use crate::natural_sort::Unorderable;
