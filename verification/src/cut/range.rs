//! Selection lists and their ranges.

pub mod cut;
pub mod list;

pub use crate::cut::range::cut::{CutRange, ListCutStrError, Selector};
pub use crate::cut::range::list::CutList;
