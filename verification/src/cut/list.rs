//! Ranges on their own, with an error type of their own.

use crate::cut::range::cut::{range_spec, CutRange as ListRange, ListCutStrError};
use std::str::FromStr;
use vstd::prelude::*;

verus! {

/// A set of positions, counted from one.
#[derive(Clone, Debug, PartialEq, Eq)]
pub enum CutRange {
    /// This position only.
    Single(usize),
    /// This position and every one behind it.
    OpenEnd(usize),
    /// The positions from the first to the second, both included.
    Closed(usize, usize),
}

/// Why a text is not a range.
#[derive(Debug, Clone, Copy, PartialEq, Eq)]
pub enum CutRangeStrError {
    /// A position is zero.
    ListMayNotIncludeZero,
    /// The text is not of one of the forms `N`, `N-`, `N-M`, `-M`.
    IllegalListValue,
}

/// The range as this module writes it.
pub open spec fn as_range(r: ListRange) -> CutRange {
    match r {
        ListRange::Single(x) => CutRange::Single(x),
        ListRange::OpenEnd(start) => CutRange::OpenEnd(start),
        ListRange::Closed(start, end) => CutRange::Closed(start, end),
    }
}

/// The error as this module writes it.
pub open spec fn as_error(e: ListCutStrError) -> CutRangeStrError {
    match e {
        ListCutStrError::ListMayNotIncludeZero => CutRangeStrError::ListMayNotIncludeZero,
        ListCutStrError::IllegalListValue => CutRangeStrError::IllegalListValue,
    }
}

impl CutRange {
    /// Whether the position `field` is in the range.
    pub open spec fn selects(&self, field: usize) -> bool {
        match *self {
            CutRange::Single(x) => x == field,
            CutRange::OpenEnd(start) => start <= field,
            CutRange::Closed(start, end) => start <= field <= end,
        }
    }

    /// Whether the position `field` is in the range.
    pub fn is_selected(&self, field: usize) -> (b: bool)
        ensures
            b == self.selects(field),
    {
        match self {
            CutRange::Single(x) => *x == field,
            CutRange::OpenEnd(start) => *start <= field,
            CutRange::Closed(start, end) => *start <= field && field <= *end,
        }
    }

    /// Reads a range from a text such as `3`, `3-`, `3-5` or `-5`.
    pub fn from_str(s: &str) -> (r: Result<CutRange, CutRangeStrError>)
        ensures
            r is Ok ==> range_spec(s@) is Ok && r->Ok_0 == as_range(range_spec(s@)->Ok_0),
            r is Err ==> range_spec(s@) is Err && r->Err_0 == as_error(range_spec(s@)->Err_0),
    {
        match ListRange::from_str(s) {
            Ok(ListRange::Single(x)) => Ok(CutRange::Single(x)),
            Ok(ListRange::OpenEnd(start)) => Ok(CutRange::OpenEnd(start)),
            Ok(ListRange::Closed(start, end)) => Ok(CutRange::Closed(start, end)),
            Err(ListCutStrError::ListMayNotIncludeZero) => Err(
                CutRangeStrError::ListMayNotIncludeZero,
            ),
            Err(ListCutStrError::IllegalListValue) => Err(CutRangeStrError::IllegalListValue),
        }
    }
}

impl FromStr for CutRange {
    type Err = CutRangeStrError;

    fn from_str(s: &str) -> (r: Result<Self, Self::Err>)
        ensures
            r is Ok ==> range_spec(s@) is Ok && r->Ok_0 == as_range(range_spec(s@)->Ok_0),
            r is Err ==> range_spec(s@) is Err && r->Err_0 == as_error(range_spec(s@)->Err_0),
    {
        CutRange::from_str(s)
    }
}

} // verus!
