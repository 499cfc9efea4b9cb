//! One range of a selection list: `N`, `N-`, `N-M` or `-M`.

use crate::text::{
    chars_of, char_is_digit, decimal_value, find_char, find_from, is_digit, is_numeral,
    lemma_find_char, occurrences, parse_decimal,
};
use std::str::FromStr;
use vstd::prelude::*;
use vstd::std_specs::convert::FromSpecImpl;

verus! {

/// A set of positions, counted from one.
#[derive(Clone, Debug, PartialEq, Eq)]
pub enum CutRange {
    /// This position only.
    Single(usize),
    /// This position and every one behind it.
    OpenEnd(usize),
    /// The positions from the first to the second, both included.
    Closed(usize, usize),
}

/// What can be asked whether it selects a position.
pub trait Selector {
    /// Whether the position `field` is selected.
    spec fn selects(&self, field: usize) -> bool;

    fn is_selected(&self, field: usize) -> (b: bool)
        ensures
            b == self.selects(field),
    ;
}

impl Selector for CutRange {
    open spec fn selects(&self, field: usize) -> bool {
        match *self {
            CutRange::Single(x) => x == field,
            CutRange::OpenEnd(start) => start <= field,
            CutRange::Closed(start, end) => start <= field <= end,
        }
    }

    fn is_selected(&self, field: usize) -> (b: bool) {
        match self {
            CutRange::Single(x) => *x == field,
            CutRange::OpenEnd(start) => *start <= field,
            CutRange::Closed(start, end) => *start <= field && field <= *end,
        }
    }
}

/// Why a text is not a range.
#[derive(Debug, Clone, Copy, PartialEq, Eq)]
pub enum ListCutStrError {
    /// A position is zero.
    ListMayNotIncludeZero,
    /// The text is not of one of the forms `N`, `N-`, `N-M`, `-M`.
    IllegalListValue,
}

impl ListCutStrError {
    /// The message for the error.
    pub fn message(&self) -> (s: &'static str)
        ensures
            s@ == match *self {
                ListCutStrError::ListMayNotIncludeZero => "values may not include zero"@,
                ListCutStrError::IllegalListValue => "illegal list value"@,
            },
    {
        match self {
            ListCutStrError::ListMayNotIncludeZero => "values may not include zero",
            ListCutStrError::IllegalListValue => "illegal list value",
        }
    }
}

impl From<usize> for CutRange {
    fn from(value: usize) -> (r: Self) {
        CutRange::Single(value)
    }
}

impl FromSpecImpl<usize> for CutRange {
    open spec fn obeys_from_spec() -> bool {
        true
    }

    open spec fn from_spec(value: usize) -> Self {
        CutRange::Single(value)
    }
}

/// Digits and hyphens only.
pub open spec fn range_chars(s: Seq<char>) -> bool {
    forall|i: int| 0 <= i < s.len() ==> is_digit(#[trigger] s[i]) || s[i] == '-'
}

/// The number that `s` denotes, where it is a decimal numeral that fits in
/// a `usize`.
pub open spec fn number_spec(s: Seq<char>) -> Option<usize> {
    if is_numeral(s) && decimal_value(s) <= usize::MAX {
        Some(decimal_value(s) as usize)
    } else {
        None
    }
}

/// The position that `s` denotes: a number that is not zero.
pub open spec fn position_spec(s: Seq<char>) -> Result<usize, ListCutStrError> {
    match number_spec(s) {
        None => Err(ListCutStrError::IllegalListValue),
        Some(n) => if n == 0 {
            Err(ListCutStrError::ListMayNotIncludeZero)
        } else {
            Ok(n)
        },
    }
}

/// The range that `s` denotes.
///
/// `s` holds digits and at most one hyphen. Without a hyphen it is one
/// position. With the hyphen in front, the range runs from the first
/// position to the one behind the hyphen. Otherwise it begins at the
/// position before the hyphen and ends at the one behind it or, where
/// nothing stands behind the hyphen, never. A position is a decimal numeral
/// that fits in a `usize` and is not zero.
pub open spec fn range_spec(s: Seq<char>) -> Result<CutRange, ListCutStrError> {
    let hyphen = find_char(s, '-', 0);
    let front = s.subrange(0, hyphen);
    let back = s.subrange(hyphen + 1, s.len() as int);
    if !range_chars(s) || occurrences(s, '-') > 1 {
        Err(ListCutStrError::IllegalListValue)
    } else if occurrences(s, '-') == 0 {
        match position_spec(s) {
            Ok(x) => Ok(CutRange::Single(x)),
            Err(e) => Err(e),
        }
    } else if hyphen == 0 {
        match position_spec(back) {
            Ok(x) => Ok(CutRange::Closed(1, x)),
            Err(e) => Err(e),
        }
    } else {
        match position_spec(front) {
            Err(e) => Err(e),
            Ok(start) => if back.len() == 0 {
                Ok(CutRange::OpenEnd(start))
            } else {
                match position_spec(back) {
                    Ok(end) => Ok(CutRange::Closed(start, end)),
                    Err(e) => Err(e),
                }
            },
        }
    }
}

/// Reads `v[from..to]` as a position.
fn read_position(v: &Vec<char>, from: usize, to: usize) -> (r: Result<usize, ListCutStrError>)
    requires
        from <= to <= v.len(),
    ensures
        r == position_spec(v@.subrange(from as int, to as int)),
{
    match parse_decimal(v, from, to) {
        None => Err(ListCutStrError::IllegalListValue),
        Some(n) => if n == 0 {
            Err(ListCutStrError::ListMayNotIncludeZero)
        } else {
            Ok(n)
        },
    }
}

/// Reads a range from characters.
pub fn read_range(v: &Vec<char>) -> (r: Result<CutRange, ListCutStrError>)
    ensures
        r == range_spec(v@),
{
    let len: usize = v.len();
    let mut hyphens: usize = 0;
    let mut legal: bool = true;
    let mut i: usize = 0;
    while i < len
        invariant
            i <= len,
            len == v.len(),
            hyphens == occurrences(v@.take(i as int), '-'),
            hyphens <= i,
            legal == range_chars(v@.take(i as int)),
        decreases len - i,
    {
        let c = v[i];
        proof {
            let seen = v@.take(i as int);
            let next = v@.take(i + 1);
            assert(next.drop_last() =~= seen);
            assert(next.last() == c);
            if range_chars(next) {
                assert forall|k: int| 0 <= k < seen.len() implies is_digit(#[trigger] seen[k])
                    || seen[k] == '-' by {
                    assert(next[k] == seen[k]);
                }
            }
            if range_chars(seen) && (is_digit(c) || c == '-') {
                assert forall|k: int| 0 <= k < next.len() implies is_digit(#[trigger] next[k])
                    || next[k] == '-' by {
                    if k < i {
                        assert(next[k] == seen[k]);
                    }
                }
            }
            if !(is_digit(c) || c == '-') {
                assert(!(is_digit(next[i as int]) || next[i as int] == '-'));
            }
        }
        if c == '-' {
            hyphens += 1;
        } else if !char_is_digit(c) {
            legal = false;
        }
        i += 1;
    }
    assert(v@.take(len as int) == v@);
    if !legal || hyphens > 1 {
        return Err(ListCutStrError::IllegalListValue);
    }
    if hyphens == 0 {
        proof {
            assert(v@.subrange(0, len as int) == v@);
        }
        return match read_position(v, 0, len) {
            Ok(x) => Ok(CutRange::Single(x)),
            Err(e) => Err(e),
        };
    }
    let hyphen = find_from(v, '-', 0);
    proof {
        lemma_find_char(v@, '-', 0);
        crate::text::lemma_occurrences(v@, '-');
        if hyphen == len {
            assert forall|k: int| 0 <= k < len implies v@[k] != '-' by {}
            assert(!v@.contains('-'));
        }
    }
    if hyphen == 0 {
        return match read_position(v, 1, len) {
            Ok(x) => Ok(CutRange::Closed(1, x)),
            Err(e) => Err(e),
        };
    }
    let start = match read_position(v, 0, hyphen) {
        Ok(x) => x,
        Err(e) => {
            return Err(e);
        },
    };
    if hyphen + 1 == len {
        return Ok(CutRange::OpenEnd(start));
    }
    match read_position(v, hyphen + 1, len) {
        Ok(end) => Ok(CutRange::Closed(start, end)),
        Err(e) => Err(e),
    }
}

impl CutRange {
    /// Reads a range from a text such as `3`, `3-`, `3-5` or `-5`.
    ///
    /// Fails with `IllegalListValue` where the text holds anything but digits
    /// and one hyphen at most, or a number is missing or does not fit in a
    /// `usize`, and with `ListMayNotIncludeZero` where a position is zero.
    pub fn from_str(s: &str) -> (r: Result<CutRange, ListCutStrError>)
        ensures
            r == range_spec(s@),
    {
        let v = chars_of(s);
        read_range(&v)
    }
}

impl FromStr for CutRange {
    type Err = ListCutStrError;

    fn from_str(s: &str) -> (r: Result<Self, Self::Err>)
        ensures
            r == range_spec(s@),
    {
        CutRange::from_str(s)
    }
}

} // verus!
