//! A selection list: ranges separated by commas or white space.

use crate::cut::range::cut::{range_spec, read_range, CutRange, ListCutStrError, Selector};
use crate::text::{chars_of, split, split_chars, split_words, views, words};
use std::str::FromStr;
use vstd::prelude::*;

verus! {

/// A list of ranges. It selects what one of its ranges selects.
#[derive(Clone, Debug, PartialEq, Eq, Default)]
pub struct CutList {
    container: Vec<CutRange>,
}

impl View for CutList {
    type V = Seq<CutRange>;

    closed spec fn view(&self) -> Seq<CutRange> {
        self.container@
    }
}

impl CutList {
    /// The list of the given ranges.
    pub fn new(ranges: Vec<CutRange>) -> (list: Self)
        ensures
            list@ == ranges@,
    {
        CutList { container: ranges }
    }

    /// The number of ranges.
    pub fn len(&self) -> (n: usize)
        ensures
            n == self@.len(),
    {
        self.container.len()
    }

    /// Whether the list holds no range.
    pub fn is_empty(&self) -> (b: bool)
        ensures
            b == (self@.len() == 0),
    {
        self.container.len() == 0
    }
}

impl Selector for CutList {
    open spec fn selects(&self, field: usize) -> bool {
        exists|i: int| 0 <= i < self@.len() && (#[trigger] self@[i]).selects(field)
    }

    fn is_selected(&self, field: usize) -> (b: bool) {
        let mut i: usize = 0;
        while i < self.container.len()
            invariant
                i <= self.container.len(),
                forall|k: int| 0 <= k < i ==> !(#[trigger] self@[k]).selects(field),
            decreases self.container.len() - i,
        {
            if self.container[i].is_selected(field) {
                return true;
            }
            i += 1;
        }
        false
    }
}

/// The pieces of the words from the `i`-th on, each word split at its
/// commas.
pub open spec fn pieces_from(ws: Seq<Seq<char>>, i: int) -> Seq<Seq<char>>
    decreases ws.len() - i,
{
    if i < 0 || i >= ws.len() {
        Seq::empty()
    } else {
        split(ws[i], ',') + pieces_from(ws, i + 1)
    }
}

/// The texts of the ranges of a list: what commas and white space separate.
/// Two commas with nothing between them give an empty text.
pub open spec fn list_pieces(s: Seq<char>) -> Seq<Seq<char>> {
    pieces_from(words(s), 0)
}

/// The ranges that the pieces denote, or the error of the first piece that
/// is no range.
pub open spec fn ranges_spec(pieces: Seq<Seq<char>>) -> Result<Seq<CutRange>, ListCutStrError>
    decreases pieces.len(),
{
    if pieces.len() == 0 {
        Ok(Seq::empty())
    } else {
        match range_spec(pieces[0]) {
            Err(e) => Err(e),
            Ok(r) => match ranges_spec(pieces.drop_first()) {
                Ok(rest) => Ok(seq![r] + rest),
                Err(e) => Err(e),
            },
        }
    }
}

/// `head` before the ranges that `rest` holds, if it holds any.
pub open spec fn ranges_behind(
    head: Seq<CutRange>,
    rest: Result<Seq<CutRange>, ListCutStrError>,
) -> Result<Seq<CutRange>, ListCutStrError> {
    match rest {
        Ok(tail) => Ok(head + tail),
        Err(e) => Err(e),
    }
}

/// The list that `s` denotes.
pub open spec fn list_spec(s: Seq<char>) -> Result<Seq<CutRange>, ListCutStrError> {
    ranges_spec(list_pieces(s))
}

impl CutList {
    /// Reads a list of ranges, separated by commas or white space.
    ///
    /// Fails as `CutRange::from_str` does on the first text that is no
    /// range. The empty text, and white space alone, give the empty list.
    pub fn from_str(s: &str) -> (r: Result<CutList, ListCutStrError>)
        ensures
            r is Ok ==> list_spec(s@) == Ok::<Seq<CutRange>, ListCutStrError>(r->Ok_0@),
            r is Err ==> list_spec(s@) == Err::<Seq<CutRange>, ListCutStrError>(r->Err_0),
    {
        let v = chars_of(s);
        let ws = split_words(&v);
        let mut pieces: Vec<Vec<char>> = Vec::new();
        let mut i: usize = 0;
        assert(views(pieces@) =~= Seq::<Seq<char>>::empty());
        while i < ws.len()
            invariant
                i <= ws.len(),
                views(ws@) == words(s@),
                list_pieces(s@) == views(pieces@) + pieces_from(views(ws@), i as int),
            decreases ws.len() - i,
        {
            let parts = split_chars(&ws[i], ',');
            let ghost before = views(pieces@);
            let mut k: usize = 0;
            while k < parts.len()
                invariant
                    k <= parts.len(),
                    views(pieces@) == before + views(parts@).take(k as int),
                decreases parts.len() - k,
            {
                let ghost old_pieces = pieces@;
                pieces.push(crate::text::copy_range(&parts[k], 0, parts[k].len()));
                proof {
                    assert(parts@[k as int]@.subrange(0, parts@[k as int]@.len() as int)
                        =~= parts@[k as int]@);
                    assert(views(pieces@) =~= views(old_pieces).push(parts@[k as int]@));
                    assert(views(parts@).take(k + 1) =~= views(parts@).take(k as int).push(
                        parts@[k as int]@,
                    ));
                }
                k += 1;
            }
            proof {
                assert(views(parts@).take(parts.len() as int) =~= views(parts@));
                assert(views(ws@)[i as int] == ws@[i as int]@);
                assert(before + (split(ws@[i as int]@, ',') + pieces_from(views(ws@), i + 1)) =~= (
                before + split(ws@[i as int]@, ',')) + pieces_from(views(ws@), i + 1));
            }
            i += 1;
        }
        proof {
            assert(views(pieces@) + Seq::<Seq<char>>::empty() =~= views(pieces@));
            assert(list_pieces(s@) == views(pieces@));
        }
        let ghost all = views(pieces@);
        let mut ranges: Vec<CutRange> = Vec::new();
        let mut j: usize = 0;
        assert(all.skip(0) =~= all);
        assert(Seq::<CutRange>::empty() + ranges_spec(all)->Ok_0 =~= ranges_spec(all)->Ok_0);
        while j < pieces.len()
            invariant
                j <= pieces.len(),
                all == views(pieces@),
                all == list_pieces(s@),
                ranges_spec(all) == ranges_behind(ranges@, ranges_spec(all.skip(j as int))),
            decreases pieces.len() - j,
        {
            proof {
                let rest = all.skip(j as int);
                assert(rest[0] == pieces@[j as int]@);
                assert(rest.drop_first() =~= all.skip(j + 1));
            }
            match read_range(&pieces[j]) {
                Ok(r) => {
                    proof {
                        let tail = ranges_spec(all.skip(j + 1));
                        if tail is Ok {
                            assert(ranges@ + (seq![r] + tail->Ok_0) =~= ranges@.push(r) + tail->Ok_0);
                        }
                    }
                    ranges.push(r);
                },
                Err(e) => {
                    return Err(e);
                },
            }
            j += 1;
        }
        proof {
            assert(all.skip(pieces.len() as int) =~= Seq::<Seq<char>>::empty());
            assert(ranges@ + Seq::<CutRange>::empty() =~= ranges@);
        }
        Ok(CutList::new(ranges))
    }
}

impl FromStr for CutList {
    type Err = ListCutStrError;

    fn from_str(s: &str) -> (r: Result<Self, Self::Err>)
        ensures
            r is Ok ==> list_spec(s@) == Ok::<Seq<CutRange>, ListCutStrError>(r->Ok_0@),
            r is Err ==> list_spec(s@) == Err::<Seq<CutRange>, ListCutStrError>(r->Err_0),
    {
        CutList::from_str(s)
    }
}

} // verus!
