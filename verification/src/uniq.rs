//! Dropping or counting repeated adjacent lines.

pub mod count;

use crate::text::{chars_of, copy_range, split, split_chars, string_of, views};
use crate::uniq::count::{LineCounts, UniqueReader};
use vstd::prelude::*;

verus! {

/// A line without the carriage return at its end, if it has one.
pub open spec fn strip_cr(line: Seq<char>) -> Seq<char> {
    if line.len() > 0 && line.last() == '\r' {
        line.drop_last()
    } else {
        line
    }
}

/// The lines of a text, as `BufRead::lines` gives them.
///
/// A line ends with a line feed, which is not part of it, nor is a carriage
/// return before the line feed. What stands behind the last line feed is a
/// line too, unless it is empty.
pub open spec fn lines_spec(text: Seq<char>) -> Seq<Seq<char>> {
    let pieces = split(text, '\n');
    let ended = Seq::new((pieces.len() - 1) as nat, |i: int| strip_cr(pieces[i]));
    if pieces.last().len() == 0 {
        ended
    } else {
        ended.push(pieces.last())
    }
}

/// The lines of `text`.
pub fn lines_of(text: &str) -> (r: Vec<Vec<char>>)
    ensures
        views(r@) == lines_spec(text@),
{
    let v = chars_of(text);
    let pieces = split_chars(&v, '\n');
    proof {
        crate::text::lemma_find_char(v@, '\n', 0);
        assert(split(v@, '\n').len() >= 1);
    }
    let n: usize = pieces.len();
    let ghost all = views(pieces@);
    let mut r: Vec<Vec<char>> = Vec::new();
    let mut i: usize = 0;
    while i + 1 < n
        invariant
            n == pieces.len(),
            n >= 1,
            i + 1 <= n,
            all == views(pieces@),
            views(r@) == Seq::new(i as nat, |k: int| strip_cr(all[k])),
        decreases n - i,
    {
        let piece = &pieces[i];
        let ghost before = views(r@);
        let end: usize = if piece.len() > 0 && piece[piece.len() - 1] == '\r' {
            piece.len() - 1
        } else {
            piece.len()
        };
        r.push(copy_range(piece, 0, end));
        proof {
            assert(all[i as int] == piece@);
            assert(piece@.subrange(0, end as int) =~= strip_cr(piece@));
            assert(views(r@) =~= before.push(strip_cr(piece@)));
            assert(views(r@) =~= Seq::new((i + 1) as nat, |k: int| strip_cr(all[k])));
        }
        i += 1;
    }
    let last = &pieces[n - 1];
    proof {
        assert(all.last() == last@);
    }
    if last.len() > 0 {
        let ghost before = views(r@);
        r.push(copy_range(last, 0, last.len()));
        proof {
            assert(last@.subrange(0, last.len() as int) =~= last@);
            assert(views(r@) =~= before.push(last@));
        }
    }
    r
}

/// Whether two lines are the same.
pub fn same_chars(a: &Vec<char>, b: &Vec<char>) -> (r: bool)
    ensures
        r == (a@ == b@),
{
    if a.len() != b.len() {
        return false;
    }
    let mut i: usize = 0;
    while i < a.len()
        invariant
            i <= a.len(),
            a.len() == b.len(),
            forall|k: int| 0 <= k < i ==> a@[k] == b@[k],
        decreases a.len() - i,
    {
        if a[i] != b[i] {
            return false;
        }
        i += 1;
    }
    assert(a@ =~= b@);
    true
}

/// The strings of the given lines.
pub fn strings_of(lines: &Vec<Vec<char>>) -> (r: Vec<String>)
    ensures
        r.len() == lines.len(),
        forall|i: int| 0 <= i < r.len() ==> (#[trigger] r[i])@ == lines[i]@,
{
    let mut r: Vec<String> = Vec::new();
    let mut i: usize = 0;
    while i < lines.len()
        invariant
            i <= lines.len(),
            r.len() == i,
            forall|k: int| 0 <= k < i ==> (#[trigger] r[k])@ == lines[k]@,
        decreases lines.len() - i,
    {
        r.push(string_of(&lines[i]));
        i += 1;
    }
    r
}

/// The lines without those that repeat the line before them.
pub open spec fn dedup_spec(lines: Seq<Seq<char>>) -> Seq<Seq<char>>
    decreases lines.len(),
{
    if lines.len() == 0 {
        Seq::empty()
    } else {
        let head = dedup_spec(lines.drop_last());
        if head.len() > 0 && head.last() == lines.last() {
            head
        } else {
            head.push(lines.last())
        }
    }
}

/// The lines of `text` without those that repeat the line before them.
pub fn read_lines(text: &str) -> (r: Vec<String>)
    ensures
        r.len() == dedup_spec(lines_spec(text@)).len(),
        forall|i: int| 0 <= i < r.len() ==> (#[trigger] r[i])@ == dedup_spec(lines_spec(text@))[i],
{
    let lines = lines_of(text);
    let ghost all = views(lines@);
    let mut acc: Vec<Vec<char>> = Vec::new();
    let mut i: usize = 0;
    assert(views(acc@) =~= dedup_spec(all.take(0)));
    while i < lines.len()
        invariant
            i <= lines.len(),
            all == views(lines@),
            views(acc@) == dedup_spec(all.take(i as int)),
        decreases lines.len() - i,
    {
        let line = &lines[i];
        proof {
            assert(all.take(i + 1).drop_last() =~= all.take(i as int));
            assert(all.take(i + 1).last() == line@);
            if acc.len() > 0 {
                assert(views(acc@).last() == acc@[acc.len() - 1]@);
            }
        }
        if acc.len() == 0 || !same_chars(&acc[acc.len() - 1], line) {
            let ghost before = views(acc@);
            acc.push(copy_range(line, 0, line.len()));
            proof {
                assert(line@.subrange(0, line.len() as int) =~= line@);
                assert(views(acc@) =~= before.push(line@));
            }
        }
        i += 1;
    }
    assert(all.take(lines.len() as int) =~= all);
    let r = strings_of(&acc);
    proof {
        assert forall|k: int| 0 <= k < r.len() implies (#[trigger] r[k])@ == dedup_spec(all)[k] by {
            assert(views(acc@)[k] == acc@[k]@);
        }
    }
    r
}

/// The lines from the `i`-th on that repeat the line before them and are
/// not in `found` yet, behind `found`; `prev` is the line before the
/// `i`-th.
pub open spec fn repeated_from(
    lines: Seq<Seq<char>>,
    i: int,
    prev: Seq<char>,
    found: Seq<Seq<char>>,
) -> Seq<Seq<char>>
    decreases lines.len() - i,
{
    if i < 0 || i >= lines.len() {
        found
    } else if lines[i] == prev && !found.contains(lines[i]) {
        repeated_from(lines, i + 1, lines[i], found.push(lines[i]))
    } else {
        repeated_from(lines, i + 1, lines[i], found)
    }
}

/// The lines that repeat the line before them, each once, in the order in
/// which they first do so.
pub open spec fn repeated_spec(lines: Seq<Seq<char>>) -> Seq<Seq<char>> {
    if lines.len() == 0 {
        Seq::empty()
    } else {
        repeated_from(lines, 1, lines[0], Seq::empty())
    }
}

/// The lines of `text` that repeat the line before them, each once.
pub fn repeated_lines(text: &str) -> (r: Vec<String>)
    ensures
        r.len() == repeated_spec(lines_spec(text@)).len(),
        forall|i: int|
            0 <= i < r.len() ==> (#[trigger] r[i])@ == repeated_spec(lines_spec(text@))[i],
{
    let lines = lines_of(text);
    let ghost all = views(lines@);
    let mut duplicates: Vec<Vec<char>> = Vec::new();
    if lines.len() == 0 {
        return Vec::new();
    }
    let mut i: usize = 1;
    assert(views(duplicates@) =~= Seq::<Seq<char>>::empty());
    while i < lines.len()
        invariant
            1 <= i <= lines.len(),
            all == views(lines@),
            repeated_spec(all) == repeated_from(all, i as int, all[i - 1], views(duplicates@)),
        decreases lines.len() - i,
    {
        let line = &lines[i];
        proof {
            assert(all[i as int] == line@);
            assert(all[i - 1] == lines@[i - 1]@);
        }
        if same_chars(line, &lines[i - 1]) && !contains_line(&duplicates, line) {
            let ghost before = views(duplicates@);
            duplicates.push(copy_range(line, 0, line.len()));
            proof {
                assert(line@.subrange(0, line.len() as int) =~= line@);
                assert(views(duplicates@) =~= before.push(line@));
            }
        }
        i += 1;
    }
    let r = strings_of(&duplicates);
    proof {
        assert forall|k: int| 0 <= k < r.len() implies (#[trigger] r[k])@ == repeated_spec(all)[k] by {
            assert(views(duplicates@)[k] == duplicates@[k]@);
        }
    }
    r
}

/// Whether `line` is one of `lines`.
pub fn contains_line(lines: &Vec<Vec<char>>, line: &Vec<char>) -> (r: bool)
    ensures
        r == views(lines@).contains(line@),
{
    let mut i: usize = 0;
    while i < lines.len()
        invariant
            i <= lines.len(),
            forall|k: int| 0 <= k < i ==> views(lines@)[k] != line@,
        decreases lines.len() - i,
    {
        assert(views(lines@)[i as int] == lines@[i as int]@);
        if same_chars(&lines[i], line) {
            return true;
        }
        i += 1;
    }
    false
}

/// The command line.
#[derive(Debug)]
pub struct Args {
    /// Write the number of occurrences before each line.
    pub count: bool,
    /// Write the lines that are repeated only.
    pub repeated: bool,
    /// Write the lines that are not repeated only.
    pub unique: bool,
    pub input_file: Option<String>,
    pub output_file: Option<String>,
    pub verbose: u8,
}

/// The lines and counts that the command line asks for, of the given text.
pub fn handle_args(args: &Args, text: String) -> (r: LineCounts)
    ensures
        r.with_counts == args.count,
        crate::uniq::count::elements_view(r.elements_counts@) == crate::uniq::count::groups_spec(
            text@,
            args.repeated,
            !args.repeated && args.unique,
            false,
        ),
{
    let mut uniq_reader = UniqueReader::new(text);
    if args.repeated {
        uniq_reader = uniq_reader.repeated();
    } else if args.unique {
        uniq_reader = uniq_reader.unique();
    }
    let mut counts = uniq_reader.into_line_counts();
    if args.count {
        counts = counts.include_counts();
    }
    counts
}

} // verus!
