//! Groups of equal adjacent lines and their sizes.

use crate::text::{
    decimal_digits, decimal_of, extend_chars, is_blank, char_is_whitespace, string_of, views,
};
use crate::uniq::{lines_of, lines_spec};
use vstd::prelude::*;
use vstd::std_specs::convert::FromSpecImpl;

verus! {

/// The lower case of a text.
pub uninterp spec fn lowercase(s: Seq<char>) -> Seq<char>;

/// The lower case of `s`.
///
/// Trusted: `str::to_lowercase` of the standard library, whose result
/// depends on the text alone and is named `lowercase` here.
#[verifier::external_body]
fn to_lowercase(s: &str) -> (r: String)
    ensures
        r@ == lowercase(s@),
{
    s.to_lowercase()
}

/// A text whose lines are grouped, and which groups to keep.
#[derive(Debug)]
pub struct UniqueReader {
    pub text: String,
    /// Keep the groups of two lines or more only.
    pub keep_repeated: bool,
    /// Keep the groups of one line only.
    pub only_unique: bool,
    /// Take lines that differ in case only as equal.
    pub ignore_case: bool,
}

/// A line and the number of lines in its group.
pub type ElementWithCount = (String, usize);

/// The lines and counts as values.
pub open spec fn elements_view(v: Seq<ElementWithCount>) -> Seq<(Seq<char>, usize)> {
    v.map_values(|e: ElementWithCount| (e.0@, e.1))
}

/// The lines that are grouped: each line of the text that is not white
/// space only, with a line feed behind it.
pub open spec fn kept_lines(lines: Seq<Seq<char>>) -> Seq<Seq<char>>
    decreases lines.len(),
{
    if lines.len() == 0 {
        Seq::empty()
    } else if is_blank(lines.last()) {
        kept_lines(lines.drop_last())
    } else {
        kept_lines(lines.drop_last()).push(lines.last().push('\n'))
    }
}

/// Whether two lines belong to one group.
pub open spec fn same_line(a: Seq<char>, b: Seq<char>, ignore_case: bool) -> bool {
    if ignore_case {
        lowercase(a) == lowercase(b)
    } else {
        a == b
    }
}

/// Whether a group that has ended is dropped.
pub open spec fn dropped(count: usize, keep_repeated: bool, only_unique: bool) -> bool {
    (keep_repeated && count == 1) || (only_unique && count > 1)
}

/// The groups after one more line.
///
/// A line that is the same as the first line of the last group makes that
/// group one larger. Any other line begins a group of its own; the group
/// before it, which has ended, is dropped where only repeated lines are
/// kept and it has one line, or only unique lines are kept and it has
/// several.
pub open spec fn group_step(
    acc: Seq<(Seq<char>, usize)>,
    line: Seq<char>,
    keep_repeated: bool,
    only_unique: bool,
    ignore_case: bool,
) -> Seq<(Seq<char>, usize)> {
    if acc.len() == 0 {
        seq![(line, 1usize)]
    } else if same_line(acc.last().0, line, ignore_case) {
        acc.drop_last().push((acc.last().0, (acc.last().1 + 1) as usize))
    } else if dropped(acc.last().1, keep_repeated, only_unique) {
        acc.drop_last().push((line, 1usize))
    } else {
        acc.push((line, 1usize))
    }
}

/// The groups of the given lines, the last of which has not ended.
pub open spec fn groups_of(
    lines: Seq<Seq<char>>,
    keep_repeated: bool,
    only_unique: bool,
    ignore_case: bool,
) -> Seq<(Seq<char>, usize)>
    decreases lines.len(),
{
    if lines.len() == 0 {
        Seq::empty()
    } else {
        group_step(
            groups_of(lines.drop_last(), keep_repeated, only_unique, ignore_case),
            lines.last(),
            keep_repeated,
            only_unique,
            ignore_case,
        )
    }
}

/// The groups of a text: those of its kept lines; where only repeated
/// lines are kept, the last group is dropped if it has one line.
pub open spec fn groups_spec(
    text: Seq<char>,
    keep_repeated: bool,
    only_unique: bool,
    ignore_case: bool,
) -> Seq<(Seq<char>, usize)> {
    let groups = groups_of(kept_lines(lines_spec(text)), keep_repeated, only_unique, ignore_case);
    if keep_repeated && groups.len() > 0 && groups.last().1 == 1 {
        groups.drop_last()
    } else {
        groups
    }
}

/// No group is larger than the number of lines.
pub proof fn lemma_group_sizes(
    lines: Seq<Seq<char>>,
    keep_repeated: bool,
    only_unique: bool,
    ignore_case: bool,
)
    requires
        lines.len() <= usize::MAX,
    ensures
        forall|i: int|
            0 <= i < groups_of(lines, keep_repeated, only_unique, ignore_case).len() ==> 1 <= (
            #[trigger] groups_of(lines, keep_repeated, only_unique, ignore_case)[i]).1
                <= lines.len(),
    decreases lines.len(),
{
    if lines.len() > 0 {
        lemma_group_sizes(lines.drop_last(), keep_repeated, only_unique, ignore_case);
        let acc = groups_of(lines.drop_last(), keep_repeated, only_unique, ignore_case);
        let next = groups_of(lines, keep_repeated, only_unique, ignore_case);
        assert forall|i: int| 0 <= i < next.len() implies 1 <= (#[trigger] next[i]).1
            <= lines.len() by {
            if i < acc.len() - 1 {
                assert(next[i] == acc[i]);
            } else if acc.len() > 0 {
                assert(1 <= acc[acc.len() - 1].1 <= lines.len() - 1);
            }
        }
    }
}

impl UniqueReader {
    /// All groups are kept, and case matters.
    pub fn new(text: String) -> (r: Self)
        ensures
            r.text == text,
            !r.keep_repeated,
            !r.only_unique,
            !r.ignore_case,
    {
        UniqueReader { text, keep_repeated: false, only_unique: false, ignore_case: false }
    }

    /// Keep the groups of two lines or more only.
    pub fn repeated(self) -> (r: Self)
        ensures
            r == (UniqueReader { keep_repeated: true, ..self }),
    {
        let mut r = self;
        r.keep_repeated = true;
        r
    }

    /// Keep the groups of one line only.
    pub fn unique(self) -> (r: Self)
        ensures
            r == (UniqueReader { only_unique: true, ..self }),
    {
        let mut r = self;
        r.only_unique = true;
        r
    }

    /// Take lines that differ in case only as equal.
    pub fn case_insensitive(self) -> (r: Self)
        ensures
            r == (UniqueReader { ignore_case: true, ..self }),
    {
        let mut r = self;
        r.ignore_case = true;
        r
    }

    /// The groups of the text, each as its first line and its size.
    pub fn read_lines(self) -> (r: Vec<ElementWithCount>)
        ensures
            elements_view(r@) == groups_spec(
                self.text@,
                self.keep_repeated,
                self.only_unique,
                self.ignore_case,
            ),
    {
        let keep_repeated = self.keep_repeated;
        let only_unique = self.only_unique;
        let ignore_case = self.ignore_case;
        let lines = lines_of(self.text.as_str());
        let ghost all = views(lines@);
        // the lines that are grouped
        let mut kept: Vec<Vec<char>> = Vec::new();
        let mut i: usize = 0;
        assert(views(kept@) =~= kept_lines(all.take(0)));
        while i < lines.len()
            invariant
                i <= lines.len(),
                all == views(lines@),
                views(kept@) == kept_lines(all.take(i as int)),
            decreases lines.len() - i,
        {
            let line = &lines[i];
            proof {
                assert(all.take(i + 1).drop_last() =~= all.take(i as int));
                assert(all.take(i + 1).last() == line@);
            }
            if !all_blank(line) {
                let ghost before = views(kept@);
                let mut copy: Vec<char> = Vec::new();
                extend_chars(&mut copy, line);
                copy.push('\n');
                kept.push(copy);
                proof {
                    assert(copy@ =~= line@.push('\n'));
                    assert(views(kept@) =~= before.push(line@.push('\n')));
                }
            }
            i += 1;
        }
        assert(all.take(lines.len() as int) =~= all);
        // the groups
        let ghost grouped = views(kept@);
        let mut acc: Vec<ElementWithCount> = Vec::new();
        let mut j: usize = 0;
        assert(elements_view(acc@) =~= groups_of(
            grouped.take(0),
            keep_repeated,
            only_unique,
            ignore_case,
        ));
        while j < kept.len()
            invariant
                j <= kept.len(),
                grouped == views(kept@),
                elements_view(acc@) == groups_of(
                    grouped.take(j as int),
                    keep_repeated,
                    only_unique,
                    ignore_case,
                ),
            decreases kept.len() - j,
        {
            let line = string_of(&kept[j]);
            let ghost before = elements_view(acc@);
            proof {
                assert(grouped.take(j + 1).drop_last() =~= grouped.take(j as int));
                assert(grouped.take(j + 1).last() == line@);
                lemma_group_sizes(grouped.take(j as int), keep_repeated, only_unique, ignore_case);
            }
            if acc.len() == 0 {
                acc.push((line, 1));
                proof {
                    assert(elements_view(acc@) =~= seq![(line@, 1usize)]);
                }
            } else {
                let n: usize = acc.len();
                proof {
                    assert(before.last() == (acc@[n - 1].0@, acc@[n - 1].1));
                }
                let equal = if ignore_case {
                    let a = to_lowercase(acc[n - 1].0.as_str());
                    let b = to_lowercase(line.as_str());
                    a == b
                } else {
                    acc[n - 1].0 == line
                };
                if equal {
                    let (first, count) = acc.pop().unwrap();
                    proof {
                        assert(elements_view(acc@) =~= before.drop_last());
                    }
                    let ghost shorter = elements_view(acc@);
                    acc.push((first, count + 1));
                    proof {
                        assert(elements_view(acc@) =~= shorter.push((first@, (count + 1) as usize)));
                    }
                } else {
                    if (keep_repeated && acc[n - 1].1 == 1) || (only_unique && acc[n - 1].1 > 1) {
                        acc.pop();
                        proof {
                            assert(elements_view(acc@) =~= before.drop_last());
                        }
                    }
                    let ghost shorter = elements_view(acc@);
                    acc.push((line, 1));
                    proof {
                        assert(elements_view(acc@) =~= shorter.push((line@, 1usize)));
                    }
                }
            }
            j += 1;
        }
        assert(grouped.take(kept.len() as int) =~= grouped);
        if keep_repeated && acc.len() > 0 && acc[acc.len() - 1].1 == 1 {
            let ghost before = elements_view(acc@);
            proof {
                assert(before.last() == (acc@[acc.len() - 1].0@, acc@[acc.len() - 1].1));
            }
            acc.pop();
            proof {
                assert(elements_view(acc@) =~= before.drop_last());
            }
        } else {
            proof {
                if acc.len() > 0 {
                    assert(elements_view(acc@).last() == (
                        acc@[acc.len() - 1].0@,
                        acc@[acc.len() - 1].1,
                    ));
                }
            }
        }
        acc
    }

    /// The groups of the text, to be written without their sizes.
    pub fn into_line_counts(self) -> (r: LineCounts)
        ensures
            !r.with_counts,
            elements_view(r.elements_counts@) == groups_spec(
                self.text@,
                self.keep_repeated,
                self.only_unique,
                self.ignore_case,
            ),
    {
        LineCounts::new(self.read_lines(), false)
    }
}

/// Whether every character of `line` is white space.
pub fn all_blank(line: &Vec<char>) -> (r: bool)
    ensures
        r == is_blank(line@),
{
    let mut i: usize = 0;
    while i < line.len()
        invariant
            i <= line.len(),
            forall|k: int| 0 <= k < i ==> crate::text::is_whitespace(#[trigger] line@[k]),
        decreases line.len() - i,
    {
        if !char_is_whitespace(line[i]) {
            return false;
        }
        i += 1;
    }
    true
}

/// Lines with the sizes of their groups, and whether the sizes are written.
#[derive(Debug, Default)]
pub struct LineCounts {
    pub elements_counts: Vec<ElementWithCount>,
    pub with_counts: bool,
}

impl From<Vec<ElementWithCount>> for LineCounts {
    fn from(elements_counts: Vec<ElementWithCount>) -> (r: Self) {
        LineCounts { elements_counts, with_counts: false }
    }
}

impl FromSpecImpl<Vec<ElementWithCount>> for LineCounts {
    open spec fn obeys_from_spec() -> bool {
        true
    }

    open spec fn from_spec(elements_counts: Vec<ElementWithCount>) -> Self {
        LineCounts { elements_counts, with_counts: false }
    }
}

/// A number in decimal, with spaces before it where it has less than four
/// digits, so that it takes four characters.
pub open spec fn padded_count(n: usize) -> Seq<char> {
    let digits = decimal_digits(n as nat);
    if digits.len() < 4 {
        Seq::new((4 - digits.len()) as nat, |i: int| ' ') + digits
    } else {
        digits
    }
}

/// What is written for a line: the line, behind the size of its group and
/// a space where sizes are written.
pub open spec fn key_val_text(key: Seq<char>, val: usize, with_counts: bool) -> Seq<char> {
    if with_counts {
        padded_count(val) + seq![' '] + key
    } else {
        key
    }
}

impl LineCounts {
    /// The given lines and sizes.
    pub fn new(elements_counts: Vec<ElementWithCount>, with_counts: bool) -> (r: Self)
        ensures
            r.elements_counts == elements_counts,
            r.with_counts == with_counts,
    {
        LineCounts { elements_counts, with_counts }
    }

    /// Write the sizes of the groups too.
    pub fn include_counts(self) -> (r: Self)
        ensures
            r == (LineCounts { with_counts: true, ..self }),
    {
        let mut r = self;
        r.with_counts = true;
        r
    }

    /// What is written for one line.
    pub fn format_key_val(key: &str, val: usize, with_counts: bool) -> (s: String)
        ensures
            s@ == key_val_text(key@, val, with_counts),
    {
        let text = crate::text::chars_of(key);
        if !with_counts {
            return string_of(&text);
        }
        let digits = decimal_of(val);
        let mut out: Vec<char> = Vec::new();
        let mut k: usize = digits.len();
        while k < 4
            invariant
                digits.len() <= k,
                digits.len() < 4 ==> k <= 4,
                digits.len() >= 4 ==> k == digits.len(),
                out@ == Seq::new((k - digits.len()) as nat, |i: int| ' '),
            decreases 4 - k,
        {
            out.push(' ');
            k += 1;
            assert(out@ =~= Seq::new((k - digits.len()) as nat, |i: int| ' '));
        }
        proof {
            if digits.len() >= 4 {
                assert(out@ + digits@ =~= digits@);
            }
        }
        extend_chars(&mut out, &digits);
        out.push(' ');
        extend_chars(&mut out, &text);
        assert(out@ =~= padded_count(val) + seq![' '] + key@);
        string_of(&out)
    }

    /// What is written, line by line.
    pub fn into_lines(self) -> (r: Vec<String>)
        ensures
            r.len() == self.elements_counts.len(),
            forall|i: int|
                0 <= i < r.len() ==> (#[trigger] r[i])@ == key_val_text(
                    self.elements_counts[i].0@,
                    self.elements_counts[i].1,
                    self.with_counts,
                ),
    {
        let mut r: Vec<String> = Vec::new();
        let mut i: usize = 0;
        while i < self.elements_counts.len()
            invariant
                i <= self.elements_counts.len(),
                r.len() == i,
                forall|k: int|
                    0 <= k < i ==> (#[trigger] r[k])@ == key_val_text(
                        self.elements_counts[k].0@,
                        self.elements_counts[k].1,
                        self.with_counts,
                    ),
            decreases self.elements_counts.len() - i,
        {
            r.push(
                LineCounts::format_key_val(
                    self.elements_counts[i].0.as_str(),
                    self.elements_counts[i].1,
                    self.with_counts,
                ),
            );
            i += 1;
        }
        r
    }
}

} // verus!
