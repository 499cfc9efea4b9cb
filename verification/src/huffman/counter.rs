//! Counting how often each symbol occurs in a text.

use crate::huffman::table::FrequencyTable;
use crate::text::{chars_of, lemma_occurrences, occurrences};
use vstd::prelude::*;

verus! {

/// The count of every symbol that occurs in `text`.
pub open spec fn count_map(text: Seq<char>) -> Map<char, nat> {
    Map::new(|c: char| text.contains(c), |c: char| occurrences(text, c))
}

/// Counting one more symbol.
pub proof fn lemma_count_map_push(text: Seq<char>, c: char)
    ensures
        count_map(text.push(c)) == count_map(text).insert(c, occurrences(text, c) + 1),
{
    let next = text.push(c);
    assert(next.drop_last() =~= text);
    assert forall|x: char| count_map(next).contains_key(x) <==> count_map(text).insert(
        c,
        occurrences(text, c) + 1,
    ).contains_key(x) by {
        lemma_occurrences(next, x);
        lemma_occurrences(text, x);
    }
    assert(count_map(next) =~= count_map(text).insert(c, occurrences(text, c) + 1));
}

/// Whether `after` holds what `before` holds with the symbols of `text`
/// counted on top: the symbols of both, each as often as in both together.
pub open spec fn counted_on_top(
    before: FrequencyTable,
    after: FrequencyTable,
    text: Seq<char>,
) -> bool {
    &&& forall|c: char| #[trigger]
        after@.contains_key(c) <==> before@.contains_key(c) || text.contains(c)
    &&& forall|c: char| #[trigger]
        after.count_of(c) == before.count_of(c) + occurrences(text, c)
    &&& after.spec_total() == before.spec_total() + text.len()
}

/// The part of `text` that can be counted on top of `total` symbols: all of
/// it, or as much as leads up to `usize::MAX` symbols.
pub open spec fn countable(total: usize, text: Seq<char>) -> Seq<char> {
    if total + text.len() <= usize::MAX {
        text
    } else {
        text.take(usize::MAX - total)
    }
}

/// A text that waits to be read, and the count of the symbols read so far.
#[derive(Debug)]
pub struct Characters {
    /// The text that has not been read yet.
    pub source: String,
    /// The counts of what has been read.
    pub counted: FrequencyTable,
}

impl Characters {
    /// The text that has not been read yet.
    pub open spec fn text(&self) -> Seq<char> {
        self.source@
    }

    /// Nothing counted yet.
    pub fn new(source: String) -> (r: Self)
        ensures
            r.text() == source@,
            r.counted.wf(),
            r.counted@ == Map::<char, nat>::empty(),
            r.counted.spec_total() == 0,
    {
        Characters { source, counted: FrequencyTable::new() }
    }

    /// Counts the symbols of `line` on top of what has been counted.
    ///
    /// Returns `false`, having counted the symbols before it, at the symbol
    /// with which `usize::MAX` symbols would be passed.
    pub fn count_line(&mut self, line: &str) -> (ok: bool)
        ensures
            final(self).text() == old(self).text(),
            final(self).counted.wf(),
            ok <==> old(self).counted.spec_total() + line@.len() <= usize::MAX,
            counted_on_top(
                old(self).counted,
                final(self).counted,
                countable(old(self).counted.spec_total(), line@),
            ),
    {
        proof {
            use_type_invariant(&self.counted);
        }
        let symbols = chars_of(line);
        let mut i: usize = 0;
        proof {
            assert(symbols@.take(0) =~= Seq::<char>::empty());
        }
        while i < symbols.len()
            invariant
                i <= symbols.len(),
                symbols@ == line@,
                self.text() == old(self).text(),
                self.counted.wf(),
                counted_on_top(old(self).counted, self.counted, symbols@.take(i as int)),
            decreases symbols.len() - i,
        {
            let ghost before = self.counted;
            let c = symbols[i];
            let ok = self.counted.add(c);
            if !ok {
                return false;
            }
            proof {
                let seen = symbols@.take(i as int);
                let next = symbols@.take(i + 1);
                assert(next.drop_last() == seen);
                assert(next.last() == c);
                assert forall|x: char| #[trigger]
                    self.counted@.contains_key(x) <==> old(self).counted@.contains_key(x)
                        || next.contains(x) by {
                    assert(before@.contains_key(x) <==> old(self).counted@.contains_key(x)
                        || seen.contains(x));
                    if seen.contains(x) {
                        let k = choose|k: int| 0 <= k < seen.len() && seen[k] == x;
                        assert(next[k] == x);
                    }
                    if next.contains(x) && x != c {
                        let k = choose|k: int| 0 <= k < next.len() && next[k] == x;
                        assert(seen[k] == x);
                    }
                    if x == c {
                        assert(next[i as int] == c);
                    }
                }
                assert forall|x: char| #[trigger]
                    self.counted.count_of(x) == old(self).counted.count_of(x) + occurrences(
                        next,
                        x,
                    ) by {
                    assert(before.count_of(x) == old(self).counted.count_of(x) + occurrences(
                        seen,
                        x,
                    ));
                }
            }
            i += 1;
        }
        assert(symbols@.take(symbols.len() as int) == symbols@);
        true
    }

    /// Reads the text to its end, counts its symbols on top of what has been
    /// counted, and returns the counts.
    ///
    /// The text is used up: nothing is left to read. Where `usize::MAX`
    /// symbols would be passed, the symbols up to there are counted.
    pub fn read_all(&mut self) -> (r: FrequencyTable)
        ensures
            final(self).text() == Seq::<char>::empty(),
            final(self).counted.wf(),
            counted_on_top(
                old(self).counted,
                final(self).counted,
                countable(old(self).counted.spec_total(), old(self).text()),
            ),
            r.wf(),
            r.symbols() == final(self).counted.symbols(),
            r.counts() == final(self).counted.counts(),
            r@ == final(self).counted@,
            r.spec_total() == final(self).counted.spec_total(),
    {
        let mut text = String::new();
        std::mem::swap(&mut text, &mut self.source);
        self.count_line(text.as_str());
        self.counted.clone()
    }
}

/// The count of every symbol of `text`.
pub fn count_symbols(text: &str) -> (r: FrequencyTable)
    ensures
        r.wf(),
        r@ == count_map(text@),
        r.spec_total() == text@.len(),
{
    let symbols = chars_of(text);
    let mut table = FrequencyTable::new();
    let mut i: usize = 0;
    assert(count_map(symbols@.take(0)) =~= Map::<char, nat>::empty());
    while i < symbols.len()
        invariant
            i <= symbols.len(),
            symbols@ == text@,
            table.wf(),
            table@ == count_map(symbols@.take(i as int)),
            table.spec_total() == i,
        decreases symbols.len() - i,
    {
        let c = symbols[i];
        proof {
            let seen = symbols@.take(i as int);
            lemma_count_map_push(seen, c);
            lemma_occurrences(seen, c);
            assert(seen.push(c) =~= symbols@.take(i + 1));
        }
        let ok = table.add(c);
        i += 1;
    }
    assert(symbols@.take(symbols.len() as int) == symbols@);
    table
}

} // verus!
