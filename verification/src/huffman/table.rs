//! The frequency table: how often each symbol occurs.

use crate::huffman::symbol_map::{ascending, SymbolMap};
use vstd::prelude::*;

verus! {

/// The sum of a sequence of counts.
pub open spec fn sum_counts(s: Seq<usize>) -> nat
    decreases s.len(),
{
    if s.len() == 0 {
        0
    } else {
        sum_counts(s.drop_last()) + s.last() as nat
    }
}

/// A count that is put in adds to the sum.
pub proof fn lemma_sum_insert(s: Seq<usize>, i: int, n: usize)
    requires
        0 <= i <= s.len(),
    ensures
        sum_counts(s.insert(i, n)) == sum_counts(s) + n,
    decreases s.len(),
{
    let t = s.insert(i, n);
    if i == s.len() {
        assert(t.drop_last() =~= s);
    } else {
        assert(t.drop_last() =~= s.drop_last().insert(i, n));
        assert(t.last() == s.last());
        lemma_sum_insert(s.drop_last(), i, n);
    }
}

/// A count that takes the place of another changes the sum by their
/// difference.
pub proof fn lemma_sum_update(s: Seq<usize>, i: int, n: usize)
    requires
        0 <= i < s.len(),
    ensures
        sum_counts(s.update(i, n)) == sum_counts(s) - s[i] + n,
    decreases s.len(),
{
    let t = s.update(i, n);
    if i == s.len() - 1 {
        assert(t.drop_last() =~= s.drop_last());
    } else {
        assert(t.drop_last() =~= s.drop_last().update(i, n));
        assert(t.last() == s.last());
        lemma_sum_update(s.drop_last(), i, n);
    }
}

/// No count exceeds the sum.
pub proof fn lemma_sum_bounds(s: Seq<usize>, i: int)
    requires
        0 <= i < s.len(),
    ensures
        s[i] <= sum_counts(s),
    decreases s.len(),
{
    if i < s.len() - 1 {
        lemma_sum_bounds(s.drop_last(), i);
    }
}

/// A mapping from symbol to count, no symbol twice, whose counts add up to
/// at most `usize::MAX`.
#[derive(Debug, PartialEq, Eq)]
pub struct FrequencyTable {
    map: SymbolMap<usize>,
    total: usize,
}

impl FrequencyTable {
    /// The symbols, by ascending code point.
    pub closed spec fn symbols(&self) -> Seq<char> {
        self.map.keys()
    }

    /// The count of each symbol, in the order of `symbols`.
    pub closed spec fn counts(&self) -> Seq<usize> {
        self.map.values()
    }

    /// The sum of all counts.
    pub closed spec fn spec_total(&self) -> usize {
        self.total
    }

    /// Every symbol has a count, the symbols ascend, so that none occurs
    /// twice, and the total is the sum of the counts.
    #[verifier::type_invariant]
    pub open spec fn wf(&self) -> bool {
        &&& self.symbols().len() == self.counts().len()
        &&& ascending(self.symbols())
        &&& self.spec_total() == sum_counts(self.counts())
    }

    /// The count of each symbol.
    pub open spec fn view(&self) -> Map<char, nat> {
        Map::new(
            |c: char| self.symbols().contains(c),
            |c: char| self.counts()[self.symbols().index_of(c)] as nat,
        )
    }

    /// The number of distinct symbols.
    pub open spec fn spec_len(&self) -> nat {
        self.symbols().len()
    }

    /// The count of `c`, zero where `c` does not occur.
    pub open spec fn count_of(&self, c: char) -> nat {
        if self@.contains_key(c) {
            self@[c]
        } else {
            0
        }
    }

    /// The `i`-th symbol maps to the `i`-th count.
    pub proof fn lemma_entry(&self, i: int)
        requires
            self.wf(),
            0 <= i < self.symbols().len(),
        ensures
            self@.contains_key(self.symbols()[i]),
            self@[self.symbols()[i]] == self.counts()[i],
            self.symbols().index_of(self.symbols()[i]) == i,
    {
        self.map.lemma_entry(i);
    }

    /// The domain is finite, with one symbol for each entry.
    pub proof fn lemma_dom(&self)
        requires
            self.wf(),
        ensures
            self@.dom() == self.symbols().to_set(),
            self@.dom().finite(),
            self@.dom().len() == self.symbols().len(),
    {
        self.map.lemma_dom();
        assert(self@.dom() =~= self.map@.dom());
    }

    /// The table without symbols.
    pub fn new() -> (t: Self)
        ensures
            t.wf(),
            t@ == Map::<char, nat>::empty(),
            t.spec_len() == 0,
            t.spec_total() == 0,
    {
        let t = FrequencyTable { map: SymbolMap::new(), total: 0 };
        assert(t@ =~= Map::<char, nat>::empty());
        t
    }

    /// The number of distinct symbols.
    pub fn len(&self) -> (n: usize)
        ensures
            n == self.spec_len(),
    {
        self.map.len()
    }

    /// Whether the table holds no symbol.
    pub fn is_empty(&self) -> (b: bool)
        ensures
            b == (self.spec_len() == 0),
    {
        self.map.len() == 0
    }

    /// The sum of all counts.
    pub fn total(&self) -> (n: usize)
        ensures
            n == self.spec_total(),
            self.wf(),
    {
        proof {
            use_type_invariant(self);
        }
        self.total
    }

    /// The `i`-th symbol by ascending code point, and its count.
    pub fn entry(&self, i: usize) -> (e: (char, usize))
        requires
            i < self.spec_len(),
        ensures
            e.0 == self.symbols()[i as int],
            e.1 == self.counts()[i as int],
    {
        let (c, n) = self.map.entry(i);
        (c, *n)
    }

    /// Whether `c` is in the table.
    pub fn contains(&self, c: char) -> (b: bool)
        ensures
            b == self@.contains_key(c),
    {
        let b = self.map.contains(c);
        assert(self@.dom() =~= self.map@.dom());
        b
    }

    /// The count of `c`, if `c` is in the table.
    pub fn get(&self, c: char) -> (r: Option<usize>)
        ensures
            r is Some <==> self@.contains_key(c),
            r is Some ==> r->0 == self@[c],
    {
        assert(self@.dom() =~= self.map@.dom());
        match self.map.get(c) {
            Some(n) => Some(*n),
            None => None,
        }
    }

    /// Adds the symbol `c` with count `n`.
    ///
    /// Returns `false`, and leaves the table as it was, where `c` is already
    /// in the table or the sum of the counts would pass `usize::MAX`.
    pub fn insert(&mut self, c: char, n: usize) -> (ok: bool)
        ensures
            final(self).wf(),
            ok <==> !old(self)@.contains_key(c) && old(self).spec_total() + n <= usize::MAX,
            ok ==> final(self)@ == old(self)@.insert(c, n as nat),
            ok ==> final(self).spec_total() == old(self).spec_total() + n,
            ok ==> final(self).spec_len() == old(self).spec_len() + 1,
            !ok ==> *final(self) == *old(self),
    {
        proof {
            use_type_invariant(&*self);
            use_type_invariant(&self.map);
            assert(self@.dom() =~= self.map@.dom());
        }
        if self.map.contains(c) || n > usize::MAX - self.total {
            return false;
        }
        let mut taken = FrequencyTable::new();
        std::mem::swap(&mut taken, self);
        let FrequencyTable { mut map, total } = taken;
        let ghost before = map;
        map.insert(c, n);
        proof {
            let i = choose|i: int|
                0 <= i <= before.keys().len() && map.keys() == before.keys().insert(i, c)
                    && map.values() == #[trigger] before.values().insert(i, n);
            lemma_sum_insert(before.values(), i, n);
        }
        *self = FrequencyTable { map, total: total + n };
        proof {
            assert(self@ =~= old(self)@.insert(c, n as nat)) by {
                assert(self@.dom() =~= self.map@.dom());
                assert forall|x: char| self@.contains_key(x) implies #[trigger] self@[x] == old(self)@.insert(c, n as nat)[x] by {
                    assert(self.map@[x] == before@.insert(c, n)[x]);
                }
            }
        }
        true
    }

    /// Counts one more occurrence of `c`.
    ///
    /// Returns `false`, and leaves the table as it was, where the sum of the
    /// counts is `usize::MAX` already.
    pub fn add(&mut self, c: char) -> (ok: bool)
        ensures
            final(self).wf(),
            ok <==> old(self).spec_total() < usize::MAX,
            ok ==> final(self)@ == old(self)@.insert(c, old(self).count_of(c) + 1),
            ok ==> final(self).spec_total() == old(self).spec_total() + 1,
            !ok ==> *final(self) == *old(self),
    {
        proof {
            use_type_invariant(&*self);
            use_type_invariant(&self.map);
            assert(self@.dom() =~= self.map@.dom());
        }
        if self.total == usize::MAX {
            return false;
        }
        let mut taken = FrequencyTable::new();
        std::mem::swap(&mut taken, self);
        let FrequencyTable { mut map, total } = taken;
        let ghost before = map;
        let seen: usize = match map.get(c) {
            Some(n) => *n,
            None => 0,
        };
        proof {
            if before@.contains_key(c) {
                let i = before.keys().index_of(c);
                lemma_sum_bounds(before.values(), i);
                lemma_sum_update(before.values(), i, (seen + 1) as usize);
                before.lemma_entry(i);
            } else {
                assert forall|i: int| 0 <= i <= before.keys().len() implies sum_counts(
                    #[trigger] before.values().insert(i, 1usize),
                ) == sum_counts(before.values()) + 1 by {
                    lemma_sum_insert(before.values(), i, 1usize);
                }
            }
        }
        map.insert(c, seen + 1);
        *self = FrequencyTable { map, total: total + 1 };
        proof {
            assert(self@ =~= old(self)@.insert(c, old(self).count_of(c) + 1)) by {
                assert(self@.dom() =~= self.map@.dom());
                assert forall|x: char| self@.contains_key(x) implies #[trigger] self@[x] == old(self)@.insert(c, old(self).count_of(c) + 1)[x] by {
                    assert(self.map@[x] == before@.insert(c, (seen + 1) as usize)[x]);
                }
            }
        }
        true
    }
}

/// The map that a list of pairs stands for.
pub open spec fn pairs_map(pairs: Seq<(char, usize)>) -> Map<char, nat>
    decreases pairs.len(),
{
    if pairs.len() == 0 {
        Map::empty()
    } else {
        pairs_map(pairs.drop_last()).insert(pairs.last().0, pairs.last().1 as nat)
    }
}

/// The sum of the counts in a list of pairs.
pub open spec fn pairs_total(pairs: Seq<(char, usize)>) -> nat
    decreases pairs.len(),
{
    if pairs.len() == 0 {
        0
    } else {
        pairs_total(pairs.drop_last()) + pairs.last().1 as nat
    }
}

/// No symbol stands in two pairs.
pub open spec fn distinct_symbols(pairs: Seq<(char, usize)>) -> bool {
    forall|i: int, j: int| 0 <= i < j < pairs.len() ==> pairs[i].0 != pairs[j].0
}

/// The map of a list of pairs holds the symbols of the pairs.
pub proof fn lemma_pairs_map_dom(pairs: Seq<(char, usize)>, c: char)
    ensures
        pairs_map(pairs).contains_key(c) <==> exists|i: int|
            0 <= i < pairs.len() && (#[trigger] pairs[i]).0 == c,
    decreases pairs.len(),
{
    if pairs.len() > 0 {
        let head = pairs.drop_last();
        lemma_pairs_map_dom(head, c);
        if pairs_map(pairs).contains_key(c) {
            if pairs.last().0 == c {
                assert(pairs[pairs.len() - 1].0 == c);
            } else {
                let i = choose|i: int| 0 <= i < head.len() && (#[trigger] head[i]).0 == c;
                assert(pairs[i].0 == c);
            }
        }
        if exists|i: int| 0 <= i < pairs.len() && (#[trigger] pairs[i]).0 == c {
            let i = choose|i: int| 0 <= i < pairs.len() && (#[trigger] pairs[i]).0 == c;
            if i < pairs.len() - 1 {
                assert(head[i].0 == c);
            }
        }
    }
}

/// The counts of the first pairs add up to no more than those of all.
pub proof fn lemma_prefix_total(pairs: Seq<(char, usize)>, k: int)
    requires
        0 <= k <= pairs.len(),
    ensures
        pairs_total(pairs.take(k)) <= pairs_total(pairs),
    decreases pairs.len() - k,
{
    if k == pairs.len() {
        assert(pairs.take(k) == pairs);
    } else {
        lemma_prefix_total(pairs, k + 1);
        assert(pairs.take(k + 1).drop_last() == pairs.take(k));
    }
}

impl FrequencyTable {
    /// The table that holds the given pairs.
    ///
    /// `Some` exactly when no symbol stands in two pairs and the counts add
    /// up to at most `usize::MAX`.
    pub fn from_pairs(pairs: &Vec<(char, usize)>) -> (r: Option<FrequencyTable>)
        ensures
            r is Some <==> distinct_symbols(pairs@) && pairs_total(pairs@) <= usize::MAX,
            r is Some ==> r->0.wf() && r->0@ == pairs_map(pairs@) && r->0.spec_total()
                == pairs_total(pairs@) && r->0.spec_len() == pairs.len(),
    {
        let mut table = FrequencyTable::new();
        let mut i: usize = 0;
        while i < pairs.len()
            invariant
                i <= pairs.len(),
                table.wf(),
                table@ == pairs_map(pairs@.take(i as int)),
                table.spec_total() == pairs_total(pairs@.take(i as int)),
                table.spec_len() == i,
                distinct_symbols(pairs@.take(i as int)),
            decreases pairs.len() - i,
        {
            let (c, n) = pairs[i];
            proof {
                assert(pairs@.take(i + 1).drop_last() == pairs@.take(i as int));
                lemma_pairs_map_dom(pairs@.take(i as int), c);
                lemma_prefix_total(pairs@, i + 1);
            }
            let ok = table.insert(c, n);
            if !ok {
                proof {
                    if table@.contains_key(c) {
                        let j = choose|j: int|
                            0 <= j < i && (#[trigger] pairs@.take(i as int)[j]).0 == c;
                        assert(pairs@[j].0 == pairs@[i as int].0);
                    }
                }
                return None;
            }
            proof {
                let next = pairs@.take(i + 1);
                assert forall|a: int, b: int| 0 <= a < b < next.len() implies next[a].0
                    != next[b].0 by {
                    if b < i {
                        assert(pairs@.take(i as int)[a].0 != pairs@.take(i as int)[b].0);
                    } else {
                        assert(pairs@.take(i as int)[a].0 == next[a].0);
                    }
                }
            }
            i += 1;
        }
        assert(pairs@.take(pairs.len() as int) == pairs@);
        Some(table)
    }

}

impl Clone for FrequencyTable {
    fn clone(&self) -> (t: FrequencyTable)
        ensures
            t.wf(),
            t.symbols() == self.symbols(),
            t.counts() == self.counts(),
            t@ == self@,
            t.spec_total() == self.spec_total(),
    {
        proof {
            use_type_invariant(self);
        }
        FrequencyTable { map: self.map.copy(), total: self.total }
    }
}

} // verus!
