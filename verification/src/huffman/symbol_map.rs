//! A map keyed by symbol, kept as a vector sorted by code point.
//!
//! Two maps with the same contents have the same entries in the same order,
//! whatever the order in which they were filled.

use crate::text::lemma_code_point_injective;
use vstd::prelude::*;

verus! {

/// Code points strictly ascending.
pub open spec fn ascending(s: Seq<char>) -> bool {
    forall|i: int, j: int| 0 <= i < j < s.len() ==> (s[i] as u32) < (s[j] as u32)
}

/// A map from symbols to values of type `V`.
#[derive(Debug, PartialEq, Eq)]
pub struct SymbolMap<V> {
    entries: Vec<(char, V)>,
}

impl<V> SymbolMap<V> {
    /// The symbols, in ascending order.
    pub closed spec fn keys(&self) -> Seq<char> {
        self.entries@.map_values(|e: (char, V)| e.0)
    }

    /// The value of each symbol, in the order of `keys`.
    pub closed spec fn values(&self) -> Seq<V> {
        self.entries@.map_values(|e: (char, V)| e.1)
    }

    /// Every key has a value, and the keys ascend, so that none occurs twice.
    #[verifier::type_invariant]
    pub open spec fn wf(&self) -> bool {
        &&& self.keys().len() == self.values().len()
        &&& ascending(self.keys())
    }

    /// The value of each key.
    pub open spec fn view(&self) -> Map<char, V> {
        Map::new(
            |c: char| self.keys().contains(c),
            |c: char| self.values()[self.keys().index_of(c)],
        )
    }

    /// The number of keys.
    pub open spec fn spec_len(&self) -> nat {
        self.keys().len()
    }

    /// In a well-formed map the `i`-th key maps to the `i`-th value.
    pub proof fn lemma_entry(&self, i: int)
        requires
            self.wf(),
            0 <= i < self.keys().len(),
        ensures
            self@.contains_key(self.keys()[i]),
            self@[self.keys()[i]] == self.values()[i],
            self.keys().index_of(self.keys()[i]) == i,
    {
        let k = self.keys();
        assert(k.contains(k[i]));
        let j = k.index_of(k[i]);
        assert(0 <= j < k.len() && k[j] == k[i]);
        if j < i {
            assert((k[j] as u32) < (k[i] as u32));
        } else if i < j {
            assert((k[i] as u32) < (k[j] as u32));
        }
    }

    /// The domain is finite and has as many symbols as there are keys.
    pub proof fn lemma_dom(&self)
        requires
            self.wf(),
        ensures
            self@.dom() == self.keys().to_set(),
            self@.dom().finite(),
            self@.dom().len() == self.keys().len(),
    {
        let k = self.keys();
        assert(self@.dom() =~= k.to_set());
        assert(k.no_duplicates()) by {
            assert forall|i: int, j: int| 0 <= i < k.len() && 0 <= j < k.len() && i != j implies k[i]
                != k[j] by {
                if i < j {
                    assert((k[i] as u32) < (k[j] as u32));
                } else {
                    assert((k[j] as u32) < (k[i] as u32));
                }
            }
        }
        k.unique_seq_to_set();
        vstd::seq_lib::seq_to_set_is_finite(k);
    }

    /// The empty map.
    pub fn new() -> (m: Self)
        ensures
            m.wf(),
            m@ == Map::<char, V>::empty(),
            m.keys() == Seq::<char>::empty(),
            m.values() == Seq::<V>::empty(),
    {
        let m = SymbolMap { entries: Vec::new() };
        assert(m@ =~= Map::<char, V>::empty());
        assert(m.keys() =~= Seq::<char>::empty());
        assert(m.values() =~= Seq::<V>::empty());
        m
    }

    /// The number of keys.
    pub fn len(&self) -> (n: usize)
        ensures
            n == self.spec_len(),
    {
        self.entries.len()
    }

    /// The `i`-th symbol in ascending order, with its value.
    pub fn entry(&self, i: usize) -> (e: (char, &V))
        requires
            i < self.spec_len(),
        ensures
            e.0 == self.keys()[i as int],
            *e.1 == self.values()[i as int],
    {
        (self.entries[i].0, &self.entries[i].1)
    }

    /// Where `c` stands, or would stand: the number of keys below `c`, and
    /// whether `c` is a key.
    fn position(&self, c: char) -> (r: (usize, bool))
        ensures
            r.0 <= self.keys().len(),
            forall|i: int| 0 <= i < r.0 ==> (#[trigger] self.keys()[i] as u32) < (c as u32),
            forall|i: int|
                r.0 <= i < self.keys().len() ==> (c as u32) <= (#[trigger] self.keys()[i] as u32),
            r.1 <==> (r.0 < self.keys().len() && self.keys()[r.0 as int] == c),
            r.1 <==> self.keys().contains(c),
    {
        proof {
            use_type_invariant(self);
        }
        let mut lo: usize = 0;
        let mut hi: usize = self.entries.len();
        while lo < hi
            invariant
                lo <= hi <= self.keys().len(),
                self.keys().len() == self.entries.len(),
                ascending(self.keys()),
                forall|i: int| 0 <= i < lo ==> (#[trigger] self.keys()[i] as u32) < (c as u32),
                forall|i: int|
                    hi <= i < self.keys().len() ==> (c as u32) <= (#[trigger] self.keys()[i] as u32),
            decreases hi - lo,
        {
            let mid: usize = lo + (hi - lo) / 2;
            assert(self.keys()[mid as int] == self.entries@[mid as int].0);
            if (self.entries[mid].0 as u32) < (c as u32) {
                proof {
                    assert forall|i: int| 0 <= i < mid + 1 implies (#[trigger] self.keys()[i] as u32)
                        < (c as u32) by {
                        if i < mid {
                            assert((self.keys()[i] as u32) < (self.keys()[mid as int] as u32));
                        }
                    }
                }
                lo = mid + 1;
            } else {
                proof {
                    assert forall|i: int| mid <= i < self.keys().len() implies (c as u32) <= (
                    #[trigger] self.keys()[i] as u32) by {
                        if mid < i {
                            assert((self.keys()[mid as int] as u32) < (self.keys()[i] as u32));
                        }
                    }
                }
                hi = mid;
            }
        }
        let found = lo < self.entries.len() && self.entries[lo].0 == c;
        proof {
            if lo < self.entries.len() {
                assert(self.keys()[lo as int] == self.entries@[lo as int].0);
            }
            if self.keys().contains(c) {
                let j = choose|j: int| 0 <= j < self.keys().len() && self.keys()[j] == c;
                assert(j >= lo);
                if j > lo {
                    assert((self.keys()[lo as int] as u32) < (self.keys()[j] as u32));
                }
            }
        }
        (lo, found)
    }

    /// Whether `c` is a key.
    pub fn contains(&self, c: char) -> (b: bool)
        ensures
            b == self@.contains_key(c),
    {
        self.position(c).1
    }

    /// The value of `c`, if `c` is a key.
    pub fn get(&self, c: char) -> (r: Option<&V>)
        ensures
            r is Some <==> self@.contains_key(c),
            r is Some ==> *r->0 == self@[c],
    {
        proof {
            use_type_invariant(self);
        }
        let (i, found) = self.position(c);
        if found {
            proof {
                self.lemma_entry(i as int);
                assert(self.values()[i as int] == self.entries@[i as int].1);
            }
            Some(&self.entries[i].1)
        } else {
            None
        }
    }

    /// Binds `c` to `v`, replacing what `c` was bound to.
    pub fn insert(&mut self, c: char, v: V)
        ensures
            final(self).wf(),
            final(self)@ == old(self)@.insert(c, v),
            old(self)@.contains_key(c) ==> final(self).keys() == old(self).keys() && final(self).values() == old(self).values().update(old(self).keys().index_of(c), v),
            !old(self)@.contains_key(c) ==> exists|i: int|
                0 <= i <= old(self).keys().len() && final(self).keys() == old(self).keys().insert(
                    i,
                    c,
                ) && final(self).values() == #[trigger] old(self).values().insert(i, v),
    {
        proof {
            use_type_invariant(&*self);
        }
        let (i, found) = self.position(c);
        let ghost old_keys = self.keys();
        let ghost old_vals = self.values();
        let mut entries: Vec<(char, V)> = Vec::new();
        std::mem::swap(&mut entries, &mut self.entries);
        if found {
            entries.set(i, (c, v));
            proof {
                assert(entries@.map_values(|e: (char, V)| e.0) =~= old_keys);
                assert(entries@.map_values(|e: (char, V)| e.1) =~= old_vals.update(i as int, v));
            }
            self.entries = entries;
            proof {
                old(self).lemma_entry(i as int);
                assert forall|x: char| #[trigger] self@.contains_key(x) implies self@[x] == old(self)@.insert(c, v)[x] by {
                    old(self).lemma_entry(i as int);
                }
                assert(self@ =~= old(self)@.insert(c, v));
            }
        } else {
            entries.insert(i, (c, v));
            let ghost k = entries@.map_values(|e: (char, V)| e.0);
            proof {
                assert(k =~= old_keys.insert(i as int, c));
                assert(entries@.map_values(|e: (char, V)| e.1) =~= old_vals.insert(i as int, v));
                assert forall|j: int| i <= j < old_keys.len() implies (c as u32) < (
                #[trigger] old_keys[j] as u32) by {
                    if j > i {
                        assert((old_keys[i as int] as u32) < (old_keys[j] as u32));
                    }
                    if (old_keys[i as int] as u32) == (c as u32) {
                        lemma_code_point_injective(old_keys[i as int], c);
                    }
                }
                lemma_insert_ascending(old_keys, i as int, c);
            }
            self.entries = entries;
            proof {
                assert forall|x: char| self@.contains_key(x) <==> old(self)@.insert(
                    c,
                    v,
                ).contains_key(x) by {
                    if self@.contains_key(x) {
                        let j = choose|j: int| 0 <= j < k.len() && k[j] == x;
                        if j < i {
                            assert(old_keys[j] == x);
                        } else if j > i {
                            assert(old_keys[j - 1] == x);
                        }
                    }
                    if old(self)@.contains_key(x) {
                        let j = choose|j: int| 0 <= j < old_keys.len() && old_keys[j] == x;
                        if j < i {
                            assert(k[j] == x);
                        } else {
                            assert(k[j + 1] == x);
                        }
                    }
                    if x == c {
                        assert(k[i as int] == c);
                    }
                }
                assert forall|x: char| #[trigger] self@.contains_key(x) implies self@[x] == old(self)@.insert(c, v)[x] by {
                    let j = k.index_of(x);
                    assert(0 <= j < k.len() && k[j] == x);
                    if x != c {
                        let j0 = if j < i { j } else { j - 1 };
                        assert(old_keys[j0] == x);
                        old(self).lemma_entry(j0);
                    } else {
                        self.lemma_entry(i as int);
                    }
                }
                assert(self@ =~= old(self)@.insert(c, v));
            }
        }
    }
}

impl<V: Copy> SymbolMap<V> {
    /// A copy of the map.
    pub fn copy(&self) -> (m: Self)
        ensures
            m.wf(),
            m.keys() == self.keys(),
            m.values() == self.values(),
            m@ == self@,
    {
        proof {
            use_type_invariant(self);
        }
        let mut entries: Vec<(char, V)> = Vec::new();
        let mut i: usize = 0;
        while i < self.entries.len()
            invariant
                i <= self.entries.len(),
                entries@ == self.entries@.take(i as int),
            decreases self.entries.len() - i,
        {
            entries.push((self.entries[i].0, self.entries[i].1));
            i += 1;
        }
        assert(entries@ =~= self.entries@);
        SymbolMap { entries }
    }
}

/// Putting a symbol between the smaller and the greater ones keeps the order.
pub proof fn lemma_insert_ascending(keys: Seq<char>, i: int, c: char)
    requires
        ascending(keys),
        0 <= i <= keys.len(),
        forall|j: int| 0 <= j < i ==> (#[trigger] keys[j] as u32) < (c as u32),
        forall|j: int| i <= j < keys.len() ==> (c as u32) < (#[trigger] keys[j] as u32),
    ensures
        ascending(keys.insert(i, c)),
{
    let k = keys.insert(i, c);
    assert forall|a: int, b: int| 0 <= a < b < k.len() implies (k[a] as u32) < (k[b] as u32) by {
        let a0 = if a < i { a } else { a - 1 };
        let b0 = if b < i { b } else { b - 1 };
        if a != i && b != i {
            assert(k[a] == keys[a0]);
            assert(k[b] == keys[b0]);
        } else if a == i {
            assert(k[b] == keys[b0]);
        } else {
            assert(k[a] == keys[a0]);
        }
    }
}

/// An ascending sequence is determined by the set of its elements.
pub proof fn lemma_same_keys(a: Seq<char>, b: Seq<char>, dom: Set<char>)
    requires
        ascending(a),
        ascending(b),
        a.to_set() == dom,
        b.to_set() == dom,
    ensures
        a == b,
    decreases a.len(),
{
    if a.len() == 0 {
        if b.len() > 0 {
            assert(b.to_set().contains(b[0]));
            assert(a.contains(b[0]));
        }
        assert(a =~= b);
    } else {
        assert(a.to_set().contains(a.last()));
        assert(b.contains(a.last()));
        assert(b.len() > 0);
        assert(b.to_set().contains(b.last()));
        assert(a.contains(b.last()));
        // the greatest elements agree
        let ia = choose|i: int| 0 <= i < a.len() && a[i] == b.last();
        let ib = choose|i: int| 0 <= i < b.len() && b[i] == a.last();
        if ia < a.len() - 1 {
            assert((a[ia] as u32) < (a.last() as u32));
        }
        if ib < b.len() - 1 {
            assert((b[ib] as u32) < (b.last() as u32));
        }
        assert(a.last() == b.last());
        let a0 = a.drop_last();
        let b0 = b.drop_last();
        assert(a0.to_set() =~= b0.to_set()) by {
            assert forall|x: char| a0.to_set().contains(x) <==> b0.to_set().contains(x) by {
                if a0.contains(x) {
                    let i = choose|i: int| 0 <= i < a0.len() && a0[i] == x;
                    assert(a[i] == x);
                    assert((a[i] as u32) < (a.last() as u32));
                    assert(a.to_set().contains(x));
                    assert(b.contains(x));
                    let j = choose|j: int| 0 <= j < b.len() && b[j] == x;
                    assert(j < b.len() - 1);
                    assert(b0[j] == x);
                }
                if b0.contains(x) {
                    let i = choose|i: int| 0 <= i < b0.len() && b0[i] == x;
                    assert(b[i] == x);
                    assert((b[i] as u32) < (b.last() as u32));
                    assert(b.to_set().contains(x));
                    assert(a.contains(x));
                    let j = choose|j: int| 0 <= j < a.len() && a[j] == x;
                    assert(j < a.len() - 1);
                    assert(a0[j] == x);
                }
            }
        }
        lemma_same_keys(a0, b0, a0.to_set());
        assert(a =~= a0.push(a.last()));
        assert(b =~= b0.push(b.last()));
    }
}

} // verus!
