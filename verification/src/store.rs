//! The ordered store: an in-memory mapping from byte-string keys to
//! byte-string values, kept sorted by byte-lexicographic key order.
//!
//! The store is modelled as a `Map<Seq<u8>, Seq<u8>>` (its view); the sorted
//! entry sequence behind it is what range queries traverse. Every operation
//! reports a deterministic gas cost derived from the sizes it touches.

use vstd::prelude::*;

use crate::bytekey::{
    compare_keys, lemma_lex_lt_irrefl, lemma_lex_lt_trans, lemma_lex_lt_trichotomy, lex_lt,
    KeyOrder,
};

verus! {

/// Whether the keys of an entry sequence are strictly increasing, so each key
/// occurs at most once.
pub open spec fn sorted_keys(s: Seq<(Seq<u8>, Seq<u8>)>) -> bool {
    forall|i: int, j: int| 0 <= i < j < s.len() ==> lex_lt(s[i].0, s[j].0)
}

/// Whether every entry is small enough for its gas cost (key length plus
/// value length) to fit in a `u64`.
pub open spec fn bounded_entries(s: Seq<(Seq<u8>, Seq<u8>)>) -> bool {
    forall|i: int| 0 <= i < s.len() ==> s[i].0.len() + s[i].1.len() <= u64::MAX
}

/// Whether some entry of `s` carries the key `k`.
pub open spec fn has_key(s: Seq<(Seq<u8>, Seq<u8>)>, k: Seq<u8>) -> bool {
    exists|i: int| 0 <= i < s.len() && s[i].0 == k
}

/// An index of the entry carrying key `k`, where one exists.
pub open spec fn index_of_key(s: Seq<(Seq<u8>, Seq<u8>)>, k: Seq<u8>) -> int {
    choose|i: int| 0 <= i < s.len() && s[i].0 == k
}

/// The mapping that an entry sequence represents.
pub open spec fn map_of(s: Seq<(Seq<u8>, Seq<u8>)>) -> Map<Seq<u8>, Seq<u8>> {
    Map::new(|k: Seq<u8>| has_key(s, k), |k: Seq<u8>| s[index_of_key(s, k)].1)
}

/// In a sequence with strictly increasing keys, the entry at any index is the
/// one the represented mapping associates with its key.
pub proof fn lemma_entry_value(s: Seq<(Seq<u8>, Seq<u8>)>, i: int)
    requires
        sorted_keys(s),
        0 <= i < s.len(),
    ensures
        map_of(s).contains_key(s[i].0),
        map_of(s)[s[i].0] == s[i].1,
{
    assert(has_key(s, s[i].0));
    let j = index_of_key(s, s[i].0);
    if i != j {
        lemma_lex_lt_irrefl(s[i].0);
    }
}

/// A sequence with strictly increasing keys is fully determined by the
/// mapping it represents: two such sequences with the same mapping are equal.
pub proof fn lemma_sorted_entries_unique(s1: Seq<(Seq<u8>, Seq<u8>)>, s2: Seq<(Seq<u8>, Seq<u8>)>)
    requires
        sorted_keys(s1),
        sorted_keys(s2),
        map_of(s1) == map_of(s2),
    ensures
        s1 == s2,
    decreases s1.len(),
{
    if s1.len() == 0 || s2.len() == 0 {
        if s2.len() > 0 {
            assert(has_key(s2, s2[0].0));
            assert(map_of(s1).contains_key(s2[0].0));
        }
        if s1.len() > 0 {
            assert(has_key(s1, s1[0].0));
            assert(map_of(s2).contains_key(s1[0].0));
        }
        assert(s1 =~= s2);
    } else {
        let k1 = s1[0].0;
        let k2 = s2[0].0;
        assert(has_key(s1, k1) && has_key(s2, k2));
        assert(map_of(s2).contains_key(k1) && map_of(s1).contains_key(k2));
        let j = choose|j: int| 0 <= j < s2.len() && s2[j].0 == k1;
        let i = choose|i: int| 0 <= i < s1.len() && s1[i].0 == k2;
        if j > 0 && i > 0 {
            lemma_lex_lt_trans(k2, k1, k2);
            lemma_lex_lt_irrefl(k2);
        } else if j > 0 {
            lemma_lex_lt_irrefl(k1);
        } else if i > 0 {
            lemma_lex_lt_irrefl(k2);
        }
        assert(k1 == k2);
        lemma_entry_value(s1, 0);
        lemma_entry_value(s2, 0);
        assert(s1[0] == s2[0]);
        lemma_sorted_remove(s1, 0);
        lemma_sorted_remove(s2, 0);
        assert(s1.remove(0) =~= s1.skip(1));
        assert(s2.remove(0) =~= s2.skip(1));
        lemma_sorted_entries_unique(s1.skip(1), s2.skip(1));
        assert(s1 =~= s2) by {
            assert(forall|m: int|
                1 <= m < s1.len() ==> s1[m] == s1.skip(1)[m - 1] && s2[m] == s2.skip(1)[m - 1]);
        }
    }
}

/// The deterministic, in-memory substitute for an ordered key-value storage
/// backend.
pub struct MockStorage {
    data: Vec<(Vec<u8>, Vec<u8>)>,
}

impl View for MockStorage {
    type V = Map<Seq<u8>, Seq<u8>>;

    open spec fn view(&self) -> Map<Seq<u8>, Seq<u8>> {
        map_of(self.entries())
    }
}

impl MockStorage {
    /// The store's contents as a sequence of (key, value) entries in
    /// ascending byte-lexicographic key order.
    pub closed spec fn entries(self) -> Seq<(Seq<u8>, Seq<u8>)> {
        self.data@.map(|i: int, p: (Vec<u8>, Vec<u8>)| (p.0@, p.1@))
    }

    /// Well-formedness: keys strictly increase (so each is unique) and every
    /// entry's gas cost fits in a `u64`.
    pub open spec fn wf(self) -> bool {
        sorted_keys(self.entries()) && bounded_entries(self.entries())
    }

    /// Creates an empty store.
    pub fn new() -> (s: MockStorage)
        ensures
            s.wf(),
            s.entries() == Seq::<(Seq<u8>, Seq<u8>)>::empty(),
            s@ == Map::<Seq<u8>, Seq<u8>>::empty(),
    {
        let s = MockStorage { data: Vec::new() };
        proof {
            assert(s.entries() =~= Seq::<(Seq<u8>, Seq<u8>)>::empty());
            assert(s@ =~= Map::<Seq<u8>, Seq<u8>>::empty());
        }
        s
    }

    /// Scans for `key`. Returns the index of its entry and `true` where the
    /// key is present; otherwise the position at which an entry with `key`
    /// would have to be inserted to keep the keys sorted, and `false`.
    fn locate(&self, key: &[u8]) -> (r: (usize, bool))
        requires
            self.wf(),
        ensures
            r.0 <= self.entries().len(),
            forall|j: int| 0 <= j < r.0 ==> lex_lt(self.entries()[j].0, key@),
            r.1 ==> r.0 < self.entries().len() && self.entries()[r.0 as int].0 == key@,
            !r.1 ==> forall|j: int|
                r.0 <= j < self.entries().len() ==> lex_lt(key@, self.entries()[j].0),
            !r.1 ==> !has_key(self.entries(), key@),
    {
        let ghost s = self.entries();
        let n: usize = self.data.len();
        let mut i: usize = 0;
        while i < n
            invariant
                i <= n,
                n == s.len(),
                s == self.entries(),
                self.wf(),
                forall|j: int| 0 <= j < i ==> lex_lt(s[j].0, key@),
            decreases n - i,
        {
            match compare_keys(self.data[i].0.as_slice(), key) {
                KeyOrder::Less => {
                    i = i + 1;
                },
                KeyOrder::Equal => {
                    return (i, true);
                },
                KeyOrder::Greater => {
                    proof {
                        assert forall|j: int| i <= j < s.len() implies lex_lt(key@, s[j].0) by {
                            if j != i {
                                lemma_lex_lt_trans(key@, s[i as int].0, s[j].0);
                            }
                        }
                        assert forall|j: int| 0 <= j < s.len() implies s[j].0 != key@ by {
                            lemma_lex_lt_trichotomy(s[j].0, key@);
                        }
                    }
                    return (i, false);
                },
            }
        }
        proof {
            assert forall|j: int| 0 <= j < s.len() implies s[j].0 != key@ by {
                lemma_lex_lt_trichotomy(s[j].0, key@);
            }
        }
        (n, false)
    }

    /// Looks up `key`. Returns its value, or nothing where the key is absent,
    /// together with a gas cost equal to the key's length. Never fails.
    pub fn get(&self, key: &[u8]) -> (r: (Option<Vec<u8>>, u64))
        requires
            self.wf(),
        ensures
            r.1 == key@.len(),
            (r.0 is Some) == self@.contains_key(key@),
            r.0 matches Some(v) ==> v@ == self@[key@],
    {
        let gas_cost: u64 = key.len() as u64;
        let (i, found) = self.locate(key);
        if found {
            proof {
                lemma_entry_value(self.entries(), i as int);
            }
            let value = copy_bytes(self.data[i].1.as_slice());
            (Some(value), gas_cost)
        } else {
            (None, gas_cost)
        }
    }

    /// Inserts or overwrites the entry for `key`, returning a gas cost equal
    /// to the key's length plus the value's length. Never fails.
    pub fn set(&mut self, key: &[u8], value: &[u8]) -> (gas: u64)
        requires
            old(self).wf(),
            key@.len() + value@.len() <= u64::MAX,
        ensures
            final(self).wf(),
            final(self)@ == old(self)@.insert(key@, value@),
            gas == key@.len() + value@.len(),
    {
        let ghost s = self.entries();
        let gas_cost: u64 = key.len() as u64 + value.len() as u64;
        let pair = (copy_bytes(key), copy_bytes(value));
        let (i, found) = self.locate(key);
        if found {
            self.data.set(i, pair);
            proof {
                assert(self.entries() =~= s.update(i as int, (key@, value@)));
                lemma_sorted_update(s, i as int, key@, value@);
                assert(final(self)@ =~= old(self)@.insert(key@, value@));
            }
        } else {
            self.data.insert(i, pair);
            proof {
                assert(self.entries() =~= s.insert(i as int, (key@, value@)));
                lemma_sorted_insert(s, i as int, key@, value@);
                assert(final(self)@ =~= old(self)@.insert(key@, value@));
            }
        }
        gas_cost
    }

    /// Deletes the entry for `key` where one exists; removing an absent key
    /// is a no-op, not an error. The gas cost equals the key's length.
    pub fn remove(&mut self, key: &[u8]) -> (gas: u64)
        requires
            old(self).wf(),
        ensures
            final(self).wf(),
            final(self)@ == old(self)@.remove(key@),
            gas == key@.len(),
    {
        let ghost s = self.entries();
        let gas_cost: u64 = key.len() as u64;
        let (i, found) = self.locate(key);
        if found {
            self.data.remove(i);
            proof {
                assert(self.entries() =~= s.remove(i as int));
                lemma_sorted_remove(s, i as int);
                assert(final(self)@ =~= old(self)@.remove(key@));
            }
        } else {
            proof {
                assert(final(self)@ =~= old(self)@.remove(key@));
            }
        }
        gas_cost
    }
}

/// Overwriting the entry at `i` with a pair carrying the same key keeps the
/// keys sorted and updates the represented mapping at that key alone.
proof fn lemma_sorted_update(s: Seq<(Seq<u8>, Seq<u8>)>, i: int, k: Seq<u8>, v: Seq<u8>)
    requires
        sorted_keys(s),
        0 <= i < s.len(),
        s[i].0 == k,
    ensures
        sorted_keys(s.update(i, (k, v))),
        map_of(s.update(i, (k, v))) =~= map_of(s).insert(k, v),
{
    let t = s.update(i, (k, v));
    assert forall|k2: Seq<u8>| has_key(t, k2) implies has_key(s, k2) by {
        let j = choose|j: int| 0 <= j < t.len() && t[j].0 == k2;
        assert(s[j].0 == k2);
    }
    assert forall|k2: Seq<u8>| has_key(s, k2) implies has_key(t, k2) by {
        let j = choose|j: int| 0 <= j < s.len() && s[j].0 == k2;
        assert(t[j].0 == k2);
    }
    assert forall|k2: Seq<u8>| #[trigger] map_of(t).contains_key(k2) implies map_of(t)[k2]
        == map_of(s).insert(k, v)[k2] by {
        if k2 == k {
            lemma_entry_value(t, i);
        } else {
            let j = choose|j: int| 0 <= j < s.len() && s[j].0 == k2;
            assert(t[j] == s[j]);
            lemma_entry_value(t, j);
            lemma_entry_value(s, j);
        }
    }
}

/// Inserting a pair at the position where its key belongs keeps the keys
/// sorted and adds exactly that association to the represented mapping.
proof fn lemma_sorted_insert(s: Seq<(Seq<u8>, Seq<u8>)>, i: int, k: Seq<u8>, v: Seq<u8>)
    requires
        sorted_keys(s),
        0 <= i <= s.len(),
        forall|j: int| 0 <= j < i ==> lex_lt(s[j].0, k),
        forall|j: int| i <= j < s.len() ==> lex_lt(k, s[j].0),
    ensures
        sorted_keys(s.insert(i, (k, v))),
        map_of(s.insert(i, (k, v))) =~= map_of(s).insert(k, v),
{
    let t = s.insert(i, (k, v));
    s.insert_ensures(i, (k, v));
    assert forall|m: int, n: int| 0 <= m < n < t.len() implies lex_lt(t[m].0, t[n].0) by {
        if m < i && n < i {
        } else if m < i && n == i {
        } else if m < i && n > i {
            assert(t[n] == s[n - 1]);
        } else if m == i {
            assert(t[n] == s[n - 1]);
        } else {
            assert(t[m] == s[m - 1] && t[n] == s[n - 1]);
        }
    }
    assert forall|k2: Seq<u8>| #[trigger] has_key(t, k2) implies k2 == k || has_key(s, k2) by {
        let j = choose|j: int| 0 <= j < t.len() && t[j].0 == k2;
        if j < i {
            assert(s[j].0 == k2);
        } else if j > i {
            assert(s[j - 1].0 == k2);
        }
    }
    assert forall|k2: Seq<u8>| has_key(s, k2) implies has_key(t, k2) by {
        let j = choose|j: int| 0 <= j < s.len() && s[j].0 == k2;
        if j < i {
            assert(t[j].0 == k2);
        } else {
            assert(t[j + 1].0 == k2);
        }
    }
    assert(t[i].0 == k);
    assert(has_key(t, k));
    assert forall|k2: Seq<u8>| #[trigger] map_of(t).contains_key(k2) implies map_of(t)[k2]
        == map_of(s).insert(k, v)[k2] by {
        if k2 == k {
            lemma_entry_value(t, i);
        } else {
            let j = choose|j: int| 0 <= j < s.len() && s[j].0 == k2;
            lemma_entry_value(s, j);
            if j < i {
                assert(t[j] == s[j]);
                lemma_entry_value(t, j);
            } else {
                assert(t[j + 1] == s[j]);
                lemma_entry_value(t, j + 1);
            }
        }
    }
}

/// Removing the entry at `i` keeps the keys sorted and removes exactly its
/// key's association from the represented mapping.
proof fn lemma_sorted_remove(s: Seq<(Seq<u8>, Seq<u8>)>, i: int)
    requires
        sorted_keys(s),
        0 <= i < s.len(),
    ensures
        sorted_keys(s.remove(i)),
        map_of(s.remove(i)) =~= map_of(s).remove(s[i].0),
{
    let t = s.remove(i);
    s.remove_ensures(i);
    assert forall|m: int, n: int| 0 <= m < n < t.len() implies lex_lt(t[m].0, t[n].0) by {
        if m < i && n < i {
        } else if m < i {
            assert(t[n] == s[n + 1]);
        } else {
            assert(t[m] == s[m + 1] && t[n] == s[n + 1]);
        }
    }
    assert forall|k2: Seq<u8>| #[trigger] has_key(t, k2) implies has_key(s, k2) && k2 != s[i].0 by {
        let j = choose|j: int| 0 <= j < t.len() && t[j].0 == k2;
        if j < i {
            assert(s[j].0 == k2);
            if k2 == s[i].0 {
                lemma_lex_lt_irrefl(k2);
            }
        } else {
            assert(s[j + 1].0 == k2);
            if k2 == s[i].0 {
                lemma_lex_lt_irrefl(k2);
            }
        }
    }
    assert forall|k2: Seq<u8>| has_key(s, k2) && k2 != s[i].0 implies has_key(t, k2) by {
        let j = choose|j: int| 0 <= j < s.len() && s[j].0 == k2;
        if j < i {
            assert(t[j].0 == k2);
        } else if j > i {
            assert(t[j - 1].0 == k2);
        }
    }
    assert forall|k2: Seq<u8>| #[trigger] map_of(t).contains_key(k2) implies map_of(t)[k2]
        == map_of(s).remove(s[i].0)[k2] by {
        let j = choose|j: int| 0 <= j < s.len() && s[j].0 == k2;
        lemma_entry_value(s, j);
        if j < i {
            assert(t[j] == s[j]);
            lemma_entry_value(t, j);
        } else {
            assert(t[j - 1] == s[j]);
            lemma_entry_value(t, j - 1);
        }
    }
}

/// Two well-formed stores with the same mapping hold the same entry
/// sequence: what a range query traverses is fully determined by the store's
/// view.
pub proof fn lemma_entries_determined_by_view(a: MockStorage, b: MockStorage)
    requires
        a.wf(),
        b.wf(),
        a@ == b@,
    ensures
        a.entries() == b.entries(),
{
    lemma_sorted_entries_unique(a.entries(), b.entries());
}

impl MockStorage {
    /// The number of entries held.
    pub(crate) fn entry_count(&self) -> (n: usize)
        ensures
            n == self.entries().len(),
    {
        self.data.len()
    }

    /// An owned copy of the entry at index `i` of the sorted entry sequence.
    pub(crate) fn entry_at(&self, i: usize) -> (p: (Vec<u8>, Vec<u8>))
        requires
            i < self.entries().len(),
        ensures
            p.0@ == self.entries()[i as int].0,
            p.1@ == self.entries()[i as int].1,
    {
        let pair = &self.data[i];
        (copy_bytes(pair.0.as_slice()), copy_bytes(pair.1.as_slice()))
    }

    /// Compares the key of the entry at index `i` against `other`.
    pub(crate) fn compare_key_at(&self, i: usize, other: &[u8]) -> (r: KeyOrder)
        requires
            i < self.entries().len(),
        ensures
            (r is Less) == lex_lt(self.entries()[i as int].0, other@),
            (r is Equal) == (self.entries()[i as int].0 == other@),
            (r is Greater) == lex_lt(other@, self.entries()[i as int].0),
    {
        compare_keys(self.data[i].0.as_slice(), other)
    }
}

/// Copies a byte slice into an owned vector with the same contents.
pub fn copy_bytes(src: &[u8]) -> (out: Vec<u8>)
    ensures
        out@ == src@,
{
    let mut out: Vec<u8> = Vec::new();
    let mut i: usize = 0;
    while i < src.len()
        invariant
            i <= src@.len(),
            out@ == src@.take(i as int),
        decreases src@.len() - i,
    {
        out.push(src[i]);
        proof {
            assert(out@ =~= src@.take(i + 1));
        }
        i = i + 1;
    }
    proof {
        assert(src@.take(src@.len() as int) =~= src@);
    }
    out
}

} // verus!
