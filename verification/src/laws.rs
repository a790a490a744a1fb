//! Library-wide guarantees of the store and the range engine, stated over
//! the same views the operations' contracts use: the store's `Map` view for
//! point operations, and the sorted entry sequence for range queries.

use vstd::prelude::*;

use crate::bytekey::{lex_le, lex_lt};
use crate::range::{
    lemma_equal_bounds_empty, lemma_inverted_bounds_empty, lemma_range_entries_membership,
    lemma_range_entries_sorted, lemma_range_entries_unbounded, oriented_range, range_entries,
    Order,
};
use crate::store::{sorted_keys, MockStorage};

verus! {

/// After storing `v` under `k`, looking up `k` finds `v`; after a subsequent
/// removal of `k`, looking up `k` finds nothing.
pub proof fn set_get_remove_roundtrip(m: Map<Seq<u8>, Seq<u8>>, k: Seq<u8>, v: Seq<u8>)
    ensures
        m.insert(k, v).contains_key(k),
        m.insert(k, v)[k] == v,
        !m.insert(k, v).remove(k).contains_key(k),
{
}

/// Storing under the same key twice overwrites: the second value is the one
/// a lookup finds.
pub proof fn set_overwrites(m: Map<Seq<u8>, Seq<u8>>, k: Seq<u8>, v1: Seq<u8>, v2: Seq<u8>)
    ensures
        m.insert(k, v1).insert(k, v2).contains_key(k),
        m.insert(k, v1).insert(k, v2)[k] == v2,
{
}

/// Removing a key that is not present leaves the store unchanged (and, by
/// the signature of `remove`, never errors).
pub proof fn remove_absent_is_noop(m: Map<Seq<u8>, Seq<u8>>, k: Seq<u8>)
    requires
        !m.contains_key(k),
    ensures
        m.remove(k) == m,
{
    assert(m.remove(k) =~= m);
}

/// A range over the full key space yields every stored entry, in ascending
/// byte-lexicographic key order; the descending traversal yields exactly the
/// reverse of that sequence.
pub proof fn full_range_lists_all(st: MockStorage)
    requires
        st.wf(),
    ensures
        oriented_range(st.entries(), None, None, Order::Ascending) == st.entries(),
        oriented_range(st.entries(), None, None, Order::Descending) == st.entries().reverse(),
        sorted_keys(st.entries()),
{
    lemma_range_entries_unbounded(st.entries());
}

/// A range whose start and end bound are the same key yields nothing, for
/// any key and either direction.
pub proof fn equal_bounds_yield_nothing(st: MockStorage, a: Seq<u8>, order: Order)
    ensures
        oriented_range(st.entries(), Some(a), Some(a), order) == Seq::<(Seq<u8>, Seq<u8>)>::empty(),
{
    lemma_equal_bounds_empty(st.entries(), a);
    assert(Seq::<(Seq<u8>, Seq<u8>)>::empty().reverse() =~= Seq::<(Seq<u8>, Seq<u8>)>::empty());
}

/// A range whose end bound sorts before its start bound yields nothing, for
/// any such bounds and either direction.
pub proof fn inverted_bounds_yield_nothing(st: MockStorage, lo: Seq<u8>, hi: Seq<u8>, order: Order)
    requires
        lex_lt(hi, lo),
    ensures
        oriented_range(st.entries(), Some(lo), Some(hi), order) == Seq::<(Seq<u8>, Seq<u8>)>::empty(),
{
    lemma_inverted_bounds_empty(st.entries(), lo, hi);
    assert(Seq::<(Seq<u8>, Seq<u8>)>::empty().reverse() =~= Seq::<(Seq<u8>, Seq<u8>)>::empty());
}

/// An ascending range bounded below alone yields exactly the stored entries
/// whose keys are at or above the bound, with keys still in ascending order.
pub proof fn lower_bounded_ascending_exact(st: MockStorage, lo: Seq<u8>)
    requires
        st.wf(),
    ensures
        forall|p: (Seq<u8>, Seq<u8>)| #[trigger]
            oriented_range(st.entries(), Some(lo), None, Order::Ascending).contains(p) <==> (
            st.entries().contains(p) && lex_le(lo, p.0)),
        sorted_keys(oriented_range(st.entries(), Some(lo), None, Order::Ascending)),
{
    lemma_range_entries_membership(st.entries(), Some(lo), None);
    lemma_range_entries_sorted(st.entries(), Some(lo), None);
}

/// A descending range bounded above alone yields exactly the stored entries
/// whose keys are below the bound, with keys in descending order.
pub proof fn upper_bounded_descending_exact(st: MockStorage, hi: Seq<u8>)
    requires
        st.wf(),
    ensures
        forall|p: (Seq<u8>, Seq<u8>)| #[trigger]
            oriented_range(st.entries(), None, Some(hi), Order::Descending).contains(p) <==> (
            st.entries().contains(p) && lex_lt(p.0, hi)),
        ({
            let r = oriented_range(st.entries(), None, Some(hi), Order::Descending);
            forall|i: int, j: int| 0 <= i < j < r.len() ==> lex_lt(r[j].0, r[i].0)
        }),
{
    let t = range_entries(st.entries(), None, Some(hi));
    let r = t.reverse();
    lemma_range_entries_membership(st.entries(), None, Some(hi));
    lemma_range_entries_sorted(st.entries(), None, Some(hi));
    assert forall|p: (Seq<u8>, Seq<u8>)| #[trigger] r.contains(p) implies t.contains(p) by {
        let i = choose|i: int| 0 <= i < r.len() && r[i] == p;
        assert(t[t.len() - 1 - i] == p);
    }
    assert forall|p: (Seq<u8>, Seq<u8>)| t.contains(p) implies #[trigger] r.contains(p) by {
        let i = choose|i: int| 0 <= i < t.len() && t[i] == p;
        assert(r[t.len() - 1 - i] == p);
    }
    assert forall|i: int, j: int| 0 <= i < j < r.len() implies lex_lt(r[j].0, r[i].0) by {
        assert(r[i] == t[t.len() - 1 - i] && r[j] == t[t.len() - 1 - j]);
    }
}

} // verus!
