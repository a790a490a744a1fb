//! The range iterator engine: translates an optional inclusive start bound,
//! an optional exclusive end bound, and a direction into a bounded, ordered
//! traversal of the store's sorted key space.
//!
//! The matching entries are snapshotted at construction time; the iterator
//! then yields one (key, value, gas) triple per step and a fixed terminal gas
//! value once exhausted. A degenerate interval (start equal to or after the
//! end) yields nothing and never errors.

use vstd::prelude::*;

use crate::bytekey::{
    compare_keys, lemma_lex_lt_irrefl, lemma_lex_lt_trans, lemma_lex_lt_trichotomy, lex_le,
    lex_lt, KeyOrder,
};
use crate::store::{bounded_entries, copy_bytes, sorted_keys, MockStorage};

verus! {

/// Gas charged for constructing a range query.
pub const GAS_COST_RANGE: u64 = 11;

/// Gas charged for the final "no more items" probe of an exhausted iterator.
pub const DUMMY_GAS_COST: u64 = 37;

/// Direction of a range traversal.
#[derive(Clone, Copy, Debug)]
pub enum Order {
    Ascending,
    Descending,
}

/// Whether key `k` lies within the half-open interval `[lo, hi)`; an absent
/// bound leaves that side of the interval open.
pub open spec fn in_range(k: Seq<u8>, lo: Option<Seq<u8>>, hi: Option<Seq<u8>>) -> bool {
    (match lo {
        Some(l) => lex_le(l, k),
        None => true,
    }) && (match hi {
        Some(h) => lex_lt(k, h),
        None => true,
    })
}

/// The subsequence of `s` whose keys lie within `[lo, hi)`, in the order they
/// appear in `s`.
pub open spec fn range_entries(
    s: Seq<(Seq<u8>, Seq<u8>)>,
    lo: Option<Seq<u8>>,
    hi: Option<Seq<u8>>,
) -> Seq<(Seq<u8>, Seq<u8>)>
    decreases s.len(),
{
    if s.len() == 0 {
        Seq::empty()
    } else if in_range(s.last().0, lo, hi) {
        range_entries(s.drop_last(), lo, hi).push(s.last())
    } else {
        range_entries(s.drop_last(), lo, hi)
    }
}

/// The sequence a range query yields: the in-bounds entries of `s` in their
/// stored (ascending) order, or that sequence reversed for a descending
/// traversal.
pub open spec fn oriented_range(
    s: Seq<(Seq<u8>, Seq<u8>)>,
    lo: Option<Seq<u8>>,
    hi: Option<Seq<u8>>,
    order: Order,
) -> Seq<(Seq<u8>, Seq<u8>)> {
    match order {
        Order::Ascending => range_entries(s, lo, hi),
        Order::Descending => range_entries(s, lo, hi).reverse(),
    }
}

/// The bound a caller passed, as a mathematical value.
pub open spec fn bound_view(b: Option<&[u8]>) -> Option<Seq<u8>> {
    match b {
        Some(x) => Some(x@),
        None => None,
    }
}

/// With no key satisfying the bounds, a range over any sequence is empty.
pub proof fn lemma_range_entries_none(
    s: Seq<(Seq<u8>, Seq<u8>)>,
    lo: Option<Seq<u8>>,
    hi: Option<Seq<u8>>,
)
    requires
        forall|k: Seq<u8>| !in_range(k, lo, hi),
    ensures
        range_entries(s, lo, hi) == Seq::<(Seq<u8>, Seq<u8>)>::empty(),
    decreases s.len(),
{
    if s.len() > 0 {
        lemma_range_entries_none(s.drop_last(), lo, hi);
    }
}

/// Equal bounds describe the empty interval `[a, a)`: no key satisfies them.
pub proof fn lemma_equal_bounds_empty(s: Seq<(Seq<u8>, Seq<u8>)>, a: Seq<u8>)
    ensures
        range_entries(s, Some(a), Some(a)) == Seq::<(Seq<u8>, Seq<u8>)>::empty(),
{
    assert forall|k: Seq<u8>| !in_range(k, Some(a), Some(a)) by {
        if lex_le(a, k) && lex_lt(k, a) {
            if a == k {
                lemma_lex_lt_irrefl(a);
            } else {
                lemma_lex_lt_trans(a, k, a);
                lemma_lex_lt_irrefl(a);
            }
        }
    }
    lemma_range_entries_none(s, Some(a), Some(a));
}

/// Inverted bounds (the end before the start) describe an empty interval:
/// no key satisfies them.
pub proof fn lemma_inverted_bounds_empty(s: Seq<(Seq<u8>, Seq<u8>)>, lo: Seq<u8>, hi: Seq<u8>)
    requires
        lex_lt(hi, lo),
    ensures
        range_entries(s, Some(lo), Some(hi)) == Seq::<(Seq<u8>, Seq<u8>)>::empty(),
{
    assert forall|k: Seq<u8>| !in_range(k, Some(lo), Some(hi)) by {
        if lex_le(lo, k) && lex_lt(k, hi) {
            if lo == k {
                lemma_lex_lt_trans(k, hi, lo);
                lemma_lex_lt_irrefl(k);
            } else {
                lemma_lex_lt_trans(lo, k, hi);
                lemma_lex_lt_trans(lo, hi, lo);
                lemma_lex_lt_irrefl(lo);
            }
        }
    }
    lemma_range_entries_none(s, Some(lo), Some(hi));
}

/// A sequence of positive length contains exactly its last element and the
/// elements of the sequence without it.
proof fn lemma_contains_split(s: Seq<(Seq<u8>, Seq<u8>)>)
    requires
        s.len() > 0,
    ensures
        forall|p: (Seq<u8>, Seq<u8>)| #[trigger]
            s.contains(p) <==> (s.drop_last().contains(p) || p == s.last()),
{
    assert forall|p: (Seq<u8>, Seq<u8>)| #[trigger] s.contains(p) implies (s.drop_last().contains(
        p,
    ) || p == s.last()) by {
        let i = choose|i: int| 0 <= i < s.len() && s[i] == p;
        if i < s.len() - 1 {
            assert(s.drop_last()[i] == p);
        }
    }
    assert forall|p: (Seq<u8>, Seq<u8>)| s.drop_last().contains(p) || p == s.last() implies
        #[trigger] s.contains(p) by {
        if s.drop_last().contains(p) {
            let i = choose|i: int| 0 <= i < s.drop_last().len() && s.drop_last()[i] == p;
            assert(s[i] == p);
        } else {
            assert(s[s.len() - 1] == p);
        }
    }
}

/// A range holds exactly those entries of `s` whose keys lie within the
/// bounds.
pub proof fn lemma_range_entries_membership(
    s: Seq<(Seq<u8>, Seq<u8>)>,
    lo: Option<Seq<u8>>,
    hi: Option<Seq<u8>>,
)
    ensures
        forall|p: (Seq<u8>, Seq<u8>)| #[trigger]
            range_entries(s, lo, hi).contains(p) <==> (s.contains(p) && in_range(p.0, lo, hi)),
    decreases s.len(),
{
    if s.len() > 0 {
        lemma_range_entries_membership(s.drop_last(), lo, hi);
        lemma_contains_split(s);
        if in_range(s.last().0, lo, hi) {
            let t = range_entries(s.drop_last(), lo, hi).push(s.last());
            assert(t.len() > 0 && t.last() == s.last());
            assert(t.drop_last() =~= range_entries(s.drop_last(), lo, hi));
            lemma_contains_split(t);
        }
    }
}

/// A range over a sequence with sorted keys has sorted keys itself.
pub proof fn lemma_range_entries_sorted(
    s: Seq<(Seq<u8>, Seq<u8>)>,
    lo: Option<Seq<u8>>,
    hi: Option<Seq<u8>>,
)
    requires
        sorted_keys(s),
    ensures
        sorted_keys(range_entries(s, lo, hi)),
    decreases s.len(),
{
    if s.len() > 0 {
        assert(sorted_keys(s.drop_last()));
        lemma_range_entries_sorted(s.drop_last(), lo, hi);
        if in_range(s.last().0, lo, hi) {
            let r = range_entries(s.drop_last(), lo, hi);
            let t = r.push(s.last());
            lemma_range_entries_membership(s.drop_last(), lo, hi);
            assert forall|m: int, n: int| 0 <= m < n < t.len() implies lex_lt(t[m].0, t[n].0) by {
                if n == t.len() - 1 {
                    assert(r.contains(r[m]));
                    let i = choose|i: int| 0 <= i < s.drop_last().len() && s.drop_last()[i] == r[m];
                    assert(s[i] == r[m]);
                    assert(lex_lt(s[i].0, s.last().0));
                }
            }
        }
    }
}

/// With both bounds open every entry is in range, so a full range lists the
/// whole sequence.
pub proof fn lemma_range_entries_unbounded(s: Seq<(Seq<u8>, Seq<u8>)>)
    ensures
        range_entries(s, None, None) == s,
    decreases s.len(),
{
    if s.len() == 0 {
        assert(range_entries(s, None, None) =~= s);
    } else {
        lemma_range_entries_unbounded(s.drop_last());
        assert(range_entries(s, None, None) =~= s.drop_last().push(s.last()));
        assert(s.drop_last().push(s.last()) =~= s);
    }
}

/// A snapshot iterator over the entries a range query matched. Each advance
/// yields the next (key, value) pair with its gas cost, or signals
/// exhaustion with a fixed terminal gas value.
pub struct MockIterator {
    items: Vec<(Vec<u8>, Vec<u8>)>,
    pos: usize,
}

impl MockIterator {
    /// The snapshot this iterator walks, in yield order.
    pub closed spec fn entries(self) -> Seq<(Seq<u8>, Seq<u8>)> {
        self.items@.map(|i: int, p: (Vec<u8>, Vec<u8>)| (p.0@, p.1@))
    }

    /// How many entries have been yielded so far.
    pub closed spec fn cursor(self) -> int {
        self.pos as int
    }

    /// Well-formedness: the cursor never passes the snapshot's end, and every
    /// entry's gas cost fits in a `u64`.
    pub open spec fn wf(self) -> bool {
        0 <= self.cursor() <= self.entries().len() && bounded_entries(self.entries())
    }

    /// Creates an iterator over nothing: it is exhausted from the start.
    pub fn empty() -> (it: MockIterator)
        ensures
            it.wf(),
            it.entries() == Seq::<(Seq<u8>, Seq<u8>)>::empty(),
            it.cursor() == 0,
    {
        let it = MockIterator { items: Vec::new(), pos: 0 };
        proof {
            assert(it.entries() =~= Seq::<(Seq<u8>, Seq<u8>)>::empty());
        }
        it
    }

    /// Advances the cursor. Before exhaustion this yields the entry at the
    /// cursor and a gas cost equal to its key length plus value length; at
    /// and after exhaustion it yields nothing and the fixed terminal gas
    /// cost, idempotently.
    pub fn next(&mut self) -> (r: (Option<(Vec<u8>, Vec<u8>)>, u64))
        requires
            old(self).wf(),
        ensures
            final(self).wf(),
            final(self).entries() == old(self).entries(),
            old(self).cursor() < old(self).entries().len() ==> {
                let e = old(self).entries()[old(self).cursor()];
                &&& final(self).cursor() == old(self).cursor() + 1
                &&& r.0 matches Some(kv) && kv.0@ == e.0 && kv.1@ == e.1
                &&& r.1 == e.0.len() + e.1.len()
            },
            old(self).cursor() >= old(self).entries().len() ==> {
                &&& final(self).cursor() == old(self).cursor()
                &&& r.0 is None
                &&& r.1 == DUMMY_GAS_COST
            },
    {
        if self.pos < self.items.len() {
            let key = copy_bytes(self.items[self.pos].0.as_slice());
            let value = copy_bytes(self.items[self.pos].1.as_slice());
            proof {
                let e = self.entries()[self.pos as int];
                assert(e.0.len() + e.1.len() <= u64::MAX);
            }
            let gas_cost: u64 = key.len() as u64 + value.len() as u64;
            self.pos = self.pos + 1;
            (Some((key, value)), gas_cost)
        } else {
            (None, DUMMY_GAS_COST)
        }
    }
}

impl MockStorage {
    /// Answers a range query: entries with keys in the half-open interval
    /// `[start, end)` — an absent bound leaving that side open — in ascending
    /// key order, or in descending key order when so directed. Returns the
    /// iterator over a snapshot of the matching entries together with the
    /// fixed construction gas cost. A degenerate interval (start equal to or
    /// after the end) yields an immediately exhausted iterator; no input
    /// errors.
    pub fn range(&self, start: Option<&[u8]>, end: Option<&[u8]>, order: Order) -> (r: (
        MockIterator,
        u64,
    ))
        requires
            self.wf(),
        ensures
            r.1 == GAS_COST_RANGE,
            r.0.wf(),
            r.0.cursor() == 0,
            r.0.entries() == oriented_range(
                self.entries(),
                bound_view(start),
                bound_view(end),
                order,
            ),
    {
        let ghost s = self.entries();
        let ghost lo = bound_view(start);
        let ghost hi = bound_view(end);

        // A degenerate interval is intercepted up front: it matches nothing,
        // so the store's contents need not be touched at all.
        if let (Some(start_key), Some(end_key)) = (start, end) {
            match compare_keys(start_key, end_key) {
                KeyOrder::Equal => {
                    proof {
                        lemma_equal_bounds_empty(s, start_key@);
                        assert(Seq::<(Seq<u8>, Seq<u8>)>::empty().reverse()
                            =~= Seq::<(Seq<u8>, Seq<u8>)>::empty());
                    }
                    return (MockIterator::empty(), GAS_COST_RANGE);
                },
                KeyOrder::Greater => {
                    proof {
                        lemma_inverted_bounds_empty(s, start_key@, end_key@);
                        assert(Seq::<(Seq<u8>, Seq<u8>)>::empty().reverse()
                            =~= Seq::<(Seq<u8>, Seq<u8>)>::empty());
                    }
                    return (MockIterator::empty(), GAS_COST_RANGE);
                },
                KeyOrder::Less => {},
            }
        }

        let mut items: Vec<(Vec<u8>, Vec<u8>)> = Vec::new();
        let n: usize = self.entry_count();
        let mut i: usize = 0;
        while i < n
            invariant
                i <= n,
                n == s.len(),
                s == self.entries(),
                self.wf(),
                lo == bound_view(start),
                hi == bound_view(end),
                items@.map(|m: int, p: (Vec<u8>, Vec<u8>)| (p.0@, p.1@)) =~= range_entries(
                    s.take(i as int),
                    lo,
                    hi,
                ),
                bounded_entries(items@.map(|m: int, p: (Vec<u8>, Vec<u8>)| (p.0@, p.1@))),
            decreases n - i,
        {
            proof {
                assert(s.take(i + 1).drop_last() =~= s.take(i as int));
                assert(s.take(i + 1).last() == s[i as int]);
            }
            if self.key_at_in_range(i, start, end) {
                let pair = self.entry_at(i);
                items.push(pair);
                proof {
                    assert(items@.map(|m: int, p: (Vec<u8>, Vec<u8>)| (p.0@, p.1@)) =~=
                        range_entries(s.take(i + 1), lo, hi));
                }
            }
            i = i + 1;
        }
        proof {
            assert(s.take(n as int) =~= s);
        }

        let it = match order {
            Order::Ascending => MockIterator { items, pos: 0 },
            Order::Descending => MockIterator { items: reverse_entries(items), pos: 0 },
        };
        (it, GAS_COST_RANGE)
    }

    /// Whether the key of the entry at `i` lies within the given bounds.
    fn key_at_in_range(&self, i: usize, start: Option<&[u8]>, end: Option<&[u8]>) -> (r: bool)
        requires
            i < self.entries().len(),
        ensures
            r == in_range(self.entries()[i as int].0, bound_view(start), bound_view(end)),
    {
        let above_start: bool = match start {
            Some(start_key) => {
                match self.compare_key_at(i, start_key) {
                    KeyOrder::Less => false,
                    _ => {
                        proof {
                            lemma_lex_lt_trichotomy(start_key@, self.entries()[i as int].0);
                        }
                        true
                    },
                }
            },
            None => true,
        };
        let below_end: bool = match end {
            Some(end_key) => {
                match self.compare_key_at(i, end_key) {
                    KeyOrder::Less => true,
                    _ => false,
                }
            },
            None => true,
        };
        above_start && below_end
    }
}

/// The entries of `v` in reverse order.
fn reverse_entries(v: Vec<(Vec<u8>, Vec<u8>)>) -> (out: Vec<(Vec<u8>, Vec<u8>)>)
    ensures
        out@.map(|m: int, p: (Vec<u8>, Vec<u8>)| (p.0@, p.1@)) == v@.map(
            |m: int, p: (Vec<u8>, Vec<u8>)| (p.0@, p.1@),
        ).reverse(),
{
    let ghost s = v@.map(|m: int, p: (Vec<u8>, Vec<u8>)| (p.0@, p.1@));
    let mut out: Vec<(Vec<u8>, Vec<u8>)> = Vec::new();
    let n: usize = v.len();
    let mut i: usize = 0;
    while i < n
        invariant
            i <= n,
            n == v@.len(),
            s == v@.map(|m: int, p: (Vec<u8>, Vec<u8>)| (p.0@, p.1@)),
            out@.len() == i,
            forall|m: int| 0 <= m < i ==> (#[trigger] out@[m]).0@ == s[n - 1 - m].0 && out@[m].1@
                == s[n - 1 - m].1,
        decreases n - i,
    {
        let pair = (
            copy_bytes(v[n - 1 - i].0.as_slice()),
            copy_bytes(v[n - 1 - i].1.as_slice()),
        );
        out.push(pair);
        i = i + 1;
    }
    proof {
        assert(out@.map(|m2: int, p: (Vec<u8>, Vec<u8>)| (p.0@, p.1@)) =~= s.reverse());
    }
    out
}

} // verus!
