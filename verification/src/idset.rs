//! An ordered set of chunk indices, kept as a vector in increasing order.

use vstd::prelude::*;

verus! {

/// Each item is smaller than the items behind it.
pub open spec fn increasing(s: Seq<u32>) -> bool {
    forall|i: int, j: int| 0 <= i < j < s.len() ==> s[i] < s[j]
}

/// The number of items at the front of `s` that are smaller than `x`. In an
/// increasing sequence these are all the items smaller than `x`, and the
/// result is the place of `x`, or the place where `x` would go.
pub open spec fn below(s: Seq<u32>, x: int) -> int
    decreases s.len(),
{
    if s.len() == 0 || s[0] >= x {
        0
    } else {
        1 + below(s.drop_first(), x)
    }
}

/// `below` splits an increasing sequence into the items smaller than `x` and
/// the others.
pub proof fn lemma_below_splits(s: Seq<u32>, x: int)
    requires
        increasing(s),
    ensures
        0 <= below(s, x) <= s.len(),
        forall|k: int| 0 <= k < below(s, x) ==> s[k] < x,
        forall|k: int| below(s, x) <= k < s.len() ==> s[k] >= x,
    decreases s.len(),
{
    if s.len() == 0 || s[0] >= x {
    } else {
        let t = s.drop_first();
        assert(increasing(t)) by {
            assert forall|i: int, j: int| 0 <= i < j < t.len() implies t[i] < t[j] by {
                assert(s[i + 1] < s[j + 1]);
            }
        }
        lemma_below_splits(t, x);
        assert forall|k: int| 0 <= k < below(s, x) implies s[k] < x by {
            if k > 0 {
                assert(t[k - 1] < x);
            }
        }
        assert forall|k: int| below(s, x) <= k < s.len() implies s[k] >= x by {
            assert(t[k - 1] >= x);
        }
    }
}

/// The place that splits an increasing sequence into the items smaller than
/// `x` and the others is `below(s, x)`.
pub proof fn lemma_below_is(s: Seq<u32>, x: int, p: int)
    requires
        increasing(s),
        0 <= p <= s.len(),
        forall|k: int| 0 <= k < p ==> s[k] < x,
        forall|k: int| p <= k < s.len() ==> s[k] >= x,
    ensures
        below(s, x) == p,
{
    lemma_below_splits(s, x);
    let q = below(s, x);
    if q < p {
        assert(s[q] < x);
    } else if p < q {
        assert(s[p] >= x);
    }
}

/// `x` is an item of an increasing sequence exactly if it stands at
/// `below(s, x)`.
pub proof fn lemma_contains_at_below(s: Seq<u32>, x: u32)
    requires
        increasing(s),
    ensures
        s.contains(x) <==> (below(s, x as int) < s.len() && s[below(s, x as int)] == x),
{
    lemma_below_splits(s, x as int);
    let p = below(s, x as int);
    if s.contains(x) {
        let k = choose|k: int| 0 <= k < s.len() && s[k] == x;
        if k > p {
            assert(s[p] < s[k]);
        }
    }
}

/// Putting a new item at its place keeps the sequence increasing and adds the
/// item to what it holds.
pub proof fn lemma_insert_keeps_order(s: Seq<u32>, x: u32)
    requires
        increasing(s),
        !s.contains(x),
    ensures
        increasing(s.insert(below(s, x as int), x)),
        s.insert(below(s, x as int), x).to_set() == s.to_set().insert(x),
{
    lemma_below_splits(s, x as int);
    lemma_contains_at_below(s, x);
    let p = below(s, x as int);
    let t = s.insert(p, x);
    assert forall|i: int, j: int| 0 <= i < j < t.len() implies t[i] < t[j] by {
        let oi = if i < p { i } else { i - 1 };
        let oj = if j < p { j } else { j - 1 };
        if i != p && j != p {
            assert(s[oi] < s[oj]);
        } else if i == p {
            assert(s[oj] >= x);
        } else {
            assert(s[oi] < x);
        }
    }
    assert forall|y: u32| t.to_set().contains(y) <==> s.to_set().insert(x).contains(y) by {
        if t.contains(y) {
            let k = choose|k: int| 0 <= k < t.len() && t[k] == y;
            if k < p {
                assert(s[k] == y);
            } else if k > p {
                assert(s[k - 1] == y);
            }
        }
        if s.contains(y) {
            let k = choose|k: int| 0 <= k < s.len() && s[k] == y;
            if k < p {
                assert(t[k] == y);
            } else {
                assert(t[k + 1] == y);
            }
        }
        if y == x {
            assert(t[p] == y);
        }
    }
    assert(t.to_set() =~= s.to_set().insert(x));
}

/// Taking the item at place `p` out keeps the sequence increasing and takes
/// the item from what it holds.
pub proof fn lemma_remove_keeps_order(s: Seq<u32>, p: int)
    requires
        increasing(s),
        0 <= p < s.len(),
    ensures
        increasing(s.remove(p)),
        s.remove(p).to_set() == s.to_set().remove(s[p]),
        !s.remove(p).contains(s[p]),
{
    let t = s.remove(p);
    assert forall|i: int, j: int| 0 <= i < j < t.len() implies t[i] < t[j] by {
        let oi = if i < p { i } else { i + 1 };
        let oj = if j < p { j } else { j + 1 };
        assert(s[oi] < s[oj]);
    }
    assert forall|y: u32| t.to_set().contains(y) <==> s.to_set().remove(s[p]).contains(y) by {
        if t.contains(y) {
            let k = choose|k: int| 0 <= k < t.len() && t[k] == y;
            let ok = if k < p { k } else { k + 1 };
            assert(s[ok] == y);
            if ok < p {
                assert(s[ok] < s[p]);
            } else {
                assert(s[p] < s[ok]);
            }
        }
        if s.contains(y) && y != s[p] {
            let k = choose|k: int| 0 <= k < s.len() && s[k] == y;
            if k < p {
                assert(t[k] == y);
            } else {
                assert(t[k - 1] == y);
            }
        }
    }
    assert(t.to_set() =~= s.to_set().remove(s[p]));
}

/// A set of chunk indices that can be walked in increasing order.
pub struct IdSet {
    ids: Vec<u32>,
}

impl View for IdSet {
    type V = Seq<u32>;

    /// The indices that the set holds, in increasing order.
    closed spec fn view(&self) -> Seq<u32> {
        self.ids@
    }
}

impl IdSet {
    /// The invariant: the indices are kept in increasing order, so none
    /// occurs twice.
    pub closed spec fn wf(&self) -> bool {
        increasing(self.ids@)
    }

    /// The invariant, as it shows in the view.
    pub proof fn lemma_wf(&self)
        requires
            self.wf(),
        ensures
            increasing(self@),
    {
    }

    /// The empty set.
    pub fn new() -> (s: IdSet)
        ensures
            s.wf(),
            s@ == Seq::<u32>::empty(),
    {
        IdSet { ids: Vec::new() }
    }

    /// The set of the indices `0, 1, .., count - 1`.
    pub fn first_n(count: u32) -> (s: IdSet)
        ensures
            s.wf(),
            s@ == Seq::new(count as nat, |i: int| i as u32),
    {
        let mut ids: Vec<u32> = Vec::new();
        let mut i: u32 = 0;
        while i < count
            invariant
                i <= count,
                ids@ == Seq::new(i as nat, |k: int| k as u32),
            decreases count - i,
        {
            ids.push(i);
            i += 1;
            assert(ids@ =~= Seq::new(i as nat, |k: int| k as u32));
        }
        IdSet { ids }
    }

    /// The number of indices in the set.
    pub fn len(&self) -> (n: usize)
        ensures
            n == self@.len(),
    {
        self.ids.len()
    }

    /// True when the set holds no index.
    pub fn is_empty(&self) -> (r: bool)
        ensures
            r == (self@.len() == 0),
    {
        self.ids.len() == 0
    }

    /// The index at place `i` in increasing order.
    pub fn get(&self, i: usize) -> (id: u32)
        requires
            i < self@.len(),
        ensures
            id == self@[i as int],
    {
        self.ids[i]
    }

    /// The number of indices smaller than `x`.
    pub fn rank(&self, x: u32) -> (p: usize)
        requires
            self.wf(),
        ensures
            p == below(self@, x as int),
            p <= self@.len(),
    {
        let mut lo: usize = 0;
        let mut hi: usize = self.ids.len();
        while lo < hi
            invariant
                lo <= hi <= self.ids@.len(),
                increasing(self.ids@),
                forall|k: int| 0 <= k < lo ==> self.ids@[k] < x,
                forall|k: int| hi <= k < self.ids@.len() ==> self.ids@[k] >= x,
            decreases hi - lo,
        {
            let mid = lo + (hi - lo) / 2;
            if self.ids[mid] < x {
                assert forall|k: int| 0 <= k < mid + 1 implies self.ids@[k] < x by {
                    if k < mid {
                        assert(self.ids@[k] < self.ids@[mid as int]);
                    }
                }
                lo = mid + 1;
            } else {
                assert forall|k: int| mid <= k < self.ids@.len() implies self.ids@[k] >= x by {
                    if k > mid {
                        assert(self.ids@[mid as int] < self.ids@[k]);
                    }
                }
                hi = mid;
            }
        }
        proof {
            lemma_below_is(self.ids@, x as int, lo as int);
        }
        lo
    }

    /// True when the set holds `id`.
    pub fn contains(&self, id: u32) -> (r: bool)
        requires
            self.wf(),
        ensures
            r == self@.contains(id),
    {
        let p = self.rank(id);
        proof {
            lemma_contains_at_below(self.ids@, id);
        }
        p < self.ids.len() && self.ids[p] == id
    }

    /// Adds `id` and says whether the set has changed: an index that the set
    /// holds already is not added again.
    pub fn insert(&mut self, id: u32) -> (added: bool)
        requires
            old(self).wf(),
        ensures
            final(self).wf(),
            added == !old(self)@.contains(id),
            added ==> final(self)@ == old(self)@.insert(below(old(self)@, id as int), id),
            !added ==> final(self)@ == old(self)@,
            final(self)@.to_set() == old(self)@.to_set().insert(id),
    {
        let p = self.rank(id);
        proof {
            lemma_contains_at_below(self.ids@, id);
        }
        if p < self.ids.len() && self.ids[p] == id {
            assert(self@.to_set() =~= self@.to_set().insert(id));
            false
        } else {
            proof {
                lemma_insert_keeps_order(self.ids@, id);
            }
            self.ids.insert(p, id);
            true
        }
    }

    /// Takes `id` out and says whether the set has changed.
    pub fn remove(&mut self, id: u32) -> (removed: bool)
        requires
            old(self).wf(),
        ensures
            final(self).wf(),
            removed == old(self)@.contains(id),
            removed ==> final(self)@ == old(self)@.remove(below(old(self)@, id as int)),
            !removed ==> final(self)@ == old(self)@,
            final(self)@.to_set() == old(self)@.to_set().remove(id),
            !final(self)@.contains(id),
    {
        let p = self.rank(id);
        proof {
            lemma_contains_at_below(self.ids@, id);
        }
        if p < self.ids.len() && self.ids[p] == id {
            proof {
                lemma_remove_keeps_order(self.ids@, p as int);
            }
            self.ids.remove(p);
            true
        } else {
            assert(self@.to_set() =~= self@.to_set().remove(id));
            false
        }
    }

    /// Takes out the index at place `i` in increasing order and returns it.
    pub fn take(&mut self, i: usize) -> (id: u32)
        requires
            old(self).wf(),
            i < old(self)@.len(),
        ensures
            final(self).wf(),
            id == old(self)@[i as int],
            final(self)@ == old(self)@.remove(i as int),
            final(self)@.to_set() == old(self)@.to_set().remove(id),
            !final(self)@.contains(id),
    {
        proof {
            lemma_remove_keeps_order(self.ids@, i as int);
        }
        self.ids.remove(i)
    }
}

} // verus!
