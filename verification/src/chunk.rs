//! Reassembly of one chunk from fragments that arrive in any order.

use vstd::prelude::*;

verus! {

/// Why a fragment was turned away.
#[derive(Clone, Copy, Debug, PartialEq, Eq, Structural)]
pub enum FragmentError {
    /// The fragment reaches past the end of the chunk.
    OutOfBounds,
    /// The fragment shares at least one byte position with data already held.
    Overlap,
}

/// What an assembler holds, as mathematics: the chunk's length, the byte
/// positions that some accepted fragment has filled, and the buffer.
#[verifier::ext_equal]
pub struct Coverage {
    pub size: nat,
    pub covered: Set<int>,
    pub bytes: Seq<u8>,
}

/// The byte positions `start, start + 1, .., start + len - 1`.
pub open spec fn span(start: int, len: int) -> Set<int> {
    Set::new(|i: int| start <= i < start + len)
}

impl Coverage {
    /// The state of a fresh assembler for a chunk of `size` bytes.
    pub open spec fn empty(size: nat) -> Coverage {
        Coverage { size, covered: Set::empty(), bytes: Seq::new(size, |i: int| 0u8) }
    }

    /// The fragment lies inside the chunk.
    pub open spec fn fits(self, offset: int, len: int) -> bool {
        0 <= offset && 0 <= len && offset + len <= self.size
    }

    /// The fragment shares a position with the data already held.
    pub open spec fn overlaps(self, offset: int, len: int) -> bool {
        exists|i: int| offset <= i < offset + len && self.covered.contains(i)
    }

    /// The fragment is one that `add_fragment` accepts.
    pub open spec fn accepts(self, offset: int, len: int) -> bool {
        self.fits(offset, len) && !self.overlaps(offset, len)
    }

    /// The state after an accepted fragment has been copied in.
    pub open spec fn with_fragment(self, offset: int, data: Seq<u8>) -> Coverage {
        Coverage {
            size: self.size,
            covered: self.covered.union(span(offset, data.len() as int)),
            bytes: self.bytes.subrange(0, offset) + data + self.bytes.subrange(
                offset + data.len(),
                self.size as int,
            ),
        }
    }

    /// The state after `add_fragment` was called with this fragment: with the
    /// fragment where it is accepted, unchanged where it is refused.
    pub open spec fn after(self, offset: int, data: Seq<u8>) -> Coverage {
        if self.accepts(offset, data.len() as int) {
            self.with_fragment(offset, data)
        } else {
            self
        }
    }

    /// The state after `add_fragment` was called with each fragment of
    /// `fragments` in turn, a fragment being (offset, bytes).
    pub open spec fn after_all(self, fragments: Seq<(int, Seq<u8>)>) -> Coverage
        decreases fragments.len(),
    {
        if fragments.len() == 0 {
            self
        } else {
            self.after_all(fragments.drop_last()).after(fragments.last().0, fragments.last().1)
        }
    }

    /// One covered range spans the whole chunk. A chunk of no bytes has no
    /// covered range, so its assembler is never complete.
    pub open spec fn is_complete(self) -> bool {
        self.size > 0 && forall|i: int| 0 <= i < self.size ==> self.covered.contains(i)
    }
}

/// Position `i` lies in the range `r`, given as (start, length).
pub open spec fn in_range(r: (usize, usize), i: int) -> bool {
    r.0 <= i < r.0 + r.1
}

/// Some range of `ranges` holds position `i`.
pub open spec fn covered_by(ranges: Seq<(usize, usize)>, i: int) -> bool {
    exists|k: int| 0 <= k < ranges.len() && #[trigger] in_range(ranges[k], i)
}

/// `new_r` covers what `old_r` covers and the positions of `(offset, len)`,
/// and nothing else.
pub open spec fn adds_span(
    old_r: Seq<(usize, usize)>,
    new_r: Seq<(usize, usize)>,
    offset: int,
    len: int,
) -> bool {
    forall|i: int|
        #![trigger covered_by(new_r, i)]
        #![trigger covered_by(old_r, i)]
        covered_by(new_r, i) <==> (covered_by(old_r, i) || offset <= i < offset + len)
}

/// The ranges are not empty, lie inside `size`, are ordered by their start,
/// and between two of them at least one position is left out: ranges that
/// touch have been merged into one.
pub open spec fn ranges_wf(ranges: Seq<(usize, usize)>, size: nat) -> bool {
    &&& forall|k: int|
        0 <= k < ranges.len() ==> (#[trigger] ranges[k]).1 > 0 && ranges[k].0 + ranges[k].1 <= size
    &&& forall|j: int, k: int|
        0 <= j < k < ranges.len() ==> (#[trigger] ranges[j]).0 + ranges[j].1 < (
        #[trigger] ranges[k]).0
}

/// Gap tracker and buffer for one chunk.
pub struct ChunkAssembler {
    data: Vec<u8>,
    ranges: Vec<(usize, usize)>,
}

impl View for ChunkAssembler {
    type V = Coverage;

    closed spec fn view(&self) -> Coverage {
        Coverage {
            size: self.data@.len(),
            covered: Set::new(|i: int| covered_by(self.ranges@, i)),
            bytes: self.data@,
        }
    }
}

/// Copies `src` over `dst[offset .. offset + src.len()]`.
fn write_at(dst: &mut Vec<u8>, offset: usize, src: &[u8])
    requires
        offset + src@.len() <= old(dst)@.len(),
    ensures
        final(dst)@ == old(dst)@.subrange(0, offset as int) + src@ + old(dst)@.subrange(
            offset + src@.len(),
            old(dst)@.len() as int,
        ),
{
    let n = src.len();
    let total = dst.len();
    let mut i: usize = 0;
    while i < n
        invariant
            n == src@.len(),
            i <= n,
            offset + n <= total,
            total == dst@.len(),
            dst@.len() == old(dst)@.len(),
            forall|j: int| 0 <= j < offset ==> dst@[j] == old(dst)@[j],
            forall|j: int| 0 <= j < i ==> dst@[offset + j] == src@[j],
            forall|j: int| offset + i <= j < dst@.len() ==> dst@[j] == old(dst)@[j],
        decreases n - i,
    {
        dst.set(offset + i, src[i]);
        i += 1;
    }
}

/// The number of ranges that start before `offset`.
fn ranges_before(ranges: &Vec<(usize, usize)>, offset: usize, Ghost(size): Ghost<nat>) -> (p: usize)
    requires
        ranges_wf(ranges@, size),
    ensures
        p <= ranges@.len(),
        forall|k: int| 0 <= k < p ==> (#[trigger] ranges@[k]).0 < offset,
        forall|k: int| p <= k < ranges@.len() ==> (#[trigger] ranges@[k]).0 >= offset,
{
    let mut lo: usize = 0;
    let mut hi: usize = ranges.len();
    while lo < hi
        invariant
            lo <= hi <= ranges@.len(),
            ranges_wf(ranges@, size),
            forall|k: int| 0 <= k < lo ==> (#[trigger] ranges@[k]).0 < offset,
            forall|k: int| hi <= k < ranges@.len() ==> (#[trigger] ranges@[k]).0 >= offset,
        decreases hi - lo,
    {
        let mid = lo + (hi - lo) / 2;
        if ranges[mid].0 < offset {
            lo = mid + 1;
        } else {
            hi = mid;
        }
    }
    lo
}

/// Adding the range `(offset, len)` between the ranges `p - 1` and `p`, where
/// it touches neither, keeps the ranges well formed and adds its positions.
proof fn lemma_insert_range(old_r: Seq<(usize, usize)>, p: int, offset: usize, len: usize, size: nat)
    requires
        ranges_wf(old_r, size),
        0 <= p <= old_r.len(),
        len > 0,
        offset + len <= size,
        p > 0 ==> old_r[p - 1].0 + old_r[p - 1].1 < offset,
        p < old_r.len() ==> offset + len < old_r[p].0,
    ensures
        ranges_wf(old_r.insert(p, (offset, len)), size),
        adds_span(old_r, old_r.insert(p, (offset, len)), offset as int, len as int),
{
    let new_r = old_r.insert(p, (offset, len));
    assert forall|j: int, k: int| 0 <= j < k < new_r.len() implies (#[trigger] new_r[j]).0
        + new_r[j].1 < (#[trigger] new_r[k]).0 by {
        let oj = if j < p { j } else { j - 1 };
        let ok = if k < p { k } else { k - 1 };
        if j != p && k != p {
            assert(old_r[oj].0 + old_r[oj].1 < old_r[ok].0);
        } else if j == p {
            if ok > p {
                assert(old_r[p].0 + old_r[p].1 < old_r[ok].0);
            }
        } else {
            if oj < p - 1 {
                assert(old_r[oj].0 + old_r[oj].1 < old_r[p - 1].0);
            }
        }
    }
    assert forall|i: int| covered_by(new_r, i) <==> (covered_by(old_r, i) || offset <= i < offset
        + len) by {
        if covered_by(new_r, i) {
            let k = choose|k: int| 0 <= k < new_r.len() && in_range(new_r[k], i);
            if k < p {
                assert(in_range(old_r[k], i));
            } else if k > p {
                assert(in_range(old_r[k - 1], i));
            }
        }
        if covered_by(old_r, i) {
            let k = choose|k: int| 0 <= k < old_r.len() && in_range(old_r[k], i);
            if k < p {
                assert(in_range(new_r[k], i));
            } else {
                assert(in_range(new_r[k + 1], i));
            }
        }
        if offset <= i < offset + len {
            assert(in_range(new_r[p], i));
        }
    }
}

/// Replacing range `q` by a range that holds it and `(offset, len)`, and that
/// still keeps clear of its neighbours, keeps the ranges well formed and adds
/// the positions of `(offset, len)`.
proof fn lemma_grow_range(
    old_r: Seq<(usize, usize)>,
    q: int,
    grown: (usize, usize),
    offset: usize,
    len: usize,
    size: nat,
)
    requires
        ranges_wf(old_r, size),
        0 <= q < old_r.len(),
        len > 0,
        grown.0 + grown.1 <= size,
        forall|i: int| in_range(grown, i) <==> (in_range(old_r[q], i) || offset <= i < offset + len),
        q > 0 ==> old_r[q - 1].0 + old_r[q - 1].1 < grown.0,
        q + 1 < old_r.len() ==> grown.0 + grown.1 < old_r[q + 1].0,
        grown.1 > 0,
    ensures
        ranges_wf(old_r.update(q, grown), size),
        adds_span(old_r, old_r.update(q, grown), offset as int, len as int),
{
    let new_r = old_r.update(q, grown);
    assert(in_range(grown, offset as int));
    assert forall|j: int, k: int| 0 <= j < k < new_r.len() implies (#[trigger] new_r[j]).0
        + new_r[j].1 < (#[trigger] new_r[k]).0 by {
        if j != q && k != q {
            assert(old_r[j].0 + old_r[j].1 < old_r[k].0);
        } else if j == q {
            if k > q + 1 {
                assert(old_r[q + 1].0 + old_r[q + 1].1 < old_r[k].0);
            }
        } else {
            if j < q - 1 {
                assert(old_r[j].0 + old_r[j].1 < old_r[q - 1].0);
            }
        }
    }
    assert forall|i: int| covered_by(new_r, i) <==> (covered_by(old_r, i) || offset <= i < offset
        + len) by {
        if covered_by(new_r, i) {
            let k = choose|k: int| 0 <= k < new_r.len() && in_range(new_r[k], i);
            if k != q {
                assert(in_range(old_r[k], i));
            } else if !(offset <= i < offset + len) {
                assert(in_range(old_r[q], i));
            }
        }
        if covered_by(old_r, i) {
            let k = choose|k: int| 0 <= k < old_r.len() && in_range(old_r[k], i);
            assert(in_range(new_r[k], i));
        }
        if offset <= i < offset + len {
            assert(in_range(new_r[q], i));
        }
    }
}

/// Where the range `(offset, len)` starts at the end of range `p - 1` and ends
/// at the start of range `p`, one range from the start of the first to the end
/// of the second takes the place of both: the ranges stay well formed and
/// gain the positions of `(offset, len)`.
proof fn lemma_bridge_ranges(old_r: Seq<(usize, usize)>, p: int, offset: usize, len: usize, size: nat)
    requires
        ranges_wf(old_r, size),
        size <= usize::MAX,
        0 < p < old_r.len(),
        len > 0,
        old_r[p - 1].0 + old_r[p - 1].1 == offset,
        offset + len == old_r[p].0,
    ensures
        old_r[p - 1].1 + len + old_r[p].1 <= size,
        ranges_wf(
            old_r.remove(p).update(
                p - 1,
                (old_r[p - 1].0, (old_r[p - 1].1 + len + old_r[p].1) as usize),
            ),
            size,
        ),
        adds_span(
            old_r,
            old_r.remove(p).update(
                p - 1,
                (old_r[p - 1].0, (old_r[p - 1].1 + len + old_r[p].1) as usize),
            ),
            offset as int,
            len as int,
        ),
{
    let joined = (old_r[p - 1].0, (old_r[p - 1].1 + len + old_r[p].1) as usize);
    let new_r = old_r.remove(p).update(p - 1, joined);
    assert(old_r[p].0 + old_r[p].1 <= size);
    assert forall|k: int| 0 <= k < new_r.len() implies (#[trigger] new_r[k]).1 > 0 && new_r[k].0
        + new_r[k].1 <= size by {
        if k < p - 1 {
            assert(new_r[k] == old_r[k]);
        } else if k > p - 1 {
            assert(new_r[k] == old_r[k + 1]);
        }
    }
    assert forall|j: int, k: int| 0 <= j < k < new_r.len() implies (#[trigger] new_r[j]).0
        + new_r[j].1 < (#[trigger] new_r[k]).0 by {
        let oj = if j < p { j } else { j + 1 };
        let ok = if k < p { k } else { k + 1 };
        if j != p - 1 && k != p - 1 {
            assert(old_r[oj].0 + old_r[oj].1 < old_r[ok].0);
        } else if j == p - 1 {
            assert(old_r[p].0 + old_r[p].1 < old_r[ok].0);
        } else {
            assert(old_r[oj].0 + old_r[oj].1 < old_r[p - 1].0);
        }
    }
    assert forall|i: int| covered_by(new_r, i) <==> (covered_by(old_r, i) || offset <= i < offset
        + len) by {
        if covered_by(new_r, i) {
            let k = choose|k: int| 0 <= k < new_r.len() && in_range(new_r[k], i);
            if k < p - 1 {
                assert(in_range(old_r[k], i));
            } else if k == p - 1 {
                if i < offset {
                    assert(in_range(old_r[p - 1], i));
                } else if i >= offset + len {
                    assert(in_range(old_r[p], i));
                }
            } else {
                assert(in_range(old_r[k + 1], i));
            }
        }
        if covered_by(old_r, i) {
            let k = choose|k: int| 0 <= k < old_r.len() && in_range(old_r[k], i);
            if k < p - 1 {
                assert(in_range(new_r[k], i));
            } else if k <= p {
                assert(in_range(new_r[p - 1], i));
            } else {
                assert(in_range(new_r[k - 1], i));
            }
        }
        if offset <= i < offset + len {
            assert(in_range(new_r[p - 1], i));
        }
    }
}

/// Brings the accepted range `(offset, len)` into the ranges, where `p` is the
/// number of ranges that start before it.
fn join_range(
    ranges: &mut Vec<(usize, usize)>,
    p: usize,
    offset: usize,
    len: usize,
    touches_before: bool,
    touches_after: bool,
    Ghost(size): Ghost<nat>,
)
    requires
        ranges_wf(old(ranges)@, size),
        size <= usize::MAX,
        p <= old(ranges)@.len(),
        len > 0,
        offset + len <= size,
        p > 0 ==> old(ranges)@[p - 1].0 + old(ranges)@[p - 1].1 <= offset,
        p < old(ranges)@.len() ==> offset + len <= old(ranges)@[p as int].0,
        touches_before == (p > 0 && old(ranges)@[p - 1].0 + old(ranges)@[p - 1].1 == offset),
        touches_after == (p < old(ranges)@.len() && offset + len == old(ranges)@[p as int].0),
    ensures
        ranges_wf(final(ranges)@, size),
        adds_span(old(ranges)@, final(ranges)@, offset as int, len as int),
{
    let ghost old_r = ranges@;
    if touches_before && touches_after {
        let before = ranges[p - 1];
        let after = ranges[p];
        proof {
            lemma_bridge_ranges(old_r, p as int, offset, len, size);
        }
        ranges.remove(p);
        ranges.set(p - 1, (before.0, before.1 + len + after.1));
        assert(ranges@ == old_r.remove(p as int).update(
            p - 1,
            (old_r[p - 1].0, (old_r[p - 1].1 + len + old_r[p as int].1) as usize),
        ));
    } else if touches_before {
        let before = ranges[p - 1];
        assert(before.0 + before.1 <= size);
        let grown = (before.0, before.1 + len);
        proof {
            if p < old_r.len() {
                assert(old_r[p as int].0 > offset + len);
            }
            lemma_grow_range(old_r, p - 1, grown, offset, len, size);
        }
        ranges.set(p - 1, grown);
        assert(ranges@ == old_r.update(p - 1, grown));
    } else if touches_after {
        let after = ranges[p];
        assert(after.0 + after.1 <= size);
        let grown = (offset, len + after.1);
        proof {
            if p > 0 {
                assert(old_r[p - 1].0 + old_r[p - 1].1 < offset);
            }
            lemma_grow_range(old_r, p as int, grown, offset, len, size);
        }
        ranges.set(p, grown);
        assert(ranges@ == old_r.update(p as int, grown));
    } else {
        proof {
            lemma_insert_range(old_r, p as int, offset, len, size);
        }
        ranges.insert(p, (offset, len));
        assert(ranges@ == old_r.insert(p as int, (offset, len)));
    }
}

impl ChunkAssembler {
    /// The invariant of the range set.
    pub closed spec fn wf(&self) -> bool {
        ranges_wf(self.ranges@, self.data@.len())
    }

    /// The covered ranges as (start, length) pairs, ordered by start.
    pub closed spec fn ranges(&self) -> Seq<(usize, usize)> {
        self.ranges@
    }

    /// What the invariant says of the covered ranges: they are not empty,
    /// lie inside the chunk in increasing order, and no two of them touch;
    /// and the positions that they hold are the positions covered.
    pub proof fn lemma_ranges(&self)
        requires
            self.wf(),
        ensures
            ranges_wf(self.ranges(), self@.size),
            self@.bytes.len() == self@.size,
            forall|i: int| self@.covered.contains(i) <==> covered_by(self.ranges(), i),
    {
    }

    /// An assembler for a chunk of `chunk_size` bytes, with nothing covered.
    pub fn new(chunk_size: usize) -> (a: ChunkAssembler)
        ensures
            a.wf(),
            a@ == Coverage::empty(chunk_size as nat),
            a.ranges() == Seq::<(usize, usize)>::empty(),
    {
        let a = ChunkAssembler { data: vec![0u8; chunk_size], ranges: Vec::new() };
        assert(a@.covered =~= Set::<int>::empty());
        assert(a@.bytes =~= Seq::new(chunk_size as nat, |i: int| 0u8));
        a
    }

    /// Takes in the fragment `data` for the positions from `offset` on.
    ///
    /// A fragment that reaches past the chunk's end, or that shares a position
    /// with a fragment accepted before, is refused and leaves the assembler as
    /// it was. An accepted fragment is copied into the buffer and its range is
    /// merged with the ranges it touches.
    pub fn add_fragment(&mut self, offset: usize, data: &[u8]) -> (r: Result<(), FragmentError>)
        requires
            old(self).wf(),
        ensures
            final(self).wf(),
            final(self)@ == old(self)@.after(offset as int, data@),
            match r {
                Ok(()) => {
                    &&& old(self)@.accepts(offset as int, data@.len() as int)
                    &&& final(self)@ == old(self)@.with_fragment(offset as int, data@)
                },
                Err(FragmentError::OutOfBounds) => {
                    &&& !old(self)@.fits(offset as int, data@.len() as int)
                    &&& *final(self) == *old(self)
                },
                Err(FragmentError::Overlap) => {
                    &&& old(self)@.fits(offset as int, data@.len() as int)
                    &&& old(self)@.overlaps(offset as int, data@.len() as int)
                    &&& *final(self) == *old(self)
                },
            },
    {
        let size = self.data.len();
        let len = data.len();
        if offset > size || len > size - offset {
            return Err(FragmentError::OutOfBounds);
        }
        if len == 0 {
            assert(self@.with_fragment(offset as int, data@).covered =~= self@.covered);
            assert(self@.with_fragment(offset as int, data@).bytes =~= self@.bytes);
            return Ok(());
        }
        let count = self.ranges.len();
        let p = ranges_before(&self.ranges, offset, Ghost(size as nat));
        let ghost old_ranges = self.ranges@;
        let end = offset + len;

        let touches_before = if p > 0 {
            let before = self.ranges[p - 1];
            let before_end = before.0 + before.1;
            if before_end > offset {
                assert(in_range(old_ranges[p - 1], offset as int));
                assert(self@.covered.contains(offset as int));
                return Err(FragmentError::Overlap);
            }
            before_end == offset
        } else {
            false
        };
        let touches_after = if p < count {
            let after = self.ranges[p];
            if end > after.0 {
                assert(in_range(old_ranges[p as int], after.0 as int));
                assert(self@.covered.contains(after.0 as int));
                return Err(FragmentError::Overlap);
            }
            end == after.0
        } else {
            false
        };

        proof {
            assert forall|i: int| offset <= i < end implies !covered_by(old_ranges, i) by {
                if covered_by(old_ranges, i) {
                    let k = choose|k: int| 0 <= k < old_ranges.len() && in_range(old_ranges[k], i);
                    if k < p {
                        if k < p - 1 {
                            assert(old_ranges[k].0 + old_ranges[k].1 < old_ranges[p - 1].0);
                        }
                    } else {
                        if k > p {
                            assert(old_ranges[p as int].0 + old_ranges[p as int].1
                                < old_ranges[k].0);
                        }
                    }
                }
            }
        }

        write_at(&mut self.data, offset, data);
        join_range(&mut self.ranges, p, offset, len, touches_before, touches_after, Ghost(size as nat));
        proof {
            assert(self@.covered =~= old(self)@.with_fragment(offset as int, data@).covered);
        }
        Ok(())
    }

    /// True when one covered range spans the whole chunk.
    pub fn is_complete(&self) -> (r: bool)
        requires
            self.wf(),
        ensures
            r == self@.is_complete(),
            r == (self.ranges().len() == 1 && self.ranges()[0].0 == 0 && self.ranges()[0].1
                == self@.size),
    {
        let r = self.ranges.len() == 1 && self.ranges[0].0 == 0 && self.ranges[0].1
            == self.data.len();
        proof {
            let ranges = self.ranges@;
            let size = self.data@.len();
            if r {
                assert forall|i: int| 0 <= i < size implies self@.covered.contains(i) by {
                    assert(in_range(ranges[0], i));
                }
            } else if self@.is_complete() {
                assert forall|i: int| 0 <= i < size implies covered_by(ranges, i) by {
                    assert(self@.covered.contains(i));
                }
                lemma_full_cover_is_one_range(ranges, size);
            }
        }
        r
    }

    /// Gives up the buffer of a complete chunk.
    pub fn complete(self) -> (bytes: Vec<u8>)
        requires
            self.wf(),
            self@.is_complete(),
        ensures
            bytes@ == self@.bytes,
    {
        self.data
    }
}

/// Well-formed ranges that cover every position of a chunk that is not empty
/// are the single range of the whole chunk.
pub proof fn lemma_full_cover_is_one_range(ranges: Seq<(usize, usize)>, size: nat)
    requires
        ranges_wf(ranges, size),
        size > 0,
        forall|i: int| 0 <= i < size ==> covered_by(ranges, i),
    ensures
        ranges =~= seq![(0usize, size as usize)],
{
    assert(covered_by(ranges, 0));
    let k0 = choose|k: int| 0 <= k < ranges.len() && in_range(ranges[k], 0);
    if k0 > 0 {
        assert(ranges[0].0 + ranges[0].1 < ranges[k0].0);
    }
    assert(ranges[0].0 == 0);
    let e = ranges[0].0 + ranges[0].1;
    if e < size {
        // The position just past the first range belongs to no range.
        assert(covered_by(ranges, e));
        let k = choose|k: int| 0 <= k < ranges.len() && in_range(ranges[k], e);
        if k > 0 {
            assert(ranges[0].0 + ranges[0].1 < ranges[k].0);
        }
        assert(false);
    }
    if ranges.len() > 1 {
        assert(ranges[0].0 + ranges[0].1 < ranges[1].0);
        assert(ranges[1].0 + ranges[1].1 <= size);
        assert(false);
    }
}

/// Fragment `k` of `fragments` holds position `i`.
pub open spec fn fragment_holds(fragments: Seq<(int, Seq<u8>)>, k: int, i: int) -> bool {
    fragments[k].0 <= i < fragments[k].0 + fragments[k].1.len()
}

/// One of the first `n` fragments holds position `i`.
pub open spec fn among_holds(fragments: Seq<(int, Seq<u8>)>, n: int, i: int) -> bool {
    exists|k: int| 0 <= k < n && #[trigger] fragment_holds(fragments, k, i)
}

/// The fragments lie inside a chunk of `size` bytes and no two of them share
/// a position.
pub open spec fn fragments_disjoint(fragments: Seq<(int, Seq<u8>)>, size: nat) -> bool {
    &&& forall|k: int|
        0 <= k < fragments.len() ==> 0 <= (#[trigger] fragments[k]).0 && fragments[k].0
            + fragments[k].1.len() <= size
    &&& forall|j: int, k: int, i: int|
        0 <= j < k < fragments.len() && #[trigger] fragment_holds(fragments, j, i) ==> !(
        #[trigger] fragment_holds(fragments, k, i))
}

/// What holds of an assembler that was fed the first `n` of a list of
/// fragments no two of which overlap: it holds exactly their positions, and
/// each of them as it came; and it accepts the next one.
pub proof fn lemma_after_prefix(size: nat, fragments: Seq<(int, Seq<u8>)>, n: int)
    requires
        fragments_disjoint(fragments, size),
        0 <= n <= fragments.len(),
    ensures
        Coverage::empty(size).after_all(fragments.take(n)).size == size,
        Coverage::empty(size).after_all(fragments.take(n)).bytes.len() == size,
        forall|i: int|
            Coverage::empty(size).after_all(fragments.take(n)).covered.contains(i) <==> among_holds(
                fragments,
                n,
                i,
            ),
        forall|k: int|
            0 <= k < n ==> Coverage::empty(size).after_all(fragments.take(n)).bytes.subrange(
                (#[trigger] fragments[k]).0,
                fragments[k].0 + fragments[k].1.len(),
            ) == fragments[k].1,
        n < fragments.len() ==> Coverage::empty(size).after_all(fragments.take(n)).accepts(
            fragments[n].0,
            fragments[n].1.len() as int,
        ),
    decreases n,
{
    let start = Coverage::empty(size);
    let now = start.after_all(fragments.take(n));
    if n == 0 {
        assert(fragments.take(0).len() == 0);
        assert(now == start);
    } else {
        lemma_after_prefix(size, fragments, n - 1);
        let prev = start.after_all(fragments.take(n - 1));
        let f = fragments[n - 1];
        assert(fragments.take(n).drop_last() =~= fragments.take(n - 1));
        assert(fragments.take(n).last() == f);
        assert(now == prev.after(f.0, f.1));
        assert(now == prev.with_fragment(f.0, f.1));
        assert forall|i: int| now.covered.contains(i) <==> among_holds(fragments, n, i) by {
            if now.covered.contains(i) {
                if prev.covered.contains(i) {
                    assert(among_holds(fragments, n - 1, i));
                    let k = choose|k: int| 0 <= k < n - 1 && fragment_holds(fragments, k, i);
                    assert(fragment_holds(fragments, k, i));
                } else {
                    assert(fragment_holds(fragments, n - 1, i));
                }
            }
            if among_holds(fragments, n, i) {
                let k = choose|k: int| 0 <= k < n && fragment_holds(fragments, k, i);
                if k < n - 1 {
                    assert(among_holds(fragments, n - 1, i));
                }
            }
        }
        assert forall|k: int| 0 <= k < n implies now.bytes.subrange(
            (#[trigger] fragments[k]).0,
            fragments[k].0 + fragments[k].1.len(),
        ) == fragments[k].1 by {
            let g = fragments[k];
            let got = now.bytes.subrange(g.0, g.0 + g.1.len());
            if k < n - 1 {
                let had = prev.bytes.subrange(g.0, g.0 + g.1.len());
                assert(had == g.1);
                assert forall|t: int| 0 <= t < g.1.len() implies got[t] == had[t] by {
                    assert(fragment_holds(fragments, k, g.0 + t));
                    assert(!fragment_holds(fragments, n - 1, g.0 + t));
                }
                assert(got =~= had);
            } else {
                assert(got =~= g.1);
            }
        }
    }
    if n < fragments.len() {
        let f = fragments[n];
        assert forall|i: int| f.0 <= i < f.0 + f.1.len() implies !now.covered.contains(i) by {
            if now.covered.contains(i) {
                assert(among_holds(fragments, n, i));
                let k = choose|k: int| 0 <= k < n && fragment_holds(fragments, k, i);
                assert(fragment_holds(fragments, n, i));
            }
        }
    }
}

/// Fragments that do not overlap and that together hold every position of a
/// chunk are all accepted, in whatever order they come; after the last of them
/// the assembler is complete, and its buffer holds each fragment at its
/// offset, which is the fragments' bytes strung together in offset order.
pub proof fn lemma_partition_assembles(size: nat, fragments: Seq<(int, Seq<u8>)>)
    requires
        size > 0,
        fragments_disjoint(fragments, size),
        forall|i: int| 0 <= i < size ==> #[trigger] among_holds(fragments, fragments.len() as int, i),
    ensures
        forall|n: int|
            0 <= n < fragments.len() ==> (#[trigger] Coverage::empty(size).after_all(
                fragments.take(n),
            )).accepts(fragments[n].0, fragments[n].1.len() as int),
        Coverage::empty(size).after_all(fragments).is_complete(),
        Coverage::empty(size).after_all(fragments).bytes.len() == size,
        forall|k: int|
            0 <= k < fragments.len() ==> Coverage::empty(size).after_all(fragments).bytes.subrange(
                (#[trigger] fragments[k]).0,
                fragments[k].0 + fragments[k].1.len(),
            ) == fragments[k].1,
{
    assert forall|n: int| 0 <= n < fragments.len() implies (#[trigger] Coverage::empty(
        size,
    ).after_all(fragments.take(n))).accepts(fragments[n].0, fragments[n].1.len() as int) by {
        lemma_after_prefix(size, fragments, n);
    }
    lemma_after_prefix(size, fragments, fragments.len() as int);
    assert(fragments.take(fragments.len() as int) =~= fragments);
    let last = Coverage::empty(size).after_all(fragments);
    assert forall|i: int| 0 <= i < size implies last.covered.contains(i) by {
        assert(among_holds(fragments, fragments.len() as int, i));
    }
}

} // verus!
