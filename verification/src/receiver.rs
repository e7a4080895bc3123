//! What the client decides while it receives an image: which chunks it still
//! asks for, what becomes of each datagram that comes in, and when a chunk is
//! ready for the disk.

use crate::chunk::{
    among_holds, fragment_holds, lemma_after_prefix, ChunkAssembler, Coverage, FragmentError,
};
use crate::dispatch::{fragments_from, lemma_fragments_from, lemma_fragments_reassemble};
use crate::digest::{xxh3_64, xxh3_64_oneshot};
use crate::idset::{below, increasing, lemma_below_splits, lemma_contains_at_below, IdSet};
use crate::image::MAX_CHUNKS;
use crate::wire::{
    chunk_data_decoding, chunk_data_from_bytes, chunk_data_wire, chunk_request_to_slice,
    chunk_request_wire,
    lemma_chunk_request_wire_len, request_ids, request_new, request_push, DecodeError,
};
use crate::{Capacity, ChunkData, ChunkMetadata, ChunkRequest, ImageMetadata};
use vstd::prelude::*;

verus! {

/// The number of chunks that are assembled at the same time, at most.
pub const MAX_ASSEMBLERS: usize = 40;

/// The length of the receive buffer at the start: a frame of 2500 bytes less
/// the headers of IPv6 and UDP.
pub const INITIAL_BUFFER_LEN: usize = 2452;

/// No request takes more bytes on the wire than this.
pub const MAX_REQUEST_LEN: usize = 201;

/// What became of a datagram that came in on the transfer socket.
#[derive(Debug)]
pub enum Reception {
    /// The datagram was cut short: receive into a larger buffer from now on.
    Grow,
    /// The datagram is no fragment.
    Malformed,
    /// The fragment names a chunk that the image does not have.
    UnknownChunk,
    /// The chunk's assembler refused the fragment.
    Refused(FragmentError),
    /// The fragment was taken in; its chunk is not complete yet.
    Stored,
    /// The fragment completed its chunk, but the chunk's hash is not the one
    /// in the table: the chunk was thrown away and stays missing.
    Corrupt,
    /// The fragment completed its chunk: `data` belongs at `offset` of the
    /// image, and the chunk is missing no longer.
    Complete { chunk: u32, offset: u64, data: Vec<u8> },
}

/// The number of chunk indices that go into one request: all that are
/// missing, up to the 40 that a request holds.
pub open spec fn asked(missing: Seq<u32>) -> int {
    if missing.len() < 40 {
        missing.len() as int
    } else {
        40
    }
}

/// An increasing sequence without `id`.
pub open spec fn without(ids: Seq<u32>, id: u32) -> Seq<u32> {
    if ids.contains(id) {
        ids.remove(below(ids, id as int))
    } else {
        ids
    }
}

/// The state of a receiver, as mathematics.
#[verifier::ext_equal]
pub struct ReceiverState {
    /// The image's chunk table.
    pub chunks: Seq<ChunkMetadata>,
    /// The chunks that have not been handed to the disk, in increasing order.
    pub missing: Seq<u32>,
    /// The chunks that are being assembled, in increasing order.
    pub open_ids: Seq<u32>,
    /// The assemblers of the chunks of `open_ids`, in the same order.
    pub open: Seq<Coverage>,
}

impl ReceiverState {
    /// What holds of every receiver's state.
    pub open spec fn wf(self) -> bool {
        &&& self.chunks.len() <= MAX_CHUNKS
        &&& increasing(self.missing)
        &&& forall|k: int| 0 <= k < self.missing.len() ==> self.missing[k] < self.chunks.len()
        &&& increasing(self.open_ids)
        &&& self.open_ids.len() == self.open.len()
        &&& self.open.len() <= MAX_ASSEMBLERS
        &&& forall|k: int|
            0 <= k < self.open_ids.len() ==> (#[trigger] self.open_ids[k]) < self.chunks.len()
                && self.open[k].size == self.chunks[self.open_ids[k] as int].size
    }

    /// Where the assembler of `chunk` stands, or would be put.
    pub open spec fn place(self, chunk: u32) -> int {
        below(self.open_ids, chunk as int)
    }

    /// With room for one more assembler: where `MAX_ASSEMBLERS` chunks are
    /// being assembled, the one with the smallest index is given up.
    pub open spec fn evicted(self) -> ReceiverState {
        if self.open_ids.len() >= MAX_ASSEMBLERS {
            ReceiverState {
                open_ids: self.open_ids.drop_first(),
                open: self.open.drop_first(),
                ..self
            }
        } else {
            self
        }
    }

    /// With an assembler for `chunk`: the one there is, or else a fresh one,
    /// for which room is made first.
    pub open spec fn admitted(self, chunk: u32) -> ReceiverState {
        if self.open_ids.contains(chunk) {
            self
        } else {
            ReceiverState {
                open_ids: self.evicted().open_ids.insert(self.evicted().place(chunk), chunk),
                open: self.evicted().open.insert(
                    self.evicted().place(chunk),
                    Coverage::empty(self.chunks[chunk as int].size as nat),
                ),
                ..self
            }
        }
    }

    /// With `coverage` as the state of the assembler of `chunk`.
    pub open spec fn stored(self, chunk: u32, coverage: Coverage) -> ReceiverState {
        ReceiverState { open: self.open.update(self.place(chunk), coverage), ..self }
    }

    /// Without the assembler of `chunk`.
    pub open spec fn closed(self, chunk: u32) -> ReceiverState {
        ReceiverState {
            open_ids: self.open_ids.remove(self.place(chunk)),
            open: self.open.remove(self.place(chunk)),
            ..self
        }
    }

    /// With `chunk` missing no longer.
    pub open spec fn done_with(self, chunk: u32) -> ReceiverState {
        ReceiverState { missing: without(self.missing, chunk), ..self }
    }
}

/// The state of the assembler that takes a fragment of `chunk`: the one that
/// is open for it, or a fresh one.
pub open spec fn assembler_of(s: ReceiverState, chunk: u32) -> Coverage {
    s.admitted(chunk).open[s.admitted(chunk).place(chunk)]
}

/// The state of that assembler after it has taken the fragment in.
pub open spec fn grown(s: ReceiverState, chunk: u32, offset: u32, data: Seq<u8>) -> Coverage {
    assembler_of(s, chunk).with_fragment(offset as int, data)
}

/// A decoded fragment as plain values: chunk index, offset and payload.
pub open spec fn fragment_view(decoded: Result<ChunkData<'_>, DecodeError>) -> Result<
    (u32, u32, Seq<u8>),
    DecodeError,
> {
    match decoded {
        Ok(f) => Ok((f.chunk, f.offset, f.data@)),
        Err(e) => Err(e),
    }
}

/// `r` is what becomes of the decoded fragment in the state `before`, and
/// `after` is the state that it leaves. For each decoded fragment and each
/// state exactly one outcome meets this.
pub open spec fn outcome_of(
    before: ReceiverState,
    decoded: Result<(u32, u32, Seq<u8>), DecodeError>,
    r: Reception,
    after: ReceiverState,
) -> bool {
    match r {
        Reception::Grow => {
            &&& decoded == Err::<(u32, u32, Seq<u8>), DecodeError>(DecodeError::UnexpectedEnd)
            &&& after == before
        },
        Reception::Malformed => {
            &&& decoded == Err::<(u32, u32, Seq<u8>), DecodeError>(DecodeError::Malformed)
            &&& after == before
        },
        Reception::UnknownChunk => {
            &&& decoded matches Ok(f)
            &&& f.0 >= before.chunks.len()
            &&& after == before
        },
        Reception::Refused(e) => {
            &&& decoded matches Ok(f)
            &&& f.0 < before.chunks.len()
            &&& after == before.admitted(f.0)
            &&& match e {
                FragmentError::OutOfBounds => !assembler_of(before, f.0).fits(
                    f.1 as int,
                    f.2.len() as int,
                ),
                FragmentError::Overlap => assembler_of(before, f.0).fits(
                    f.1 as int,
                    f.2.len() as int,
                ) && assembler_of(before, f.0).overlaps(f.1 as int, f.2.len() as int),
            }
        },
        Reception::Stored => {
            &&& decoded matches Ok(f)
            &&& f.0 < before.chunks.len()
            &&& assembler_of(before, f.0).accepts(f.1 as int, f.2.len() as int)
            &&& !grown(before, f.0, f.1, f.2).is_complete()
            &&& after == before.admitted(f.0).stored(f.0, grown(before, f.0, f.1, f.2))
        },
        Reception::Corrupt => {
            &&& decoded matches Ok(f)
            &&& f.0 < before.chunks.len()
            &&& assembler_of(before, f.0).accepts(f.1 as int, f.2.len() as int)
            &&& grown(before, f.0, f.1, f.2).is_complete()
            &&& xxh3_64(grown(before, f.0, f.1, f.2).bytes) != before.chunks[f.0 as int].hash
            &&& after == before.admitted(f.0).closed(f.0)
        },
        Reception::Complete { chunk, offset, data } => {
            &&& decoded matches Ok(f)
            &&& f.0 < before.chunks.len()
            &&& assembler_of(before, f.0).accepts(f.1 as int, f.2.len() as int)
            &&& grown(before, f.0, f.1, f.2).is_complete()
            &&& xxh3_64(grown(before, f.0, f.1, f.2).bytes) == before.chunks[f.0 as int].hash
            &&& chunk == f.0
            &&& offset == before.chunks[f.0 as int].offset
            &&& data@ == grown(before, f.0, f.1, f.2).bytes
            &&& after == before.admitted(f.0).closed(f.0).done_with(f.0)
        },
    }
}

/// The state that a fragment leaves behind.
pub open spec fn after_fragment(s: ReceiverState, chunk: u32, offset: u32, data: Seq<u8>) -> ReceiverState {
    if chunk >= s.chunks.len() {
        s
    } else if !assembler_of(s, chunk).accepts(offset as int, data.len() as int) {
        s.admitted(chunk)
    } else if !grown(s, chunk, offset, data).is_complete() {
        s.admitted(chunk).stored(chunk, grown(s, chunk, offset, data))
    } else if xxh3_64(grown(s, chunk, offset, data).bytes) != s.chunks[chunk as int].hash {
        s.admitted(chunk).closed(chunk)
    } else {
        s.admitted(chunk).closed(chunk).done_with(chunk)
    }
}

/// The state that fragments of one chunk leave behind when they come in one
/// after the other, a fragment being (offset, bytes).
pub open spec fn after_fragments(s: ReceiverState, chunk: u32, fragments: Seq<(int, Seq<u8>)>) -> ReceiverState
    decreases fragments.len(),
{
    if fragments.len() == 0 {
        s
    } else {
        after_fragment(
            after_fragments(s, chunk, fragments.drop_last()),
            chunk,
            fragments.last().0 as u32,
            fragments.last().1,
        )
    }
}

/// Whatever becomes of a fragment, the state behind it is the one that
/// `after_fragment` gives.
pub proof fn lemma_outcome_state(
    before: ReceiverState,
    fragment: (u32, u32, Seq<u8>),
    r: Reception,
    after: ReceiverState,
)
    requires
        outcome_of(before, Ok(fragment), r, after),
    ensures
        after == after_fragment(before, fragment.0, fragment.1, fragment.2),
{
}

/// Making room keeps a state well formed.
proof fn lemma_evicted_wf(s: ReceiverState)
    requires
        s.wf(),
    ensures
        s.evicted().wf(),
        s.evicted().open_ids.len() < MAX_ASSEMBLERS,
        forall|id: u32| s.evicted().open_ids.contains(id) ==> s.open_ids.contains(id),
{
    let e = s.evicted();
    if s.open_ids.len() >= MAX_ASSEMBLERS {
        assert forall|i: int, j: int| 0 <= i < j < e.open_ids.len() implies e.open_ids[i]
            < e.open_ids[j] by {
            assert(s.open_ids[i + 1] < s.open_ids[j + 1]);
        }
        assert forall|k: int| 0 <= k < e.open_ids.len() implies (#[trigger] e.open_ids[k])
            < e.chunks.len() && e.open[k].size == e.chunks[e.open_ids[k] as int].size by {
            assert(e.open_ids[k] == s.open_ids[k + 1]);
        }
        assert forall|id: u32| e.open_ids.contains(id) implies s.open_ids.contains(id) by {
            let k = choose|k: int| 0 <= k < e.open_ids.len() && e.open_ids[k] == id;
            assert(s.open_ids[k + 1] == id);
        }
    }
}

/// A state with an assembler for `chunk` is well formed, and the assembler
/// stands at the chunk's place.
proof fn lemma_admitted_wf(s: ReceiverState, chunk: u32)
    requires
        s.wf(),
        chunk < s.chunks.len(),
    ensures
        s.admitted(chunk).wf(),
        0 <= s.admitted(chunk).place(chunk) < s.admitted(chunk).open_ids.len(),
        s.admitted(chunk).open_ids[s.admitted(chunk).place(chunk)] == chunk,
        s.admitted(chunk).chunks == s.chunks,
        s.admitted(chunk).missing == s.missing,
{
    let t = s.admitted(chunk);
    if s.open_ids.contains(chunk) {
        lemma_contains_at_below(s.open_ids, chunk);
        lemma_below_splits(s.open_ids, chunk as int);
    } else {
        let e = s.evicted();
        lemma_evicted_wf(s);
        let p = e.place(chunk);
        lemma_below_splits(e.open_ids, chunk as int);
        assert(!e.open_ids.contains(chunk));
        crate::idset::lemma_insert_keeps_order(e.open_ids, chunk);
        assert(t.open_ids == e.open_ids.insert(p, chunk));
        assert(t.open == e.open.insert(p, Coverage::empty(s.chunks[chunk as int].size as nat)));
        assert(increasing(t.open_ids));
        assert forall|k: int| 0 <= k < t.open_ids.len() implies (#[trigger] t.open_ids[k])
            < t.chunks.len() && t.open[k].size == t.chunks[t.open_ids[k] as int].size by {
            if k < p {
                assert(t.open_ids[k] == e.open_ids[k]);
            } else if k > p {
                assert(t.open_ids[k] == e.open_ids[k - 1]);
            }
        }
        assert(t.open_ids[p] == chunk);
        assert(t.open_ids.contains(chunk));
        lemma_contains_at_below(t.open_ids, chunk);
        lemma_below_splits(t.open_ids, chunk as int);
    }
}

/// Putting another state of the right size in the place of an assembler keeps
/// the receiver's state well formed.
proof fn lemma_stored_wf(s: ReceiverState, chunk: u32, coverage: Coverage)
    requires
        s.wf(),
        0 <= s.place(chunk) < s.open_ids.len(),
        s.open_ids[s.place(chunk)] == chunk,
        coverage.size == s.chunks[chunk as int].size,
    ensures
        s.stored(chunk, coverage).wf(),
{
}

/// Closing an assembler keeps the receiver's state well formed.
proof fn lemma_closed_wf(s: ReceiverState, chunk: u32)
    requires
        s.wf(),
        0 <= s.place(chunk) < s.open_ids.len(),
    ensures
        s.closed(chunk).wf(),
{
    let p = s.place(chunk);
    let c = s.closed(chunk);
    crate::idset::lemma_remove_keeps_order(s.open_ids, p);
    assert forall|k: int| 0 <= k < c.open_ids.len() implies (#[trigger] c.open_ids[k])
        < c.chunks.len() && c.open[k].size == c.chunks[c.open_ids[k] as int].size by {
        if k < p {
            assert(c.open_ids[k] == s.open_ids[k]);
        } else {
            assert(c.open_ids[k] == s.open_ids[k + 1]);
        }
    }
}

/// An assembler that is opened for a chunk is a fresh one at the chunk's
/// place, and closing it gives back the state with the room made.
proof fn lemma_opened_fresh(s: ReceiverState, chunk: u32)
    requires
        s.wf(),
        chunk < s.chunks.len(),
        !s.open_ids.contains(chunk),
    ensures
        s.admitted(chunk).place(chunk) == s.evicted().place(chunk),
        0 <= s.admitted(chunk).place(chunk) < s.admitted(chunk).open.len(),
        s.admitted(chunk).open[s.admitted(chunk).place(chunk)] == Coverage::empty(
            s.chunks[chunk as int].size as nat,
        ),
        s.admitted(chunk).closed(chunk) == s.evicted(),
{
    let t = s.admitted(chunk);
    let e = s.evicted();
    let p = t.place(chunk);
    let q = e.place(chunk);
    lemma_admitted_wf(s, chunk);
    lemma_evicted_wf(s);
    lemma_below_splits(e.open_ids, chunk as int);
    assert(t.open_ids == e.open_ids.insert(q, chunk));
    assert(t.open_ids[q] == chunk);
    assert(p == q) by {
        if p < q {
            assert(t.open_ids[p] < t.open_ids[q]);
        } else if q < p {
            assert(t.open_ids[q] < t.open_ids[p]);
        }
    }
    assert(t.closed(chunk).open_ids =~= e.open_ids);
    assert(t.closed(chunk).open =~= e.open);
}

/// What the fragments of a chunk, as the server cuts it, leave behind when
/// the first `k` of them have come in order: an assembler for the chunk that
/// holds them. The receiver had no assembler open for the chunk before.
proof fn lemma_chunk_under_way(s: ReceiverState, chunk: u32, data: Seq<u8>, max_fragment_size: nat, k: int)
    requires
        s.wf(),
        chunk < s.chunks.len(),
        data.len() == s.chunks[chunk as int].size,
        data.len() > 0,
        max_fragment_size > 0,
        !s.open_ids.contains(chunk),
        0 <= k < fragments_from(data, 0, max_fragment_size).len(),
    ensures
        after_fragments(
            s,
            chunk,
            fragments_from(data, 0, max_fragment_size).take(k),
        ).admitted(chunk) == s.admitted(chunk).stored(
            chunk,
            Coverage::empty(data.len()).after_all(
                fragments_from(data, 0, max_fragment_size).take(k),
            ),
        ),
        assembler_of(
            after_fragments(s, chunk, fragments_from(data, 0, max_fragment_size).take(k)),
            chunk,
        ) == Coverage::empty(data.len()).after_all(
            fragments_from(data, 0, max_fragment_size).take(k),
        ),
    decreases k,
{
    let frags = fragments_from(data, 0, max_fragment_size);
    let size = data.len();
    let t = s.admitted(chunk);
    let p = t.place(chunk);
    let held = Coverage::empty(size).after_all(frags.take(k));
    let now = after_fragments(s, chunk, frags.take(k));
    lemma_admitted_wf(s, chunk);
    if k == 0 {
        lemma_opened_fresh(s, chunk);
        assert(frags.take(0).len() == 0);
        assert(held == Coverage::empty(size));
        assert(t.stored(chunk, held).open =~= t.open);
    } else {
        lemma_chunk_under_way(s, chunk, data, max_fragment_size, k - 1);
        lemma_fragments_reassemble(data, max_fragment_size);
        lemma_fragments_from(data, 0, max_fragment_size);
        lemma_after_prefix(size, frags, k - 1);
        lemma_after_prefix(size, frags, k);
        let f = frags[k - 1];
        let before = after_fragments(s, chunk, frags.take(k - 1));
        let had = Coverage::empty(size).after_all(frags.take(k - 1));
        assert(frags.take(k).drop_last() =~= frags.take(k - 1));
        assert(frags.take(k).last() == f);
        assert(f.0 as u32 == f.0);
        assert(now == after_fragment(before, chunk, f.0 as u32, f.1));
        assert(held == had.after(f.0, f.1));
        assert(held == grown(before, chunk, f.0 as u32, f.1));
        // The next fragment is still to come: the chunk is not complete.
        let x = frags[k].0;
        assert(fragment_holds(frags, k, x));
        assert(!among_holds(frags, k, x)) by {
            if among_holds(frags, k, x) {
                let j = choose|j: int| 0 <= j < k && fragment_holds(frags, j, x);
                assert(fragment_holds(frags, j, x));
            }
        }
        assert(!held.covered.contains(x));
        assert(!held.is_complete());
        assert(now == before.admitted(chunk).stored(chunk, held));
        assert(now.open_ids == t.open_ids);
        assert(now.open =~= t.open.update(p, held));
        assert(now == t.stored(chunk, held));
        assert(now.open_ids.contains(chunk));
    }
}

/// A chunk that comes through whole is handed over: when the fragments of a
/// chunk, as the server cuts it, come in order to a receiver that has no
/// assembler open for the chunk, and the chunk's bytes have the hash of the
/// table, then the chunk is missing no longer and its assembler is closed
/// again. All that is left of it is the room that was made for it.
pub proof fn lemma_chunk_comes_through(s: ReceiverState, chunk: u32, data: Seq<u8>, max_fragment_size: nat)
    requires
        s.wf(),
        chunk < s.chunks.len(),
        data.len() == s.chunks[chunk as int].size,
        data.len() > 0,
        max_fragment_size > 0,
        !s.open_ids.contains(chunk),
        xxh3_64(data) == s.chunks[chunk as int].hash,
    ensures
        after_fragments(s, chunk, fragments_from(data, 0, max_fragment_size)) == s.evicted().done_with(
            chunk,
        ),
{
    let frags = fragments_from(data, 0, max_fragment_size);
    let size = data.len();
    let n = frags.len() as int;
    assert(n > 0);
    let t = s.admitted(chunk);
    let p = t.place(chunk);
    let e = s.evicted();
    lemma_admitted_wf(s, chunk);
    lemma_evicted_wf(s);
    lemma_chunk_under_way(s, chunk, data, max_fragment_size, n - 1);
    lemma_fragments_reassemble(data, max_fragment_size);
    lemma_fragments_from(data, 0, max_fragment_size);
    lemma_after_prefix(size, frags, n - 1);
    let f = frags[n - 1];
    let before = after_fragments(s, chunk, frags.take(n - 1));
    let had = Coverage::empty(size).after_all(frags.take(n - 1));
    let whole = Coverage::empty(size).after_all(frags);
    assert(frags.drop_last() =~= frags.take(n - 1));
    assert(f.0 as u32 == f.0);
    assert(whole == had.after(f.0, f.1));
    assert(whole == grown(before, chunk, f.0 as u32, f.1));
    let last = after_fragments(s, chunk, frags);
    assert(last == after_fragment(before, chunk, f.0 as u32, f.1));
    assert(last == t.stored(chunk, had).closed(chunk).done_with(chunk));
    // Closing the assembler undoes its opening.
    lemma_opened_fresh(s, chunk);
    assert(t.stored(chunk, had).closed(chunk).open =~= t.closed(chunk).open);
    assert(t.stored(chunk, had).closed(chunk) == t.closed(chunk));
}

/// The states of assemblers.
pub open spec fn coverages(slots: Seq<ChunkAssembler>) -> Seq<Coverage> {
    slots.map_values(|a: ChunkAssembler| a@)
}

/// The client's side of a transfer: the chunks that are missing, and the
/// assemblers of the chunks of which fragments have come in.
pub struct ChunkReceiver {
    image: ImageMetadata,
    missing: IdSet,
    open_ids: IdSet,
    slots: Vec<ChunkAssembler>,
}

impl View for ChunkReceiver {
    type V = ReceiverState;

    closed spec fn view(&self) -> ReceiverState {
        ReceiverState {
            chunks: self.image.chunks@,
            missing: self.missing@,
            open_ids: self.open_ids@,
            open: coverages(self.slots@),
        }
    }
}

impl ChunkReceiver {
    /// The invariant of a receiver.
    pub closed spec fn wf(&self) -> bool {
        &&& self.image.wf()
        &&& self.missing.wf()
        &&& self.open_ids.wf()
        &&& self@.wf()
        &&& forall|k: int| 0 <= k < self.slots@.len() ==> (#[trigger] self.slots@[k]).wf()
    }

    /// The invariant, as it shows in the view.
    pub proof fn lemma_wf(&self)
        requires
            self.wf(),
        ensures
            self@.wf(),
    {
    }

    /// A receiver for `image`, to which every chunk is missing.
    pub fn new(image: ImageMetadata) -> (r: ChunkReceiver)
        requires
            image.wf(),
        ensures
            r.wf(),
            r@ == (ReceiverState {
                chunks: image.chunks@,
                missing: Seq::new(image.chunks@.len(), |i: int| i as u32),
                open_ids: Seq::empty(),
                open: Seq::empty(),
            }),
    {
        let count = image.chunks.len() as u32;
        let missing = IdSet::first_n(count);
        let r = ChunkReceiver { image, missing, open_ids: IdSet::new(), slots: Vec::new() };
        proof {
            r.missing.lemma_wf();
            assert(r@.open =~= Seq::<Coverage>::empty());
        }
        r
    }

    /// The number of chunks of the image.
    pub fn chunk_count(&self) -> (n: usize)
        ensures
            n == self@.chunks.len(),
    {
        self.image.chunks.len()
    }

    /// True when no chunk is missing: the transfer is over.
    pub fn is_done(&self) -> (done: bool)
        ensures
            done == (self@.missing.len() == 0),
    {
        self.missing.is_empty()
    }

    /// The number of chunks that are missing.
    pub fn missing_count(&self) -> (n: usize)
        ensures
            n == self@.missing.len(),
    {
        self.missing.len()
    }

    /// The request that goes to the server at a tick: the smallest of the
    /// missing chunk indices, as many as a request holds.
    pub fn build_request(&self) -> (request: ChunkRequest)
        ensures
            request_ids(request) == self@.missing.take(asked(self@.missing)),
    {
        let mut request = request_new();
        let capacity = <ChunkRequest as Capacity>::CAPACITY;
        let n = if self.missing.len() < capacity {
            self.missing.len()
        } else {
            capacity
        };
        let mut i: usize = 0;
        assert(self.missing@.take(0) =~= Seq::<u32>::empty());
        while i < n
            invariant
                i <= n <= 40,
                n <= self.missing@.len(),
                request_ids(request) == self.missing@.take(i as int),
            decreases n - i,
        {
            let id = self.missing.get(i);
            let pushed = request_push(&mut request, id);
            assert(pushed);
            i += 1;
            assert(self.missing@.take(i as int) =~= self.missing@.take(i - 1).push(id));
        }
        request
    }

    /// Writes the request of this tick to the front of `buf` and returns the
    /// number of bytes to send, or `None` where `buf` is too short for it,
    /// which a buffer of `MAX_REQUEST_LEN` bytes never is.
    pub fn write_request(&self, buf: &mut Vec<u8>) -> (n: Option<usize>)
        ensures
            final(buf)@.len() == old(buf)@.len(),
            old(buf)@.len() >= MAX_REQUEST_LEN ==> n is Some,
            n is Some <==> chunk_request_wire(self@.missing.take(asked(self@.missing))).len() <= old(
                buf,
            )@.len(),
            n matches Some(n) ==> final(buf)@.subrange(0, n as int) == chunk_request_wire(
                self@.missing.take(asked(self@.missing)),
            ),
    {
        let request = self.build_request();
        proof {
            lemma_chunk_request_wire_len(request_ids(request));
        }
        chunk_request_to_slice(&request, buf)
    }

    /// Settles a chunk that has been assembled, given the hash of its bytes:
    /// where the hash is the one in the table, the chunk is ready for the disk
    /// and missing no longer; where it is not, the chunk is thrown away.
    pub fn settle_chunk(&mut self, chunk: u32, data: Vec<u8>, hash: u64) -> (r: Reception)
        requires
            old(self).wf(),
            chunk < old(self)@.chunks.len(),
        ensures
            final(self).wf(),
            match r {
                Reception::Complete { chunk: c, offset, data: d } => {
                    &&& hash == old(self)@.chunks[chunk as int].hash
                    &&& c == chunk
                    &&& offset == old(self)@.chunks[chunk as int].offset
                    &&& d@ == data@
                    &&& final(self)@ == old(self)@.done_with(chunk)
                },
                Reception::Corrupt => {
                    &&& hash != old(self)@.chunks[chunk as int].hash
                    &&& final(self)@ == old(self)@
                },
                _ => false,
            },
    {
        let meta = self.image.chunks[chunk as usize];
        if hash != meta.hash {
            return Reception::Corrupt;
        }
        proof {
            self.missing.lemma_wf();
            lemma_contains_at_below(self.missing@, chunk);
            lemma_below_splits(self.missing@, chunk as int);
            if self.missing@.contains(chunk) {
                crate::idset::lemma_remove_keeps_order(
                    self.missing@,
                    below(self.missing@, chunk as int),
                );
            }
        }
        self.missing.remove(chunk);
        proof {
            let now = self.missing@;
            assert forall|k: int| 0 <= k < now.len() implies now[k] < self@.chunks.len() by {
                assert(now.to_set().contains(now[k]));
                assert(old(self).missing@.to_set().contains(now[k]));
                let j = choose|j: int|
                    0 <= j < old(self).missing@.len() && old(self).missing@[j] == now[k];
            }
        }
        Reception::Complete { chunk, offset: meta.offset, data }
    }

    /// Decides what becomes of a fragment as it was decoded.
    ///
    /// A datagram that is no fragment changes nothing, nor does a fragment of
    /// a chunk that the image does not have. For any other fragment the
    /// chunk's assembler is looked up, or made where there is none; where
    /// `MAX_ASSEMBLERS` chunks are being assembled already, the assembler of
    /// the smallest chunk index is given up for it. The fragment is handed to
    /// the assembler. Where that completes the chunk, the assembler is closed
    /// and the chunk is settled by its hash.
    pub fn accept_fragment(&mut self, decoded: Result<ChunkData<'_>, DecodeError>) -> (r: Reception)
        requires
            old(self).wf(),
        ensures
            final(self).wf(),
            outcome_of(old(self)@, fragment_view(decoded), r, final(self)@),
    {
        let f = match decoded {
            Ok(f) => f,
            Err(DecodeError::UnexpectedEnd) => {
                return Reception::Grow;
            },
            Err(DecodeError::Malformed) => {
                return Reception::Malformed;
            },
        };
        if f.chunk as usize >= self.image.chunks.len() {
            return Reception::UnknownChunk;
        }
        let p = self.ensure_open(f.chunk);
        let ghost mid = self@;
        let ghost mid_slots = self.slots@;
        let added = self.slots[p].add_fragment(f.offset as usize, f.data);
        match added {
            Err(e) => {
                assert(self.slots@ =~= mid_slots);
                Reception::Refused(e)
            },
            Ok(()) => {
                let ghost now = self.slots@[p as int]@;
                assert(now == grown(old(self)@, f.chunk, f.offset, f.data@));
                proof {
                    assert(coverages(self.slots@) =~= coverages(mid_slots).update(p as int, now));
                    lemma_stored_wf(mid, f.chunk, now);
                }
                if !self.slots[p].is_complete() {
                    return Reception::Stored;
                }
                proof {
                    lemma_closed_wf(self@, f.chunk);
                }
                let ghost full_slots = self.slots@;
                self.open_ids.take(p);
                let assembler = self.slots.remove(p);
                proof {
                    assert(coverages(self.slots@) =~= coverages(full_slots).remove(p as int));
                    assert(self@ == mid.stored(f.chunk, now).closed(f.chunk));
                    assert(mid.stored(f.chunk, now).closed(f.chunk) == mid.closed(f.chunk));
                }
                let data = assembler.complete();
                let hash = xxh3_64_oneshot(data.as_slice());
                self.settle_chunk(f.chunk, data, hash)
            },
        }
    }

    /// Makes room for one more assembler.
    fn make_room(&mut self)
        requires
            old(self).wf(),
        ensures
            final(self).wf(),
            final(self)@ == old(self)@.evicted(),
            final(self).image == old(self).image,
            final(self).missing == old(self).missing,
    {
        proof {
            lemma_evicted_wf(self@);
        }
        if self.open_ids.len() >= MAX_ASSEMBLERS {
            let ghost before = self.slots@;
            self.open_ids.take(0);
            self.slots.remove(0);
            proof {
                assert(self.open_ids@ =~= old(self)@.open_ids.drop_first());
                assert(coverages(self.slots@) =~= coverages(before).drop_first());
                assert forall|k: int| 0 <= k < self.slots@.len() implies (
                #[trigger] self.slots@[k]).wf() by {
                    assert(self.slots@[k] == before[k + 1]);
                }
            }
        }
    }

    /// Makes sure that an assembler is open for `chunk` and returns its place.
    fn ensure_open(&mut self, chunk: u32) -> (p: usize)
        requires
            old(self).wf(),
            chunk < old(self)@.chunks.len(),
        ensures
            final(self).wf(),
            final(self)@ == old(self)@.admitted(chunk),
            p == final(self)@.place(chunk),
            p < final(self).slots@.len(),
            final(self)@.open_ids[p as int] == chunk,
            final(self).image == old(self).image,
            final(self).missing == old(self).missing,
    {
        proof {
            self.open_ids.lemma_wf();
            lemma_contains_at_below(self.open_ids@, chunk);
            lemma_admitted_wf(self@, chunk);
        }
        let p = self.open_ids.rank(chunk);
        if p < self.open_ids.len() && self.open_ids.get(p) == chunk {
            return p;
        }
        self.make_room();
        let ghost kept = self.slots@;
        let ghost e = self@;
        proof {
            self.open_ids.lemma_wf();
            lemma_contains_at_below(self.open_ids@, chunk);
        }
        let size = self.image.chunks[chunk as usize].size;
        let q = self.open_ids.rank(chunk);
        self.open_ids.insert(chunk);
        self.slots.insert(q, ChunkAssembler::new(size as usize));
        proof {
            assert(self.open_ids@ == e.open_ids.insert(q as int, chunk));
            assert(coverages(self.slots@) =~= coverages(kept).insert(
                q as int,
                Coverage::empty(size as nat),
            ));
            assert(self@.open == e.open.insert(q as int, Coverage::empty(size as nat)));
            assert(self@ == old(self)@.admitted(chunk));
            assert forall|k: int| 0 <= k < self.slots@.len() implies (
            #[trigger] self.slots@[k]).wf() by {
                if k < q {
                    assert(self.slots@[k] == kept[k]);
                } else if k > q {
                    assert(self.slots@[k] == kept[k - 1]);
                }
            }
        }
        q
    }

    /// Reads a datagram from the transfer socket and decides what becomes of
    /// it. The datagram that a server wrote for a fragment is taken as that
    /// fragment.
    pub fn receive(&mut self, datagram: &[u8]) -> (r: Reception)
        requires
            old(self).wf(),
        ensures
            final(self).wf(),
            outcome_of(old(self)@, chunk_data_decoding(datagram@), r, final(self)@),
            forall|chunk: u32, offset: u32, data: Seq<u8>|
                datagram@ == #[trigger] chunk_data_wire(chunk, offset, data) ==> outcome_of(
                    old(self)@,
                    Ok((chunk, offset, data)),
                    r,
                    final(self)@,
                ),
    {
        self.accept_fragment(chunk_data_from_bytes(datagram))
    }
}

} // verus!
