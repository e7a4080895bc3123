//! What the server decides while it serves chunk requests: whose turn it is,
//! how a chunk is cut into datagrams, and when the next datagram may leave.

use crate::chunk::{
    among_holds, fragment_holds, fragments_disjoint, lemma_partition_assembles, Coverage,
};
use crate::idset::{below, increasing, lemma_below_is, lemma_below_splits, IdSet};
use crate::wire::{
    chunk_data_to_slice, chunk_data_wire, chunk_data_wire_len, chunk_request_decoding,
    chunk_request_from_bytes, chunk_request_wire, lemma_chunk_data_wire_len, lemma_varint_len_bounds,
    lemma_varint_len_monotonic, request_as_slice, request_ids, DecodeError,
};
use crate::ChunkRequest;
use vstd::prelude::*;

verus! {

/// The place in `pending` of the index that is served next after `last_id`:
/// the smallest index greater than `last_id`, or the smallest of all where no
/// index is greater.
pub open spec fn turn(pending: Seq<u32>, last_id: u32) -> int {
    if 0 <= below(pending, last_id + 1) < pending.len() {
        below(pending, last_id + 1)
    } else {
        0
    }
}

/// The indices of `pending` that are greater than `last_id`, in increasing
/// order, and behind them the others, in increasing order.
pub open spec fn rotation(pending: Seq<u32>, last_id: u32) -> Seq<u32> {
    pending.subrange(below(pending, last_id + 1), pending.len() as int) + pending.subrange(
        0,
        below(pending, last_id + 1),
    )
}

/// The order in which the indices of `pending` are served when no request
/// comes in meanwhile, the last one served before being `last_id`.
pub open spec fn service_order(pending: Seq<u32>, last_id: u32) -> Seq<u32>
    decreases pending.len(),
{
    if pending.len() == 0 {
        Seq::empty()
    } else {
        seq![pending[turn(pending, last_id)]] + service_order(
            pending.remove(turn(pending, last_id)),
            pending[turn(pending, last_id)],
        )
    }
}

/// `id` is the one of `pending` whose turn it is after `last_id`.
pub open spec fn is_next_in_turn(pending: Set<u32>, last_id: u32, id: u32) -> bool {
    &&& pending.contains(id)
    &&& id > last_id ==> forall|other: u32|
        pending.contains(other) && other > last_id ==> id <= other
    &&& id <= last_id ==> forall|other: u32| pending.contains(other) ==> id <= other <= last_id
}

/// The index at `turn` is the one whose turn it is.
pub proof fn lemma_turn_is_next(pending: Seq<u32>, last_id: u32)
    requires
        increasing(pending),
        pending.len() > 0,
    ensures
        0 <= turn(pending, last_id) < pending.len(),
        is_next_in_turn(pending.to_set(), last_id, pending[turn(pending, last_id)]),
{
    lemma_below_splits(pending, last_id + 1);
    let k = below(pending, last_id + 1);
    let id = pending[turn(pending, last_id)];
    assert(pending.contains(id));
    if id > last_id {
        assert forall|other: u32| pending.to_set().contains(other) && other > last_id implies id
            <= other by {
            let j = choose|j: int| 0 <= j < pending.len() && pending[j] == other;
            if j < k {
                assert(pending[j] < last_id + 1);
            } else if j > k {
                assert(pending[k] < pending[j]);
            }
        }
    } else {
        assert forall|other: u32| pending.to_set().contains(other) implies id <= other
            <= last_id by {
            let j = choose|j: int| 0 <= j < pending.len() && pending[j] == other;
            if k < pending.len() {
                assert(pending[k] >= last_id + 1);
            }
            assert(pending[j] < last_id + 1);
            if j > 0 {
                assert(pending[0] < pending[j]);
            }
        }
    }
}

/// A rotation holds each index of the set once.
pub proof fn lemma_rotation_is_permutation(pending: Seq<u32>, last_id: u32)
    requires
        increasing(pending),
    ensures
        rotation(pending, last_id).len() == pending.len(),
        rotation(pending, last_id).no_duplicates(),
        rotation(pending, last_id).to_set() == pending.to_set(),
{
    lemma_below_splits(pending, last_id + 1);
    let k = below(pending, last_id + 1);
    let n = pending.len() as int;
    let turned = rotation(pending, last_id);
    assert forall|i: int, j: int| 0 <= i < turned.len() && 0 <= j < turned.len() && i
        != j implies turned[i] != turned[j] by {
        let pi = if i < n - k { k + i } else { i - (n - k) };
        let pj = if j < n - k { k + j } else { j - (n - k) };
        assert(turned[i] == pending[pi]);
        assert(turned[j] == pending[pj]);
        if pi < pj {
            assert(pending[pi] < pending[pj]);
        } else {
            assert(pending[pj] < pending[pi]);
        }
    }
    assert forall|x: u32| turned.to_set().contains(x) <==> pending.to_set().contains(x) by {
        if turned.contains(x) {
            let i = choose|i: int| 0 <= i < turned.len() && turned[i] == x;
            let pi = if i < n - k { k + i } else { i - (n - k) };
            assert(pending[pi] == x);
        }
        if pending.contains(x) {
            let p = choose|p: int| 0 <= p < pending.len() && pending[p] == x;
            let i = if p >= k { p - k } else { p + (n - k) };
            assert(turned[i] == x);
        }
    }
    assert(turned.to_set() =~= pending.to_set());
}

/// Serving the index at `turn` leaves the rest of the rotation to serve.
proof fn lemma_rotation_step(pending: Seq<u32>, last_id: u32)
    requires
        increasing(pending),
        pending.len() > 0,
    ensures
        rotation(pending, last_id) == seq![pending[turn(pending, last_id)]] + rotation(
            pending.remove(turn(pending, last_id)),
            pending[turn(pending, last_id)],
        ),
{
    lemma_below_splits(pending, last_id + 1);
    let t = turn(pending, last_id);
    let id = pending[t];
    let rest = pending.remove(t);
    crate::idset::lemma_remove_keeps_order(pending, t);
    assert forall|j: int| 0 <= j < t implies rest[j] < id + 1 by {
        assert(pending[j] < pending[t]);
    }
    assert forall|j: int| t <= j < rest.len() implies rest[j] >= id + 1 by {
        assert(pending[t] < pending[j + 1]);
    }
    lemma_below_is(rest, id + 1, t);
    let left = rotation(pending, last_id);
    let right = seq![id] + rotation(rest, id);
    assert(left.len() == right.len());
    assert forall|i: int| 0 <= i < left.len() implies left[i] == right[i] by {
        if i > 0 {
            let r = i - 1;
            if r < rest.len() - t {
                assert(right[i] == rest[t + r]);
            } else {
                assert(right[i] == rest[r - (rest.len() - t)]);
            }
        }
    }
    assert(left =~= right);
}

/// The indices that wait are served in the order of the sorted set, turned so
/// that it starts at the smallest index greater than the last one served and
/// wraps round to the smallest of all. Each index is served once.
pub proof fn lemma_service_order_is_rotation(pending: Seq<u32>, last_id: u32)
    requires
        increasing(pending),
    ensures
        service_order(pending, last_id) == rotation(pending, last_id),
        service_order(pending, last_id).no_duplicates(),
        service_order(pending, last_id).to_set() == pending.to_set(),
    decreases pending.len(),
{
    lemma_rotation_is_permutation(pending, last_id);
    if pending.len() > 0 {
        let t = turn(pending, last_id);
        crate::idset::lemma_remove_keeps_order(pending, t);
        lemma_service_order_is_rotation(pending.remove(t), pending[t]);
        lemma_rotation_step(pending, last_id);
    } else {
        assert(rotation(pending, last_id) =~= Seq::<u32>::empty());
    }
}

/// The chunk requests that wait to be served, each chunk index once, and the
/// index that was served last.
pub struct RequestQueue {
    pending: IdSet,
    last_id: u32,
}

impl RequestQueue {
    /// The invariant of the queue.
    pub closed spec fn wf(&self) -> bool {
        self.pending.wf()
    }

    /// The indices that wait, in increasing order.
    pub closed spec fn pending(&self) -> Seq<u32> {
        self.pending@
    }

    /// The index that was served last; 0 before the first.
    pub closed spec fn last_id(&self) -> u32 {
        self.last_id
    }

    /// The indices that wait are in increasing order.
    pub proof fn lemma_pending_increasing(&self)
        requires
            self.wf(),
        ensures
            increasing(self.pending()),
    {
        self.pending.lemma_wf();
    }

    /// A queue in which nothing waits and nothing has been served.
    pub fn new() -> (q: RequestQueue)
        ensures
            q.wf(),
            q.pending() == Seq::<u32>::empty(),
            q.last_id() == 0,
    {
        RequestQueue { pending: IdSet::new(), last_id: 0 }
    }

    /// True when no index waits.
    pub fn is_empty(&self) -> (r: bool)
        ensures
            r == (self.pending().len() == 0),
    {
        self.pending.is_empty()
    }

    /// The number of indices that wait.
    pub fn len(&self) -> (n: usize)
        ensures
            n == self.pending().len(),
    {
        self.pending.len()
    }

    /// Takes in a request for chunk `id`. A chunk that waits already is not
    /// queued a second time.
    pub fn enqueue(&mut self, id: u32)
        requires
            old(self).wf(),
        ensures
            final(self).wf(),
            final(self).last_id() == old(self).last_id(),
            final(self).pending().to_set() == old(self).pending().to_set().insert(id),
            old(self).pending().contains(id) ==> final(self).pending() == old(self).pending(),
            !old(self).pending().contains(id) ==> final(self).pending() == old(
                self,
            ).pending().insert(below(old(self).pending(), id as int), id),
    {
        self.pending.insert(id);
    }

    /// Picks the chunk to serve next and takes it out of the queue: the
    /// smallest index that is greater than the one served last, or the
    /// smallest of all where none is greater. Returns `None` where nothing
    /// waits.
    pub fn next(&mut self) -> (r: Option<u32>)
        requires
            old(self).wf(),
        ensures
            final(self).wf(),
            match r {
                Some(id) => {
                    &&& old(self).pending().len() > 0
                    &&& id == old(self).pending()[turn(old(self).pending(), old(self).last_id())]
                    &&& is_next_in_turn(old(self).pending().to_set(), old(self).last_id(), id)
                    &&& final(self).pending() == old(self).pending().remove(
                        turn(old(self).pending(), old(self).last_id()),
                    )
                    &&& final(self).pending().to_set() == old(self).pending().to_set().remove(id)
                    &&& !final(self).pending().contains(id)
                    &&& final(self).last_id() == id
                    &&& service_order(old(self).pending(), old(self).last_id()) == seq![id]
                        + service_order(final(self).pending(), final(self).last_id())
                },
                None => {
                    &&& old(self).pending().len() == 0
                    &&& final(self).pending() == old(self).pending()
                    &&& final(self).last_id() == old(self).last_id()
                },
            },
    {
        if self.pending.is_empty() {
            return None;
        }
        proof {
            self.pending.lemma_wf();
            lemma_turn_is_next(self.pending@, self.last_id);
        }
        let place = if self.last_id == u32::MAX {
            proof {
                lemma_below_splits(self.pending@, self.last_id + 1);
                let k = below(self.pending@, self.last_id + 1);
                if k < self.pending@.len() {
                    assert(self.pending@[k] >= self.last_id + 1);
                }
            }
            0
        } else {
            let k = self.pending.rank(self.last_id + 1);
            if k < self.pending.len() {
                k
            } else {
                0
            }
        };
        let id = self.pending.take(place);
        self.last_id = id;
        Some(id)
    }
}

/// The greatest payload length that is tried for a fragment.
pub const MAX_PAYLOAD: usize = 65535;

/// Room for the longest datagram that is ever tried: a payload of
/// `MAX_PAYLOAD` bytes behind a header of 13.
const SCRATCH_LEN: usize = 65548;

/// The length of the datagram that carries `payload` bytes of the chunk with
/// the greatest index, from the greatest offset on. No fragment of `payload`
/// bytes gives a longer datagram.
pub open spec fn worst_case_len(payload: nat) -> nat {
    chunk_data_wire_len(u32::MAX, u32::MAX, payload)
}

/// A fragment of `payload` bytes gives no datagram of more than
/// `max_udp_payload_size` bytes.
pub open spec fn payload_fits(payload: nat, max_udp_payload_size: nat) -> bool {
    worst_case_len(payload) <= max_udp_payload_size
}

/// A longer payload gives no shorter datagram.
pub proof fn lemma_worst_case_monotonic(a: nat, b: nat)
    requires
        a <= b,
    ensures
        worst_case_len(a) <= worst_case_len(b),
{
    lemma_varint_len_monotonic(a, b);
}

/// No fragment gives a longer datagram than the worst case of its length,
/// and a shorter fragment gives no longer one.
pub proof fn lemma_fragment_within_worst_case(chunk: u32, offset: u32, data: Seq<u8>, payload: nat)
    requires
        data.len() <= payload,
    ensures
        chunk_data_wire(chunk, offset, data).len() <= worst_case_len(payload),
{
    lemma_chunk_data_wire_len(chunk, offset, data);
    lemma_varint_len_monotonic(chunk as nat, u32::MAX as nat);
    lemma_varint_len_monotonic(offset as nat, u32::MAX as nat);
    lemma_varint_len_monotonic(data.len(), payload);
}

/// Tries whether a payload of `m` zero bytes fits.
fn probe(zeros: &Vec<u8>, m: usize, scratch: &mut Vec<u8>, max_udp_payload_size: usize) -> (fits:
    bool)
    requires
        m <= MAX_PAYLOAD,
        zeros@.len() == MAX_PAYLOAD,
        old(scratch)@.len() == SCRATCH_LEN || (old(scratch)@.len() == max_udp_payload_size
            && max_udp_payload_size < SCRATCH_LEN),
        max_udp_payload_size >= old(scratch)@.len(),
    ensures
        final(scratch)@.len() == old(scratch)@.len(),
        fits == payload_fits(m as nat, max_udp_payload_size as nat),
{
    let all = zeros.as_slice();
    let payload = &all[0..m];
    proof {
        lemma_chunk_data_wire_len(u32::MAX, u32::MAX, payload@);
        lemma_varint_len_bounds(u32::MAX as nat);
        lemma_varint_len_bounds(m as nat);
    }
    chunk_data_to_slice(u32::MAX, u32::MAX, payload, scratch).is_some()
}

/// The greatest payload length, up to `MAX_PAYLOAD`, whose datagram has no
/// more than `max_udp_payload_size` bytes whatever the chunk and the offset
/// are. `None` where not even an empty payload fits.
pub fn max_fragment_size(max_udp_payload_size: usize) -> (r: Option<usize>)
    ensures
        match r {
            Some(m) => {
                &&& m <= MAX_PAYLOAD
                &&& payload_fits(m as nat, max_udp_payload_size as nat)
                &&& forall|k: nat|
                    k <= MAX_PAYLOAD && #[trigger] payload_fits(k, max_udp_payload_size as nat)
                        ==> k <= m
            },
            None => forall|k: nat| !#[trigger] payload_fits(k, max_udp_payload_size as nat),
        },
{
    let zeros = vec![0u8; MAX_PAYLOAD];
    let mut scratch = if max_udp_payload_size < SCRATCH_LEN {
        vec![0u8; max_udp_payload_size]
    } else {
        vec![0u8; SCRATCH_LEN]
    };
    if !probe(&zeros, 0, &mut scratch, max_udp_payload_size) {
        assert forall|k: nat| !#[trigger] payload_fits(k, max_udp_payload_size as nat) by {
            lemma_worst_case_monotonic(0, k);
        }
        return None;
    }
    if probe(&zeros, MAX_PAYLOAD, &mut scratch, max_udp_payload_size) {
        return Some(MAX_PAYLOAD);
    }
    let mut l: usize = 0;
    let mut r: usize = MAX_PAYLOAD;
    while r - l > 1
        invariant
            l < r <= MAX_PAYLOAD,
            zeros@.len() == MAX_PAYLOAD,
            scratch@.len() == SCRATCH_LEN || (scratch@.len() == max_udp_payload_size
                && max_udp_payload_size < SCRATCH_LEN),
            max_udp_payload_size >= scratch@.len(),
            payload_fits(l as nat, max_udp_payload_size as nat),
            !payload_fits(r as nat, max_udp_payload_size as nat),
        decreases r - l,
    {
        let m = (r - l) / 2 + l;
        if probe(&zeros, m, &mut scratch, max_udp_payload_size) {
            l = m;
        } else {
            r = m;
        }
    }
    assert forall|k: nat|
        k <= MAX_PAYLOAD && #[trigger] payload_fits(k, max_udp_payload_size as nat) implies k
        <= l by {
        if k > l {
            lemma_worst_case_monotonic(r as nat, k);
        }
    }
    Some(l)
}

/// The number of payload bytes of the fragment that starts at `offset` of a
/// chunk of `size` bytes: as many as are left, up to `max_fragment_size`.
pub open spec fn fragment_len(size: nat, offset: nat, max_fragment_size: nat) -> nat {
    if size - offset < max_fragment_size {
        (size - offset) as nat
    } else {
        max_fragment_size
    }
}

/// The fragments into which `write_fragment` cuts a chunk, from offset
/// `offset` on, each as (offset, payload).
pub open spec fn fragments_from(data: Seq<u8>, offset: nat, max_fragment_size: nat) -> Seq<
    (int, Seq<u8>),
>
    decreases data.len() - offset,
{
    if offset >= data.len() || max_fragment_size == 0 {
        Seq::empty()
    } else {
        seq![
            (
                offset as int,
                data.subrange(
                    offset as int,
                    (offset + fragment_len(data.len(), offset, max_fragment_size)) as int,
                ),
            ),
        ] + fragments_from(
            data,
            offset + fragment_len(data.len(), offset, max_fragment_size),
            max_fragment_size,
        )
    }
}

/// Writes the datagram of the fragment that starts at `offset` of the chunk
/// `data` to the front of `buf`, and returns the datagram's length and the
/// offset at which the next fragment starts. Returns `None` where `buf` is
/// too short for the datagram; that does not happen where `buf` has room for
/// the worst case of `max_fragment_size`. Called from offset 0 on, each time
/// with the offset that the call before returned, until that is the chunk's
/// length, it cuts the chunk into `fragments_from(data, 0, ..)`.
pub fn write_fragment(
    chunk: u32,
    data: &[u8],
    offset: u32,
    max_fragment_size: usize,
    buf: &mut Vec<u8>,
) -> (r: Option<(usize, u32)>)
    requires
        offset < data@.len() <= u32::MAX,
        max_fragment_size > 0,
    ensures
        final(buf)@.len() == old(buf)@.len(),
        payload_fits(max_fragment_size as nat, old(buf)@.len()) ==> r is Some,
        r is Some <==> chunk_data_wire(
            chunk,
            offset,
            data@.subrange(
                offset as int,
                offset + fragment_len(data@.len(), offset as nat, max_fragment_size as nat),
            ),
        ).len() <= old(buf)@.len(),
        r matches Some((n, next)) ==> {
            &&& next == offset + fragment_len(data@.len(), offset as nat, max_fragment_size as nat)
            &&& offset < next <= data@.len()
            &&& final(buf)@.subrange(0, n as int) == chunk_data_wire(
                chunk,
                offset,
                data@.subrange(offset as int, next as int),
            )
            &&& fragments_from(data@, offset as nat, max_fragment_size as nat) == seq![
                (offset as int, data@.subrange(offset as int, next as int)),
            ] + fragments_from(data@, next as nat, max_fragment_size as nat)
        },
{
    let left = data.len() - offset as usize;
    let frag_size = if left < max_fragment_size {
        left
    } else {
        max_fragment_size
    };
    let start = offset as usize;
    let payload = &data[start..start + frag_size];
    proof {
        lemma_fragment_within_worst_case(chunk, offset, payload@, max_fragment_size as nat);
    }
    match chunk_data_to_slice(chunk, offset, payload, buf) {
        Some(n) => Some((n, (start + frag_size) as u32)),
        None => None,
    }
}

/// Time between two datagrams, in whole seconds and nanoseconds.
#[derive(Clone, Copy, Debug, PartialEq, Eq, Structural)]
pub struct Interval {
    pub secs: u64,
    pub nanos: u32,
}

/// The time, in nanoseconds and rounded down, that `datagram_len` bytes take
/// at `flood_speed` bits per second.
pub open spec fn interval_nanos(datagram_len: nat, flood_speed: nat) -> nat {
    (8 * datagram_len * 1_000_000_000) / flood_speed
}

/// How long to wait after a datagram of `datagram_len` bytes before the next
/// one may leave, so that `flood_speed` bits per second are sent.
pub fn send_interval(datagram_len: u32, flood_speed: u32) -> (d: Interval)
    requires
        flood_speed > 0,
    ensures
        d.nanos < 1_000_000_000,
        d.secs * 1_000_000_000 + d.nanos == interval_nanos(datagram_len as nat, flood_speed as nat),
{
    let bits: u64 = 8 * (datagram_len as u64);
    let speed: u64 = flood_speed as u64;
    let secs: u64 = bits / speed;
    let rest: u64 = bits % speed;
    let scaled: u64 = rest * 1_000_000_000;
    let nanos: u64 = scaled / speed;
    proof {
        let b = bits as int;
        let f = speed as int;
        vstd::arithmetic::div_mod::lemma_fundamental_div_mod(b, f);
        vstd::arithmetic::div_mod::lemma_fundamental_div_mod(scaled as int, f);
        let r = (scaled as int) % f;
        assert(0 <= r < f);
        assert(scaled as int == f * (nanos as int) + r);
        assert(b == f * (secs as int) + rest as int);
        assert(b * 1_000_000_000 == (secs * 1_000_000_000 + nanos) * f + r) by (nonlinear_arith)
            requires
                b == f * (secs as int) + rest as int,
                scaled as int == rest * 1_000_000_000,
                scaled as int == f * (nanos as int) + r,
        ;
        vstd::arithmetic::div_mod::lemma_fundamental_div_mod_converse(
            b * 1_000_000_000,
            f,
            secs * 1_000_000_000 + nanos,
            r,
        );
        assert(nanos < 1_000_000_000) by (nonlinear_arith)
            requires
                scaled as int == f * (nanos as int) + r,
                scaled as int == rest * 1_000_000_000,
                0 <= rest < f,
                0 <= r,
                f > 0,
        ;
    }
    Interval { secs, nanos: nanos as u32 }
}

/// The fragments into which a chunk is cut come in increasing offset order,
/// each holds the chunk's bytes at its offset, no two share a position, and
/// together they hold every position from `offset` on.
pub proof fn lemma_fragments_from(data: Seq<u8>, offset: nat, max_fragment_size: nat)
    requires
        max_fragment_size > 0,
        offset <= data.len(),
    ensures
        forall|k: int|
            0 <= k < fragments_from(data, offset, max_fragment_size).len() ==> {
                let f = #[trigger] fragments_from(data, offset, max_fragment_size)[k];
                &&& offset <= f.0
                &&& 0 < f.1.len() <= max_fragment_size
                &&& f.0 + f.1.len() <= data.len()
                &&& f.1 == data.subrange(f.0, f.0 + f.1.len())
            },
        forall|j: int, k: int|
            0 <= j < k < fragments_from(data, offset, max_fragment_size).len() ==> (
            #[trigger] fragments_from(data, offset, max_fragment_size)[j]).0 + fragments_from(
                data,
                offset,
                max_fragment_size,
            )[j].1.len() <= (#[trigger] fragments_from(data, offset, max_fragment_size)[k]).0,
        forall|i: int|
            offset <= i < data.len() ==> #[trigger] among_holds(
                fragments_from(data, offset, max_fragment_size),
                fragments_from(data, offset, max_fragment_size).len() as int,
                i,
            ),
    decreases data.len() - offset,
{
    let all = fragments_from(data, offset, max_fragment_size);
    if offset < data.len() {
        let len = fragment_len(data.len(), offset, max_fragment_size);
        let next = offset + len;
        let rest = fragments_from(data, next, max_fragment_size);
        let head = (offset as int, data.subrange(offset as int, next as int));
        lemma_fragments_from(data, next, max_fragment_size);
        assert(all == seq![head] + rest);
        assert forall|k: int| 0 <= k < all.len() implies {
            let f = #[trigger] all[k];
            &&& offset <= f.0
            &&& 0 < f.1.len() <= max_fragment_size
            &&& f.0 + f.1.len() <= data.len()
            &&& f.1 == data.subrange(f.0, f.0 + f.1.len())
        } by {
            if k > 0 {
                assert(all[k] == rest[k - 1]);
            }
        }
        assert forall|j: int, k: int| 0 <= j < k < all.len() implies (#[trigger] all[j]).0
            + all[j].1.len() <= (#[trigger] all[k]).0 by {
            assert(all[k] == rest[k - 1]);
            if j > 0 {
                assert(all[j] == rest[j - 1]);
            }
        }
        assert forall|i: int| offset <= i < data.len() implies #[trigger] among_holds(
            all,
            all.len() as int,
            i,
        ) by {
            if i < next {
                assert(fragment_holds(all, 0, i));
            } else {
                assert(among_holds(rest, rest.len() as int, i));
                let k = choose|k: int| 0 <= k < rest.len() && fragment_holds(rest, k, i);
                assert(all[k + 1] == rest[k]);
                assert(fragment_holds(all, k + 1, i));
            }
        }
    }
}

/// An assembler that is fed the fragments into which the server cuts a chunk
/// accepts each of them, is complete after the last, and then holds the
/// chunk's bytes.
pub proof fn lemma_fragments_reassemble(data: Seq<u8>, max_fragment_size: nat)
    requires
        data.len() > 0,
        max_fragment_size > 0,
    ensures
        fragments_disjoint(fragments_from(data, 0, max_fragment_size), data.len()),
        Coverage::empty(data.len()).after_all(
            fragments_from(data, 0, max_fragment_size),
        ).is_complete(),
        Coverage::empty(data.len()).after_all(fragments_from(data, 0, max_fragment_size)).bytes
            == data,
{
    let all = fragments_from(data, 0, max_fragment_size);
    let size = data.len();
    lemma_fragments_from(data, 0, max_fragment_size);
    assert forall|j: int, k: int, i: int|
        0 <= j < k < all.len() && #[trigger] fragment_holds(all, j, i) implies !(
    #[trigger] fragment_holds(all, k, i)) by {
        assert(all[j].0 + all[j].1.len() <= all[k].0);
    }
    assert(fragments_disjoint(all, size));
    lemma_partition_assembles(size, all);
    let got = Coverage::empty(size).after_all(all).bytes;
    assert forall|i: int| 0 <= i < size implies got[i] == data[i] by {
        assert(among_holds(all, all.len() as int, i));
        let k = choose|k: int| 0 <= k < all.len() && fragment_holds(all, k, i);
        let f = all[k];
        assert(got.subrange(f.0, f.0 + f.1.len()) == f.1);
        assert(got[i] == got.subrange(f.0, f.0 + f.1.len())[i - f.0]);
        assert(data[i] == data.subrange(f.0, f.0 + f.1.len())[i - f.0]);
    }
    assert(got =~= data);
}

/// A time in nanoseconds as a 64-bit clock shows it: the clock stops at its
/// greatest number.
pub open spec fn capped_nanos(nanos: int) -> u64 {
    if 0 <= nanos <= u64::MAX {
        nanos as u64
    } else {
        u64::MAX
    }
}

/// Keeps the time before which the next datagram must not leave, so that
/// datagrams leave at `flood_speed` bits per second. Times are nanoseconds on
/// a clock that the caller reads; the deadline moves with what is sent and not
/// with when it is sent, so a datagram that leaves late does not delay the
/// ones behind it.
#[derive(Clone, Copy, Debug, PartialEq, Eq, Structural)]
pub struct Pacer {
    /// Bits per second; not 0.
    pub flood_speed: u32,
    /// The time before which the next datagram must not leave.
    pub deadline: u64,
}

impl Pacer {
    /// A pacer for `flood_speed` bits per second under which a datagram may
    /// leave at once. `None` where `flood_speed` is 0.
    pub fn start(flood_speed: u32, now: u64) -> (p: Option<Pacer>)
        ensures
            p == if flood_speed > 0 {
                Some(Pacer { flood_speed, deadline: now })
            } else {
                None
            },
    {
        if flood_speed > 0 {
            Some(Pacer { flood_speed, deadline: now })
        } else {
            None
        }
    }

    /// Takes note that a request came in at `now` after the queue had been
    /// empty: the time that went by idle is not made up for with a burst.
    pub fn resume(&mut self, now: u64)
        ensures
            *final(self) == (Pacer { deadline: now, ..*old(self) }),
    {
        self.deadline = now;
    }

    /// Takes note of a datagram of `datagram_len` bytes that was sent: the
    /// deadline moves by the time that the datagram takes at the flood speed.
    pub fn sent(&mut self, datagram_len: u32)
        requires
            old(self).flood_speed > 0,
        ensures
            *final(self) == (Pacer {
                deadline: capped_nanos(
                    old(self).deadline + interval_nanos(
                        datagram_len as nat,
                        old(self).flood_speed as nat,
                    ),
                ),
                ..*old(self)
            }),
    {
        let wait = send_interval(datagram_len, self.flood_speed);
        // Seconds that do not fit the clock stop it at its end.
        if wait.secs > (u64::MAX - self.deadline) / 1_000_000_000 {
            assert(wait.secs * 1_000_000_000 + self.deadline > u64::MAX) by (nonlinear_arith)
                requires
                    wait.secs > (u64::MAX - self.deadline) / 1_000_000_000,
            ;
            self.deadline = u64::MAX;
        } else {
            assert(wait.secs * 1_000_000_000 <= u64::MAX - self.deadline) by (nonlinear_arith)
                requires
                    wait.secs <= (u64::MAX - self.deadline) / 1_000_000_000,
            ;
            let whole = self.deadline + wait.secs * 1_000_000_000;
            if wait.nanos as u64 > u64::MAX - whole {
                self.deadline = u64::MAX;
            } else {
                self.deadline = whole + wait.nanos as u64;
            }
        }
    }
}

/// The time by which the deadline has moved after datagrams of the lengths
/// `lens` were sent, in nanoseconds.
pub open spec fn total_wait(lens: Seq<u32>, flood_speed: nat) -> nat
    decreases lens.len(),
{
    if lens.len() == 0 {
        0
    } else {
        total_wait(lens.drop_last(), flood_speed) + interval_nanos(
            lens.last() as nat,
            flood_speed,
        )
    }
}

/// The number of bits in datagrams of the lengths `lens`.
pub open spec fn total_bits(lens: Seq<u32>) -> nat
    decreases lens.len(),
{
    if lens.len() == 0 {
        0
    } else {
        total_bits(lens.drop_last()) + 8 * lens.last() as nat
    }
}

/// The deadline keeps to the rate: when it has moved by `w` nanoseconds, the
/// datagrams sent would take `w` nanoseconds at `flood_speed` bits per second,
/// but for what rounding down took from each interval, which is less than a
/// nanosecond for each datagram.
pub proof fn lemma_deadline_keeps_rate(lens: Seq<u32>, flood_speed: nat)
    requires
        flood_speed > 0,
    ensures
        total_wait(lens, flood_speed) * flood_speed <= total_bits(lens) * 1_000_000_000,
        total_bits(lens) * 1_000_000_000 < (total_wait(lens, flood_speed) + lens.len())
            * flood_speed || lens.len() == 0,
    decreases lens.len(),
{
    if lens.len() > 0 {
        let front = lens.drop_last();
        lemma_deadline_keeps_rate(front, flood_speed);
        let x = (8 * lens.last() * 1_000_000_000) as int;
        let f = flood_speed as int;
        let q = interval_nanos(lens.last() as nat, flood_speed) as int;
        vstd::arithmetic::div_mod::lemma_fundamental_div_mod(x, f);
        assert(0 <= x % f < f);
        assert(q == x / f);
        assert(q * f <= x < (q + 1) * f) by (nonlinear_arith)
            requires
                x == f * (x / f) + x % f,
                0 <= x % f < f,
                q == x / f,
        ;
        let w = total_wait(front, flood_speed) as int;
        let b = total_bits(front) as int;
        let n = front.len() as int;
        assert((w + q) * f <= (b + 8 * lens.last()) * 1_000_000_000) by (nonlinear_arith)
            requires
                w * f <= b * 1_000_000_000,
                q * f <= x,
                x == 8 * lens.last() * 1_000_000_000,
        ;
        assert((b + 8 * lens.last()) * 1_000_000_000 < (w + q + n + 1) * f) by (nonlinear_arith)
            requires
                b * 1_000_000_000 < (w + n) * f || (n == 0 && b == 0 && w == 0),
                x < (q + 1) * f,
                x == 8 * lens.last() * 1_000_000_000,
                f > 0,
        ;
        assert(total_wait(lens, flood_speed) == w + q);
        assert(total_bits(lens) == b + 8 * lens.last());
        assert(lens.len() == n + 1);
    } else {
        assert(total_wait(lens, flood_speed) * flood_speed == 0) by (nonlinear_arith)
            requires
                total_wait(lens, flood_speed) == 0,
        ;
    }
}

/// The pacer after datagrams of the lengths `lens` were sent one after the
/// other, with no idle time between them.
pub open spec fn paced(p: Pacer, lens: Seq<u32>) -> Pacer
    decreases lens.len(),
{
    if lens.len() == 0 {
        p
    } else {
        Pacer {
            deadline: capped_nanos(
                paced(p, lens.drop_last()).deadline + interval_nanos(
                    lens.last() as nat,
                    p.flood_speed as nat,
                ),
            ),
            ..p
        }
    }
}

/// After a burst of datagrams the deadline has moved by the sum of their
/// intervals, as far as the clock goes.
pub proof fn lemma_paced_deadline(p: Pacer, lens: Seq<u32>)
    ensures
        paced(p, lens).flood_speed == p.flood_speed,
        paced(p, lens).deadline == capped_nanos(
            p.deadline + total_wait(lens, p.flood_speed as nat),
        ),
    decreases lens.len(),
{
    if lens.len() > 0 {
        lemma_paced_deadline(p, lens.drop_last());
    }
}

/// What the server does with a datagram that came in on its request socket.
#[derive(Debug)]
pub enum RequestIntake {
    /// Queue the chunk indices `known` for sending; the indices `unknown`
    /// name no chunk of the image and are passed over.
    Forward { known: Vec<u32>, unknown: Vec<u32> },
    /// The datagram was cut short: receive into a larger buffer from now on.
    Grow,
    /// The datagram is no request: pass over it.
    Discard,
}

/// The indices of `ids` that name a chunk of an image of `chunk_count` chunks,
/// in the order in which they stand in `ids`.
pub open spec fn known_ids(ids: Seq<u32>, chunk_count: nat) -> Seq<u32> {
    ids.filter(|id: u32| id < chunk_count)
}

/// The indices of `ids` that name no chunk of an image of `chunk_count`
/// chunks, in the order in which they stand in `ids`.
pub open spec fn unknown_ids(ids: Seq<u32>, chunk_count: nat) -> Seq<u32> {
    ids.filter(|id: u32| id >= chunk_count)
}

/// Decides what to do with a request as it was decoded: the indices of a
/// well-formed request are forwarded but for those that name no chunk, a
/// request that was cut short makes the buffer grow, and anything else is
/// passed over.
pub fn admit_request(decoded: Result<ChunkRequest, DecodeError>, chunk_count: usize) -> (r:
    RequestIntake)
    ensures
        match r {
            RequestIntake::Forward { known, unknown } => decoded matches Ok(request) && known@
                == known_ids(request_ids(request), chunk_count as nat) && unknown@ == unknown_ids(
                request_ids(request),
                chunk_count as nat,
            ),
            RequestIntake::Grow => decoded == Err::<ChunkRequest, DecodeError>(
                DecodeError::UnexpectedEnd,
            ),
            RequestIntake::Discard => decoded == Err::<ChunkRequest, DecodeError>(
                DecodeError::Malformed,
            ),
        },
{
    match decoded {
        Ok(request) => {
            let ids = request_as_slice(&request);
            let mut known: Vec<u32> = Vec::new();
            let mut unknown: Vec<u32> = Vec::new();
            let mut i: usize = 0;
            assert(ids@.take(0) =~= Seq::<u32>::empty());
            while i < ids.len()
                invariant
                    i <= ids@.len(),
                    known@ == known_ids(ids@.take(i as int), chunk_count as nat),
                    unknown@ == unknown_ids(ids@.take(i as int), chunk_count as nat),
                decreases ids@.len() - i,
            {
                let id = ids[i];
                proof {
                    reveal(Seq::filter);
                    assert(ids@.take(i + 1).drop_last() =~= ids@.take(i as int));
                }
                if (id as usize) < chunk_count {
                    known.push(id);
                } else {
                    unknown.push(id);
                }
                i += 1;
            }
            assert(ids@.take(i as int) =~= ids@);
            RequestIntake::Forward { known, unknown }
        },
        Err(DecodeError::UnexpectedEnd) => RequestIntake::Grow,
        Err(DecodeError::Malformed) => RequestIntake::Discard,
    }
}

/// Reads a datagram from the request socket and decides what to do with it.
/// The datagram that a client wrote for a request is read as that request.
pub fn read_request(datagram: &[u8], chunk_count: usize) -> (r: RequestIntake)
    ensures
        match r {
            RequestIntake::Forward { known, unknown } => chunk_request_decoding(
                datagram@,
            ) matches Ok(all) && known@ == known_ids(all, chunk_count as nat) && unknown@
                == unknown_ids(all, chunk_count as nat),
            RequestIntake::Grow => chunk_request_decoding(datagram@) == Err::<
                Seq<u32>,
                DecodeError,
            >(DecodeError::UnexpectedEnd),
            RequestIntake::Discard => chunk_request_decoding(datagram@) == Err::<
                Seq<u32>,
                DecodeError,
            >(DecodeError::Malformed),
        },
        forall|ids: Seq<u32>|
            ids.len() <= 40 && datagram@ == #[trigger] chunk_request_wire(ids) ==> (
            r matches RequestIntake::Forward { known, unknown } && known@ == known_ids(
                ids,
                chunk_count as nat,
            ) && unknown@ == unknown_ids(ids, chunk_count as nat)),
{
    admit_request(chunk_request_from_bytes(datagram), chunk_count)
}

} // verus!
