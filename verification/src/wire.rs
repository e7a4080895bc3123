//! The byte form of the records that travel between server and client.
//!
//! The records are written and read by `postcard`. What it writes for the
//! records of this crate is stated here byte for byte. What it makes of
//! arbitrary bytes is only given a name; of the bytes that it wrote itself it
//! is stated that they are read back as what was written.

use crate::{ChunkData, ChunkMetadata, ChunkRequest, ImageMetadata};
use vstd::prelude::*;

verus! {

/// Why bytes could not be read as a record.
#[derive(Clone, Copy, Debug, PartialEq, Eq, Structural)]
pub enum DecodeError {
    /// The bytes stop before the record does: with a datagram, the receive
    /// buffer may have been too short for it.
    UnexpectedEnd,
    /// The bytes are not such a record.
    Malformed,
}

/// An unsigned integer in base 128, lowest digit first, one digit to a byte,
/// with the top bit set on every byte but the last.
pub open spec fn varint(n: nat) -> Seq<u8>
    decreases n,
{
    if n < 128 {
        seq![n as u8]
    } else {
        seq![(n % 128 + 128) as u8] + varint(n / 128)
    }
}

/// A fragment on the wire: chunk index, offset, payload length, each as a
/// varint, then the payload.
pub open spec fn chunk_data_wire(chunk: u32, offset: u32, data: Seq<u8>) -> Seq<u8> {
    varint(chunk as nat) + varint(offset as nat) + varint(data.len()) + data
}

/// Chunk indices one after the other, each as a varint.
pub open spec fn ids_wire(ids: Seq<u32>) -> Seq<u8>
    decreases ids.len(),
{
    if ids.len() == 0 {
        Seq::empty()
    } else {
        ids_wire(ids.drop_last()) + varint(ids.last() as nat)
    }
}

/// A request on the wire: the number of indices, then the indices.
pub open spec fn chunk_request_wire(ids: Seq<u32>) -> Seq<u8> {
    varint(ids.len()) + ids_wire(ids)
}

/// Rows of a chunk table one after the other: offset, size, hash, each as a
/// varint.
pub open spec fn rows_wire(rows: Seq<(u64, u32, u64)>) -> Seq<u8>
    decreases rows.len(),
{
    if rows.len() == 0 {
        Seq::empty()
    } else {
        rows_wire(rows.drop_last()) + varint(rows.last().0 as nat) + varint(rows.last().1 as nat)
            + varint(rows.last().2 as nat)
    }
}

/// A chunk table on the wire: the number of rows, then the rows.
pub open spec fn image_metadata_wire(rows: Seq<(u64, u32, u64)>) -> Seq<u8> {
    varint(rows.len()) + rows_wire(rows)
}

/// A chunk table as the rows that go on the wire.
pub open spec fn rows_of(chunks: Seq<ChunkMetadata>) -> Seq<(u64, u32, u64)> {
    chunks.map_values(|c: ChunkMetadata| (c.offset, c.size, c.hash))
}

/// The chunk table that rows from the wire stand for.
pub open spec fn chunks_of(rows: Seq<(u64, u32, u64)>) -> Seq<ChunkMetadata> {
    rows.map_values(|r: (u64, u32, u64)| ChunkMetadata { offset: r.0, size: r.1, hash: r.2 })
}

/// The chunk indices that a request holds, in the order in which they were
/// pushed.
pub uninterp spec fn request_ids(request: ChunkRequest) -> Seq<u32>;

/// What `postcard::from_bytes` makes of `bytes` when asked for a fragment:
/// chunk index, offset and payload, or the reason why there is none.
pub uninterp spec fn chunk_data_decoding(bytes: Seq<u8>) -> Result<(u32, u32, Seq<u8>), DecodeError>;

/// What `postcard::from_bytes` makes of `bytes` when asked for a request of at
/// most 40 chunk indices.
pub uninterp spec fn chunk_request_decoding(bytes: Seq<u8>) -> Result<Seq<u32>, DecodeError>;

/// What `postcard::from_bytes` makes of `bytes` when asked for the rows of a
/// chunk table.
pub uninterp spec fn image_metadata_decoding(bytes: Seq<u8>) -> Result<
    Seq<(u64, u32, u64)>,
    DecodeError,
>;

/// Where `bytes` are the wire form of a fragment, `r` is that fragment.
pub open spec fn reads_back_fragment(bytes: Seq<u8>, r: Result<ChunkData<'_>, DecodeError>) -> bool {
    forall|chunk: u32, offset: u32, data: Seq<u8>|
        bytes == #[trigger] chunk_data_wire(chunk, offset, data) ==> (r matches Ok(f) && f.chunk
            == chunk && f.offset == offset && f.data@ == data)
}

/// Where `bytes` are the wire form of a request of up to 40 chunk indices,
/// `r` is that request.
pub open spec fn reads_back_request(bytes: Seq<u8>, r: Result<ChunkRequest, DecodeError>) -> bool {
    forall|ids: Seq<u32>|
        ids.len() <= 40 && bytes == #[trigger] chunk_request_wire(ids) ==> (r matches Ok(request)
            && request_ids(request) == ids)
}

/// Where `bytes` are the wire form of a chunk table, `r` holds its rows.
pub open spec fn reads_back_rows(bytes: Seq<u8>, r: Result<Vec<(u64, u32, u64)>, DecodeError>) -> bool {
    forall|rows: Seq<(u64, u32, u64)>|
        bytes == #[trigger] image_metadata_wire(rows) ==> (r matches Ok(read) && read@ == rows)
}

/// `heapless::Vec::new`: a request that holds no chunk index.
#[verifier::external_body]
pub(crate) fn request_new() -> (request: ChunkRequest)
    ensures
        request_ids(request) == Seq::<u32>::empty(),
{
    heapless::Vec::new()
}

/// `heapless::Vec::push`: appends `id` where the request holds fewer than 40
/// indices and says so; a full request stays as it is.
#[verifier::external_body]
pub(crate) fn request_push(request: &mut ChunkRequest, id: u32) -> (pushed: bool)
    ensures
        pushed == (request_ids(*old(request)).len() < 40),
        pushed ==> request_ids(*final(request)) == request_ids(*old(request)).push(id),
        !pushed ==> request_ids(*final(request)) == request_ids(*old(request)),
{
    request.push(id).is_ok()
}

/// `heapless::Vec::as_slice`: the indices that the request holds, which are
/// never more than the 40 it has room for.
#[verifier::external_body]
pub(crate) fn request_as_slice(request: &ChunkRequest) -> (ids: &[u32])
    ensures
        ids@ == request_ids(*request),
        ids@.len() <= 40,
{
    request.as_slice()
}

/// `postcard::to_slice` on (chunk, offset, payload): writes the fragment's
/// wire form to the front of `buf` and returns its length, or returns `None`
/// where `buf` is too short for it. `buf` keeps its length.
#[verifier::external_body]
pub(crate) fn chunk_data_to_slice(chunk: u32, offset: u32, data: &[u8], buf: &mut Vec<u8>) -> (n:
    Option<usize>)
    ensures
        final(buf)@.len() == old(buf)@.len(),
        n is Some <==> chunk_data_wire(chunk, offset, data@).len() <= old(buf)@.len(),
        n matches Some(n) ==> final(buf)@.subrange(0, n as int) == chunk_data_wire(
            chunk,
            offset,
            data@,
        ),
{
    match postcard::to_slice(&(chunk, offset, data), buf.as_mut_slice()) {
        Ok(used) => Some(used.len()),
        Err(_) => None,
    }
}

/// `postcard::from_bytes` for (chunk, offset, payload); the payload borrows
/// from `bytes`. The result depends on the bytes alone, and the wire form of
/// a fragment is read back as that fragment.
#[verifier::external_body]
pub(crate) fn chunk_data_from_bytes(bytes: &[u8]) -> (r: Result<ChunkData<'_>, DecodeError>)
    ensures
        match r {
            Ok(f) => chunk_data_decoding(bytes@) == Ok::<(u32, u32, Seq<u8>), DecodeError>(
                (f.chunk, f.offset, f.data@),
            ),
            Err(e) => chunk_data_decoding(bytes@) == Err::<(u32, u32, Seq<u8>), DecodeError>(e),
        },
        reads_back_fragment(bytes@, r),
{
    match postcard::from_bytes::<(u32, u32, &[u8])>(bytes) {
        Ok((chunk, offset, data)) => Ok(ChunkData { chunk, offset, data }),
        Err(postcard::Error::DeserializeUnexpectedEnd) => Err(DecodeError::UnexpectedEnd),
        Err(_) => Err(DecodeError::Malformed),
    }
}

/// `postcard::to_slice` on a request: writes the request's wire form to the
/// front of `buf` and returns its length, or returns `None` where `buf` is
/// too short for it. `buf` keeps its length.
#[verifier::external_body]
pub(crate) fn chunk_request_to_slice(request: &ChunkRequest, buf: &mut Vec<u8>) -> (n: Option<usize>)
    ensures
        final(buf)@.len() == old(buf)@.len(),
        n is Some <==> chunk_request_wire(request_ids(*request)).len() <= old(buf)@.len(),
        n matches Some(n) ==> final(buf)@.subrange(0, n as int) == chunk_request_wire(
            request_ids(*request),
        ),
{
    match postcard::to_slice(request, buf.as_mut_slice()) {
        Ok(used) => Some(used.len()),
        Err(_) => None,
    }
}

/// `postcard::from_bytes` for a request. The result depends on the bytes
/// alone, and the wire form of a request of up to 40 indices is read back as
/// that request.
#[verifier::external_body]
pub(crate) fn chunk_request_from_bytes(bytes: &[u8]) -> (r: Result<ChunkRequest, DecodeError>)
    ensures
        match r {
            Ok(request) => chunk_request_decoding(bytes@) == Ok::<Seq<u32>, DecodeError>(
                request_ids(request),
            ),
            Err(e) => chunk_request_decoding(bytes@) == Err::<Seq<u32>, DecodeError>(e),
        },
        reads_back_request(bytes@, r),
{
    match postcard::from_bytes::<ChunkRequest>(bytes) {
        Ok(request) => Ok(request),
        Err(postcard::Error::DeserializeUnexpectedEnd) => Err(DecodeError::UnexpectedEnd),
        Err(_) => Err(DecodeError::Malformed),
    }
}

/// `postcard::to_allocvec` on the rows of a chunk table: their wire form.
#[verifier::external_body]
pub(crate) fn rows_to_allocvec(rows: &Vec<(u64, u32, u64)>) -> (bytes: Vec<u8>)
    ensures
        bytes@ == image_metadata_wire(rows@),
{
    match postcard::to_allocvec(rows) {
        Ok(bytes) => bytes,
        Err(_) => Vec::new(),
    }
}

/// `postcard::from_bytes` for the rows of a chunk table. The result depends
/// on the bytes alone, and the wire form of a table is read back as that
/// table.
#[verifier::external_body]
pub(crate) fn rows_from_bytes(bytes: &[u8]) -> (r: Result<Vec<(u64, u32, u64)>, DecodeError>)
    ensures
        match r {
            Ok(rows) => image_metadata_decoding(bytes@) == Ok::<
                Seq<(u64, u32, u64)>,
                DecodeError,
            >(rows@),
            Err(e) => image_metadata_decoding(bytes@) == Err::<Seq<(u64, u32, u64)>, DecodeError>(
                e,
            ),
        },
        reads_back_rows(bytes@, r),
{
    match postcard::from_bytes::<Vec<(u64, u32, u64)>>(bytes) {
        Ok(rows) => Ok(rows),
        Err(postcard::Error::DeserializeUnexpectedEnd) => Err(DecodeError::UnexpectedEnd),
        Err(_) => Err(DecodeError::Malformed),
    }
}

/// The number of bytes of a varint.
pub open spec fn varint_len(n: nat) -> nat
    decreases n,
{
    if n < 128 {
        1
    } else {
        1 + varint_len(n / 128)
    }
}

/// A varint has as many bytes as `varint_len` says.
pub proof fn lemma_varint_len(n: nat)
    ensures
        varint(n).len() == varint_len(n),
    decreases n,
{
    if n >= 128 {
        lemma_varint_len(n / 128);
    }
}

/// A larger number has no shorter varint.
pub proof fn lemma_varint_len_monotonic(a: nat, b: nat)
    requires
        a <= b,
    ensures
        varint_len(a) <= varint_len(b),
    decreases b,
{
    if a >= 128 {
        lemma_varint_len_monotonic(a / 128, b / 128);
    }
}

/// How long a varint can get: 3 bytes below 2^21, 5 bytes for 32 bits.
pub proof fn lemma_varint_len_bounds(n: nat)
    ensures
        1 <= varint_len(n),
        n < 0x80 ==> varint_len(n) == 1,
        0x80 <= n < 0x4000 ==> varint_len(n) == 2,
        0x4000 <= n < 0x20_0000 ==> varint_len(n) == 3,
        0x20_0000 <= n < 0x1000_0000 ==> varint_len(n) == 4,
        0x1000_0000 <= n < 0x8_0000_0000 ==> varint_len(n) == 5,
{
    reveal_with_fuel(varint_len, 6);
}

/// The length of a fragment's wire form.
pub open spec fn chunk_data_wire_len(chunk: u32, offset: u32, len: nat) -> nat {
    varint_len(chunk as nat) + varint_len(offset as nat) + varint_len(len) + len
}

/// A fragment's wire form is as long as `chunk_data_wire_len` says, whatever
/// its payload holds.
pub proof fn lemma_chunk_data_wire_len(chunk: u32, offset: u32, data: Seq<u8>)
    ensures
        chunk_data_wire(chunk, offset, data).len() == chunk_data_wire_len(chunk, offset, data.len()),
{
    lemma_varint_len(chunk as nat);
    lemma_varint_len(offset as nat);
    lemma_varint_len(data.len());
}

/// A request's wire form has at most 5 bytes for each index and, where the
/// indices are fewer than 128, one more.
pub proof fn lemma_chunk_request_wire_len(ids: Seq<u32>)
    ensures
        ids_wire(ids).len() <= 5 * ids.len(),
        ids.len() < 128 ==> chunk_request_wire(ids).len() <= 1 + 5 * ids.len(),
    decreases ids.len(),
{
    if ids.len() > 0 {
        lemma_chunk_request_wire_len(ids.drop_last());
        lemma_varint_len(ids.last() as nat);
        lemma_varint_len_bounds(ids.last() as nat);
    }
    lemma_varint_len(ids.len());
    lemma_varint_len_bounds(ids.len());
}

/// The length to which a receive buffer grows after a datagram was found cut
/// short: twice what it was, as far as lengths go.
pub fn grown_len(len: usize) -> (n: usize)
    ensures
        n == if 2 * len <= usize::MAX {
            2 * len
        } else {
            usize::MAX as int
        },
{
    if len > usize::MAX / 2 {
        usize::MAX
    } else {
        2 * len
    }
}

} // verus!
