//! The chunk table of an image: how it is built from the image's bytes, what
//! makes one well formed, and what it says of the image's size.

use crate::digest::{xxh3_64, xxh3_64_oneshot};
use crate::wire::{
    chunks_of, image_metadata_decoding, image_metadata_wire, rows_from_bytes, rows_of,
    rows_to_allocvec, DecodeError,
};
use crate::{ChunkMetadata, ImageMetadata};
use vstd::prelude::*;

verus! {

/// The greatest number of chunks in a table: a chunk is named by a 32-bit
/// index.
pub const MAX_CHUNKS: usize = 0xffff_ffff;

/// The chunks lie one behind the other from offset 0 on, and the end of the
/// last one is an offset still.
pub open spec fn contiguous(chunks: Seq<ChunkMetadata>) -> bool {
    &&& chunks.len() > 0 ==> chunks[0].offset == 0
    &&& forall|i: int|
        0 <= i < chunks.len() - 1 ==> (#[trigger] chunks[i]).offset + chunks[i].size == chunks[i
            + 1].offset
    &&& chunks.len() > 0 ==> chunks.last().offset + chunks.last().size <= u64::MAX
}

/// The sizes of the chunks, added up.
pub open spec fn total_size(chunks: Seq<ChunkMetadata>) -> nat
    decreases chunks.len(),
{
    if chunks.len() == 0 {
        0
    } else {
        total_size(chunks.drop_last()) + chunks.last().size as nat
    }
}

/// In a contiguous table each chunk starts where the sizes before it add up
/// to, and the end of the last chunk is the sum of all sizes.
pub proof fn lemma_offsets_are_sums(chunks: Seq<ChunkMetadata>, n: int)
    requires
        contiguous(chunks),
        0 <= n <= chunks.len(),
    ensures
        n < chunks.len() ==> chunks[n].offset == total_size(chunks.take(n)),
        n == chunks.len() && n > 0 ==> chunks.last().offset + chunks.last().size == total_size(
            chunks,
        ),
        total_size(chunks.take(n)) <= u64::MAX,
    decreases n,
{
    if n == 0 {
        assert(chunks.take(0).len() == 0);
    } else {
        lemma_offsets_are_sums(chunks, n - 1);
        assert(chunks.take(n).drop_last() =~= chunks.take(n - 1));
        assert(chunks.take(n).last() == chunks[n - 1]);
        assert(total_size(chunks.take(n)) == chunks[n - 1].offset + chunks[n - 1].size);
        if n == chunks.len() {
            assert(chunks.take(n) =~= chunks);
        }
    }
}

/// The number of chunks of `chunk_size` bytes that an image of `len` bytes
/// fills, the last of them perhaps not to the end.
pub open spec fn chunk_count(len: nat, chunk_size: nat) -> nat {
    ((len + chunk_size - 1) / chunk_size as int) as nat
}

/// Where chunk `i` ends in an image of `len` bytes.
pub open spec fn chunk_end(len: nat, chunk_size: nat, i: int) -> int {
    if i * chunk_size + chunk_size < len {
        i * chunk_size + chunk_size
    } else {
        len as int
    }
}

/// Row `i` of the chunk table of `image`.
pub open spec fn chunk_at(image: Seq<u8>, chunk_size: nat, i: int) -> ChunkMetadata {
    ChunkMetadata {
        offset: (i * chunk_size) as u64,
        size: (chunk_end(image.len(), chunk_size, i) - i * chunk_size) as u32,
        hash: xxh3_64(image.subrange(i * chunk_size, chunk_end(image.len(), chunk_size, i))),
    }
}

/// The chunk table of `image` for chunks of `chunk_size` bytes.
pub open spec fn chunk_table(image: Seq<u8>, chunk_size: nat) -> Seq<ChunkMetadata> {
    Seq::new(chunk_count(image.len(), chunk_size), |i: int| chunk_at(image, chunk_size, i))
}

/// Builds a chunk table from the chunks of an image as they are read, one
/// after the other.
pub struct MetadataBuilder {
    chunks: Vec<ChunkMetadata>,
    pos: u64,
}

impl MetadataBuilder {
    /// The rows made so far.
    pub closed spec fn chunks(&self) -> Seq<ChunkMetadata> {
        self.chunks@
    }

    /// The number of bytes taken in so far: the offset of the next chunk.
    pub closed spec fn pos(&self) -> u64 {
        self.pos
    }

    /// The invariant: the rows are contiguous and end at `pos`.
    pub closed spec fn wf(&self) -> bool {
        &&& contiguous(self.chunks@)
        &&& self.chunks@.len() <= MAX_CHUNKS
        &&& self.chunks@.len() == 0 ==> self.pos == 0
        &&& self.chunks@.len() > 0 ==> self.pos == self.chunks@.last().offset
            + self.chunks@.last().size
    }

    /// A builder that has taken in nothing.
    pub fn new() -> (b: MetadataBuilder)
        ensures
            b.wf(),
            b.chunks() == Seq::<ChunkMetadata>::empty(),
            b.pos() == 0,
    {
        MetadataBuilder { chunks: Vec::new(), pos: 0 }
    }

    /// The number of bytes taken in so far.
    pub fn position(&self) -> (pos: u64)
        ensures
            pos == self.pos(),
    {
        self.pos
    }

    /// Takes in the next chunk of the image: hashes it and adds its row. A
    /// chunk that no row can describe is refused and changes nothing: one of
    /// 2^32 bytes or more, one that ends past the last 64-bit offset, or one
    /// more than `MAX_CHUNKS`.
    pub fn push_chunk(&mut self, data: &[u8]) -> (added: bool)
        requires
            old(self).wf(),
        ensures
            final(self).wf(),
            added == (data@.len() <= u32::MAX && old(self).pos() + data@.len() <= u64::MAX && old(
                self,
            ).chunks().len() < MAX_CHUNKS),
            added ==> final(self).chunks() == old(self).chunks().push(
                ChunkMetadata {
                    offset: old(self).pos(),
                    size: data@.len() as u32,
                    hash: xxh3_64(data@),
                },
            ) && final(self).pos() == old(self).pos() + data@.len(),
            !added ==> final(self).chunks() == old(self).chunks() && final(self).pos() == old(
                self,
            ).pos(),
    {
        let len = data.len();
        if len > u32::MAX as usize || len as u64 > u64::MAX - self.pos || self.chunks.len()
            >= MAX_CHUNKS {
            return false;
        }
        let hash = xxh3_64_oneshot(data);
        let ghost before = self.chunks@;
        self.chunks.push(ChunkMetadata { offset: self.pos, size: len as u32, hash });
        self.pos = self.pos + len as u64;
        proof {
            let after = self.chunks@;
            assert forall|i: int| 0 <= i < after.len() - 1 implies (#[trigger] after[i]).offset
                + after[i].size == after[i + 1].offset by {
                if i < before.len() - 1 {
                    assert(after[i] == before[i]);
                    assert(after[i + 1] == before[i + 1]);
                }
            }
        }
        true
    }

    /// The table of the chunks taken in.
    pub fn finish(self) -> (m: ImageMetadata)
        requires
            self.wf(),
        ensures
            m.chunks@ == self.chunks(),
            m.wf(),
    {
        ImageMetadata { chunks: self.chunks }
    }
}

impl ImageMetadata {
    /// The table is one that a server builds: its chunks are contiguous from
    /// offset 0 on, and there are no more of them than 32-bit indices.
    pub open spec fn wf(&self) -> bool {
        contiguous(self.chunks@) && self.chunks@.len() <= MAX_CHUNKS
    }

    /// Tells whether the table is well formed; a client asks this of a table
    /// that came over the network before it relies on it.
    pub fn validate(&self) -> (ok: bool)
        ensures
            ok == self.wf(),
    {
        let n = self.chunks.len();
        if n > MAX_CHUNKS {
            return false;
        }
        if n == 0 {
            return true;
        }
        if self.chunks[0].offset != 0 {
            return false;
        }
        let mut i: usize = 0;
        while i < n - 1
            invariant
                n == self.chunks@.len(),
                0 < n,
                i <= n - 1,
                forall|k: int|
                    0 <= k < i ==> (#[trigger] self.chunks@[k]).offset + self.chunks@[k].size
                        == self.chunks@[k + 1].offset,
            decreases n - i,
        {
            let c = self.chunks[i];
            if c.size as u64 > u64::MAX - c.offset || c.offset + c.size as u64 != self.chunks[i
                + 1].offset {
                return false;
            }
            i += 1;
        }
        let last = self.chunks[n - 1];
        last.size as u64 <= u64::MAX - last.offset
    }

    /// The size of the image in bytes: the sum of the sizes of its chunks,
    /// which is where the last chunk ends.
    pub fn image_size(&self) -> (size: u64)
        requires
            self.wf(),
        ensures
            size == total_size(self.chunks@),
            self.chunks@.len() > 0 ==> size == self.chunks@.last().offset
                + self.chunks@.last().size,
    {
        proof {
            lemma_offsets_are_sums(self.chunks@, self.chunks@.len() as int);
        }
        let n = self.chunks.len();
        if n == 0 {
            0
        } else {
            self.chunks[n - 1].offset + self.chunks[n - 1].size as u64
        }
    }
}

/// The chunk table of an image held in memory: the image is cut into chunks
/// of `chunk_size` bytes, the last one as long as what is left, and each
/// chunk is hashed. `None` where the image has more than `MAX_CHUNKS` chunks.
pub fn compute_image_metadata(image: &[u8], chunk_size: u32) -> (r: Option<ImageMetadata>)
    requires
        chunk_size > 0,
    ensures
        r is Some <==> chunk_count(image@.len(), chunk_size as nat) <= MAX_CHUNKS,
        r matches Some(m) ==> m.chunks@ == chunk_table(image@, chunk_size as nat) && m.wf(),
{
    let total = image.len();
    let step = chunk_size as usize;
    let mut builder = MetadataBuilder::new();
    let mut pos: usize = 0;
    let ghost mut i: int = 0;
    proof {
        if total == 0 {
            vstd::arithmetic::div_mod::lemma_fundamental_div_mod_converse(
                step - 1,
                step as int,
                0,
                step - 1,
            );
        }
    }
    while pos < total
        invariant
            step == chunk_size,
            step > 0,
            total == image@.len(),
            pos <= total,
            builder.wf(),
            builder.pos() == pos,
            i == builder.chunks().len(),
            pos < total ==> pos == i * step,
            pos == total ==> i == chunk_count(total as nat, step as nat),
            i <= chunk_count(total as nat, step as nat),
            builder.chunks() == Seq::new(i as nat, |k: int| chunk_at(image@, step as nat, k)),
        decreases total - pos,
    {
        let left = total - pos;
        let n = if left < step {
            left
        } else {
            step
        };
        let piece = &image[pos..pos + n];
        proof {
            lemma_chunk_count_step(total as nat, step as nat, i);
        }
        if !builder.push_chunk(piece) {
            return None;
        }
        proof {
            assert(chunk_end(total as nat, step as nat, i) == pos + n);
            assert(builder.chunks() =~= Seq::new(
                (i + 1) as nat,
                |k: int| chunk_at(image@, step as nat, k),
            ));
            assert((i + 1) * step == i * step + step) by (nonlinear_arith);
            i = i + 1;
        }
        pos = pos + n;
    }
    Some(builder.finish())
}

/// Where chunk `i` starts inside the image, it is one of the image's chunks;
/// and it is the last of them exactly if the image ends within `chunk_size`
/// bytes of its start.
pub proof fn lemma_chunk_count_step(len: nat, chunk_size: nat, i: int)
    requires
        chunk_size > 0,
        0 <= i,
        i * chunk_size < len,
    ensures
        i < chunk_count(len, chunk_size),
        len <= i * chunk_size + chunk_size <==> i + 1 == chunk_count(len, chunk_size),
{
    let s = chunk_size as int;
    let x = len + s - 1;
    vstd::arithmetic::div_mod::lemma_fundamental_div_mod(x, s);
    let q = x / s;
    let r = x % s;
    assert(0 <= r < s);
    assert(x == s * q + r);
    assert(i < q) by (nonlinear_arith)
        requires
            x == s * q + r,
            0 <= r < s,
            i * s < len,
            x == len + s - 1,
            s > 0,
    ;
    assert(len <= i * s + s <==> i + 1 == q) by (nonlinear_arith)
        requires
            x == s * q + r,
            0 <= r < s,
            i * s < len,
            x == len + s - 1,
            s > 0,
            i < q,
    ;
}

/// Each chunk of the table starts inside the image; each but the last ends
/// inside it too, and the last one reaches the image's end.
pub proof fn lemma_chunk_bounds(len: nat, chunk_size: nat, i: int)
    requires
        chunk_size > 0,
        0 <= i < chunk_count(len, chunk_size),
    ensures
        i * chunk_size < len,
        i < chunk_count(len, chunk_size) - 1 ==> i * chunk_size + chunk_size < len,
        i == chunk_count(len, chunk_size) - 1 ==> i * chunk_size + chunk_size >= len,
{
    let s = chunk_size as int;
    let x = len + s - 1;
    vstd::arithmetic::div_mod::lemma_fundamental_div_mod(x, s);
    let q = x / s;
    let r = x % s;
    assert(0 <= r < s);
    assert(i * s < len && (i < q - 1 ==> i * s + s < len) && (i == q - 1 ==> i * s + s >= len))
        by (nonlinear_arith)
        requires
            x == s * q + r,
            0 <= r < s,
            x == len + s - 1,
            0 <= i < q,
            s > 0,
    ;
}

/// The chunk table of an image of `len` bytes has `len / chunk_size` chunks,
/// rounded up; the chunks are contiguous and their sizes add up to `len`;
/// each but the last has `chunk_size` bytes, and the last has
/// `len % chunk_size` bytes, or `chunk_size` where that is 0; each chunk's
/// hash is the hash of the image's bytes from its offset to its end.
pub proof fn lemma_chunk_table_shape(image: Seq<u8>, chunk_size: nat)
    requires
        0 < chunk_size <= u32::MAX,
        image.len() <= u64::MAX,
    ensures
        chunk_table(image, chunk_size).len() == chunk_count(image.len(), chunk_size),
        image.len() % chunk_size == 0 ==> chunk_count(image.len(), chunk_size) == image.len()
            / chunk_size,
        image.len() % chunk_size != 0 ==> chunk_count(image.len(), chunk_size) == image.len()
            / chunk_size + 1,
        contiguous(chunk_table(image, chunk_size)),
        total_size(chunk_table(image, chunk_size)) == image.len(),
        forall|i: int|
            0 <= i < chunk_table(image, chunk_size).len() - 1 ==> (#[trigger] chunk_table(
                image,
                chunk_size,
            )[i]).size == chunk_size,
        image.len() > 0 ==> chunk_table(image, chunk_size).len() > 0 && chunk_table(
            image,
            chunk_size,
        ).last().size == if image.len() % chunk_size == 0 {
            chunk_size
        } else {
            image.len() % chunk_size
        },
        forall|i: int|
            0 <= i < chunk_table(image, chunk_size).len() ==> (#[trigger] chunk_table(
                image,
                chunk_size,
            )[i]).hash == xxh3_64(
                image.subrange(
                    chunk_table(image, chunk_size)[i].offset as int,
                    chunk_table(image, chunk_size)[i].offset + chunk_table(
                        image,
                        chunk_size,
                    )[i].size,
                ),
            ),
{
    let len = image.len();
    let s = chunk_size as int;
    let n = chunk_count(len, chunk_size) as int;
    let table = chunk_table(image, chunk_size);
    let x = len + s - 1;
    vstd::arithmetic::div_mod::lemma_fundamental_div_mod(x, s);
    vstd::arithmetic::div_mod::lemma_fundamental_div_mod(len as int, s);
    let q = len as int / s;
    let r = len as int % s;
    assert(0 <= r < s);
    assert(0 <= x % s < s);
    // The number of chunks, from the image's length.
    if r == 0 {
        vstd::arithmetic::div_mod::lemma_fundamental_div_mod_converse(x, s, q, s - 1);
    } else {
        assert(x == (q + 1) * s + (r - 1)) by (nonlinear_arith)
            requires
                len == s * q + r,
                x == len + s - 1,
        ;
        vstd::arithmetic::div_mod::lemma_fundamental_div_mod_converse(x, s, q + 1, r - 1);
    }
    assert(n * s == if r == 0 { len as int } else { len - r + s }) by (nonlinear_arith)
        requires
            len == s * q + r,
            n == if r == 0 { q } else { q + 1 },
    ;
    // Each row, from its place.
    assert forall|i: int| 0 <= i < n implies {
        &&& (#[trigger] table[i]).offset == i * s
        &&& table[i].offset + table[i].size == chunk_end(len, chunk_size, i)
        &&& i < n - 1 ==> table[i].size == s
        &&& i == n - 1 ==> table[i].offset + table[i].size == len
        &&& table[i].hash == xxh3_64(
            image.subrange(table[i].offset as int, table[i].offset + table[i].size),
        )
    } by {
        lemma_chunk_bounds(len, chunk_size, i);
        assert(0 <= i * s) by (nonlinear_arith)
            requires
                0 <= i,
                0 < s,
        ;
    }
    assert forall|i: int| 0 <= i < n - 1 implies (#[trigger] table[i]).offset + table[i].size
        == table[i + 1].offset by {
        assert(table[i + 1].offset == (i + 1) * s);
        assert((i + 1) * s == i * s + s) by (nonlinear_arith);
    }
    if n > 0 {
        assert(table[0].offset == 0);
        assert(table.last() == table[n - 1]);
        assert((n - 1) * s == n * s - s) by (nonlinear_arith);
        lemma_offsets_are_sums(table, n);
    } else {
        assert(len == 0) by (nonlinear_arith)
            requires
                n == 0,
                n * s == if r == 0 { len as int } else { len - r + s },
                0 <= r < s,
        ;
    }
}

impl ImageMetadata {
    /// The table's wire form, as the server hands it to each client.
    pub fn encode(&self) -> (bytes: Vec<u8>)
        ensures
            bytes@ == image_metadata_wire(rows_of(self.chunks@)),
    {
        let mut rows: Vec<(u64, u32, u64)> = Vec::new();
        let mut i: usize = 0;
        while i < self.chunks.len()
            invariant
                i <= self.chunks@.len(),
                rows@ == rows_of(self.chunks@.take(i as int)),
            decreases self.chunks@.len() - i,
        {
            let c = self.chunks[i];
            rows.push((c.offset, c.size, c.hash));
            i += 1;
            assert(rows@ =~= rows_of(self.chunks@.take(i as int)));
        }
        assert(self.chunks@.take(i as int) =~= self.chunks@);
        rows_to_allocvec(&rows)
    }
}

/// Why bytes that came as a chunk table were not taken for one.
#[derive(Clone, Copy, Debug, PartialEq, Eq, Structural)]
pub enum MetadataError {
    /// The bytes are no chunk table.
    Decode(DecodeError),
    /// The rows do not describe chunks that lie one behind the other from
    /// offset 0 on, or there are more of them than 32-bit indices.
    NotContiguous,
}

/// The rows are those of a table that a client takes.
pub open spec fn rows_wf(rows: Seq<(u64, u32, u64)>) -> bool {
    contiguous(chunks_of(rows)) && rows.len() <= MAX_CHUNKS
}

/// Makes a chunk table of decoded rows and takes it only where it is well
/// formed.
pub fn accept_metadata(decoded: Result<Vec<(u64, u32, u64)>, DecodeError>) -> (r: Result<
    ImageMetadata,
    MetadataError,
>)
    ensures
        match r {
            Ok(m) => decoded matches Ok(rows) && rows_wf(rows@) && m.chunks@ == chunks_of(rows@)
                && m.wf(),
            Err(MetadataError::Decode(e)) => decoded == Err::<Vec<(u64, u32, u64)>, DecodeError>(e),
            Err(MetadataError::NotContiguous) => decoded matches Ok(rows) && !rows_wf(rows@),
        },
{
    match decoded {
        Ok(rows) => {
            let mut chunks: Vec<ChunkMetadata> = Vec::new();
            let mut i: usize = 0;
            while i < rows.len()
                invariant
                    i <= rows@.len(),
                    chunks@ == chunks_of(rows@.take(i as int)),
                decreases rows@.len() - i,
            {
                let row = rows[i];
                chunks.push(ChunkMetadata { offset: row.0, size: row.1, hash: row.2 });
                i += 1;
                assert(chunks@ =~= chunks_of(rows@.take(i as int)));
            }
            assert(rows@.take(i as int) =~= rows@);
            let m = ImageMetadata { chunks };
            if m.validate() {
                Ok(m)
            } else {
                Err(MetadataError::NotContiguous)
            }
        },
        Err(e) => Err(MetadataError::Decode(e)),
    }
}

/// Reads the bytes that a server sent as its chunk table. The bytes that
/// `encode` gave for a table that is well formed are read as that table.
pub fn read_metadata(bytes: &[u8]) -> (r: Result<ImageMetadata, MetadataError>)
    ensures
        match r {
            Ok(m) => image_metadata_decoding(bytes@) matches Ok(rows) && rows_wf(rows)
                && m.chunks@ == chunks_of(rows) && m.wf(),
            Err(MetadataError::Decode(e)) => image_metadata_decoding(bytes@) == Err::<
                Seq<(u64, u32, u64)>,
                DecodeError,
            >(e),
            Err(MetadataError::NotContiguous) => image_metadata_decoding(bytes@) matches Ok(rows)
                && !rows_wf(rows),
        },
        forall|rows: Seq<(u64, u32, u64)>|
            bytes@ == #[trigger] image_metadata_wire(rows) ==> if rows_wf(rows) {
                (r matches Ok(m) && m.chunks@ == chunks_of(rows))
            } else {
                r == Err::<ImageMetadata, MetadataError>(MetadataError::NotContiguous)
            },
{
    accept_metadata(rows_from_bytes(bytes))
}

} // verus!
