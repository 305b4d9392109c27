//! Bookkeeping of the staging belt that batches texture uploads: row
//! padding, chunk sizes, and which chunk each upload is written to.
use vstd::prelude::*;

verus! {

/// Bytes per row of an RGBA8 texture of `width` texels, padded to a
/// multiple of 256 as copies between buffers and textures require.
pub open spec fn padded_row(width: u32) -> int {
    align256(width * 4)
}

/// `n` rounded up to a multiple of 256.
pub open spec fn align256(n: int) -> int {
    ((n + 255) / 256) * 256
}

/// Padded bytes per row of an RGBA8 texture.
pub fn padded_bytes_per_row(width: u32) -> (r: u32)
    requires
        width * 4 + 255 <= u32::MAX,
    ensures
        r == padded_row(width),
{
    let n: u32 = width * 4 + 255;
    let r: u32 = n & !255u32;
    assert(r == (n / 256) * 256) by (bit_vector)
        requires
            r == n & !255u32,
    ;
    r
}

/// Staging bytes needed for an RGBA8 texture: padded rows times height.
pub fn staging_size(width: u32, height: u32) -> (r: u64)
    requires
        width * 4 + 255 <= u32::MAX,
        padded_row(width) * height <= u32::MAX,
    ensures
        r == padded_row(width) * height,
{
    let row = padded_bytes_per_row(width);
    (row * height) as u64
}

/// A staging chunk: its size and how much of it is written.
#[derive(Debug, Clone, Copy, PartialEq, Eq, Structural)]
pub struct StagingChunk {
    pub size: u64,
    pub offset: u64,
}

/// Where an upload goes: the chunk and the offset inside it, and whether
/// the chunk was created for it.
#[derive(Debug, Clone, Copy, PartialEq, Eq, Structural)]
pub struct StagingSlot {
    pub chunk: usize,
    pub offset: u64,
    pub new_chunk: bool,
}

/// Position of the first chunk with room for `required` more bytes.
pub open spec fn first_fit(chunks: Seq<StagingChunk>, required: u64) -> Option<int>
    decreases chunks.len(),
{
    if chunks.len() == 0 {
        None
    } else {
        match first_fit(chunks.drop_last(), required) {
            Some(i) => Some(i),
            None => if chunks.last().offset + required <= chunks.last().size {
                Some(chunks.len() - 1)
            } else {
                None
            },
        }
    }
}

/// Slot and chunks after reserving `required` bytes: in the first chunk
/// with room (whose written offset advances by `required`), else in a new
/// chunk of `max(required, chunk_size)` bytes appended at the end.
pub open spec fn reserve_outcome(chunks: Seq<StagingChunk>, chunk_size: u64, required: u64) -> (
    StagingSlot,
    Seq<StagingChunk>,
) {
    match first_fit(chunks, required) {
        Some(i) => (
            StagingSlot { chunk: i as usize, offset: chunks[i].offset, new_chunk: false },
            chunks.update(i, StagingChunk { size: chunks[i].size, offset: (chunks[i].offset + required) as u64 }),
        ),
        None => {
            let size = if required >= chunk_size { required } else { chunk_size };
            (
                StagingSlot { chunk: chunks.len() as usize, offset: 0, new_chunk: true },
                chunks.push(StagingChunk { size, offset: required }),
            )
        },
    }
}

/// Staging belt bookkeeping: chunk size (at least 256) and the chunks in
/// use.
pub struct StagingBelt {
    chunk_size: u64,
    chunks: Vec<StagingChunk>,
}

impl StagingBelt {
    /// The chunk size used for new chunks (at least `required`).
    pub closed spec fn chunk_bytes(&self) -> u64 {
        self.chunk_size
    }

    /// The chunks in use, in creation order.
    pub closed spec fn chunk_seq(&self) -> Seq<StagingChunk> {
        self.chunks@
    }

    /// The chunks in use, in creation order.
    pub fn chunks(&self) -> (c: &Vec<StagingChunk>)
        ensures
            c@ == self.chunk_seq(),
    {
        &self.chunks
    }

    /// A belt with no chunk; the chunk size is at least 256 bytes.
    pub fn new(chunk_size: u64) -> (b: Self)
        ensures
            b.chunk_bytes() == if chunk_size >= 256 { chunk_size } else { 256 },
            b.chunk_seq().len() == 0,
    {
        StagingBelt { chunk_size: if chunk_size >= 256 { chunk_size } else { 256 }, chunks: Vec::new() }
    }

    /// Reserve `required` bytes: in the first chunk with room, else in a new
    /// chunk of `max(required, chunk size)` bytes; the chunk's written
    /// offset advances by `required`.
    pub fn reserve(&mut self, required: u64) -> (slot: StagingSlot)
        requires
            forall|i: int| 0 <= i < old(self).chunk_seq().len() ==> #[trigger] old(self).chunk_seq()[i].offset
                <= old(self).chunk_seq()[i].size,
            forall|i: int| 0 <= i < old(self).chunk_seq().len() ==> #[trigger] old(self).chunk_seq()[i].offset
                + required <= u64::MAX,
        ensures
            final(self).chunk_bytes() == old(self).chunk_bytes(),
            forall|i: int| 0 <= i < final(self).chunk_seq().len() ==> #[trigger] final(self).chunk_seq()[i].offset
                <= final(self).chunk_seq()[i].size,
            (slot, final(self).chunk_seq()) == reserve_outcome(old(self).chunk_seq(), old(self).chunk_bytes(), required),
    {
        proof {
            assert forall|k: int| 0 <= k < self.chunks@.len() implies #[trigger] self.chunks@[k].offset
                <= self.chunks@[k].size by {
                assert(old(self).chunk_seq()[k] == self.chunks@[k]);
            }
        }
        let n = self.chunks.len();
        let mut i: usize = 0;
        while i < n
            invariant
                n == self.chunks@.len(),
                i <= n,
                self.chunks@ == old(self).chunks@,
                self.chunk_size == old(self).chunk_size,
                forall|k: int| 0 <= k < self.chunks@.len() ==> #[trigger] self.chunks@[k].offset <= self.chunks@[k].size,
                first_fit(self.chunks@.take(i as int), required) == None::<int>,
            decreases n - i,
        {
            let c = self.chunks[i];
            proof {
                assert(self.chunks@.take(i + 1).drop_last() =~= self.chunks@.take(i as int));
                assert(c.offset <= c.size);
            }
            if c.size - c.offset >= required {
                proof {
                    lemma_first_fit_prefix(self.chunks@, i as int, required);
                }
                self.chunks.set(i, StagingChunk { size: c.size, offset: c.offset + required });
                return StagingSlot { chunk: i, offset: c.offset, new_chunk: false };
            }
            i = i + 1;
        }
        proof {
            assert(self.chunks@.take(n as int) =~= self.chunks@);
        }
        let size = if required >= self.chunk_size { required } else { self.chunk_size };
        self.chunks.push(StagingChunk { size, offset: required });
        StagingSlot { chunk: n, offset: 0, new_chunk: true }
    }

    /// Reclaim all chunks (after the uploads were submitted).
    pub fn finish(&mut self)
        ensures
            final(self).chunk_bytes() == old(self).chunk_bytes(),
            final(self).chunk_seq().len() == 0,
    {
        self.chunks.clear();
    }
}

proof fn lemma_first_fit_found(chunks: Seq<StagingChunk>, required: u64)
    ensures
        match first_fit(chunks, required) {
            Some(i) => 0 <= i < chunks.len() && chunks[i].offset + required <= chunks[i].size,
            None => true,
        },
    decreases chunks.len(),
{
    if chunks.len() > 0 {
        lemma_first_fit_found(chunks.drop_last(), required);
    }
}

/// Chunk offsets never pass chunk sizes.
pub open spec fn offsets_within(chunks: Seq<StagingChunk>) -> bool {
    forall|i: int| 0 <= i < chunks.len() ==> #[trigger] chunks[i].offset <= chunks[i].size
}

/// A reservation lies inside its chunk, and two successive reservations
/// that land in the same chunk do not overlap: the second starts where the
/// first ends or later.
pub proof fn lemma_reservations_disjoint(chunks: Seq<StagingChunk>, chunk_size: u64, a: u64, b: u64)
    requires
        offsets_within(chunks),
        chunks.len() < usize::MAX,
        forall|i: int| 0 <= i < chunks.len() ==> #[trigger] chunks[i].offset + a <= u64::MAX,
    ensures
        ({
            let (s1, c1) = reserve_outcome(chunks, chunk_size, a);
            let (s2, c2) = reserve_outcome(c1, chunk_size, b);
            &&& (s1.chunk as int) < c1.len()
            &&& s1.offset + a <= c1[s1.chunk as int].size
            &&& offsets_within(c1)
            &&& (s1.chunk == s2.chunk ==> s1.offset + a <= s2.offset)
        }),
{
    let (s1, c1) = reserve_outcome(chunks, chunk_size, a);
    lemma_first_fit_found(chunks, a);
    lemma_first_fit_found(c1, b);
    match first_fit(chunks, a) {
        Some(i) => {
            assert(c1[i].offset == chunks[i].offset + a);
        },
        None => {
            assert(c1[chunks.len() as int].offset == a);
        },
    }
    assert(offsets_within(c1)) by {
        assert forall|k: int| 0 <= k < c1.len() implies #[trigger] c1[k].offset <= c1[k].size by {
            if k < chunks.len() {
                assert(chunks[k].offset <= chunks[k].size);
            }
        }
    }
}

proof fn lemma_first_fit_prefix(chunks: Seq<StagingChunk>, i: int, required: u64)
    requires
        0 <= i < chunks.len(),
        first_fit(chunks.take(i), required) == None::<int>,
        chunks[i].offset + required <= chunks[i].size,
    ensures
        first_fit(chunks, required) == Some(i),
    decreases chunks.len(),
{
    if chunks.len() - 1 > i {
        assert(chunks.drop_last().take(i) =~= chunks.take(i));
        lemma_first_fit_prefix(chunks.drop_last(), i, required);
    } else {
        assert(chunks.drop_last() =~= chunks.take(i));
    }
}

} // verus!
