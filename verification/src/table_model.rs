//! What the tables of a track say, and how they are written: the sizes of its
//! samples, the chunks that they lie in, and where the chunks are.
use crate::box_model::number;
use crate::sample_table::SampleEntry;
use vstd::prelude::*;

verus! {

/// Numbers in `width` bytes each, from number `k` on.
pub open spec fn words(list: Seq<int>, width: nat, k: int) -> Seq<u8>
    decreases list.len() - k,
{
    if k >= list.len() {
        seq![]
    } else {
        number(list[k], width) + words(list, width, k + 1)
    }
}

/// Whether the numbers are no larger than `most`.
pub open spec fn all_up_to(list: Seq<int>, most: int) -> bool {
    forall|i: int| 0 <= i < list.len() ==> 0 <= #[trigger] list[i] <= most
}

/// The content of a sample size box: four bytes of version and flags, a zero,
/// the number of samples, and the size of each.
pub open spec fn sizes_content(flags: Seq<u8>, sizes: Seq<int>) -> Seq<u8> {
    flags + number(0, 4) + number(sizes.len() as int, 4) + words(sizes, 4, 0)
}

/// The content of a sample size box whose samples have all the same size: that
/// size, and the number of samples.
pub open spec fn same_sizes_content(flags: Seq<u8>, size: int, count: int) -> Seq<u8> {
    flags + number(size, 4) + number(count, 4)
}

/// A run of chunks with the same number of samples: the number of its first
/// chunk, counted from 1, the number of samples in each chunk, and the number
/// of their description.
pub struct Run {
    pub first_chunk: int,
    pub samples: int,
    pub description: int,
}

pub open spec fn run_valid(run: Run) -> bool {
    &&& 0 <= run.first_chunk <= u32::MAX
    &&& 0 <= run.samples <= u32::MAX
}

/// The runs from number `k` on.
pub open spec fn runs_bytes(runs: Seq<Run>, k: int) -> Seq<u8>
    decreases runs.len() - k,
{
    if k >= runs.len() {
        seq![]
    } else {
        number(runs[k].first_chunk, 4) + number(runs[k].samples, 4) + number(
            runs[k].description,
            4,
        ) + runs_bytes(runs, k + 1)
    }
}

/// The content of a sample-to-chunk box.
pub open spec fn runs_content(flags: Seq<u8>, runs: Seq<Run>) -> Seq<u8> {
    flags + number(runs.len() as int, 4) + runs_bytes(runs, 0)
}

/// The content of a chunk offset box, with offsets in `width` bytes.
pub open spec fn offsets_content(flags: Seq<u8>, offsets: Seq<int>, width: nat) -> Seq<u8> {
    flags + number(offsets.len() as int, 4) + words(offsets, width, 0)
}

/// A chunk: where it is, and the sizes of its samples.
pub struct Chunk {
    pub offset: int,
    pub sizes: Seq<int>,
}

/// The offsets of the chunks.
pub open spec fn offsets_of_chunks(chunks: Seq<Chunk>) -> Seq<int> {
    Seq::new(chunks.len(), |c: int| chunks[c].offset)
}

/// The sizes of the samples of the chunks from number `c` on.
pub open spec fn sizes_of_chunks(chunks: Seq<Chunk>, c: int) -> Seq<int>
    decreases chunks.len() - c,
{
    if c >= chunks.len() {
        seq![]
    } else {
        chunks[c].sizes + sizes_of_chunks(chunks, c + 1)
    }
}

/// The sum of the numbers from `a` up to `b`.
pub open spec fn sum_between(s: Seq<int>, a: int, b: int) -> int
    decreases b - a,
{
    if a >= b {
        0
    } else {
        s[a] + sum_between(s, a + 1, b)
    }
}

impl Chunk {
    /// The samples of the chunk: each one starts where the one before it ends.
    pub open spec fn samples(self) -> Seq<SampleEntry> {
        Seq::new(
            self.sizes.len(),
            |j: int|
                SampleEntry {
                    file_offset: (self.offset + sum_between(self.sizes, 0, j)) as u64,
                    size: self.sizes[j] as u32,
                },
        )
    }

    pub open spec fn valid(self) -> bool {
        &&& 0 <= self.offset
        &&& all_up_to(self.sizes, u32::MAX as int)
        &&& self.offset + sum_between(self.sizes, 0, self.sizes.len() as int) <= u64::MAX
    }
}

/// The samples of the chunks from number `c` on.
pub open spec fn samples_of_chunks(chunks: Seq<Chunk>, c: int) -> Seq<SampleEntry>
    decreases chunks.len() - c,
{
    if c >= chunks.len() {
        seq![]
    } else {
        chunks[c].samples() + samples_of_chunks(chunks, c + 1)
    }
}

/// Whether the run number `i` is the one that the chunk belongs to, which is
/// counted from 1: it has begun, and the next one has not.
pub open spec fn run_covers(runs: Seq<Run>, i: int, chunk: int) -> bool {
    &&& 0 <= i < runs.len()
    &&& runs[i].first_chunk <= chunk
    &&& i + 1 < runs.len() ==> chunk < runs[i + 1].first_chunk
}

/// Whether the runs come in the order of their chunks.
pub open spec fn runs_in_order(runs: Seq<Run>) -> bool {
    forall|i: int, j: int|
        0 <= i < j < runs.len() ==> (#[trigger] runs[i]).first_chunk < (
        #[trigger] runs[j]).first_chunk
}

/// Whether the runs give each chunk its number of samples. A chunk may have
/// fewer than its run says only where no sample comes behind it.
pub open spec fn runs_fit(runs: Seq<Run>, chunks: Seq<Chunk>) -> bool {
    &&& runs_in_order(runs)
    &&& forall|i: int| 0 <= i < runs.len() ==> run_valid(#[trigger] runs[i])
    &&& forall|c: int|
        0 <= c < chunks.len() ==> exists|i: int| #[trigger]
            run_covers(runs, i, c + 1) && fills(runs[i], #[trigger] chunks[c], chunks, c)
}

/// Whether a chunk has the samples of its run, or fewer as the last samples.
pub open spec fn fills(run: Run, chunk: Chunk, chunks: Seq<Chunk>, c: int) -> bool {
    ||| chunk.sizes.len() == run.samples
    ||| chunk.sizes.len() < run.samples && sizes_of_chunks(chunks, c + 1).len() == 0
}

} // verus!
