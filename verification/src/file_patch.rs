//! The rewriting of the gains of a file, chunk by chunk.
use crate::bits::{adjust_gain_value, with_u8_at, write_bits_u8};
use crate::gain::new_gain;
use crate::location::AacGainLocation;
use vstd::prelude::*;

verus! {

/// The most bytes that are held in memory at a time.
pub const PATCH_CHUNK_SIZE: u64 = 0x10_0000;

/// Everything that is to be rewritten in a file.
#[derive(Debug, PartialEq, Eq)]
pub struct AacGainPlan {
    pub locations: Vec<AacGainLocation>,
}

/// A run of bytes to read, patch and write back: the `len` bytes from `start`
/// on, which hold the fields from number `first` up to `end` that change.
#[derive(Debug, Clone, Copy, PartialEq, Eq)]
pub struct PatchChunk {
    pub first: usize,
    pub end: usize,
    pub start: u64,
    pub len: usize,
}

/// Whether the fields come in the order of the bytes that they start in.
pub open spec fn in_order(locs: Seq<AacGainLocation>) -> bool {
    forall|j: int, k: int|
        0 <= j < k < locs.len() ==> (#[trigger] locs[j]).file_offset <= (
        #[trigger] locs[k]).file_offset
}

/// Whether the fields come in the order of the bytes that they start in.
pub fn is_in_order(locations: &[AacGainLocation]) -> (b: bool)
    ensures
        b == in_order(locations@),
{
    let mut i: usize = 1;
    while i < locations.len()
        invariant
            1 <= i,
            i <= locations@.len() || locations@.len() == 0,
            forall|j: int, k: int|
                0 <= j < k < i && k < locations@.len() ==> (#[trigger] locations@[j]).file_offset
                    <= (#[trigger] locations@[k]).file_offset,
        decreases locations@.len() - i,
    {
        if locations[i - 1].file_offset > locations[i].file_offset {
            assert(locations@[i - 1].file_offset > locations@[i as int].file_offset);
            return false;
        }
        i = i + 1;
    }
    true
}

/// The number of bytes that hold bits of a field.
pub open spec fn field_len(loc: AacGainLocation) -> int {
    if loc.bit_offset == 0 {
        1
    } else {
        2
    }
}

/// The end of the bytes that hold bits of a field.
pub open spec fn field_end(loc: AacGainLocation) -> int {
    loc.file_offset + field_len(loc)
}

/// Whether a shift changes the gain that was found in a field.
pub open spec fn changes(loc: AacGainLocation, steps: int) -> bool {
    new_gain(loc.original_gain as int, steps) != loc.original_gain
}

/// Whether a shift changes the gain that was found in a field.
pub fn will_modify(loc: &AacGainLocation, gain_steps: i32) -> (b: bool)
    ensures
        b == changes(*loc, gain_steps as int),
{
    loc.original_gain != 0 && adjust_gain_value(loc.original_gain, gain_steps) != loc.original_gain
}

/// The first field from `i` on that changes, or the number of fields.
pub open spec fn first_change(locs: Seq<AacGainLocation>, i: int, steps: int) -> int
    decreases locs.len() - i,
{
    if i >= locs.len() || changes(locs[i], steps) {
        i
    } else {
        first_change(locs, i + 1, steps)
    }
}

/// Where a chunk ends, as a number of fields and as a position in the file,
/// when it has been found to hold the fields before `i` and to end at `end`. A
/// field that ends behind `limit` is left for the next chunk.
pub open spec fn chunk_extent(
    locs: Seq<AacGainLocation>,
    i: int,
    start: int,
    limit: int,
    end: int,
    steps: int,
) -> (int, int)
    decreases locs.len() - i,
{
    if i >= locs.len() || (field_end(locs[i]) > limit && end > start) {
        (i, end)
    } else if changes(locs[i], steps) && field_end(locs[i]) > end {
        chunk_extent(locs, i + 1, start, limit, field_end(locs[i]), steps)
    } else {
        chunk_extent(locs, i + 1, start, limit, end, steps)
    }
}

/// The last position that a chunk from `start` on can end at.
pub open spec fn chunk_limit(start: int) -> int {
    if start + PATCH_CHUNK_SIZE > u64::MAX {
        u64::MAX as int
    } else {
        start + PATCH_CHUNK_SIZE
    }
}

/// The next chunk to patch, when the fields before `idx` are done: it starts
/// at the first field that changes.
pub open spec fn chunk_from(locs: Seq<AacGainLocation>, idx: int, steps: int) -> Option<
    PatchChunk,
> {
    let first = first_change(locs, idx, steps);
    if first >= locs.len() {
        None
    } else {
        let start = locs[first].file_offset as int;
        let (end_idx, end) = chunk_extent(locs, first, start, chunk_limit(start), start, steps);
        Some(
            PatchChunk {
                first: first as usize,
                end: end_idx as usize,
                start: start as u64,
                len: (end - start) as usize,
            },
        )
    }
}

/// What holds of a chunk: it goes forward, and all its fields that change lie
/// in it.
pub open spec fn chunk_holds(locs: Seq<AacGainLocation>, chunk: PatchChunk, steps: int) -> bool {
    &&& chunk.first < chunk.end <= locs.len()
    &&& 0 < chunk.len <= PATCH_CHUNK_SIZE
    &&& forall|k: int|
        chunk.first <= k < chunk.end && changes(#[trigger] locs[k], steps) ==> chunk.start
            <= locs[k].file_offset && field_end(locs[k]) <= chunk.start + chunk.len
}

/// The fields before the first one that changes do not change.
pub proof fn lemma_first_change(locs: Seq<AacGainLocation>, i: int, steps: int)
    requires
        0 <= i <= locs.len(),
    ensures
        i <= first_change(locs, i, steps) <= locs.len(),
        first_change(locs, i, steps) < locs.len() ==> changes(
            locs[first_change(locs, i, steps)],
            steps,
        ),
        forall|k: int|
            i <= k < first_change(locs, i, steps) ==> !changes(#[trigger] locs[k], steps),
    decreases locs.len() - i,
{
    if i < locs.len() && !changes(locs[i], steps) {
        lemma_first_change(locs, i + 1, steps);
    }
}

/// A chunk goes forward, within the limit, and its fields that change lie
/// before its end.
proof fn lemma_chunk_extent(
    locs: Seq<AacGainLocation>,
    i: int,
    start: int,
    limit: int,
    end: int,
    steps: int,
)
    requires
        0 <= i <= locs.len(),
        start <= end <= limit,
        end == start ==> i < locs.len() && changes(locs[i], steps) && start < field_end(locs[i])
            <= limit,
    ensures
        ({
            let (j, e) = chunk_extent(locs, i, start, limit, end, steps);
            &&& i <= j <= locs.len()
            &&& end == start ==> i < j
            &&& end <= e <= limit
            &&& start < e
            &&& forall|k: int|
                i <= k < j && changes(#[trigger] locs[k], steps) ==> field_end(locs[k]) <= e
        }),
    decreases locs.len() - i,
{
    if i < locs.len() && !(field_end(locs[i]) > limit && end > start) {
        if changes(locs[i], steps) && field_end(locs[i]) > end {
            lemma_chunk_extent(locs, i + 1, start, limit, field_end(locs[i]), steps);
        } else {
            lemma_chunk_extent(locs, i + 1, start, limit, end, steps);
        }
    }
}

/// A chunk goes forward, no longer than the limit, and its fields that change
/// lie in it.
pub proof fn lemma_chunk_from(locs: Seq<AacGainLocation>, idx: int, steps: int)
    requires
        0 <= idx <= locs.len() <= usize::MAX,
        in_order(locs),
        forall|k: int| 0 <= k < locs.len() ==> field_end(#[trigger] locs[k]) <= u64::MAX,
    ensures
        chunk_from(locs, idx, steps) matches Some(chunk) ==> {
            &&& chunk.first == first_change(locs, idx, steps)
            &&& chunk.start == locs[chunk.first as int].file_offset
            &&& chunk.start + chunk.len == chunk_extent(
                locs,
                chunk.first as int,
                chunk.start as int,
                chunk_limit(chunk.start as int),
                chunk.start as int,
                steps,
            ).1
            &&& chunk_holds(locs, chunk, steps)
        },
{
    lemma_first_change(locs, idx, steps);
    let first = first_change(locs, idx, steps);
    if first < locs.len() {
        let start = locs[first].file_offset as int;
        lemma_chunk_extent(locs, first, start, chunk_limit(start), start, steps);
    }
}

/// Finds the next chunk to patch, when the fields before `idx` are done.
pub fn next_chunk(locations: &[AacGainLocation], idx: usize, gain_steps: i32) -> (r: Option<
    PatchChunk,
>)
    requires
        idx <= locations@.len(),
        in_order(locations@),
        forall|k: int|
            0 <= k < locations@.len() ==> field_end(#[trigger] locations@[k]) <= u64::MAX,
    ensures
        r == chunk_from(locations@, idx as int, gain_steps as int),
        r matches Some(chunk) ==> chunk_holds(locations@, chunk, gain_steps as int),
{
    let ghost steps = gain_steps as int;
    proof {
        assert(locations@.len() == locations.len());
        lemma_chunk_from(locations@, idx as int, steps);
    }
    let mut first: usize = idx;
    while first < locations.len() && !will_modify(&locations[first], gain_steps)
        invariant
            first <= locations@.len(),
            steps == gain_steps,
            first_change(locations@, idx as int, steps) == first_change(
                locations@,
                first as int,
                steps,
            ),
        decreases locations@.len() - first,
    {
        first = first + 1;
    }
    if first >= locations.len() {
        return None;
    }
    let start: u64 = locations[first].file_offset;
    let limit: u64 = if start > u64::MAX - PATCH_CHUNK_SIZE {
        u64::MAX
    } else {
        start + PATCH_CHUNK_SIZE
    };
    let mut end: u64 = start;
    let mut end_idx: usize = first;
    loop
        invariant
            first <= end_idx <= locations@.len(),
            start <= end,
            steps == gain_steps,
            forall|k: int|
                0 <= k < locations@.len() ==> field_end(#[trigger] locations@[k]) <= u64::MAX,
            chunk_extent(
                locations@,
                first as int,
                start as int,
                limit as int,
                start as int,
                steps,
            ) == chunk_extent(
                locations@,
                end_idx as int,
                start as int,
                limit as int,
                end as int,
                steps,
            ),
        ensures
            chunk_extent(
                locations@,
                first as int,
                start as int,
                limit as int,
                start as int,
                steps,
            ) == (end_idx as int, end as int),
        decreases locations@.len() - end_idx,
    {
        if end_idx >= locations.len() {
            break;
        }
        let loc = locations[end_idx];
        assert(field_end(locations@[end_idx as int]) <= u64::MAX);
        let loc_len: u64 = if loc.bit_offset == 0 {
            1
        } else {
            2
        };
        let loc_end: u64 = loc.file_offset + loc_len;
        if loc_end > limit && end > start {
            break;
        }
        if will_modify(&loc, gain_steps) && loc_end > end {
            end = loc_end;
        }
        end_idx = end_idx + 1;
    }
    Some(PatchChunk { first, end: end_idx, start, len: (end - start) as usize })
}

/// Bytes whose first one is the byte `start` of the file, after the gain found
/// in one field was shifted.
pub open spec fn patch_one(
    data: Seq<u8>,
    start: int,
    loc: AacGainLocation,
    steps: int,
) -> Seq<u8> {
    if changes(loc, steps) {
        with_u8_at(
            data,
            loc.file_bit() - 8 * start,
            new_gain(loc.original_gain as int, steps) as u8,
        )
    } else {
        data
    }
}

/// Bytes whose first one is the byte `start` of the file, after the gains
/// found in the fields from number `i` up to `j` were shifted.
pub open spec fn patch_range(
    data: Seq<u8>,
    start: int,
    locs: Seq<AacGainLocation>,
    i: int,
    j: int,
    steps: int,
) -> Seq<u8>
    decreases j - i,
{
    if j <= i {
        data
    } else {
        patch_one(patch_range(data, start, locs, i, j - 1, steps), start, locs[j - 1], steps)
    }
}

/// The number of the fields from number `i` up to `j` whose gain changes.
pub open spec fn count_range(locs: Seq<AacGainLocation>, i: int, j: int, steps: int) -> int
    decreases j - i,
{
    if j <= i {
        0
    } else {
        count_range(locs, i, j - 1, steps) + if changes(locs[j - 1], steps) {
            1int
        } else {
            0int
        }
    }
}

/// Whether the field lies in `len` bytes whose first one is the byte `start`
/// of the file.
pub open spec fn within(loc: AacGainLocation, start: int, len: int) -> bool {
    loc.bit_offset < 8 && start <= loc.file_offset && field_end(loc) <= start + len
}

/// Patches the bytes of a chunk. Gives the number of gains that change.
pub fn patch_chunk(
    buf: &mut [u8],
    locations: &[AacGainLocation],
    chunk: &PatchChunk,
    gain_steps: i32,
) -> (modified: usize)
    requires
        chunk.first <= chunk.end <= locations@.len(),
        forall|k: int|
            chunk.first <= k < chunk.end && changes(#[trigger] locations@[k], gain_steps as int)
                ==> within(locations@[k], chunk.start as int, old(buf)@.len() as int),
    ensures
        final(buf)@ == patch_range(
            old(buf)@,
            chunk.start as int,
            locations@,
            chunk.first as int,
            chunk.end as int,
            gain_steps as int,
        ),
        final(buf)@.len() == old(buf)@.len(),
        modified == count_range(
            locations@,
            chunk.first as int,
            chunk.end as int,
            gain_steps as int,
        ),
{
    let ghost steps = gain_steps as int;
    let mut modified: usize = 0;
    let mut i: usize = chunk.first;
    while i < chunk.end
        invariant
            chunk.first <= i <= chunk.end <= locations@.len(),
            steps == gain_steps,
            modified <= i - chunk.first,
            buf@.len() == old(buf)@.len(),
            forall|k: int|
                chunk.first <= k < chunk.end && changes(#[trigger] locations@[k], steps) ==> within(
                    locations@[k],
                    chunk.start as int,
                    old(buf)@.len() as int,
                ),
            buf@ == patch_range(
                old(buf)@,
                chunk.start as int,
                locations@,
                chunk.first as int,
                i as int,
                steps,
            ),
            modified == count_range(locations@, chunk.first as int, i as int, steps),
        decreases chunk.end - i,
    {
        let loc = locations[i];
        if will_modify(&loc, gain_steps) {
            assert(within(locations@[i as int], chunk.start as int, buf@.len() as int));
            let new_value: u8 = adjust_gain_value(loc.original_gain, gain_steps);
            assert(buf@.len() == buf.len());
            let offset: usize = (loc.file_offset - chunk.start) as usize;
            write_bits_u8(buf, offset, loc.bit_offset, new_value);
            modified = modified + 1;
        }
        i = i + 1;
    }
    modified
}

} // verus!
