//! Patching a file chunk by chunk does what shifting its gains in memory does.
use crate::analysis::gains_read;
use crate::bits::{bit, bits_value, lemma_with_u8_at};
use crate::file_patch::{
    changes, chunk_extent, chunk_from, chunk_holds, chunk_limit, count_range, field_end,
    first_change, in_order, lemma_chunk_from, lemma_first_change, patch_one, patch_range, within,
    PatchChunk,
};
use crate::gain::{changed_first, fits, gain_in, new_gain, shift_first};
use crate::gain_laws::{lemma_shift_first_gains, separate};
use crate::location::AacGainLocation;
use vstd::prelude::*;

verus! {

/// A file with the bytes from `start` on replaced by `bytes`.
pub open spec fn overwritten(file: Seq<u8>, start: int, bytes: Seq<u8>) -> Seq<u8> {
    file.subrange(0, start) + bytes + file.subrange(start + bytes.len(), file.len() as int)
}

/// The file with one chunk of it read, patched and written back.
pub open spec fn chunk_patched(
    file: Seq<u8>,
    locs: Seq<AacGainLocation>,
    chunk: PatchChunk,
    steps: int,
) -> Seq<u8> {
    let start = chunk.start as int;
    overwritten(
        file,
        start,
        patch_range(
            file.subrange(start, start + chunk.len),
            start,
            locs,
            chunk.first as int,
            chunk.end as int,
            steps,
        ),
    )
}

/// Whether every field that changes lies in a file of the given length.
pub open spec fn changes_fit(locs: Seq<AacGainLocation>, file_len: int, steps: int) -> bool {
    forall|k: int|
        0 <= k < locs.len() && changes(#[trigger] locs[k], steps) ==> within(locs[k], 0, file_len)
}

/// A field written into a part of a file is written into the file.
proof fn lemma_patch_one_part(
    file: Seq<u8>,
    start: int,
    bytes: Seq<u8>,
    loc: AacGainLocation,
    steps: int,
)
    requires
        0 <= start,
        start + bytes.len() <= file.len(),
        changes(loc, steps) ==> within(loc, start, bytes.len() as int),
    ensures
        overwritten(file, start, patch_one(bytes, start, loc, steps)) == patch_one(
            overwritten(file, start, bytes),
            0,
            loc,
            steps,
        ),
        patch_one(bytes, start, loc, steps).len() == bytes.len(),
{
    if changes(loc, steps) {
        let p = loc.file_bit();
        assert((p - 8 * start) / 8 == p / 8 - start);
        assert((p - 8 * start) % 8 == p % 8);
        assert(p / 8 == loc.file_offset);
        assert(overwritten(file, start, patch_one(bytes, start, loc, steps)) =~= patch_one(
            overwritten(file, start, bytes),
            0,
            loc,
            steps,
        ));
    }
}

/// Patching a part of a file patches the file.
proof fn lemma_patch_part(
    file: Seq<u8>,
    start: int,
    len: int,
    locs: Seq<AacGainLocation>,
    i: int,
    j: int,
    steps: int,
)
    requires
        0 <= start,
        0 <= len,
        start + len <= file.len(),
        0 <= i <= j <= locs.len(),
        forall|k: int|
            i <= k < j && changes(#[trigger] locs[k], steps) ==> within(locs[k], start, len),
    ensures
        overwritten(
            file,
            start,
            patch_range(file.subrange(start, start + len), start, locs, i, j, steps),
        ) == patch_range(file, 0, locs, i, j, steps),
        patch_range(file.subrange(start, start + len), start, locs, i, j, steps).len() == len,
    decreases j - i,
{
    let part = file.subrange(start, start + len);
    if i < j {
        lemma_patch_part(file, start, len, locs, i, j - 1, steps);
        lemma_patch_one_part(
            file,
            start,
            patch_range(part, start, locs, i, j - 1, steps),
            locs[j - 1],
            steps,
        );
    } else {
        assert(overwritten(file, start, part) =~= file);
    }
}

/// Patching fields in two runs does what patching them in one run does.
proof fn lemma_patch_runs(
    data: Seq<u8>,
    locs: Seq<AacGainLocation>,
    i: int,
    j: int,
    k: int,
    steps: int,
)
    requires
        i <= j <= k,
    ensures
        patch_range(patch_range(data, 0, locs, i, j, steps), 0, locs, j, k, steps) == patch_range(
            data,
            0,
            locs,
            i,
            k,
            steps,
        ),
        count_range(locs, i, j, steps) + count_range(locs, j, k, steps) == count_range(
            locs,
            i,
            k,
            steps,
        ),
    decreases k - j,
{
    if j < k {
        lemma_patch_runs(data, locs, i, j, k - 1, steps);
    }
}

/// Fields that do not change need no patching.
proof fn lemma_patch_nothing(
    data: Seq<u8>,
    locs: Seq<AacGainLocation>,
    i: int,
    j: int,
    steps: int,
)
    requires
        0 <= i <= j <= locs.len(),
        forall|k: int| i <= k < j ==> !changes(#[trigger] locs[k], steps),
    ensures
        patch_range(data, 0, locs, i, j, steps) == data,
        count_range(locs, i, j, steps) == 0,
    decreases j - i,
{
    if i < j {
        lemma_patch_nothing(data, locs, i, j - 1, steps);
    }
}

/// Patching keeps the length of a file.
proof fn lemma_patch_len(data: Seq<u8>, locs: Seq<AacGainLocation>, j: int, steps: int)
    requires
        changes_fit(locs, data.len() as int, steps),
        j <= locs.len(),
    ensures
        patch_range(data, 0, locs, 0, j, steps).len() == data.len(),
    decreases j,
{
    if j > 0 {
        lemma_patch_len(data, locs, j - 1, steps);
        if changes(locs[j - 1], steps) {
            assert(within(locs[j - 1], 0, data.len() as int));
        }
    }
}

/// One step of patching a file chunk by chunk. If the fields before `idx` are
/// done, then either no field is left that changes and the whole file is
/// patched, or patching the next chunk does the fields up to its end, and as
/// many more gains have changed as the patching of the chunk counts.
pub proof fn lemma_patch_step(
    file: Seq<u8>,
    locs: Seq<AacGainLocation>,
    idx: int,
    steps: int,
)
    requires
        0 <= idx <= locs.len() <= usize::MAX,
        file.len() <= u64::MAX,
        in_order(locs),
        changes_fit(locs, file.len() as int, steps),
        forall|k: int| 0 <= k < locs.len() ==> field_end(#[trigger] locs[k]) <= u64::MAX,
    ensures
        match chunk_from(locs, idx, steps) {
            None => {
                &&& patch_range(file, 0, locs, 0, idx, steps) == patch_range(
                    file,
                    0,
                    locs,
                    0,
                    locs.len() as int,
                    steps,
                )
                &&& count_range(locs, 0, idx, steps) == count_range(
                    locs,
                    0,
                    locs.len() as int,
                    steps,
                )
            },
            Some(chunk) => {
                &&& idx < chunk.end <= locs.len()
                &&& chunk.start + chunk.len <= file.len()
                &&& chunk_patched(patch_range(file, 0, locs, 0, idx, steps), locs, chunk, steps)
                    == patch_range(file, 0, locs, 0, chunk.end as int, steps)
                &&& count_range(locs, 0, idx, steps) + count_range(
                    locs,
                    chunk.first as int,
                    chunk.end as int,
                    steps,
                ) == count_range(locs, 0, chunk.end as int, steps)
            },
        },
{
    let now = patch_range(file, 0, locs, 0, idx, steps);
    let first = first_change(locs, idx, steps);
    lemma_first_change(locs, idx, steps);
    lemma_patch_runs(file, locs, 0, idx, first, steps);
    lemma_patch_nothing(now, locs, idx, first, steps);
    lemma_patch_len(file, locs, idx, steps);
    lemma_chunk_from(locs, idx, steps);
    if let Some(chunk) = chunk_from(locs, idx, steps) {
        let start = chunk.start as int;
        assert(chunk_holds(locs, chunk, steps));
        lemma_chunk_in_file(locs, idx, file.len() as int, steps);
        assert forall|k: int|
            chunk.first <= k < chunk.end && changes(#[trigger] locs[k], steps) implies within(
            locs[k],
            start,
            chunk.len as int,
        ) by {
            assert(within(locs[k], 0, file.len() as int));
        }
        lemma_patch_part(
            now,
            start,
            chunk.len as int,
            locs,
            chunk.first as int,
            chunk.end as int,
            steps,
        );
        lemma_patch_runs(file, locs, 0, first, chunk.end as int, steps);
    }
}

/// Whether fields can be patched chunk by chunk: they come in order, and none
/// ends behind the last position that can be held.
pub open spec fn patchable(locs: Seq<AacGainLocation>) -> bool {
    &&& locs.len() <= usize::MAX
    &&& in_order(locs)
    &&& forall|k: int| 0 <= k < locs.len() ==> field_end(#[trigger] locs[k]) <= u64::MAX
}

/// A file, and the number of gains that have changed, after all chunks from
/// the field number `idx` on were read, patched and written back.
pub open spec fn chunks_done(
    file: Seq<u8>,
    locs: Seq<AacGainLocation>,
    idx: int,
    steps: int,
) -> (Seq<u8>, int)
    decreases locs.len() - idx,
    when 0 <= idx <= locs.len() && patchable(locs)
{
    match chunk_from(locs, idx, steps) {
        None => (file, 0),
        Some(chunk) => {
            proof {
                lemma_chunk_from(locs, idx, steps);
                lemma_first_change(locs, idx, steps);
            }
            let (out, n) = chunks_done(
                chunk_patched(file, locs, chunk, steps),
                locs,
                chunk.end as int,
                steps,
            );
            (out, n + count_range(locs, chunk.first as int, chunk.end as int, steps))
        },
    }
}

/// Patching a file chunk by chunk patches all its fields, and counts every
/// gain that changes.
pub proof fn lemma_chunks_done(
    file: Seq<u8>,
    locs: Seq<AacGainLocation>,
    idx: int,
    steps: int,
)
    requires
        0 <= idx <= locs.len(),
        file.len() <= u64::MAX,
        patchable(locs),
        changes_fit(locs, file.len() as int, steps),
    ensures
        chunks_done(patch_range(file, 0, locs, 0, idx, steps), locs, idx, steps) == (
            patch_range(file, 0, locs, 0, locs.len() as int, steps),
            count_range(locs, 0, locs.len() as int, steps) - count_range(locs, 0, idx, steps),
        ),
    decreases locs.len() - idx,
{
    lemma_patch_step(file, locs, idx, steps);
    if let Some(chunk) = chunk_from(locs, idx, steps) {
        lemma_chunks_done(file, locs, chunk.end as int, steps);
    }
}

/// A chunk ends where a field that changes ends.
proof fn lemma_extent_tight(
    locs: Seq<AacGainLocation>,
    i: int,
    start: int,
    limit: int,
    end: int,
    steps: int,
    bound: int,
)
    requires
        0 <= i <= locs.len(),
        end <= bound,
        forall|k: int|
            0 <= k < locs.len() && changes(#[trigger] locs[k], steps) ==> field_end(locs[k])
                <= bound,
    ensures
        chunk_extent(locs, i, start, limit, end, steps).1 <= bound,
    decreases locs.len() - i,
{
    if i < locs.len() {
        let next = if changes(locs[i], steps) && field_end(locs[i]) > end {
            field_end(locs[i])
        } else {
            end
        };
        lemma_extent_tight(locs, i + 1, start, limit, next, steps, bound);
    }
}

/// A chunk lies in the file.
proof fn lemma_chunk_in_file(locs: Seq<AacGainLocation>, idx: int, file_len: int, steps: int)
    requires
        0 <= idx <= locs.len() <= usize::MAX,
        in_order(locs),
        changes_fit(locs, file_len, steps),
        forall|k: int| 0 <= k < locs.len() ==> field_end(#[trigger] locs[k]) <= u64::MAX,
    ensures
        chunk_from(locs, idx, steps) matches Some(chunk) ==> chunk.start + chunk.len <= file_len,
{
    lemma_first_change(locs, idx, steps);
    lemma_chunk_from(locs, idx, steps);
    let first = first_change(locs, idx, steps);
    if first < locs.len() {
        let start = locs[first].file_offset as int;
        let limit = chunk_limit(start);
        assert(within(locs[first], 0, file_len));
        assert forall|k: int|
            0 <= k < locs.len() && changes(#[trigger] locs[k], steps) implies field_end(locs[k])
            <= file_len by {
            assert(within(locs[k], 0, file_len));
        }
        lemma_extent_tight(locs, first, start, limit, start, steps, file_len);
    }
}

/// Patching the gains that were found in a file does what shifting the gains
/// in memory does, and counts as many changes, where no two fields have a bit
/// in common.
pub proof fn lemma_patch_is_shift(
    data: Seq<u8>,
    locs: Seq<AacGainLocation>,
    n: int,
    steps: int,
)
    requires
        gains_read(data, locs),
        separate(locs),
        0 <= n <= locs.len(),
    ensures
        patch_range(data, 0, locs, 0, n, steps) == shift_first(data, locs, n, steps),
        count_range(locs, 0, n, steps) == changed_first(data, locs, n, steps),
    decreases n,
{
    if n > 0 {
        assert forall|k: int| 0 <= k < locs.len() implies fits(data, #[trigger] locs[k]) by {}
        lemma_patch_is_shift(data, locs, n - 1, steps);
        lemma_shift_first_gains(data, locs, n - 1, steps);
        assert(gain_in(data, locs[n - 1]) == locs[n - 1].original_gain);
    }
}

/// A patch writes the gain that was found in a field, moved by the steps, but
/// not below 0 and not above 255, and not where it was 0. Where that is the gain
/// that was found, it writes nothing; and it changes no bit of any other field.
pub proof fn lemma_patch_moves_found_gain(
    data: Seq<u8>,
    start: int,
    loc: AacGainLocation,
    steps: int,
)
    requires
        0 <= start,
        within(loc, start, data.len() as int),
    ensures
        ({
            let out = patch_one(data, start, loc, steps);
            let pos = loc.file_bit() - 8 * start;
            let gain = loc.original_gain as int;
            let moved = bits_value(out, pos, 8) as int;
            &&& gain == 0 || steps == 0 ==> out == data
            &&& gain == 255 && steps > 0 ==> out == data
            &&& gain != 0 && gain + steps <= 0 ==> moved == 0
            &&& 0 < gain < 255 && gain + steps >= 255 ==> moved == 255
            &&& gain != 0 && steps != 0 && 0 <= gain + steps <= 255 ==> moved == gain + steps
            &&& out.len() == data.len()
            &&& forall|b: int|
                0 <= b < 8 * data.len() && !(pos <= b < pos + 8) ==> #[trigger] bit(out, b) == bit(
                    data,
                    b,
                )
        }),
{
    if changes(loc, steps) {
        let pos = loc.file_bit() - 8 * start;
        lemma_with_u8_at(data, pos, new_gain(loc.original_gain as int, steps) as u8);
    }
}

} // verus!
