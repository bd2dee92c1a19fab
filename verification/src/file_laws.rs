//! What becomes of a file as a whole: its gains are those that a gain applied
//! in memory would leave, and the record behind them disturbs no later search.
use crate::analysis::{
    entry_gains, gains_of, lemma_gains_read, nothing_found, survey_from, surveyed, SurveyView,
};
use crate::audio_config::audio_rate;
use crate::error::FaultView;
use crate::file_agreement::{as_file_result, lemma_searches_agree, self_contained};
use crate::file_analysis::{
    box_in_file, file_gains, gains_from_samples, head_of, prefix_of, scan_step, ScanStep,
};
use crate::file_patch::{count_range, patch_range};
use crate::file_patch_laws::lemma_patch_is_shift;
use crate::gain::{changed_first, gain_applied};
use crate::mp4::{
    accepted_brand, be32, brand_offset, header_at, least, looks_like_mp4, top_level_box, MOOV,
};
use crate::reanalysis::{has_samples_apart, lemma_gains_separate};
use crate::sample_table::{sample_table, SampleEntry};
use vstd::prelude::*;

verus! {

/// Patching the gains that were found through a file leaves the bytes that a
/// gain applied in memory gives, and changes as many gains. This is so where
/// the movie box says how long it is and leads nowhere else, no two samples
/// have a byte in common, and no position fails to fit in memory.
pub proof fn lemma_file_is_memory(file: Seq<u8>, steps: int)
    requires
        steps != 0,
        file.len() <= u64::MAX,
        box_in_file(file, 0, MOOV) matches Ok(Some(movie)) && (top_level_box(file, 0, MOOV) matches
            Ok(Some((p, header))) && header.size != 0 && self_contained(file, p, movie)),
        has_samples_apart(file),
        gains_of(file) is Ok,
    ensures
        file_gains(file) matches Ok(locs) && gain_applied(file, steps) == Ok::<_, FaultView>(
            patch_range(file, 0, locs, 0, locs.len() as int, steps),
        ) && changed_first(file, locs, locs.len() as int, steps) == count_range(
            locs,
            0,
            locs.len() as int,
            steps,
        ),
{
    lemma_searches_agree(file);
    lemma_gains_separate(file);
    lemma_gains_read(file);
    let locs = gains_of(file)->Ok_0;
    assert(file_gains(file) == as_file_result(gains_of(file)));
    lemma_patch_is_shift(file, locs, locs.len() as int, steps);
}

/// Whether a search through a file finds a box of the type whose size is
/// written in its head.
pub open spec fn finds_sized_box(file: Seq<u8>, pos: int, box_type: u32) -> bool
    decreases file.len() - pos,
    when 0 <= pos <= file.len() && file.len() <= u64::MAX
{
    match scan_step(head_of(file, pos), pos, file.len() as int, box_type) {
        Ok(ScanStep::Skip { next }) => finds_sized_box(file, next as int, box_type),
        Ok(ScanStep::Read { size, normalize }) => !normalize,
        _ => false,
    }
}

/// A box whose size is written in its head is found just as well in a file
/// that has become longer.
pub proof fn lemma_box_behind_which_more_follows(
    file: Seq<u8>,
    more: Seq<u8>,
    pos: int,
    box_type: u32,
)
    requires
        0 <= pos <= file.len(),
        file.len() + more.len() <= u64::MAX,
        finds_sized_box(file, pos, box_type),
    ensures
        box_in_file(file + more, pos, box_type) == box_in_file(file, pos, box_type),
        box_in_file(file, pos, box_type) matches Ok(Some(_)),
    decreases file.len() - pos,
{
    let longer = file + more;
    assert(header_at(head_of(file, pos), 0) == header_at(head_of(longer, pos), 0));
    match scan_step(head_of(file, pos), pos, file.len() as int, box_type) {
        Ok(ScanStep::Skip { next }) => {
            lemma_box_behind_which_more_follows(file, more, next as int, box_type);
            assert(finds_sized_box(file, next as int, box_type));
            assert(next < file.len());
        },
        Ok(ScanStep::Read { size, normalize }) => {
            assert(longer.subrange(pos, pos + size) =~= file.subrange(pos, pos + size));
        },
        _ => {},
    }
}

/// Whether all samples lie in a file of the given length.
pub open spec fn samples_lie_in(entries: Seq<SampleEntry>, file_len: int) -> bool {
    forall|i: int|
        0 <= i < entries.len() ==> (#[trigger] entries[i]).file_offset + entries[i].size
            <= file_len
}

/// Samples that lie in a file are searched just as well in a file that has
/// become longer.
proof fn lemma_survey_of_longer(
    file: Seq<u8>,
    more: Seq<u8>,
    entries: Seq<SampleEntry>,
    index: int,
    rate: u32,
    survey: SurveyView,
)
    requires
        0 <= index,
        samples_lie_in(entries, file.len() as int),
    ensures
        survey_from(false, file + more, entries, index, rate, survey) == survey_from(
            false,
            file,
            entries,
            index,
            rate,
            survey,
        ),
    decreases entries.len() - index,
{
    if index < entries.len() {
        let entry = entries[index];
        let end = entry.file_offset + entry.size;
        assert((file + more).subrange(entry.file_offset as int, end) =~= file.subrange(
            entry.file_offset as int,
            end,
        ));
        if let Ok(gains) = entry_gains(false, file, entry, index, rate) {
            lemma_survey_of_longer(file, more, entries, index + 1, rate, surveyed(survey, gains));
        }
    }
}

/// A file that starts with an accepted file type still does when it has become
/// longer.
proof fn lemma_prefix_of_longer(file: Seq<u8>, more: Seq<u8>)
    requires
        looks_like_mp4(prefix_of(file)),
    ensures
        looks_like_mp4(prefix_of(file + more)),
{
    let p1 = prefix_of(file);
    let p2 = prefix_of(file + more);
    assert(be32(p1, 0) == be32(p2, 0));
    assert(be32(p1, 4) == be32(p2, 4));
    let i = choose|i: int|
        {
            &&& #[trigger] brand_offset(i)
            &&& i + 4 <= least(be32(p1, 0), least(p1.len() as int, 128))
            &&& accepted_brand(p1.subrange(i, i + 4))
        };
    assert(p1.subrange(i, i + 4) =~= p2.subrange(i, i + 4));
    assert(brand_offset(i));
}

/// A record appended to a file leaves the gains of the file where they are.
/// This is so where the movie box says how long it is and all samples that it
/// describes lie in the file.
pub proof fn lemma_record_disturbs_nothing(file: Seq<u8>, record: Seq<u8>)
    requires
        file.len() + record.len() <= u64::MAX,
        looks_like_mp4(prefix_of(file)),
        finds_sized_box(file, 0, MOOV),
        box_in_file(file, 0, MOOV) matches Ok(Some(movie)) && (sample_table(movie) matches Ok(
            (entries, _),
        ) ==> samples_lie_in(entries, file.len() as int)),
    ensures
        file_gains(file + record) == file_gains(file),
{
    reveal(gains_from_samples);
    lemma_prefix_of_longer(file, record);
    lemma_box_behind_which_more_follows(file, record, 0, MOOV);
    let movie = box_in_file(file, 0, MOOV)->Ok_0->0;
    if let Ok((entries, stsd_pos)) = sample_table(movie) {
        if let Ok(rate) = audio_rate(movie, stsd_pos) {
            lemma_survey_of_longer(file, record, entries, 0, rate, nothing_found());
        }
    }
}

} // verus!
