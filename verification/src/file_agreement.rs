//! The search through a file of which only parts are held in memory finds what
//! the search through the whole file in memory finds.
use crate::analysis::{
    entry_gains, gains_of, nothing_found, survey_from, surveyed, SurveyView,
};
use crate::audio_config::audio_rate;
use crate::error::FaultView;
use crate::file_analysis::{
    box_in_file, file_fault, file_gains, gains_from_movie, gains_from_samples, head_of, prefix_of,
    scan_step, FileFaultView, ScanStep,
};
use crate::mp4::{
    accepted_brand, be32, brand_offset, header_at, least, lemma_top_level_box, looks_like_mp4,
    top_level_box, BoxHeader, MOOV,
};
use crate::relocation::{
    lemma_audio_rate_moved, lemma_audio_stbl_moved, lemma_stbl_samples_moved, out_of_range, tail,
};
use crate::sample_table::{content_range, lemma_movie_stbl, movie_stbl, sample_table, SampleEntry};
use vstd::prelude::*;

verus! {

/// The file type is found in the first bytes of a file.
pub proof fn lemma_prefix_decides(file: Seq<u8>)
    ensures
        looks_like_mp4(prefix_of(file)) == looks_like_mp4(file),
{
    let prefix = prefix_of(file);
    if file.len() >= 12 {
        assert(be32(prefix, 0) == be32(file, 0));
        assert(be32(prefix, 4) == be32(file, 4));
        let end = least(be32(file, 0), least(file.len() as int, 128));
        assert forall|i: int| #[trigger] brand_offset(i) && i + 4 <= end implies prefix.subrange(
            i,
            i + 4,
        ) == file.subrange(i, i + 4) by {
            assert(prefix.subrange(i, i + 4) =~= file.subrange(i, i + 4));
        }
        if looks_like_mp4(file) {
            let i = choose|i: int|
                {
                    &&& #[trigger] brand_offset(i)
                    &&& i + 4 <= end
                    &&& accepted_brand(file.subrange(i, i + 4))
                };
            assert(brand_offset(i));
            assert(accepted_brand(prefix.subrange(i, i + 4)));
        }
    }
}

/// The head of a box is found in the bytes that are read for it.
pub proof fn lemma_head_decides(file: Seq<u8>, pos: int)
    requires
        0 <= pos <= file.len(),
    ensures
        header_at(head_of(file, pos), 0) == header_at(file, pos),
{
}

/// The box that a search through the file finds is the one that a search in
/// memory finds.
pub proof fn lemma_scan_agrees(file: Seq<u8>, pos: int, box_type: u32)
    requires
        0 <= pos <= file.len(),
        file.len() <= u64::MAX,
    ensures
        match box_in_file(file, pos, box_type) {
            Err(_) => true,
            Ok(None) => top_level_box(file, pos, box_type) == Ok::<_, FaultView>(
                None::<(int, BoxHeader)>,
            ),
            Ok(Some(bytes)) => top_level_box(file, pos, box_type) matches Ok(Some((p, header)))
                && (header.size != 0 ==> header.header_size <= header.size && p + header.size
                <= file.len() && bytes == file.subrange(p, p + header.size)),
        },
    decreases file.len() - pos,
{
    lemma_head_decides(file, pos);
    if let Ok(ScanStep::Skip { next }) = scan_step(
        head_of(file, pos),
        pos,
        file.len() as int,
        box_type,
    ) {
        lemma_scan_agrees(file, next as int, box_type);
    }
}

/// Whether the tables that a movie box leads to lie in it: with the rest of
/// the file behind it, the box leads to the same samples and the same rate.
pub open spec fn self_contained(file: Seq<u8>, p: int, movie: Seq<u8>) -> bool {
    &&& sample_table(tail(file, p)) == sample_table(movie)
    &&& sample_table(movie) matches Ok((_, stsd_pos)) ==> audio_rate(tail(file, p), stsd_pos)
        == audio_rate(movie, stsd_pos)
}

/// In memory and through a file, a search through samples finds the same.
proof fn lemma_survey_agrees(
    data: Seq<u8>,
    entries: Seq<SampleEntry>,
    index: int,
    rate: u32,
    survey: SurveyView,
)
    ensures
        ({
            let whole = survey_from(true, data, entries, index, rate, survey);
            out_of_range(whole) || whole == survey_from(false, data, entries, index, rate, survey)
        }),
    decreases entries.len() - index,
{
    if index < entries.len() {
        if let Ok(gains) = entry_gains(true, data, entries[index], index, rate) {
            assert(entry_gains(false, data, entries[index], index, rate) == Ok::<_, FaultView>(
                gains,
            ));
            lemma_survey_agrees(data, entries, index + 1, rate, surveyed(survey, gains));
        }
    }
}

/// The samples that a movie box leads to in memory are those that it leads to
/// when the file starts with it.
proof fn lemma_sample_table_moved(file: Seq<u8>, p: int, header: BoxHeader)
    requires
        top_level_box(file, 0, MOOV) == Ok::<_, FaultView>(Some((p, header))),
    ensures
        ({
            let whole = sample_table(file);
            out_of_range(whole) || match sample_table(tail(file, p)) {
                Ok((entries, stsd_pos)) => whole == Ok::<_, FaultView>((entries, p + stsd_pos)),
                Err(f) => whole == Err::<(Seq<SampleEntry>, int), _>(f),
            }
        }),
        sample_table(tail(file, p)) matches Ok((_, stsd_pos)) ==> 0 <= stsd_pos,
        0 <= p <= file.len(),
{
    reveal(sample_table);
    reveal(movie_stbl);
    lemma_top_level_box(file, 0, MOOV);
    let part = tail(file, p);
    assert(header_at(part, 0) == header_at(file, p));
    lemma_movie_stbl(part);
    assert(top_level_box(part, 0, MOOV) == Ok::<_, FaultView>(Some((0int, header))));
    if let Ok((start, size)) = content_range(0, header) {
        lemma_audio_stbl_moved(file, p, start, start + size);
        if let Ok((stbl_start, stbl_size, stsd_pos)) = movie_stbl(part) {
            lemma_stbl_samples_moved(file, p, stbl_start, stbl_size);
        }
    }
}

/// A value with the faults of a search in memory as one with those of a search
/// through a file.
pub open spec fn as_file_result<T>(r: Result<T, FaultView>) -> Result<T, FileFaultView> {
    match r {
        Ok(t) => Ok(t),
        Err(f) => Err(file_fault(f)),
    }
}

/// A movie box leads to the same gains in memory and through the file.
proof fn lemma_movie_agrees(file: Seq<u8>, p: int, header: BoxHeader, movie: Seq<u8>)
    requires
        top_level_box(file, 0, MOOV) == Ok::<_, FaultView>(Some((p, header))),
        self_contained(file, p, movie),
        looks_like_mp4(file),
        !out_of_range(gains_of(file)),
    ensures
        gains_from_movie(file, movie) == as_file_result(gains_of(file)),
{
    reveal(gains_from_samples);
    lemma_sample_table_moved(file, p, header);
    if let Ok((entries, stsd_pos)) = sample_table(movie) {
        lemma_audio_rate_moved(file, p, stsd_pos);
        if let Ok(rate) = audio_rate(movie, stsd_pos) {
            lemma_survey_agrees(file, entries, 0, rate, nothing_found());
        }
    }
}

/// The gains that are found through a file are those that are found in it in
/// memory, unless a position does not fit there. This is so where there is no
/// movie box, or where the movie box says how long it is and the tables that
/// it leads to lie in it.
pub proof fn lemma_searches_agree(file: Seq<u8>)
    requires
        file.len() <= u64::MAX,
        match box_in_file(file, 0, MOOV) {
            Err(_) => false,
            Ok(None) => true,
            Ok(Some(movie)) => top_level_box(file, 0, MOOV) matches Ok(Some((p, header)))
                && header.size != 0 && self_contained(file, p, movie),
        },
        !out_of_range(gains_of(file)),
    ensures
        file_gains(file) == as_file_result(gains_of(file)),
{
    lemma_prefix_decides(file);
    lemma_scan_agrees(file, 0, MOOV);
    if looks_like_mp4(file) {
        match box_in_file(file, 0, MOOV) {
            Ok(Some(movie)) => {
                if let Ok(Some((p, header))) = top_level_box(file, 0, MOOV) {
                    lemma_movie_agrees(file, p, header, movie);
                }
            },
            _ => {
                reveal(sample_table);
                reveal(movie_stbl);
            },
        }
    }
}

/// A movie box at the end of a file leads nowhere else.
pub proof fn lemma_last_box_self_contained(file: Seq<u8>, p: int, movie: Seq<u8>)
    requires
        0 <= p <= file.len(),
        movie == file.subrange(p, file.len() as int),
    ensures
        self_contained(file, p, movie),
{
}

} // verus!
