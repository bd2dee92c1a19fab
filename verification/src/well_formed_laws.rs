//! What holds of files whose movie box says how long it is and holds all boxes
//! and tables that it leads to, wherever in the file it lies.
use crate::analysis::{gains_of, gains_read, lemma_gains_read, lemma_sample_count, nothing_found};
use crate::audio_config::audio_rate;
use crate::error::FaultView;
use crate::file_agreement::{
    as_file_result, lemma_scan_agrees, lemma_searches_agree, self_contained,
};
use crate::file_analysis::{box_in_file, file_gains};
use crate::file_laws::lemma_file_is_memory;
use crate::file_patch::{field_end, patch_range};
use crate::file_patch_laws::{changes_fit, chunks_done, lemma_chunks_done, patchable};
use crate::gain::{changed_first, fits, gain_applied, shift_all};
use crate::gain_laws::{lemma_shift_patches_only_gains, no_gain_clamps, same_way};
use crate::location::AacGainLocation;
use crate::mp4::{header_at, lemma_top_level_box, top_level_box, BoxHeader, MOOV};
use crate::reanalysis::{
    fields_in_order, fields_off_boxes, has_samples_apart, in_samples, lemma_file_gains_in_order,
    lemma_gain_undone, lemma_gains_add_up, lemma_gains_found_again, lemma_samples_off_boxes,
    lemma_shift_off_boxes, lemma_survey_places, same_boxes, samples_apart, samples_in_order,
    samples_off_boxes, shifted_places,
};
use crate::relocation::{out_of_range, tail};
use crate::sample_table::{sample_table, SampleEntry};
use crate::well_formed::{lemma_movie_at, movie_inside, stands_at};
use vstd::prelude::*;

verus! {

/// Whether a file fits in memory, and has a movie box that says how long it is
/// and holds all boxes and tables that it leads to.
pub open spec fn well_formed(file: Seq<u8>) -> bool {
    &&& file.len() + 8 <= usize::MAX
    &&& box_in_file(file, 0, MOOV) matches Ok(Some(movie)) && movie_inside(movie)
    &&& top_level_box(file, 0, MOOV) matches Ok(Some((_, header))) && header.size != 0
}

/// The movie box of a well-formed file.
pub open spec fn movie_of(file: Seq<u8>) -> Seq<u8> {
    box_in_file(file, 0, MOOV)->Ok_0->0
}

/// Where the movie box of a well-formed file stands.
proof fn lemma_movie_stands(file: Seq<u8>) -> (found: (int, BoxHeader))
    requires
        well_formed(file),
    ensures
        top_level_box(file, 0, MOOV) == Ok::<_, FaultView>(Some(found)),
        stands_at(file, found.0, movie_of(file)),
        movie_of(file) == file.subrange(found.0, found.0 + movie_of(file).len()),
        header_at(movie_of(file), 0) == header_at(file, found.0),
        header_at(file, found.0) matches Ok(Some(at)) && at == found.1,
        movie_inside(movie_of(file)),
{
    let (p, header) = top_level_box(file, 0, MOOV)->Ok_0->0;
    lemma_scan_agrees(file, 0, MOOV);
    lemma_top_level_box(file, 0, MOOV);
    let movie = movie_of(file);
    assert(movie == file.subrange(p, p + header.size));
    (p, header)
}

/// A movie box that holds all boxes and tables that it leads to leads nowhere
/// else, whatever follows it in the file.
pub proof fn lemma_inside_self_contained(file: Seq<u8>, p: int, movie: Seq<u8>)
    requires
        0 <= p,
        p + movie.len() <= file.len(),
        file.len() + 8 <= usize::MAX,
        movie == file.subrange(p, p + movie.len()),
        movie_inside(movie),
    ensures
        self_contained(file, p, movie),
{
    let part = tail(file, p);
    assert(stands_at(part, 0, movie));
    let header = header_at(movie, 0)->Ok_0->0;
    assert(header_at(part, 0) == header_at(movie, 0));
    assert(top_level_box(part, 0, MOOV) == Ok::<_, FaultView>(Some((0int, header))));
    lemma_movie_at(movie, part, 0, header);
}

/// A well-formed file has the samples and the rate of its movie box.
proof fn lemma_movie_leads(file: Seq<u8>) -> (p: int)
    requires
        well_formed(file),
    ensures
        match sample_table(movie_of(file)) {
            Ok((entries, stsd_pos)) => sample_table(file) == Ok::<_, FaultView>(
                (entries, p + stsd_pos),
            ) && audio_rate(file, p + stsd_pos) == audio_rate(movie_of(file), stsd_pos),
            Err(f) => sample_table(file) == Err::<(Seq<SampleEntry>, int), _>(f),
        },
        top_level_box(file, 0, MOOV) matches Ok(Some((at, _))) && at == p,
{
    let (p, header) = lemma_movie_stands(file);
    lemma_movie_at(movie_of(file), file, p, header);
    p
}

/// The gains that are found through a well-formed file, or the error, are
/// those that are found in it in memory, unless a position does not fit there.
pub proof fn lemma_well_formed_searches_agree(file: Seq<u8>)
    requires
        well_formed(file),
        !out_of_range(gains_of(file)),
    ensures
        file_gains(file) == as_file_result(gains_of(file)),
{
    let (p, header) = lemma_movie_stands(file);
    lemma_inside_self_contained(file, p, movie_of(file));
    lemma_searches_agree(file);
}

/// Patching the gains that were found through a well-formed file leaves the
/// bytes that a gain applied in memory gives, where no two samples have a byte
/// in common.
pub proof fn lemma_well_formed_file_is_memory(file: Seq<u8>, steps: int)
    requires
        well_formed(file),
        steps != 0,
        has_samples_apart(file),
        gains_of(file) is Ok,
    ensures
        file_gains(file) matches Ok(locs) && gain_applied(file, steps) == Ok::<_, FaultView>(
            patch_range(file, 0, locs, 0, locs.len() as int, steps),
        ),
{
    let (p, header) = lemma_movie_stands(file);
    lemma_inside_self_contained(file, p, movie_of(file));
    lemma_file_is_memory(file, steps);
}

/// Fields one behind the other are no more than the bytes that they lie in.
proof fn lemma_fields_spread(data: Seq<u8>, locs: Seq<AacGainLocation>, k: int)
    requires
        gains_read(data, locs),
        fields_in_order(locs),
        0 <= k < locs.len(),
    ensures
        8 * k <= locs[k].file_bit(),
    decreases k,
{
    if k > 0 {
        lemma_fields_spread(data, locs, k - 1);
        assert(locs[k - 1].file_bit() + 8 <= locs[k].file_bit());
    }
}

/// Copying a well-formed file and patching the copy chunk by chunk, with the
/// gains that were found through the file, leaves the bytes that a gain
/// applied in memory gives, and counts the gains that changed. This is so
/// where the samples come one behind the other.
pub proof fn lemma_well_formed_plan_is_memory(file: Seq<u8>, steps: int)
    requires
        well_formed(file),
        steps != 0,
        gains_of(file) is Ok,
        sample_table(file) matches Ok((entries, _)) && samples_in_order(entries),
    ensures
        ({
            let locs = file_gains(file)->Ok_0;
            &&& file_gains(file) is Ok
            &&& patchable(locs)
            &&& gain_applied(file, steps) == Ok::<_, FaultView>(
                chunks_done(file, locs, 0, steps).0,
            )
            &&& chunks_done(file, locs, 0, steps).1 == changed_first(
                file,
                locs,
                locs.len() as int,
                steps,
            )
        }),
{
    let p = lemma_movie_leads(file);
    let (entries, _) = sample_table(file)->Ok_0;
    assert(samples_apart(entries));
    let (p, header) = lemma_movie_stands(file);
    lemma_inside_self_contained(file, p, movie_of(file));
    lemma_file_is_memory(file, steps);
    lemma_well_formed_searches_agree(file);
    lemma_file_gains_in_order(file);
    lemma_gains_read(file);
    let locs = file_gains(file)->Ok_0;
    if locs.len() > 0 {
        lemma_fields_spread(file, locs, locs.len() - 1);
        assert(locs[locs.len() - 1].file_bit() + 8 <= 8 * file.len());
    }
    assert forall|k: int| 0 <= k < locs.len() implies field_end(#[trigger] locs[k])
        <= file.len() by {}
    assert(changes_fit(locs, file.len() as int, steps));
    lemma_chunks_done(file, locs, 0, steps);
}

/// A shift leaves the boxes of a well-formed file alone, if the gains lie
/// outside of the bytes that the file type is read from, of the heads of the
/// boxes up to the movie box, and of the movie box.
pub proof fn lemma_boxes_left_alone(data: Seq<u8>, steps: int)
    requires
        well_formed(data),
        gains_of(data) is Ok,
        fields_off_boxes(data, gains_of(data)->Ok_0),
    ensures
        same_boxes(data, shift_all(data, gains_of(data)->Ok_0, steps)),
        well_formed(shift_all(data, gains_of(data)->Ok_0, steps)),
{
    let locs = gains_of(data)->Ok_0;
    let out = shift_all(data, locs, steps);
    lemma_gains_read(data);
    assert forall|k: int| 0 <= k < locs.len() implies fits(data, #[trigger] locs[k]) by {}
    lemma_shift_off_boxes(data, locs, steps);
    lemma_shift_patches_only_gains(data, locs, steps);
    let p = lemma_movie_leads(data);
    let q = lemma_movie_leads(out);
    assert(p == q);
}

/// Whether the samples of a file lie apart from each other, from the bytes
/// that the file type is read from, from the heads of the boxes up to the
/// movie box, and from the movie box.
pub open spec fn samples_apart_from_all(data: Seq<u8>) -> bool {
    sample_table(data) matches Ok((entries, _)) ==> samples_apart(entries) && samples_off_boxes(
        data,
        entries,
    )
}

/// Where the samples lie apart from what leads to them, so do their gains.
proof fn lemma_gains_off_boxes(data: Seq<u8>)
    requires
        samples_apart_from_all(data),
    ensures
        has_samples_apart(data),
        gains_of(data) matches Ok(locs) ==> fields_off_boxes(data, locs),
{
    lemma_sample_count(data);
    if let Ok((entries, stsd_pos)) = sample_table(data) {
        if let Ok(rate) = audio_rate(data, stsd_pos) {
            lemma_survey_places(true, data, entries, 0, rate, nothing_found());
            if let Ok(locs) = gains_of(data) {
                assert(in_samples(entries, locs, 0, 0));
                lemma_samples_off_boxes(data, entries, locs);
            }
        }
    }
}

/// Once the gains of a well-formed file are shifted, a search finds them again
/// at the same places, with the shifted values. This is so where its samples
/// lie apart from each other and from what leads to them.
pub proof fn lemma_well_formed_found_again(data: Seq<u8>, steps: int)
    requires
        well_formed(data),
        samples_apart_from_all(data),
        gains_of(data) is Ok,
    ensures
        gains_of(shift_all(data, gains_of(data)->Ok_0, steps)) matches Ok(again) && shifted_places(
            gains_of(data)->Ok_0,
            again,
            steps,
        ),
{
    lemma_gains_off_boxes(data);
    lemma_boxes_left_alone(data, steps);
    lemma_gains_found_again(data, steps);
}

/// A gain applied to a well-formed file is undone by applying as many steps
/// the other way. This is so where its samples lie apart from each other and
/// from what leads to them, and where the first gain moves every field in full
/// and makes none silent.
pub proof fn lemma_well_formed_gain_undone(data: Seq<u8>, steps: int)
    requires
        well_formed(data),
        samples_apart_from_all(data),
        steps != 0,
        gains_of(data) is Ok,
        no_gain_clamps(data, gains_of(data)->Ok_0, steps),
    ensures
        gain_applied(data, steps) matches Ok(out) && gain_applied(out, -steps) == Ok::<
            _,
            FaultView,
        >(data),
{
    lemma_gains_off_boxes(data);
    lemma_boxes_left_alone(data, steps);
    lemma_gain_undone(data, steps);
}

/// Two gains applied the same way to a well-formed file do what one gain of
/// the sum of their steps does, also where fields are held at a limit. This is
/// so where its samples lie apart from each other and from what leads to them.
pub proof fn lemma_well_formed_gains_one_way_add_up(data: Seq<u8>, first: int, second: int)
    requires
        well_formed(data),
        samples_apart_from_all(data),
        gains_of(data) is Ok,
        same_way(first, second),
    ensures
        gain_applied(data, first) matches Ok(out) && gain_applied(out, second) == gain_applied(
            data,
            first + second,
        ),
{
    lemma_gains_off_boxes(data);
    lemma_boxes_left_alone(data, first);
    lemma_gains_add_up(data, first, second);
}

} // verus!
