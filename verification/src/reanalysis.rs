//! The gains of a file are found again, at the same places, once they have been
//! shifted.
use crate::aac_codebooks::{lemma_standard_books_valid, standard_books};
use crate::analysis::{
    entry_gains, gains_in_sample, gains_of, gains_read, in_file, lemma_gains_read,
    lemma_sample_count, lemma_sample_gains, lemma_survey_read, nothing_found, survey_from,
    surveyed, SurveyView,
};
use crate::audio_config::audio_rate;
use crate::bits::{bit, bit_len, lemma_bits_agree, lemma_byte_value};
use crate::codebook_order::lemma_standard_books_prefix_free;
use crate::error::FaultView;
use crate::file_agreement::{lemma_head_decides, lemma_prefix_decides};
use crate::file_analysis::{
    box_in_file, file_gains, gains_from_samples, head_of, scan_step, ScanStep,
};
use crate::file_patch::in_order;
use crate::gain::{fits, gain_applied, gain_in, new_gain, shift_all, shift_first};
use crate::gain_laws::{
    all_fit, apart, in_field, lemma_bits_decide, lemma_shift_first_bits, lemma_shift_first_gains,
    lemma_shift_undone, lemma_shifts_add_up, lemma_shifts_one_way_add_up, no_gain_clamps,
    same_but_fields, same_way, separate,
};
use crate::location::AacGainLocation;
use crate::mp4::{
    accepted_brand, be32, brand_offset, header_at, least, looks_like_mp4, top_level_box, MOOV,
};
use crate::raw_syntax::{
    agree_off_gains, in_gain, lemma_raw_data_block, lemma_raw_data_block_stable, raw_data_block,
    same_places,
};
use crate::sample_table::{sample_table, SampleEntry};
use vstd::prelude::*;

verus! {

/// Whether no two samples have a byte in common.
pub open spec fn samples_apart(entries: Seq<SampleEntry>) -> bool {
    forall|i: int, j: int|
        0 <= i < j < entries.len() ==> {
            ||| (#[trigger] entries[i]).file_offset + entries[i].size <= (
            #[trigger] entries[j]).file_offset
            ||| entries[j].file_offset + entries[j].size <= entries[i].file_offset
        }
}

/// Whether a field lies in the sample that it is said to belong to.
pub open spec fn in_own_sample(entries: Seq<SampleEntry>, loc: AacGainLocation) -> bool {
    let i = loc.sample_index as int;
    &&& i < entries.len()
    &&& 8 * entries[i].file_offset <= loc.file_bit()
    &&& loc.file_bit() + 8 <= 8 * (entries[i].file_offset + entries[i].size)
}

/// Whether the fields from number `from` on lie in their samples, of which
/// none comes before the sample number `first`.
pub open spec fn in_samples(
    entries: Seq<SampleEntry>,
    locs: Seq<AacGainLocation>,
    from: int,
    first: int,
) -> bool {
    forall|k: int|
        from <= k < locs.len() ==> in_own_sample(entries, #[trigger] locs[k])
            && locs[k].sample_index >= first
}

/// Whether all fields lie in their samples, which come before the sample
/// number `end`, and no two of them have a bit in common.
pub open spec fn settled_before(
    entries: Seq<SampleEntry>,
    locs: Seq<AacGainLocation>,
    end: int,
) -> bool {
    &&& forall|k: int|
        0 <= k < locs.len() ==> in_own_sample(entries, #[trigger] locs[k]) && locs[k].sample_index
            < end
    &&& separate(locs)
}

/// The gains of the sample number `index` lie in it, and no two of them have a
/// bit in common.
proof fn lemma_entry_gains(
    in_memory: bool,
    data: Seq<u8>,
    entries: Seq<SampleEntry>,
    index: int,
    rate: u32,
)
    requires
        0 <= index < entries.len() <= u32::MAX,
        in_memory || data.len() <= u64::MAX,
    ensures
        entry_gains(in_memory, data, entries[index], index, rate) matches Ok(Some(locs)) ==> {
            &&& forall|k: int|
                0 <= k < locs.len() ==> in_own_sample(entries, #[trigger] locs[k])
                    && locs[k].sample_index == index
            &&& separate(locs)
        },
{
    let entry = entries[index];
    if let Ok(Some(locs)) = entry_gains(in_memory, data, entry, index, rate) {
        let sample = data.subrange(
            entry.file_offset as int,
            entry.file_offset + entry.size,
        );
        lemma_sample_gains(sample, rate, index, entry.file_offset);
        assert(gains_in_sample(sample, index, entry.file_offset, locs));
        assert forall|k: int| 0 <= k < locs.len() implies in_own_sample(entries, #[trigger] locs[k])
            && locs[k].sample_index == index by {}
        assert forall|j: int, k: int| 0 <= j < k < locs.len() implies apart(
            #[trigger] locs[j],
            #[trigger] locs[k],
        ) by {}
    }
}

/// A search goes on from what it has found; what it adds lies in the samples
/// that are still to be looked at. Where no two samples have a byte in common,
/// no two fields have a bit in common.
pub proof fn lemma_survey_places(
    in_memory: bool,
    data: Seq<u8>,
    entries: Seq<SampleEntry>,
    index: int,
    rate: u32,
    survey: SurveyView,
)
    requires
        0 <= index <= entries.len() <= u32::MAX,
        in_memory || data.len() <= u64::MAX,
        samples_apart(entries),
        settled_before(entries, survey.locations, index),
    ensures
        survey_from(in_memory, data, entries, index, rate, survey) matches Ok(found) ==> {
            &&& survey.locations.len() <= found.locations.len()
            &&& found.locations.subrange(0, survey.locations.len() as int) == survey.locations
            &&& in_samples(entries, found.locations, survey.locations.len() as int, index)
            &&& settled_before(entries, found.locations, entries.len() as int)
        },
    decreases entries.len() - index,
{
    let n = survey.locations.len() as int;
    assert(survey.locations.subrange(0, n) =~= survey.locations);
    if index < entries.len() {
        lemma_entry_gains(in_memory, data, entries, index, rate);
        if let Ok(gains) = entry_gains(in_memory, data, entries[index], index, rate) {
            let next = surveyed(survey, gains);
            let all = next.locations;
            lemma_next_settled(in_memory, data, entries, index, rate, survey);
            lemma_survey_places(in_memory, data, entries, index + 1, rate, next);
            if let Ok(found) = survey_from(in_memory, data, entries, index + 1, rate, next) {
                let m = all.len() as int;
                assert(found.locations.subrange(0, n) =~= found.locations.subrange(
                    0,
                    m,
                ).subrange(0, n));
                assert(all.subrange(0, n) =~= survey.locations);
                assert forall|k: int| n <= k < found.locations.len() implies in_own_sample(
                    entries,
                    #[trigger] found.locations[k],
                ) && found.locations[k].sample_index >= index by {
                    if k < m {
                        assert(found.locations.subrange(0, m)[k] == all[k]);
                        if let Some(locs) = gains {
                            assert(all[k] == locs[k - n]);
                        }
                    }
                }
            }
        }
    }
}

/// Fields of samples that have no byte in common have no bit in common.
proof fn lemma_other_sample(
    entries: Seq<SampleEntry>,
    a: AacGainLocation,
    b: AacGainLocation,
)
    requires
        samples_apart(entries),
        in_own_sample(entries, a),
        in_own_sample(entries, b),
        a.sample_index != b.sample_index,
    ensures
        apart(a, b),
{
    let i = a.sample_index as int;
    let j = b.sample_index as int;
    if i < j {
        assert(entries[i].file_offset + entries[i].size <= entries[j].file_offset
            || entries[j].file_offset + entries[j].size <= entries[i].file_offset);
    } else {
        assert(entries[j].file_offset + entries[j].size <= entries[i].file_offset
            || entries[i].file_offset + entries[i].size <= entries[j].file_offset);
    }
}

/// The bits of a sample are bits of the file.
proof fn lemma_sample_bit(data: Seq<u8>, start: int, end: int, i: int)
    requires
        0 <= start <= end <= data.len(),
        0 <= i < 8 * (end - start),
    ensures
        bit(data.subrange(start, end), i) == bit(data, 8 * start + i),
{
    assert((8 * start + i) / 8 == start + i / 8);
    assert((8 * start + i) % 8 == i % 8);
}

/// A bit of a sample is only in a field of the same sample.
proof fn lemma_field_of_sample(
    entries: Seq<SampleEntry>,
    loc: AacGainLocation,
    index: int,
    i: int,
)
    requires
        samples_apart(entries),
        in_own_sample(entries, loc),
        0 <= index < entries.len(),
        8 * entries[index].file_offset <= i < 8 * (entries[index].file_offset
            + entries[index].size),
        loc.file_bit() <= i < loc.file_bit() + 8,
    ensures
        loc.sample_index == index,
{
    let j = loc.sample_index as int;
    if j < index {
        assert(entries[j].file_offset + entries[j].size <= entries[index].file_offset
            || entries[index].file_offset + entries[index].size <= entries[j].file_offset);
    } else if index < j {
        assert(entries[index].file_offset + entries[index].size <= entries[j].file_offset
            || entries[j].file_offset + entries[j].size <= entries[index].file_offset);
    }
}

/// A sample of a file whose gains have other values has its gains at the same
/// places. Here `all` are the gains of the file, of which those from number
/// `n` up to `m` are the ones of the sample.
proof fn lemma_entry_stable(
    in_memory: bool,
    d1: Seq<u8>,
    d2: Seq<u8>,
    entries: Seq<SampleEntry>,
    index: int,
    rate: u32,
    all: Seq<AacGainLocation>,
    n: int,
    m: int,
)
    requires
        0 <= index < entries.len() <= u32::MAX,
        in_memory || d1.len() <= u64::MAX,
        d1.len() == d2.len(),
        samples_apart(entries),
        same_but_fields(d1, d2, all),
        0 <= n <= m <= all.len(),
        in_samples(entries, all, m, index + 1),
        forall|k: int|
            0 <= k < n ==> in_own_sample(entries, #[trigger] all[k]) && all[k].sample_index
                < index,
        match entry_gains(in_memory, d1, entries[index], index, rate) {
            Ok(Some(locs)) => all.subrange(n, m) == locs,
            Ok(None) => n == m,
            Err(_) => false,
        },
    ensures
        match entry_gains(in_memory, d1, entries[index], index, rate) {
            Ok(Some(locs)) => entry_gains(in_memory, d2, entries[index], index, rate) matches Ok(
                Some(locs2),
            ) && same_places(locs, locs2),
            other => entry_gains(in_memory, d2, entries[index], index, rate) == other,
        },
{
    let entry = entries[index];
    let start = entry.file_offset as int;
    let end = entry.file_offset + entry.size;
    if end <= d1.len() && (in_memory ==> end <= usize::MAX) {
        let s1 = d1.subrange(start, end);
        let s2 = d2.subrange(start, end);
        lemma_standard_books_valid();
        lemma_standard_books_prefix_free();
        // A bit of the sample that is in any field is in one of its own.
        assert forall|i: int| 0 <= i < bit_len(s1) && bit(s1, i) != bit(s2, i) implies exists|
            k: int,
        |
            n <= k < m && (#[trigger] all[k]).file_bit() <= 8 * start + i < all[k].file_bit()
                + 8 by {
            lemma_sample_bit(d1, start, end, i);
            lemma_sample_bit(d2, start, end, i);
            assert(bit(d1, 8 * start + i) != bit(d2, 8 * start + i));
            assert(in_field(all, 8 * start + i));
            let k = choose|k: int|
                0 <= k < all.len() && (#[trigger] all[k]).file_bit() <= 8 * start + i
                    < all[k].file_bit() + 8;
            assert(in_own_sample(entries, all[k])) by {
                if n <= k < m {
                    lemma_entry_gains(in_memory, d1, entries, index, rate);
                    assert(all.subrange(n, m)[k - n] == all[k]);
                }
            }
            lemma_field_of_sample(entries, all[k], index, 8 * start + i);
        }
        match raw_data_block(s1, 0, standard_books(), rate, Seq::empty()) {
            Err(_) => {
                if entry_gains(in_memory, d1, entry, index, rate) is Ok {
                    assert forall|i: int| 0 <= i < bit_len(s1) implies #[trigger] bit(s1, i) == bit(
                        s2,
                        i,
                    ) by {}
                    lemma_bits_decide(s1, s2);
                }
            },
            Ok((found, q)) => {
                if let Ok(Some(locs)) = entry_gains(in_memory, d1, entry, index, rate) {
                    lemma_raw_data_block(s1, 0, standard_books(), rate, Seq::empty());
                    assert(agree_off_gains(s1, s2, 0, bit_len(s1), found, 0)) by {
                        assert forall|i: int|
                            0 <= i < bit_len(s1) implies in_gain(found, 0, i)
                            || #[trigger] bit(s1, i) == bit(s2, i) by {
                            if bit(s1, i) != bit(s2, i) {
                                let k = choose|k: int|
                                    n <= k < m && (#[trigger] all[k]).file_bit() <= 8 * start + i
                                        < all[k].file_bit() + 8;
                                assert(all.subrange(n, m)[k - n] == all[k]);
                                assert(locs[k - n] == in_file(
                                    found[k - n],
                                    index,
                                    entry.file_offset,
                                ));
                                assert(found[k - n].sample_bit() <= i < found[k - n].sample_bit()
                                    + 8);
                            }
                        }
                    }
                    let none = Seq::<AacGainLocation>::empty();
                    assert(same_places(none, none));
                    lemma_raw_data_block_stable(s1, s2, 0, standard_books(), rate, none, none);
                    let found2 = raw_data_block(s2, 0, standard_books(), rate, none)->Ok_0.0;
                    assert(same_places(found, found2));
                    let locs2 = Seq::new(
                        found2.len(),
                        |k: int| in_file(found2[k], index, entry.file_offset),
                    );
                    assert forall|k: int| 0 <= k < locs.len() implies #[trigger] locs2[k]
                        == locs[k].with_gain(locs2[k].original_gain) by {
                        assert(found2[k] == found[k].with_gain(found2[k].original_gain));
                    }
                }
            },
        }
    }
}

/// A search through the samples of a file whose gains have other values finds
/// the gains at the same places.
pub proof fn lemma_survey_stable(
    in_memory: bool,
    d1: Seq<u8>,
    d2: Seq<u8>,
    entries: Seq<SampleEntry>,
    index: int,
    rate: u32,
    survey1: SurveyView,
    survey2: SurveyView,
)
    requires
        0 <= index <= entries.len() <= u32::MAX,
        in_memory || d1.len() <= u64::MAX,
        d1.len() == d2.len(),
        samples_apart(entries),
        settled_before(entries, survey1.locations, index),
        same_places(survey1.locations, survey2.locations),
        survey1.warnings == survey2.warnings,
        survey_from(in_memory, d1, entries, index, rate, survey1) is Ok,
        same_but_fields(
            d1,
            d2,
            survey_from(in_memory, d1, entries, index, rate, survey1)->Ok_0.locations,
        ),
    ensures
        survey_from(in_memory, d2, entries, index, rate, survey2) matches Ok(found2)
            && found2.warnings == survey_from(
            in_memory,
            d1,
            entries,
            index,
            rate,
            survey1,
        )->Ok_0.warnings && same_places(
            survey_from(in_memory, d1, entries, index, rate, survey1)->Ok_0.locations,
            found2.locations,
        ),
    decreases entries.len() - index,
{
    if index < entries.len() {
        let n = survey1.locations.len() as int;
        lemma_survey_places(in_memory, d1, entries, index, rate, survey1);
        let gains = entry_gains(in_memory, d1, entries[index], index, rate)->Ok_0;
        let next1 = surveyed(survey1, gains);
        let m = next1.locations.len() as int;
        let all = survey_from(in_memory, d1, entries, index, rate, survey1)->Ok_0.locations;
        lemma_entry_gains(in_memory, d1, entries, index, rate);
        lemma_next_settled(in_memory, d1, entries, index, rate, survey1);
        lemma_survey_places(in_memory, d1, entries, index + 1, rate, next1);
        assert forall|k: int| 0 <= k < n implies in_own_sample(entries, #[trigger] all[k])
            && all[k].sample_index < index by {
            assert(all.subrange(0, n)[k] == survey1.locations[k]);
        }
        if let Some(locs) = gains {
            assert(all.subrange(n, m) =~= locs) by {
                assert forall|k: int| 0 <= k < m - n implies all.subrange(n, m)[k] == locs[k] by {
                    assert(all.subrange(0, m)[k + n] == next1.locations[k + n]);
                }
            }
        }
        lemma_entry_stable(in_memory, d1, d2, entries, index, rate, all, n, m);
        let gains2 = entry_gains(in_memory, d2, entries[index], index, rate)->Ok_0;
        let next2 = surveyed(survey2, gains2);
        assert(same_places(next1.locations, next2.locations));
        lemma_survey_stable(in_memory, d1, d2, entries, index + 1, rate, next1, next2);
    }
}

/// What a search has found after one more sample lies in its samples, and no
/// two fields have a bit in common.
proof fn lemma_next_settled(
    in_memory: bool,
    data: Seq<u8>,
    entries: Seq<SampleEntry>,
    index: int,
    rate: u32,
    survey: SurveyView,
)
    requires
        0 <= index < entries.len() <= u32::MAX,
        in_memory || data.len() <= u64::MAX,
        samples_apart(entries),
        settled_before(entries, survey.locations, index),
    ensures
        entry_gains(in_memory, data, entries[index], index, rate) matches Ok(gains)
            ==> settled_before(entries, surveyed(survey, gains).locations, index + 1),
{
    let n = survey.locations.len() as int;
    lemma_entry_gains(in_memory, data, entries, index, rate);
    if let Ok(Some(locs)) = entry_gains(in_memory, data, entries[index], index, rate) {
        let all = survey.locations + locs;
        assert forall|k: int| 0 <= k < all.len() implies in_own_sample(entries, #[trigger] all[k])
            && all[k].sample_index < index + 1 by {
            if k < n {
                assert(all[k] == survey.locations[k]);
            } else {
                assert(all[k] == locs[k - n]);
            }
        }
        assert forall|j: int, k: int| 0 <= j < k < all.len() implies apart(
            #[trigger] all[j],
            #[trigger] all[k],
        ) by {
            if k < n {
                assert(apart(survey.locations[j], survey.locations[k]));
            } else if j >= n {
                assert(apart(locs[j - n], locs[k - n]));
            } else {
                lemma_other_sample(entries, survey.locations[j], locs[k - n]);
            }
        }
    }
}

/// A shift depends on where the fields are, not on the gains found in them.
pub proof fn lemma_shift_by_place(
    data: Seq<u8>,
    l1: Seq<AacGainLocation>,
    l2: Seq<AacGainLocation>,
    n: int,
    steps: int,
)
    requires
        same_places(l1, l2),
        n <= l1.len(),
    ensures
        shift_first(data, l1, n, steps) == shift_first(data, l2, n, steps),
    decreases n,
{
    if n > 0 {
        lemma_shift_by_place(data, l1, l2, n - 1, steps);
        assert(l2[n - 1] == l1[n - 1].with_gain(l2[n - 1].original_gain));
    }
}

/// Whether `l2` names the gains of `l1`, each found shifted by `steps`.
pub open spec fn shifted_places(
    l1: Seq<AacGainLocation>,
    l2: Seq<AacGainLocation>,
    steps: int,
) -> bool {
    &&& same_places(l1, l2)
    &&& forall|k: int|
        0 <= k < l1.len() ==> (#[trigger] l2[k]).original_gain == new_gain(
            l1[k].original_gain as int,
            steps,
        )
}

/// Gains found again in a shifted file are found shifted.
proof fn lemma_found_shifted(
    data: Seq<u8>,
    locs: Seq<AacGainLocation>,
    again: Seq<AacGainLocation>,
    steps: int,
)
    requires
        gains_read(data, locs),
        separate(locs),
        same_places(locs, again),
        gains_read(shift_all(data, locs, steps), again),
    ensures
        shifted_places(locs, again, steps),
{
    assert forall|k: int| 0 <= k < locs.len() implies fits(data, #[trigger] locs[k]) by {}
    lemma_shift_first_gains(data, locs, locs.len() as int, steps);
    assert forall|k: int| 0 <= k < locs.len() implies (#[trigger] again[k]).original_gain
        == new_gain(locs[k].original_gain as int, steps) by {
        let out = shift_all(data, locs, steps);
        assert(gain_in(out, locs[k]) == new_gain(gain_in(data, locs[k]), steps));
        assert(again[k] == locs[k].with_gain(again[k].original_gain));
    }
}

/// Whether the boxes of two files lead to the same samples and the same rate.
pub open spec fn same_boxes(d1: Seq<u8>, d2: Seq<u8>) -> bool {
    &&& looks_like_mp4(d1) == looks_like_mp4(d2)
    &&& sample_table(d1) == sample_table(d2)
    &&& sample_table(d1) matches Ok((_, stsd_pos)) ==> audio_rate(d1, stsd_pos) == audio_rate(
        d2,
        stsd_pos,
    )
}

/// Whether no two samples of a file held in memory have a byte in common.
pub open spec fn has_samples_apart(data: Seq<u8>) -> bool {
    sample_table(data) matches Ok((entries, _)) ==> samples_apart(entries)
}

/// Where no two samples of a file have a byte in common, no two of its gains
/// have a bit in common.
pub proof fn lemma_gains_separate(data: Seq<u8>)
    requires
        has_samples_apart(data),
    ensures
        gains_of(data) matches Ok(locs) ==> separate(locs),
{
    lemma_sample_count(data);
    if let Ok((entries, stsd_pos)) = sample_table(data) {
        if let Ok(rate) = audio_rate(data, stsd_pos) {
            lemma_survey_places(true, data, entries, 0, rate, nothing_found());
        }
    }
}

/// Applying a gain moves every gain of a file by the steps, held within
/// `0..=255`, and leaves silence alone. This is so where no two samples have a
/// byte in common.
pub proof fn lemma_gain_applied_moves_every_gain(data: Seq<u8>, steps: int)
    requires
        has_samples_apart(data),
    ensures
        gain_applied(data, steps) matches Ok(out) ==> (gains_of(data) matches Ok(locs) && forall|
            k: int,
        |
            0 <= k < locs.len() ==> gain_in(out, #[trigger] locs[k]) == new_gain(
                locs[k].original_gain as int,
                steps,
            )),
{
    lemma_gains_read(data);
    lemma_gains_separate(data);
    if let Ok(locs) = gains_of(data) {
        assert forall|k: int| 0 <= k < locs.len() implies fits(data, #[trigger] locs[k]) by {}
        lemma_shift_first_gains(data, locs, locs.len() as int, steps);
    }
}

/// Whether the samples come one behind the other in the file.
pub open spec fn samples_in_order(entries: Seq<SampleEntry>) -> bool {
    forall|i: int, j: int|
        0 <= i < j < entries.len() ==> (#[trigger] entries[i]).file_offset + entries[i].size <= (
        #[trigger] entries[j]).file_offset
}

/// Whether the fields come one behind the other in the file.
pub open spec fn fields_in_order(locs: Seq<AacGainLocation>) -> bool {
    forall|j: int, k: int|
        0 <= j < k < locs.len() ==> (#[trigger] locs[j]).file_bit() + 8 <= (
        #[trigger] locs[k]).file_bit()
}

/// Where the samples come one behind the other, a search finds their gains in
/// the order in which a file is patched.
pub proof fn lemma_survey_in_order(
    in_memory: bool,
    data: Seq<u8>,
    entries: Seq<SampleEntry>,
    index: int,
    rate: u32,
    survey: SurveyView,
)
    requires
        0 <= index <= entries.len() <= u32::MAX,
        in_memory || data.len() <= u64::MAX,
        samples_in_order(entries),
        settled_before(entries, survey.locations, index),
        fields_in_order(survey.locations),
        forall|k: int|
            0 <= k < survey.locations.len() ==> (#[trigger] survey.locations[k]).bit_offset < 8,
    ensures
        survey_from(in_memory, data, entries, index, rate, survey) matches Ok(found)
            ==> fields_in_order(found.locations) && in_order(found.locations),
    decreases entries.len() - index,
{
    let known = survey.locations;
    let n = known.len() as int;
    assert(in_order(known)) by {
        assert forall|j: int, k: int| 0 <= j < k < known.len() implies (
        #[trigger] known[j]).file_offset <= (#[trigger] known[k]).file_offset by {
            assert(known[j].file_bit() + 8 <= known[k].file_bit());
        }
    }
    if index < entries.len() {
        let entry = entries[index];
        if let Ok(gains) = entry_gains(in_memory, data, entry, index, rate) {
            let next = surveyed(survey, gains);
            lemma_next_settled(in_memory, data, entries, index, rate, survey);
            if let Some(locs) = gains {
                let sample = data.subrange(
                    entry.file_offset as int,
                    entry.file_offset + entry.size,
                );
                lemma_sample_gains(sample, rate, index, entry.file_offset);
                let all = next.locations;
                assert forall|j: int, k: int| 0 <= j < k < all.len() implies (
                #[trigger] all[j]).file_bit() + 8 <= (#[trigger] all[k]).file_bit() by {
                    if k < n {
                        assert(known[j].file_bit() + 8 <= known[k].file_bit());
                    } else if j >= n {
                        assert(locs[j - n].file_bit() + 8 <= locs[k - n].file_bit());
                    } else {
                        let i = known[j].sample_index as int;
                        assert(in_own_sample(entries, known[j]));
                        assert(entries[i].file_offset + entries[i].size <= entry.file_offset);
                        assert(8 * entry.file_offset <= locs[k - n].file_bit());
                    }
                }
                assert forall|k: int| 0 <= k < all.len() implies (
                #[trigger] all[k]).bit_offset < 8 by {
                    if k < n {
                        assert(known[k].bit_offset < 8);
                    } else {
                        assert(locs[k - n].bit_offset < 8);
                    }
                }
            }
            lemma_survey_in_order(in_memory, data, entries, index + 1, rate, next);
        }
    }
}

/// Where the samples of a file come one behind the other, so do its gains.
pub proof fn lemma_file_gains_in_order(file: Seq<u8>)
    requires
        file.len() <= u64::MAX,
        box_in_file(file, 0, MOOV) matches Ok(Some(movie)) ==> (sample_table(movie) matches Ok(
            (entries, _),
        ) ==> samples_in_order(entries)),
    ensures
        file_gains(file) matches Ok(locs) ==> fields_in_order(locs) && in_order(locs),
{
    reveal(gains_from_samples);
    if let Ok(Some(movie)) = box_in_file(file, 0, MOOV) {
        lemma_sample_count(movie);
        if let Ok((entries, stsd_pos)) = sample_table(movie) {
            if let Ok(rate) = audio_rate(movie, stsd_pos) {
                lemma_survey_in_order(false, file, entries, 0, rate, nothing_found());
            }
        }
    }
}

/// Once the gains of a file are shifted, a search finds them again at the same
/// places, with the shifted values. This is so where no two samples have a
/// byte in common and the shift leaves the boxes alone.
pub proof fn lemma_gains_found_again(data: Seq<u8>, steps: int)
    requires
        gains_of(data) is Ok,
        has_samples_apart(data),
        same_boxes(data, shift_all(data, gains_of(data)->Ok_0, steps)),
    ensures
        gains_of(shift_all(data, gains_of(data)->Ok_0, steps)) matches Ok(again) && shifted_places(
            gains_of(data)->Ok_0,
            again,
            steps,
        ),
{
    let locs = gains_of(data)->Ok_0;
    let out = shift_all(data, locs, steps);
    lemma_gains_read(data);
    lemma_gains_read(out);
    lemma_gains_separate(data);
    lemma_sample_count(data);
    assert forall|k: int| 0 <= k < locs.len() implies fits(data, #[trigger] locs[k]) by {}
    lemma_shift_first_bits(data, locs, locs.len() as int, steps);
    let (entries, stsd_pos) = sample_table(data)->Ok_0;
    let rate = audio_rate(data, stsd_pos)->Ok_0;
    lemma_survey_stable(true, data, out, entries, 0, rate, nothing_found(), nothing_found());
    let again = gains_of(out)->Ok_0;
    lemma_found_shifted(data, locs, again, steps);
}

/// Two gains applied in a row do what one gain of the sum of their steps does.
/// This is so where they go the same way, or where the first one moves every
/// field in full and makes none silent; where no two samples have a byte in
/// common, and the boxes are left alone.
pub proof fn lemma_gains_add_up(data: Seq<u8>, first: int, second: int)
    requires
        first != 0,
        second != 0,
        first + second != 0,
        gains_of(data) is Ok,
        has_samples_apart(data),
        same_boxes(data, shift_all(data, gains_of(data)->Ok_0, first)),
        same_way(first, second) || no_gain_clamps(data, gains_of(data)->Ok_0, first),
    ensures
        gain_applied(data, first) matches Ok(out) && gain_applied(out, second) == gain_applied(
            data,
            first + second,
        ),
{
    let locs = gains_of(data)->Ok_0;
    let out = shift_all(data, locs, first);
    lemma_gains_found_again(data, first);
    lemma_gains_separate(data);
    lemma_gains_read(data);
    assert forall|k: int| 0 <= k < locs.len() implies fits(data, #[trigger] locs[k]) by {}
    if same_way(first, second) {
        lemma_shifts_one_way_add_up(data, locs, first, second);
    } else {
        lemma_shifts_add_up(data, locs, first, second);
    }
    lemma_shift_by_place(out, locs, gains_of(out)->Ok_0, locs.len() as int, second);
}

/// Applying a gain is undone by applying as many steps the other way. This is
/// so where the first gain moves every field in full and makes none silent, no
/// two samples have a byte in common, and the boxes are left alone.
pub proof fn lemma_gain_undone(data: Seq<u8>, steps: int)
    requires
        steps != 0,
        gains_of(data) is Ok,
        has_samples_apart(data),
        same_boxes(data, shift_all(data, gains_of(data)->Ok_0, steps)),
        no_gain_clamps(data, gains_of(data)->Ok_0, steps),
    ensures
        gain_applied(data, steps) matches Ok(out) && gain_applied(out, -steps) == Ok::<
            _,
            FaultView,
        >(data),
{
    let locs = gains_of(data)->Ok_0;
    let out = shift_all(data, locs, steps);
    lemma_gains_found_again(data, steps);
    lemma_gains_separate(data);
    lemma_gains_read(data);
    assert forall|k: int| 0 <= k < locs.len() implies fits(data, #[trigger] locs[k]) by {}
    lemma_shift_undone(data, locs, steps);
    lemma_shift_by_place(out, locs, gains_of(out)->Ok_0, locs.len() as int, -steps);
}

/// The number of bytes of the head of the box at `pos`.
pub open spec fn head_len(file: Seq<u8>, pos: int) -> int {
    if be32(file, pos) == 1 {
        16
    } else {
        8
    }
}

/// Whether byte `i` is one of those that lead a search through a file from
/// `pos` on to the box of a type: a byte of one of the heads on the way, or of
/// the box itself.
pub open spec fn guides(file: Seq<u8>, pos: int, box_type: u32, i: int) -> bool
    decreases file.len() - pos,
    when 0 <= pos <= file.len() && file.len() <= u64::MAX
{
    pos <= i < pos + head_len(file, pos) || match scan_step(
        head_of(file, pos),
        pos,
        file.len() as int,
        box_type,
    ) {
        Ok(ScanStep::Skip { next }) => guides(file, next as int, box_type, i),
        Ok(ScanStep::Read { size, normalize }) => pos <= i < pos + size,
        _ => false,
    }
}

/// Whether two files have the same length and the same bytes on the way from
/// `pos` on to the box of a type.
pub open spec fn same_guides(f1: Seq<u8>, f2: Seq<u8>, pos: int, box_type: u32) -> bool {
    &&& f1.len() == f2.len()
    &&& forall|i: int|
        0 <= i < f1.len() && guides(f1, pos, box_type, i) ==> #[trigger] f1[i] == f2[i]
}

/// The head of a box reads the same where the bytes on the way to a box are
/// the same.
proof fn lemma_same_head(f1: Seq<u8>, f2: Seq<u8>, pos: int, box_type: u32)
    requires
        0 <= pos <= f1.len(),
        f1.len() <= u64::MAX,
        same_guides(f1, f2, pos, box_type),
    ensures
        header_at(f1, pos) == header_at(f2, pos),
        scan_step(head_of(f1, pos), pos, f1.len() as int, box_type) == scan_step(
            head_of(f2, pos),
            pos,
            f2.len() as int,
            box_type,
        ),
{
    lemma_head_decides(f1, pos);
    lemma_head_decides(f2, pos);
    if pos + 8 <= f1.len() {
        assert forall|i: int| pos <= i < pos + head_len(f1, pos) && i < f1.len() implies f1[i]
            == f2[i] by {
            assert(guides(f1, pos, box_type, i));
        }
        assert(be32(f1, pos) == be32(f2, pos));
        assert(be32(f1, pos + 4) == be32(f2, pos + 4));
        if be32(f1, pos) == 1 && pos + 16 <= f1.len() {
            assert(be32(f1, pos + 8) == be32(f2, pos + 8));
            assert(be32(f1, pos + 12) == be32(f2, pos + 12));
        }
    }
}

/// The box that a search finds, through a file or in memory, depends on the
/// bytes that lead to it alone.
pub proof fn lemma_guides_decide(f1: Seq<u8>, f2: Seq<u8>, pos: int, box_type: u32)
    requires
        0 <= pos <= f1.len(),
        f1.len() <= u64::MAX,
        same_guides(f1, f2, pos, box_type),
    ensures
        box_in_file(f1, pos, box_type) == box_in_file(f2, pos, box_type),
        box_in_file(f1, pos, box_type) is Ok ==> top_level_box(f1, pos, box_type)
            == top_level_box(f2, pos, box_type),
    decreases f1.len() - pos,
{
    lemma_head_decides(f1, pos);
    lemma_same_head(f1, f2, pos, box_type);
    match scan_step(head_of(f1, pos), pos, f1.len() as int, box_type) {
        Ok(ScanStep::Skip { next }) => {
            assert forall|i: int|
                0 <= i < f1.len() && guides(
                    f1,
                    next as int,
                    box_type,
                    i,
                ) implies #[trigger] f1[i] == f2[i] by {
                assert(guides(f1, pos, box_type, i));
            }
            lemma_guides_decide(f1, f2, next as int, box_type);
        },
        Ok(ScanStep::Read { size, normalize }) => {
            let b1 = f1.subrange(pos, pos + size);
            let b2 = f2.subrange(pos, pos + size);
            assert(b1 =~= b2) by {
                assert forall|k: int| 0 <= k < size implies b1[k] == b2[k] by {
                    assert(guides(f1, pos, box_type, pos + k));
                    assert(f1[pos + k] == f2[pos + k]);
                }
            }
        },
        _ => {},
    }
}

/// Whether byte `i` is one of those that the file type is read from: a byte of
/// the head of the first box, or one of its first 128 bytes.
pub open spec fn tells_type(file: Seq<u8>, i: int) -> bool {
    i < 8 || i < least(128, be32(file, 0))
}

/// The file type depends on the bytes that it is read from alone.
pub proof fn lemma_type_decides(f1: Seq<u8>, f2: Seq<u8>)
    requires
        f1.len() == f2.len(),
        forall|i: int| 0 <= i < f1.len() && tells_type(f1, i) ==> #[trigger] f1[i] == f2[i],
    ensures
        looks_like_mp4(f1) == looks_like_mp4(f2),
{
    if f1.len() >= 12 {
        assert(be32(f1, 0) == be32(f2, 0));
        assert(be32(f1, 4) == be32(f2, 4));
        let end = least(be32(f1, 0), least(f1.len() as int, 128));
        assert forall|i: int| #[trigger] brand_offset(i) && i + 4 <= end implies f1.subrange(
            i,
            i + 4,
        ) == f2.subrange(i, i + 4) by {
            assert(f1.subrange(i, i + 4) =~= f2.subrange(i, i + 4));
        }
        if looks_like_mp4(f1) {
            let i = choose|i: int|
                {
                    &&& #[trigger] brand_offset(i)
                    &&& i + 4 <= end
                    &&& accepted_brand(f1.subrange(i, i + 4))
                };
            assert(accepted_brand(f2.subrange(i, i + 4)));
        }
        if looks_like_mp4(f2) {
            let i = choose|i: int|
                {
                    &&& #[trigger] brand_offset(i)
                    &&& i + 4 <= end
                    &&& accepted_brand(f2.subrange(i, i + 4))
                };
            assert(accepted_brand(f1.subrange(i, i + 4)));
        }
    }
}

/// Whether a byte of a file holds bits of one of the fields.
pub open spec fn touched(locs: Seq<AacGainLocation>, i: int) -> bool {
    exists|k: int|
        0 <= k < locs.len() && (#[trigger] locs[k]).file_bit() < 8 * i + 8 && 8 * i
            < locs[k].file_bit() + 8
}

/// Whether the fields lie outside of what leads to them: the bytes that the
/// file type is read from, the heads of the boxes up to the movie box, and the
/// movie box.
pub open spec fn fields_off_boxes(file: Seq<u8>, locs: Seq<AacGainLocation>) -> bool {
    forall|i: int|
        0 <= i < file.len() && #[trigger] touched(locs, i) ==> !tells_type(file, i) && !guides(
            file,
            0,
            MOOV,
            i,
        )
}

/// Whether byte `i` belongs to one of the samples.
pub open spec fn in_sample(entries: Seq<SampleEntry>, i: int) -> bool {
    exists|j: int|
        0 <= j < entries.len() && (#[trigger] entries[j]).file_offset <= i
            < entries[j].file_offset + entries[j].size
}

/// Whether the samples lie outside of the bytes that the file type is read
/// from, of the heads of the boxes up to the movie box, and of the movie box.
pub open spec fn samples_off_boxes(file: Seq<u8>, entries: Seq<SampleEntry>) -> bool {
    forall|i: int|
        0 <= i < file.len() && #[trigger] in_sample(entries, i) ==> !tells_type(file, i)
            && !guides(file, 0, MOOV, i)
}

/// Where the samples lie outside of what leads to them, so do their gains.
pub proof fn lemma_samples_off_boxes(
    file: Seq<u8>,
    entries: Seq<SampleEntry>,
    locs: Seq<AacGainLocation>,
)
    requires
        samples_off_boxes(file, entries),
        in_samples(entries, locs, 0, 0),
    ensures
        fields_off_boxes(file, locs),
{
    assert forall|i: int| 0 <= i < file.len() && #[trigger] touched(locs, i) implies !tells_type(
        file,
        i,
    ) && !guides(file, 0, MOOV, i) by {
        let k = choose|k: int|
            0 <= k < locs.len() && (#[trigger] locs[k]).file_bit() < 8 * i + 8 && 8 * i
                < locs[k].file_bit() + 8;
        assert(in_own_sample(entries, locs[k]));
        let j = locs[k].sample_index as int;
        assert(entries[j].file_offset <= i < entries[j].file_offset + entries[j].size);
        assert(in_sample(entries, i));
    }
}

/// What leads to the gains of a file stays the same when they are shifted, if
/// the gains lie outside of it.
pub proof fn lemma_shift_off_boxes(file: Seq<u8>, locs: Seq<AacGainLocation>, steps: int)
    requires
        file.len() <= u64::MAX,
        all_fit(file, locs),
        fields_off_boxes(file, locs),
    ensures
        ({
            let out = shift_all(file, locs, steps);
            &&& looks_like_mp4(out) == looks_like_mp4(file)
            &&& box_in_file(out, 0, MOOV) == box_in_file(file, 0, MOOV)
            &&& box_in_file(file, 0, MOOV) is Ok ==> top_level_box(out, 0, MOOV)
                == top_level_box(file, 0, MOOV)
        }),
{
    let out = shift_all(file, locs, steps);
    lemma_shift_first_bits(file, locs, locs.len() as int, steps);
    assert forall|i: int| 0 <= i < file.len() && !touched(locs, i) implies #[trigger] file[i]
        == out[i] by {
        lemma_untouched_byte(file, out, locs, i);
    }
    lemma_type_decides(file, out);
    lemma_guides_decide(file, out, 0, MOOV);
}

/// Whether no two samples of a file have a byte in common.
pub open spec fn file_samples_apart(file: Seq<u8>) -> bool {
    box_in_file(file, 0, MOOV) matches Ok(Some(movie)) ==> has_samples_apart(movie)
}

/// Once the gains of a file are shifted, a search through the file finds them
/// again at the same places, with the shifted values. This is so where no two
/// samples have a byte in common and the gains lie outside of what leads to
/// them.
pub proof fn lemma_file_gains_found_again(file: Seq<u8>, steps: int)
    requires
        file.len() <= u64::MAX,
        file_gains(file) is Ok,
        file_samples_apart(file),
        fields_off_boxes(file, file_gains(file)->Ok_0),
    ensures
        file_gains(shift_all(file, file_gains(file)->Ok_0, steps)) matches Ok(again)
            && shifted_places(file_gains(file)->Ok_0, again, steps),
{
    reveal(gains_from_samples);
    let locs = file_gains(file)->Ok_0;
    let out = shift_all(file, locs, steps);
    let movie = box_in_file(file, 0, MOOV)->Ok_0->0;
    let (entries, stsd_pos) = sample_table(movie)->Ok_0;
    let rate = audio_rate(movie, stsd_pos)->Ok_0;
    lemma_sample_count(movie);
    lemma_survey_read(false, file, entries, 0, rate, nothing_found());
    lemma_survey_places(false, file, entries, 0, rate, nothing_found());
    assert forall|k: int| 0 <= k < locs.len() implies fits(file, #[trigger] locs[k]) by {}
    lemma_shift_first_bits(file, locs, locs.len() as int, steps);
    lemma_shift_off_boxes(file, locs, steps);
    lemma_prefix_decides(file);
    lemma_prefix_decides(out);
    lemma_survey_stable(false, file, out, entries, 0, rate, nothing_found(), nothing_found());
    lemma_survey_read(false, out, entries, 0, rate, nothing_found());
    lemma_found_shifted(file, locs, file_gains(out)->Ok_0, steps);
}

/// A byte that holds no bit of a field is the same.
proof fn lemma_untouched_byte(
    d1: Seq<u8>,
    d2: Seq<u8>,
    locs: Seq<AacGainLocation>,
    i: int,
)
    requires
        same_but_fields(d1, d2, locs),
        0 <= i < d1.len(),
        !touched(locs, i),
    ensures
        d1[i] == d2[i],
{
    assert forall|j: int| 0 <= j < 8 implies #[trigger] bit(d1, 8 * i + j) == bit(
        d2,
        8 * i + j,
    ) by {
        if in_field(locs, 8 * i + j) {
            let k = choose|k: int|
                0 <= k < locs.len() && (#[trigger] locs[k]).file_bit() <= 8 * i + j
                    < locs[k].file_bit() + 8;
            assert(touched(locs, i));
        }
    }
    lemma_bits_agree(d1, 8 * i, d2, 8 * i, 8);
    lemma_byte_value(d1, i);
    lemma_byte_value(d2, i);
}

} // verus!
