//! What a gain does to files whose samples hold frames: every channel of every
//! frame moves, and nothing else changes.
use crate::aac_codebooks::standard_books;
use crate::analysis::{
    entry_gains, gains_of, lemma_gains_read, lemma_sample_gains, nothing_found, sample_gains,
    survey_from, SurveyView,
};
use crate::audio_config::audio_rate;
use crate::bit_reader::readable_len;
use crate::bits::{bit, bits_value};
use crate::block_laws::lemma_read_frame;
use crate::block_model::{
    elements_bits, elements_channels, elements_places, elements_valid, frame_bits, Element, Place,
};
use crate::channel_laws::{holds, lemma_uint_len};
use crate::error::FaultView;
use crate::gain::{fits, gain_applied, gain_in, shift_all, shift_first};
use crate::gain_laws::{
    all_fit, in_field, lemma_shift_first_bits, lemma_shift_moves_every_gain, lemma_shift_one,
    lemma_shift_patches_only_gains,
};
use crate::location::AacGainLocation;
use crate::mp4::looks_like_mp4;
use crate::raw_syntax::raw_data_block;
use crate::reanalysis::{has_samples_apart, lemma_gains_separate, samples_apart};
use crate::sample_table::{sample_table, SampleEntry};
use vstd::prelude::*;

verus! {

/// The gain at a place of the sample number `index`, which starts at
/// `file_offset`.
pub open spec fn gain_of_place(place: Place, index: int, file_offset: u64) -> AacGainLocation {
    AacGainLocation {
        sample_index: index as u32,
        file_offset: (file_offset + place.pos / 8) as u64,
        sample_byte_offset: (place.pos / 8) as u32,
        bit_offset: (place.pos % 8) as u8,
        channel: place.channel,
        original_gain: place.gain as u8,
    }
}

/// The gains of the places of a frame.
pub open spec fn gains_of_frame(
    elements: Seq<Element>,
    index: int,
    file_offset: u64,
) -> Seq<AacGainLocation> {
    let places = elements_places(elements, 0, 0);
    Seq::new(places.len(), |k: int| gain_of_place(places[k], index, file_offset))
}

/// A channel has its gain, which is a byte, in its first eight bits.
proof fn lemma_channel_len(e: Element, pos: int, sample_rate: u32)
    requires
        e.valid(pos, sample_rate),
    ensures
        forall|k: int|
            0 <= k < e.places(pos).len() ==> {
                &&& pos <= (#[trigger] e.places(pos)[k]).pos
                &&& e.places(pos)[k].pos + 8 <= pos + e.bits().len()
                &&& 0 <= e.places(pos)[k].gain <= 255
            },
{
    lemma_uint_len(0, 3);
    lemma_uint_len(1, 3);
    lemma_uint_len(3, 3);
    match e {
        Element::Single { tag, channel } => {
            lemma_uint_len(tag, 4);
            lemma_uint_len(channel.gain, 8);
        },
        Element::LowFrequency { tag, channel } => {
            lemma_uint_len(tag, 4);
            lemma_uint_len(channel.gain, 8);
        },
        Element::Pair { tag, shared, left, right } => {
            lemma_uint_len(tag, 4);
            lemma_uint_len(left.gain, 8);
            lemma_uint_len(right.gain, 8);
        },
        _ => {},
    }
}

/// The places of a frame lie in it, and the gains at them are bytes.
proof fn lemma_places_within(elements: Seq<Element>, pos: int, sample_rate: u32, k: int)
    requires
        0 <= k <= elements.len(),
        elements_valid(elements, pos, sample_rate, k),
    ensures
        forall|m: int|
            0 <= m < elements_places(elements, pos, k).len() ==> {
                &&& pos <= (#[trigger] elements_places(elements, pos, k)[m]).pos
                &&& elements_places(elements, pos, k)[m].pos + 8 <= pos + elements_bits(
                    elements,
                    k,
                ).len()
                &&& 0 <= elements_places(elements, pos, k)[m].gain <= 255
            },
    decreases elements.len() - k,
{
    if k < elements.len() {
        let e = elements[k];
        let n = e.bits().len();
        lemma_channel_len(e, pos, sample_rate);
        lemma_places_within(elements, pos + n, sample_rate, k + 1);
        let all = elements_places(elements, pos, k);
        let first = e.places(pos);
        let rest = elements_places(elements, pos + n, k + 1);
        assert forall|m: int| 0 <= m < all.len() implies {
            &&& pos <= (#[trigger] all[m]).pos
            &&& all[m].pos + 8 <= pos + elements_bits(elements, k).len()
            &&& 0 <= all[m].gain <= 255
        } by {
            if m < first.len() {
                assert(all[m] == first[m]);
            } else {
                assert(all[m] == rest[m - first.len()]);
            }
        }
    }
}

/// A sample that holds a frame has one gain for each channel of the frame: it
/// stands where the channel starts, and has the value of the channel.
pub proof fn lemma_read_sample(
    sample: Seq<u8>,
    elements: Seq<Element>,
    sample_rate: u32,
    index: int,
    file_offset: u64,
)
    requires
        elements_valid(elements, 0, sample_rate, 0),
        holds(sample, 0, frame_bits(elements)),
        sample.len() <= u32::MAX,
        file_offset + sample.len() <= u64::MAX,
    ensures
        sample_gains(sample, sample_rate, index, file_offset) == Some(
            gains_of_frame(elements, index, file_offset),
        ),
        gains_of_frame(elements, index, file_offset).len() == elements_channels(elements, 0),
{
    lemma_read_frame(sample, elements, sample_rate);
    lemma_places_within(elements, 0, sample_rate, 0);
    lemma_uint_len(7, 3);
    let places = elements_places(elements, 0, 0);
    let found = sample_gains(sample, sample_rate, index, file_offset)->0;
    assert forall|k: int| 0 <= k < places.len() implies found[k] == gain_of_place(
        places[k],
        index,
        file_offset,
    ) by {
        let place = places[k];
        assert(place.pos + 8 <= 8 * sample.len());
        assert(place.pos / 8 < sample.len());
    }
    assert(found =~= gains_of_frame(elements, index, file_offset));
}

/// Whatever its bytes are, a sample has all gains of its block, and no others:
/// each one is of this sample, and is as far behind the start of the sample as
/// the block says.
pub proof fn lemma_sample_keeps_gains(
    sample: Seq<u8>,
    sample_rate: u32,
    index: int,
    file_offset: u64,
)
    requires
        sample.len() <= u32::MAX,
        file_offset + sample.len() <= u64::MAX,
        0 <= index <= u32::MAX,
    ensures
        ({
            let block = raw_data_block(
                sample,
                0,
                standard_books(),
                sample_rate,
                Seq::empty(),
            );
            let gains = sample_gains(sample, sample_rate, index, file_offset);
            &&& gains is Some <==> block is Ok
            &&& block matches Ok((found, _)) ==> {
                &&& gains->0.len() == found.len()
                &&& forall|k: int|
                    0 <= k < found.len() ==> {
                        &&& (#[trigger] gains->0[k]).sample_index == index
                        &&& gains->0[k].file_bit() == 8 * file_offset + found[k].sample_bit()
                        &&& gains->0[k].channel == found[k].channel
                        &&& gains->0[k].original_gain == found[k].original_gain
                    }
            }
        }),
{
    lemma_sample_gains(sample, sample_rate, index, file_offset);
    if let Some(gains) = sample_gains(sample, sample_rate, index, file_offset) {
        let block = raw_data_block(sample, 0, standard_books(), sample_rate, Seq::empty());
        let found = block->Ok_0.0;
        assert forall|k: int| 0 <= k < found.len() implies (#[trigger] gains[k]).sample_index
            == index && gains[k].file_bit() == 8 * file_offset + found[k].sample_bit()
            && gains[k].channel == found[k].channel && gains[k].original_gain
            == found[k].original_gain by {
            assert(gains[k].sample_byte_offset == found[k].sample_byte_offset);
        }
    }
}

/// The gains of the samples from number `i` on, where they can be read.
pub open spec fn gains_of_entries(
    data: Seq<u8>,
    entries: Seq<SampleEntry>,
    sample_rate: u32,
    i: int,
) -> Seq<AacGainLocation>
    decreases entries.len() - i,
{
    if i >= entries.len() {
        seq![]
    } else {
        (match entry_gains(true, data, entries[i], i, sample_rate) {
            Ok(Some(gains)) => gains,
            _ => seq![],
        }) + gains_of_entries(data, entries, sample_rate, i + 1)
    }
}

/// Whatever the samples are, a search that comes to an end has found all gains
/// of every sample that can be read, sample by sample, and a warning for every
/// other one.
pub proof fn lemma_survey_keeps_gains(
    data: Seq<u8>,
    entries: Seq<SampleEntry>,
    index: int,
    sample_rate: u32,
    survey: SurveyView,
)
    requires
        0 <= index <= entries.len(),
    ensures
        survey_from(true, data, entries, index, sample_rate, survey) matches Ok(found) ==> {
            &&& found.locations == survey.locations + gains_of_entries(
                data,
                entries,
                sample_rate,
                index,
            )
            &&& survey.warnings <= found.warnings <= survey.warnings + (entries.len() - index)
        },
    decreases entries.len() - index,
{
    if index < entries.len() {
        let rest = gains_of_entries(data, entries, sample_rate, index + 1);
        match entry_gains(true, data, entries[index], index, sample_rate) {
            Ok(Some(gains)) => {
                let next = SurveyView { locations: survey.locations + gains, ..survey };
                lemma_survey_keeps_gains(data, entries, index + 1, sample_rate, next);
                assert(survey.locations + gains + rest =~= survey.locations + (gains + rest));
            },
            Ok(None) => {
                let next = SurveyView { warnings: survey.warnings + 1, ..survey };
                lemma_survey_keeps_gains(data, entries, index + 1, sample_rate, next);
                assert(seq![] + rest =~= rest);
            },
            Err(_) => {},
        }
    } else {
        assert(survey.locations + gains_of_entries(data, entries, sample_rate, index)
            =~= survey.locations);
    }
}

/// Whether a sample of a file holds a frame.
pub open spec fn frame_in_sample(
    data: Seq<u8>,
    entry: SampleEntry,
    elements: Seq<Element>,
    sample_rate: u32,
) -> bool {
    &&& entry.file_offset + entry.size <= data.len()
    &&& readable_len(entry.size as int)
    &&& elements_valid(elements, 0, sample_rate, 0)
    &&& frame_bits(elements).len() <= 8 * entry.size
    &&& holds(data, 8 * entry.file_offset, frame_bits(elements))
}

/// Whether each sample of a file holds a frame.
pub open spec fn frames_in_samples(
    data: Seq<u8>,
    entries: Seq<SampleEntry>,
    frames: Seq<Seq<Element>>,
    sample_rate: u32,
) -> bool {
    &&& frames.len() == entries.len()
    &&& forall|i: int|
        0 <= i < entries.len() ==> frame_in_sample(
            data,
            #[trigger] entries[i],
            frames[i],
            sample_rate,
        )
}

/// The gains of the frames from number `i` on.
pub open spec fn gains_of_frames(
    entries: Seq<SampleEntry>,
    frames: Seq<Seq<Element>>,
    i: int,
) -> Seq<AacGainLocation>
    decreases frames.len() - i,
{
    if i >= frames.len() {
        seq![]
    } else {
        gains_of_frame(frames[i], i, entries[i].file_offset) + gains_of_frames(
            entries,
            frames,
            i + 1,
        )
    }
}

/// How many channels the frames from number `i` on have.
pub open spec fn frames_channels(frames: Seq<Seq<Element>>, i: int) -> nat
    decreases frames.len() - i,
{
    if i >= frames.len() {
        0
    } else {
        elements_channels(frames[i], 0) + frames_channels(frames, i + 1)
    }
}

/// A sample that holds a frame is found with all gains of the frame.
pub proof fn lemma_read_entry(
    in_memory: bool,
    data: Seq<u8>,
    entry: SampleEntry,
    elements: Seq<Element>,
    index: int,
    sample_rate: u32,
)
    requires
        frame_in_sample(data, entry, elements, sample_rate),
        data.len() <= usize::MAX,
    ensures
        entry_gains(in_memory, data, entry, index, sample_rate) == Ok::<_, FaultView>(
            Some(gains_of_frame(elements, index, entry.file_offset)),
        ),
        gains_of_frame(elements, index, entry.file_offset).len() == elements_channels(elements, 0),
{
    let start = entry.file_offset as int;
    let sample = data.subrange(start, start + entry.size);
    let bits = frame_bits(elements);
    assert forall|i: int| 0 <= i < bits.len() implies #[trigger] bits[i] == bit(sample, 0 + i) by {
        assert(bits[i] == bit(data, 8 * start + i));
        assert((8 * start + i) / 8 == start + i / 8);
        assert((8 * start + i) % 8 == i % 8);
    }
    lemma_read_sample(sample, elements, sample_rate, index, entry.file_offset);
}

/// A search through samples that hold frames finds the gains of all frames, one
/// for each channel, and has nothing to warn of.
pub proof fn lemma_survey_frames(
    in_memory: bool,
    data: Seq<u8>,
    entries: Seq<SampleEntry>,
    frames: Seq<Seq<Element>>,
    index: int,
    sample_rate: u32,
    survey: SurveyView,
)
    requires
        0 <= index <= entries.len(),
        frames_in_samples(data, entries, frames, sample_rate),
        data.len() <= usize::MAX,
    ensures
        survey_from(in_memory, data, entries, index, sample_rate, survey) == Ok::<_, FaultView>(
            (SurveyView {
                locations: survey.locations + gains_of_frames(entries, frames, index),
                warnings: survey.warnings,
            }),
        ),
        gains_of_frames(entries, frames, index).len() == frames_channels(frames, index),
    decreases entries.len() - index,
{
    if index < entries.len() {
        assert(frame_in_sample(data, entries[index], frames[index], sample_rate));
        lemma_read_entry(in_memory, data, entries[index], frames[index], index, sample_rate);
        let first = gains_of_frame(frames[index], index, entries[index].file_offset);
        let next = SurveyView { locations: survey.locations + first, ..survey };
        lemma_survey_frames(in_memory, data, entries, frames, index + 1, sample_rate, next);
        let rest = gains_of_frames(entries, frames, index + 1);
        assert(survey.locations + first + rest =~= survey.locations + (first + rest));
    } else {
        assert(survey.locations + gains_of_frames(entries, frames, index) =~= survey.locations);
    }
}

/// Each place of each frame is among the gains of all frames.
proof fn lemma_place_found(
    entries: Seq<SampleEntry>,
    frames: Seq<Seq<Element>>,
    from: int,
    i: int,
    k: int,
) -> (m: int)
    requires
        0 <= from <= i < frames.len(),
        0 <= k < elements_places(frames[i], 0, 0).len(),
    ensures
        0 <= m < gains_of_frames(entries, frames, from).len(),
        gains_of_frames(entries, frames, from)[m] == gain_of_place(
            elements_places(frames[i], 0, 0)[k],
            i,
            entries[i].file_offset,
        ),
    decreases i - from,
{
    if from == i {
        k
    } else {
        let first = gains_of_frame(frames[from], from, entries[from].file_offset);
        let m = lemma_place_found(entries, frames, from + 1, i, k);
        first.len() + m
    }
}

/// Each of the gains of all frames is a place of a frame.
proof fn lemma_found_place(
    entries: Seq<SampleEntry>,
    frames: Seq<Seq<Element>>,
    from: int,
    m: int,
) -> (r: (int, int))
    requires
        0 <= from <= frames.len(),
        0 <= m < gains_of_frames(entries, frames, from).len(),
    ensures
        from <= r.0 < frames.len(),
        0 <= r.1 < elements_places(frames[r.0], 0, 0).len(),
        gains_of_frames(entries, frames, from)[m] == gain_of_place(
            elements_places(frames[r.0], 0, 0)[r.1],
            r.0,
            entries[r.0].file_offset,
        ),
    decreases frames.len() - from,
{
    let first = gains_of_frame(frames[from], from, entries[from].file_offset);
    if m < first.len() {
        (from, m)
    } else {
        lemma_found_place(entries, frames, from + 1, m - first.len())
    }
}

/// The first bit of a place of a sample, counted from the start of the file.
pub open spec fn place_bit(entry: SampleEntry, place: Place) -> int {
    8 * entry.file_offset + place.pos
}

/// The gain of a place stands at the bit of the place.
proof fn lemma_place_bit(
    data: Seq<u8>,
    entry: SampleEntry,
    elements: Seq<Element>,
    sample_rate: u32,
    index: int,
    k: int,
)
    requires
        frame_in_sample(data, entry, elements, sample_rate),
        data.len() <= usize::MAX,
        0 <= k < elements_places(elements, 0, 0).len(),
    ensures
        ({
            let place = elements_places(elements, 0, 0)[k];
            let loc = gain_of_place(place, index, entry.file_offset);
            &&& loc.file_bit() == place_bit(entry, place)
            &&& loc.original_gain == place.gain
            &&& 0 <= place.gain <= 255
        }),
{
    lemma_places_within(elements, 0, sample_rate, 0);
    lemma_uint_len(7, 3);
    let place = elements_places(elements, 0, 0)[k];
    assert(place.pos + 8 <= 8 * entry.size);
    assert(place.pos / 8 < entry.size);
}

/// Whether bit `b` of a file belongs to the gain of a channel of a frame.
pub open spec fn in_channel_gain(
    entries: Seq<SampleEntry>,
    frames: Seq<Seq<Element>>,
    b: int,
) -> bool {
    exists|i: int, k: int|
        0 <= i < frames.len() && 0 <= k < elements_places(frames[i], 0, 0).len() && place_bit(
            entries[i],
            #[trigger] elements_places(frames[i], 0, 0)[k],
        ) <= b < place_bit(entries[i], elements_places(frames[i], 0, 0)[k]) + 8
}

/// A file whose samples hold frames has as many gains as its frames have
/// channels.
pub proof fn lemma_count_gains(
    data: Seq<u8>,
    entries: Seq<SampleEntry>,
    stsd_pos: int,
    sample_rate: u32,
    frames: Seq<Seq<Element>>,
)
    requires
        data.len() <= usize::MAX,
        looks_like_mp4(data),
        sample_table(data) == Ok::<_, FaultView>((entries, stsd_pos)),
        audio_rate(data, stsd_pos) == Ok::<_, FaultView>(sample_rate),
        frames_in_samples(data, entries, frames, sample_rate),
    ensures
        gains_of(data) == Ok::<_, FaultView>(gains_of_frames(entries, frames, 0)),
        gains_of_frames(entries, frames, 0).len() == frames_channels(frames, 0),
{
    lemma_survey_frames(true, data, entries, frames, 0, sample_rate, nothing_found());
    let found = gains_of_frames(entries, frames, 0);
    assert(nothing_found().locations + found =~= found);
}

/// Whether the gain of every channel of every frame has moved by the steps, but
/// not below 0 and not above 255, and not where it was 0, and no other bit of
/// the file has changed.
pub open spec fn channels_moved(
    data: Seq<u8>,
    out: Seq<u8>,
    entries: Seq<SampleEntry>,
    frames: Seq<Seq<Element>>,
    steps: int,
) -> bool {
    &&& out.len() == data.len()
    &&& forall|i: int, k: int|
        0 <= i < frames.len() && 0 <= k < elements_places(frames[i], 0, 0).len() ==> {
            let place = #[trigger] elements_places(frames[i], 0, 0)[k];
            let moved = bits_value(out, place_bit(entries[i], place), 8);
            &&& place.gain == 0 ==> moved == 0
            &&& place.gain != 0 && place.gain + steps < 0 ==> moved == 0
            &&& place.gain != 0 && place.gain + steps > 255 ==> moved == 255
            &&& place.gain != 0 && 0 <= place.gain + steps <= 255 ==> moved == place.gain + steps
        }
    &&& forall|b: int|
        0 <= b < 8 * data.len() && !in_channel_gain(entries, frames, b) ==> #[trigger] bit(out, b)
            == bit(data, b)
}

/// A gain applied to a file whose samples hold frames moves the gain of every
/// channel of every frame: by the steps, but not below 0 and not above 255,
/// and not where it is 0. No other bit of the file changes.
#[verifier::rlimit(40)]
pub proof fn lemma_every_channel_moves(
    data: Seq<u8>,
    entries: Seq<SampleEntry>,
    stsd_pos: int,
    sample_rate: u32,
    frames: Seq<Seq<Element>>,
    steps: int,
)
    requires
        data.len() <= usize::MAX,
        looks_like_mp4(data),
        sample_table(data) == Ok::<_, FaultView>((entries, stsd_pos)),
        audio_rate(data, stsd_pos) == Ok::<_, FaultView>(sample_rate),
        frames_in_samples(data, entries, frames, sample_rate),
        samples_apart(entries),
        steps != 0,
    ensures
        gain_applied(data, steps) matches Ok(out) && channels_moved(
            data,
            out,
            entries,
            frames,
            steps,
        ),
{
    lemma_count_gains(data, entries, stsd_pos, sample_rate, frames);
    let locs = gains_of_frames(entries, frames, 0);
    lemma_gains_read(data);
    assert(all_fit(data, locs)) by {
        assert forall|k: int| 0 <= k < locs.len() implies fits(data, #[trigger] locs[k]) by {}
    }
    assert(has_samples_apart(data));
    lemma_gains_separate(data);
    lemma_shift_moves_every_gain(data, locs, steps);
    lemma_shift_patches_only_gains(data, locs, steps);
    let out = shift_all(data, locs, steps);
    assert forall|i: int, k: int|
        0 <= i < frames.len() && 0 <= k < elements_places(frames[i], 0, 0).len() implies {
        let place = #[trigger] elements_places(frames[i], 0, 0)[k];
        let moved = bits_value(out, place_bit(entries[i], place), 8);
        &&& place.gain == 0 ==> moved == 0
        &&& place.gain != 0 && place.gain + steps < 0 ==> moved == 0
        &&& place.gain != 0 && place.gain + steps > 255 ==> moved == 255
        &&& place.gain != 0 && 0 <= place.gain + steps <= 255 ==> moved == place.gain + steps
    } by {
        let m = lemma_place_found(entries, frames, 0, i, k);
        assert(frame_in_sample(data, entries[i], frames[i], sample_rate));
        lemma_place_bit(data, entries[i], frames[i], sample_rate, i, k);
        assert(gain_in(out, locs[m]) == bits_value(
            out,
            place_bit(entries[i], elements_places(frames[i], 0, 0)[k]),
            8,
        ));
        assert(gain_in(data, locs[m]) == locs[m].original_gain);
    }
    assert forall|b: int|
        0 <= b < 8 * data.len() && !in_channel_gain(entries, frames, b) implies #[trigger] bit(
        out,
        b,
    ) == bit(data, b) by {
        if in_field(locs, b) {
            let m = choose|m: int|
                0 <= m < locs.len() && (#[trigger] locs[m]).file_bit() <= b < locs[m].file_bit()
                    + 8;
            let (i, k) = lemma_found_place(entries, frames, 0, m);
            assert(frame_in_sample(data, entries[i], frames[i], sample_rate));
            lemma_place_bit(data, entries[i], frames[i], sample_rate, i, k);
            let place = elements_places(frames[i], 0, 0)[k];
            assert(place_bit(entries[i], place) <= b < place_bit(entries[i], place) + 8);
        }
    }
}

/// Fields are moved one behind the other, each from the gain that it holds by
/// then: a field that shares bits with an earlier one, or is the same, moves
/// from what the earlier one left. No other bit changes with it.
pub proof fn lemma_fields_move_in_turn(
    data: Seq<u8>,
    locs: Seq<AacGainLocation>,
    n: int,
    steps: int,
)
    requires
        all_fit(data, locs),
        0 < n <= locs.len(),
    ensures
        ({
            let before = shift_first(data, locs, n - 1, steps);
            let after = shift_first(data, locs, n, steps);
            let pos = locs[n - 1].file_bit();
            let gain = bits_value(before, pos, 8) as int;
            let moved = bits_value(after, pos, 8) as int;
            &&& gain == 0 ==> moved == 0
            &&& gain != 0 && gain + steps < 0 ==> moved == 0
            &&& gain != 0 && gain + steps > 255 ==> moved == 255
            &&& gain != 0 && 0 <= gain + steps <= 255 ==> moved == gain + steps
            &&& after.len() == before.len()
            &&& forall|b: int|
                0 <= b < 8 * data.len() && !(pos <= b < pos + 8) ==> #[trigger] bit(after, b)
                    == bit(before, b)
        }),
{
    lemma_shift_first_bits(data, locs, n - 1, steps);
    let before = shift_first(data, locs, n - 1, steps);
    assert(fits(before, locs[n - 1]));
    lemma_shift_one(before, locs[n - 1], steps);
}

} // verus!
