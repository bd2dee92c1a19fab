//! What is turned down: frames that hold what is not supported or not allowed,
//! and files that lack what a gain needs.
use crate::aac_codebooks::standard_books;
use crate::analysis::{entry_gains, gains_of, nothing_found, survey_from, SurveyView};
use crate::audio_config::audio_rate;
use crate::bit_reader::{field, flag, lemma_small_powers, readable_len, skipped};
use crate::bits::{bit, bit_len};
use crate::block_laws::lemma_refuse_coupling;
use crate::block_model::{elements_bits, elements_valid, Element};
use crate::box_laws::{
    head_of, lemma_atom_stands, lemma_bytes_join, lemma_find_no_atom, lemma_number_4, lemma_number_len,
    lemma_read_head,
};
use crate::box_model::{atoms_bytes, atoms_valid, bytes_at, number, Atom};
use crate::channel_laws::{
    holds, lemma_holds_join, lemma_read_bit_field, lemma_read_factors, lemma_read_flag,
    lemma_read_groups_of_sections, lemma_read_pulses, lemma_read_section_len, lemma_read_shaping,
    lemma_read_uint, lemma_books_usable, lemma_uint_len, window_bands, window_view,
};
use crate::error::{ErrorView, FaultView};
use crate::frame_laws::{frame_in_sample, gains_of_frame, lemma_read_entry};
use crate::frame_model::{
    factors_bits, group_sections_bits, ones, section_len_bits, sections_valid, uint, Channel,
    Window,
};
use crate::gain::gain_applied;
use crate::ics_syntax::{
    escape, group_books, ics, ics_body, ics_info, ics_rest, pulse_part, tns_filters,
};
use crate::location::AacGainLocation;
use crate::movie_laws::{lemma_read_track, letters, Track};
use crate::mp4::{
    be32, box_in_container, container_box, looks_like_mp4, top_level_box, BoxHeader, CO64, FTYP,
    MDIA, MOOV, STCO, STSC, STSZ, TRAK,
};
use crate::sample_table::{
    aac_stbl_in_trak, audio_stbl, content_in_container, movie_stbl, offsets_at, sample_table,
    stbl_samples, stsc_runs, stsz_sizes, SampleEntry, StscEntry,
};
use vstd::prelude::*;

verus! {

/// Nothing is read behind the last bit.
pub proof fn lemma_refuse_past_end(data: Seq<u8>, pos: int, n: nat)
    requires
        0 <= pos,
        n > 0,
        pos + n > bit_len(data),
    ensures
        field(data, pos, n) is Err,
        skipped(data, pos, n as int) is Err,
        n == 1 ==> flag(data, pos) is Err,
{
}

/// A long window with prediction is refused.
pub proof fn lemma_refuse_prediction(
    data: Seq<u8>,
    pos: int,
    reserved: bool,
    sequence: int,
    shape: bool,
    max_sfb: int,
)
    requires
        sequence == 0 || sequence == 1 || sequence == 3,
        holds(
            data,
            pos,
            seq![reserved] + uint(sequence, 2) + seq![shape] + uint(max_sfb, 6) + seq![true],
        ),
    ensures
        ics_info(data, pos) is Err,
{
    reveal(ics_info);
    lemma_small_powers();
    let a = seq![reserved];
    let b = uint(sequence, 2);
    let c = seq![shape];
    let d = uint(max_sfb, 6);
    lemma_uint_len(sequence, 2);
    lemma_uint_len(max_sfb, 6);
    lemma_holds_join(data, pos, a + b + c + d, seq![true]);
    lemma_holds_join(data, pos, a + b + c, d);
    lemma_holds_join(data, pos, a + b, c);
    lemma_holds_join(data, pos, a, b);
    lemma_read_bit_field(data, pos, reserved);
    lemma_read_uint(data, pos + 1, sequence, 2);
    lemma_read_bit_field(data, pos + 3, shape);
    lemma_read_flag(data, pos + 10, true);
}

/// A section with the codebook 12 is refused.
pub proof fn lemma_refuse_reserved_book(
    data: Seq<u8>,
    pos: int,
    long: bool,
    max_sfb: int,
    known: Seq<u8>,
)
    requires
        known.len() < max_sfb,
        holds(data, pos, uint(12, 4)),
    ensures
        group_books(data, pos, long, max_sfb, known) is Err,
{
    lemma_small_powers();
    lemma_read_uint(data, pos, 12, 4);
}

/// A section over no band, or over more bands than are left, is refused.
pub proof fn lemma_refuse_section_length(
    data: Seq<u8>,
    pos: int,
    long: bool,
    max_sfb: int,
    known: Seq<u8>,
    book: int,
    len: int,
)
    requires
        known.len() < max_sfb,
        0 <= book <= 15,
        len == 0 || known.len() + len > max_sfb,
        0 <= len,
        holds(data, pos, uint(book, 4) + section_len_bits(len, long)),
    ensures
        group_books(data, pos, long, max_sfb, known) is Err,
{
    lemma_small_powers();
    lemma_uint_len(book, 4);
    lemma_holds_join(data, pos, uint(book, 4), section_len_bits(len, long));
    lemma_read_uint(data, pos, book, 4);
    lemma_read_section_len(data, pos + 4, len, long);
}

/// Pulses in short windows are refused.
pub proof fn lemma_refuse_short_pulses(data: Seq<u8>, pos: int, w: Window)
    requires
        !w.is_long(),
        holds(data, pos, seq![true]),
    ensures
        pulse_part(data, pos, window_view(w)) is Err,
{
    lemma_read_flag(data, pos, true);
}

/// A noise shaping filter over more bands than are left is refused.
pub proof fn lemma_refuse_filter_length(
    data: Seq<u8>,
    pos: int,
    long: bool,
    bands: int,
    res: int,
    n: nat,
    length: int,
)
    requires
        n > 0,
        bands < length < if long {
            64int
        } else {
            16
        },
        0 <= bands,
        holds(
            data,
            pos,
            uint(
                length,
                if long {
                    6
                } else {
                    4
                },
            ),
        ),
    ensures
        tns_filters(data, pos, long, bands, res, n) is Err,
{
    lemma_small_powers();
    let width: nat = if long {
        6
    } else {
        4
    };
    lemma_read_uint(data, pos, length, width);
}

/// An escape sequence with nine set bits is refused.
pub proof fn lemma_refuse_long_escape(data: Seq<u8>, pos: int, n: int)
    requires
        0 <= n <= 8,
        holds(data, pos, ones((9 - n) as nat)),
    ensures
        escape(data, pos, n) is Err,
    decreases 9 - n,
{
    let bits = ones((9 - n) as nat);
    assert(bits[0] == bit(data, pos + 0));
    if n < 8 {
        let rest = ones((8 - n) as nat);
        assert(bits =~= seq![true] + rest);
        lemma_holds_join(data, pos, seq![true], rest);
        lemma_refuse_long_escape(data, pos + 1, n + 1);
    }
}

/// A channel with more bands than its sample rate has is refused.
pub proof fn lemma_refuse_many_bands(
    data: Seq<u8>,
    pos: int,
    w: Window,
    sample_rate: u32,
)
    requires
        w.max_sfb() >= window_bands(w, sample_rate).len(),
    ensures
        ics_rest(data, pos, standard_books(), Some(window_view(w)), sample_rate) is Err,
{
    reveal(ics_rest);
    reveal(ics_body);
}

/// A channel with gain control is refused.
#[verifier::rlimit(40)]
pub proof fn lemma_refuse_gain_control(
    data: Seq<u8>,
    pos: int,
    c: Channel,
    w: Window,
    bands: Seq<usize>,
)
    requires
        c.valid(w, bands),
        holds(
            data,
            pos,
            group_sections_bits(c.sections, w.is_long(), 0) + factors_bits(
                c.books(),
                c.factors,
                c.noise,
                0,
                0,
                false,
            ) + c.pulses_bits() + c.shaping_bits(w) + seq![true],
        ),
    ensures
        ics_body(data, pos, standard_books(), window_view(w), bands) is Err,
{
    reveal(ics_body);
    let a = group_sections_bits(c.sections, w.is_long(), 0);
    let b = factors_bits(c.books(), c.factors, c.noise, 0, 0, false);
    let d = c.pulses_bits();
    let e = c.shaping_bits(w);
    lemma_holds_join(data, pos, a + b + d + e, seq![true]);
    lemma_holds_join(data, pos, a + b + d, e);
    lemma_holds_join(data, pos, a + b, d);
    lemma_holds_join(data, pos, a, b);
    assert(Seq::<Seq<u8>>::empty() =~= c.books().subrange(0, 0));
    lemma_read_groups_of_sections(data, pos, c, w, 0, Seq::empty());
    assert forall|g: int, i: int| 0 <= g < c.books().len() && 0 <= i < c.books()[g].len() implies 0
        <= #[trigger] c.factors[g][i] <= 120 by {
        assert(sections_valid(c.sections[g], w.max_sfb()));
    }
    lemma_books_usable(0);
    let p0 = pos + a.len();
    let p1 = p0 + b.len();
    let p2 = p1 + d.len();
    lemma_read_factors(data, p0, c.books(), c.factors, c.noise, 0, 0, false);
    lemma_read_pulses(data, p1, c, w);
    lemma_read_shaping(data, p2, c, w, bands);
    lemma_read_flag(data, p2 + e.len(), true);
}

/// A channel whose windows cannot be read is refused as a whole.
pub proof fn lemma_refuse_channel(data: Seq<u8>, pos: int, channel: u8, sample_rate: u32)
    requires
        0 <= pos,
        ics_info(data, pos + 8) is Err,
    ensures
        ics(data, pos, standard_books(), channel, None, sample_rate) is Err,
{
    reveal(ics);
    reveal(ics_rest);
}

/// Whether a sample has no gains that could be found: it does not lie in the
/// file, or its frame has a coupling channel.
pub open spec fn unreadable(
    data: Seq<u8>,
    entry: SampleEntry,
    elements: Seq<Element>,
    sample_rate: u32,
) -> bool {
    ||| entry.file_offset + entry.size > data.len()
    ||| {
        let start = entry.file_offset as int;
        &&& readable_len(entry.size as int)
        &&& elements_valid(elements, 0, sample_rate, 0)
        &&& holds(
            data.subrange(start, start + entry.size),
            0,
            elements_bits(elements, 0) + uint(2, 3),
        )
    }
}

/// Whether a sample holds a frame, or, where none is given, has no gains that
/// could be found.
pub open spec fn sample_case(
    data: Seq<u8>,
    entry: SampleEntry,
    frame: (bool, Seq<Element>),
    sample_rate: u32,
) -> bool {
    &&& entry.file_offset + entry.size <= usize::MAX
    &&& frame.0 ==> frame_in_sample(data, entry, frame.1, sample_rate)
    &&& !frame.0 ==> unreadable(data, entry, frame.1, sample_rate)
}

/// The gains of the samples from number `i` on that hold frames.
pub open spec fn gains_of_readable(
    entries: Seq<SampleEntry>,
    frames: Seq<(bool, Seq<Element>)>,
    i: int,
) -> Seq<AacGainLocation>
    decreases frames.len() - i,
{
    if i >= frames.len() {
        seq![]
    } else if frames[i].0 {
        gains_of_frame(frames[i].1, i, entries[i].file_offset) + gains_of_readable(
            entries,
            frames,
            i + 1,
        )
    } else {
        gains_of_readable(entries, frames, i + 1)
    }
}

/// How many samples from number `i` on hold no frame.
pub open spec fn count_unreadable(frames: Seq<(bool, Seq<Element>)>, i: int) -> int
    decreases frames.len() - i,
{
    if i >= frames.len() {
        0
    } else {
        count_unreadable(frames, i + 1) + if frames[i].0 {
            0int
        } else {
            1
        }
    }
}

/// A sample that cannot be read costs a warning, and none of the gains of the
/// other samples.
pub proof fn lemma_survey_readable(
    data: Seq<u8>,
    entries: Seq<SampleEntry>,
    frames: Seq<(bool, Seq<Element>)>,
    index: int,
    sample_rate: u32,
    survey: SurveyView,
)
    requires
        0 <= index <= entries.len(),
        frames.len() == entries.len(),
        data.len() <= usize::MAX,
        forall|i: int|
            0 <= i < entries.len() ==> sample_case(
                data,
                #[trigger] entries[i],
                frames[i],
                sample_rate,
            ),
    ensures
        survey_from(true, data, entries, index, sample_rate, survey) == Ok::<_, FaultView>(
            (SurveyView {
                locations: survey.locations + gains_of_readable(entries, frames, index),
                warnings: survey.warnings + count_unreadable(frames, index),
            }),
        ),
    decreases entries.len() - index,
{
    if index < entries.len() {
        let entry = entries[index];
        let frame = frames[index];
        assert(sample_case(data, entry, frame, sample_rate));
        let rest = gains_of_readable(entries, frames, index + 1);
        if frame.0 {
            lemma_read_entry(true, data, entry, frame.1, index, sample_rate);
            let first = gains_of_frame(frame.1, index, entry.file_offset);
            let next = SurveyView { locations: survey.locations + first, ..survey };
            lemma_survey_readable(data, entries, frames, index + 1, sample_rate, next);
            assert(survey.locations + first + rest =~= survey.locations + (first + rest));
        } else {
            let start = entry.file_offset as int;
            if start + entry.size <= data.len() {
                let sample = data.subrange(start, start + entry.size);
                lemma_refuse_coupling(sample, frame.1, sample_rate);
            }
            assert(entry_gains(true, data, entry, index, sample_rate) == Ok::<_, FaultView>(
                None::<Seq<AacGainLocation>>,
            ));
            let next = SurveyView { warnings: survey.warnings + 1, ..survey };
            lemma_survey_readable(data, entries, frames, index + 1, sample_rate, next);
        }
    } else {
        assert(survey.locations + gains_of_readable(entries, frames, index) =~= survey.locations);
    }
}

/// A file has the gains of those of its samples that can be read. It is turned
/// down, with the number of samples that cannot, only where it has no gain at
/// all and such a sample.
pub proof fn lemma_gains_of_readable(
    data: Seq<u8>,
    entries: Seq<SampleEntry>,
    stsd_pos: int,
    sample_rate: u32,
    frames: Seq<(bool, Seq<Element>)>,
)
    requires
        data.len() <= usize::MAX,
        looks_like_mp4(data),
        sample_table(data) == Ok::<_, FaultView>((entries, stsd_pos)),
        audio_rate(data, stsd_pos) == Ok::<_, FaultView>(sample_rate),
        frames.len() == entries.len(),
        forall|i: int|
            0 <= i < entries.len() ==> sample_case(
                data,
                #[trigger] entries[i],
                frames[i],
                sample_rate,
            ),
    ensures
        ({
            let found = gains_of_readable(entries, frames, 0);
            let missed = count_unreadable(frames, 0);
            if found.len() == 0 && missed > 0 {
                gains_of(data) == Err::<Seq<AacGainLocation>, _>(
                    FaultView::Reject(ErrorView::AacParseFailure { warnings: missed as u32 }),
                )
            } else {
                gains_of(data) == Ok::<_, FaultView>(found)
            }
        }),
{
    lemma_survey_readable(data, entries, frames, 0, sample_rate, nothing_found());
    let found = gains_of_readable(entries, frames, 0);
    assert(nothing_found().locations + found =~= found);
}

/// A gain of no steps is refused, whatever the bytes are.
pub proof fn lemma_refuse_no_steps(data: Seq<u8>)
    ensures
        gain_applied(data, 0) == Err::<Seq<u8>, _>(FaultView::Reject(ErrorView::ZeroGainSteps)),
{
}

/// Bytes that do not start with a file type box are refused.
pub proof fn lemma_refuse_other_files(data: Seq<u8>, steps: int)
    requires
        steps != 0,
        data.len() < 12 || be32(data, 4) != FTYP,
    ensures
        gain_applied(data, steps) == Err::<Seq<u8>, _>(FaultView::Reject(ErrorView::NotMp4)),
{
}

/// A file type box without room for a brand, or with its size in eight bytes,
/// is refused.
pub proof fn lemma_refuse_file_type(data: Seq<u8>, a: Atom, steps: int)
    requires
        steps != 0,
        a.valid(),
        a.kind == FTYP,
        a.wide || a.content.len() < 4,
        a.size() <= u64::MAX,
        bytes_at(data, 0, a.bytes()),
    ensures
        gain_applied(data, steps) == Err::<Seq<u8>, _>(FaultView::Reject(ErrorView::NotMp4)),
{
    lemma_number_len(1, 4);
    lemma_number_len(a.kind, 4);
    lemma_number_len(a.size(), 4);
    lemma_number_len(a.size(), 8);
    if a.wide {
        let x = number(1, 4);
        let y = number(a.kind, 4);
        let z = number(a.size(), 8);
        lemma_bytes_join(data, 0, x + y + z, a.content);
        lemma_bytes_join(data, 0, x + y, z);
        lemma_bytes_join(data, 0, x, y);
        lemma_number_4(data, 0, 1);
    } else {
        let x = number(a.size(), 4);
        let y = number(a.kind, 4);
        lemma_bytes_join(data, 0, x + y, a.content);
        lemma_bytes_join(data, 0, x, y);
        lemma_number_4(data, 0, a.size());
    }
}

/// A box that goes up to the end of the file ends a search: what stands behind
/// its head is not looked at as boxes.
pub proof fn lemma_open_box_ends_search(data: Seq<u8>, pos: int, end: int, own: int, kind: u32)
    requires
        0 <= own < 0x1_0000_0000,
        own != kind,
        bytes_at(data, pos, number(0, 4) + number(own, 4)),
        pos + 8 <= end,
        data.len() + 8 <= usize::MAX,
    ensures
        top_level_box(data, pos, kind) == Ok::<_, FaultView>(None::<(int, BoxHeader)>),
        container_box(data, pos, end, kind) == Ok::<_, FaultView>(None::<(int, BoxHeader)>),
{
    lemma_number_len(0, 4);
    lemma_number_len(own, 4);
    lemma_bytes_join(data, pos, number(0, 4), number(own, 4));
    lemma_number_4(data, pos, 0);
    lemma_number_4(data, pos + 4, own);
}

/// Whatever the bytes are, a file that is taken for an MP4 file starts with a
/// file type box that has room for a brand.
pub proof fn lemma_file_type_needed(data: Seq<u8>)
    ensures
        looks_like_mp4(data) ==> {
            &&& data.len() >= 12
            &&& data.subrange(4, 8) == letters('f', 't', 'y', 'p')
            &&& be32(data, 0) >= 12
        },
{
    if looks_like_mp4(data) {
        assert(data.subrange(4, 8) =~= letters('f', 't', 'y', 'p'));
    }
}

/// A box that reaches up to the end of what is searched, or behind it, ends a
/// search for another type.
pub proof fn lemma_long_box_ends_search(
    data: Seq<u8>,
    pos: int,
    end: int,
    size: int,
    own: int,
    kind: u32,
)
    requires
        8 <= size < 0x1_0000_0000,
        0 <= own < 0x1_0000_0000,
        own != kind,
        bytes_at(data, pos, number(size, 4) + number(own, 4)),
        pos + 8 <= end,
        pos + size + 8 <= usize::MAX,
    ensures
        pos + size >= data.len() ==> top_level_box(data, pos, kind) == Ok::<_, FaultView>(
            None::<(int, BoxHeader)>,
        ),
        pos + size + 8 > end ==> container_box(data, pos, end, kind) == Ok::<_, FaultView>(
            None::<(int, BoxHeader)>,
        ),
{
    reveal_with_fuel(container_box, 2);
    lemma_number_len(size, 4);
    lemma_number_len(own, 4);
    lemma_bytes_join(data, pos, number(size, 4), number(own, 4));
    lemma_number_4(data, pos, size);
    lemma_number_4(data, pos + 4, own);
}

/// A description of samples that the file cuts off gives no rate.
pub proof fn lemma_refuse_cut_description(data: Seq<u8>, stsd_pos: int)
    requires
        stsd_pos + 52 > data.len(),
    ensures
        audio_rate(data, stsd_pos) is Err,
{
    reveal(audio_rate);
}

/// A search through the boxes of a whole file finds nothing where no box has
/// the type.
proof fn lemma_find_no_top_atom(data: Seq<u8>, pos: int, atoms: Seq<Atom>, k: int, kind: u32)
    requires
        0 <= k <= atoms.len(),
        atoms_valid(atoms),
        bytes_at(data, pos, atoms_bytes(atoms, k)),
        pos + atoms_bytes(atoms, k).len() == data.len(),
        data.len() + 8 <= usize::MAX,
        forall|i: int| k <= i < atoms.len() ==> (#[trigger] atoms[i]).kind != kind,
    ensures
        top_level_box(data, pos, kind) == Ok::<_, FaultView>(None::<(int, BoxHeader)>),
    decreases atoms.len() - k,
{
    if k < atoms.len() {
        let a = atoms[k];
        lemma_bytes_join(data, pos, a.bytes(), atoms_bytes(atoms, k + 1));
        lemma_atom_stands(data, pos, atoms, k, k);
        assert(a.valid());
        lemma_read_head(data, pos, a);
        lemma_find_no_top_atom(data, pos + a.size(), atoms, k + 1, kind);
    }
}

/// A file without a movie box is refused.
pub proof fn lemma_refuse_no_movie(data: Seq<u8>, atoms: Seq<Atom>, steps: int)
    requires
        steps != 0,
        looks_like_mp4(data),
        atoms_valid(atoms),
        bytes_at(data, 0, atoms_bytes(atoms, 0)),
        atoms_bytes(atoms, 0).len() == data.len(),
        data.len() + 8 <= usize::MAX,
        forall|i: int| 0 <= i < atoms.len() ==> (#[trigger] atoms[i]).kind != MOOV,
    ensures
        gain_applied(data, steps) == Err::<Seq<u8>, _>(FaultView::Reject(ErrorView::NoMoovBox)),
{
    reveal(sample_table);
    reveal(movie_stbl);
    lemma_find_no_top_atom(data, 0, atoms, 0, MOOV);
}

/// Tracks that are not of AAC audio lead to no sample table.
#[verifier::rlimit(40)]
pub proof fn lemma_refuse_other_tracks(data: Seq<u8>, atoms: Seq<Atom>, pos: int, k: int)
    requires
        0 <= k <= atoms.len(),
        0 <= pos,
        atoms_valid(atoms),
        bytes_at(data, pos, atoms_bytes(atoms, k)),
        data.len() + 8 <= usize::MAX,
        forall|i: int|
            k <= i < atoms.len() && (#[trigger] atoms[i]).kind == TRAK ==> exists|t: Track|
                t.written(atoms[i]) && !t.is_audio(),
    ensures
        audio_stbl(data, pos, pos + atoms_bytes(atoms, k).len()) == Err::<(int, int, int), _>(
            FaultView::Reject(ErrorView::NoAacTrack),
        ),
    decreases atoms.len() - k,
{
    let end = pos + atoms_bytes(atoms, k).len();
    if k < atoms.len() {
        let a = atoms[k];
        let next = pos + a.size();
        lemma_bytes_join(data, pos, a.bytes(), atoms_bytes(atoms, k + 1));
        lemma_atom_stands(data, pos, atoms, k, k);
        assert(a.valid());
        lemma_read_head(data, pos, a);
        lemma_refuse_other_tracks(data, atoms, next, k + 1);
        if a.kind == TRAK {
            assert(box_in_container(data, pos, end - pos, TRAK) == Ok::<_, FaultView>(
                Some((pos, head_of(a))),
            )) by {
                reveal(box_in_container);
            }
            let t = choose|t: Track| t.written(a) && !t.is_audio();
            lemma_read_track(data, pos, a, t);
        } else {
            assert(next < end ==> box_in_container(data, pos, end - pos, TRAK)
                == box_in_container(data, next, end - next, TRAK)) by {
                reveal(box_in_container);
            }
            assert(next >= end ==> box_in_container(data, pos, end - pos, TRAK) == Ok::<
                _,
                FaultView,
            >(None::<(int, BoxHeader)>)) by {
                reveal(box_in_container);
            }
        }
    }
}

/// A sample table without sizes, without runs of chunks, or without chunk
/// offsets of either width is refused.
pub proof fn lemma_refuse_missing_table(data: Seq<u8>, start: int, atoms: Seq<Atom>)
    requires
        atoms_valid(atoms),
        bytes_at(data, start, atoms_bytes(atoms, 0)),
        data.len() + 8 <= usize::MAX,
    ensures
        no_kind(atoms, STSZ) ==> stbl_samples(data, start, atoms_bytes(atoms, 0).len() as int)
            is Err,
        no_kind(atoms, STSC) ==> stbl_samples(data, start, atoms_bytes(atoms, 0).len() as int)
            is Err,
        no_kind(atoms, STCO) && no_kind(atoms, CO64) ==> stbl_samples(
            data,
            start,
            atoms_bytes(atoms, 0).len() as int,
        ) is Err,
{
    reveal(stbl_samples);
    reveal(box_in_container);
    if no_kind(atoms, STSZ) {
        lemma_find_no_atom(data, start, atoms, 0, STSZ);
    }
    if no_kind(atoms, STSC) {
        lemma_find_no_atom(data, start, atoms, 0, STSC);
    }
    if no_kind(atoms, STCO) && no_kind(atoms, CO64) {
        lemma_find_no_atom(data, start, atoms, 0, STCO);
        lemma_find_no_atom(data, start, atoms, 0, CO64);
    }
}

/// Tables that have more entries than the file has room for point outside of
/// the file.
pub proof fn lemma_refuse_cut_tables(data: Seq<u8>, pos: int, flags: Seq<u8>, n: int)
    requires
        flags.len() == 4,
        0 <= n < 0x1_0000_0000,
    ensures
        bytes_at(data, pos, flags + number(0, 4) + number(n, 4)) && pos + 12 + 4 * n > data.len()
            ==> stsz_sizes(data, pos) == Err::<Seq<u32>, _>(FaultView::OutOfRange),
        bytes_at(data, pos, flags + number(n, 4)) && n > 0 && pos + 4 + 12 * n > data.len()
            ==> stsc_runs(data, pos) == Err::<Seq<StscEntry>, _>(FaultView::OutOfRange),
        bytes_at(data, pos, flags + number(n, 4)) && pos + 8 + 4 * n > data.len() ==> offsets_at(
            data,
            pos,
            4,
        ) == Err::<Seq<u64>, _>(FaultView::OutOfRange),
        bytes_at(data, pos, flags + number(n, 4)) && pos + 8 + 8 * n > data.len() ==> offsets_at(
            data,
            pos,
            8,
        ) == Err::<Seq<u64>, _>(FaultView::OutOfRange),
{
    lemma_number_len(0, 4);
    lemma_number_len(n, 4);
    if bytes_at(data, pos, flags + number(0, 4) + number(n, 4)) {
        lemma_bytes_join(data, pos, flags + number(0, 4), number(n, 4));
        lemma_bytes_join(data, pos, flags, number(0, 4));
        lemma_number_4(data, pos + 4, 0);
        lemma_number_4(data, pos + 8, n);
    }
    if bytes_at(data, pos, flags + number(n, 4)) {
        lemma_bytes_join(data, pos, flags, number(n, 4));
        lemma_number_4(data, pos + 4, n);
    }
}

/// Whether no box has the type.
pub open spec fn no_kind(atoms: Seq<Atom>, kind: u32) -> bool {
    forall|i: int| 0 <= i < atoms.len() ==> (#[trigger] atoms[i]).kind != kind
}

/// A track without a media box is passed over.
pub proof fn lemma_track_without_media(data: Seq<u8>, pos: int, a: Atom, kids: Seq<Atom>)
    requires
        a.valid(),
        a.content == atoms_bytes(kids, 0),
        atoms_valid(kids),
        no_kind(kids, MDIA),
        bytes_at(data, pos, a.bytes()),
        data.len() + 8 <= usize::MAX,
    ensures
        aac_stbl_in_trak(data, head_of(a), pos) == Ok::<_, FaultView>(None::<(int, int, int)>),
{
    lemma_number_len(1, 4);
    lemma_number_len(a.kind, 4);
    lemma_number_len(a.size(), 4);
    lemma_number_len(a.size(), 8);
    lemma_read_head(data, pos, a);
    assert(content_in_container(data, pos + a.head(), a.content.len() as int, MDIA) == Ok::<
        _,
        FaultView,
    >(None::<(int, int)>)) by {
        reveal(box_in_container);
        lemma_find_no_atom(data, pos + a.head(), kids, 0, MDIA);
    }
}

/// A movie box that goes up to the end of a file in memory has no track.
pub proof fn lemma_open_movie(data: Seq<u8>, atoms: Seq<Atom>)
    requires
        atoms_valid(atoms),
        no_kind(atoms, MOOV),
        bytes_at(data, 0, atoms_bytes(atoms, 0) + (number(0, 4) + number(MOOV as int, 4))),
        data.len() + 8 <= usize::MAX,
    ensures
        movie_stbl(data) == Err::<(int, int, int), _>(FaultView::Reject(ErrorView::NoAacTrack)),
{
    reveal(movie_stbl);
    let head = number(0, 4) + number(MOOV as int, 4);
    lemma_bytes_join(data, 0, atoms_bytes(atoms, 0), head);
    lemma_open_movie_found(data, 0, atoms, 0);
}

/// A search through the boxes of a file finds a movie box that goes up to its
/// end.
proof fn lemma_open_movie_found(data: Seq<u8>, pos: int, atoms: Seq<Atom>, k: int)
    requires
        0 <= k <= atoms.len(),
        atoms_valid(atoms),
        no_kind(atoms, MOOV),
        bytes_at(data, pos, atoms_bytes(atoms, k)),
        bytes_at(
            data,
            pos + atoms_bytes(atoms, k).len(),
            number(0, 4) + number(MOOV as int, 4),
        ),
        data.len() + 8 <= usize::MAX,
    ensures
        top_level_box(data, pos, MOOV) == Ok::<_, FaultView>(
            Some(
                (
                    pos + atoms_bytes(atoms, k).len(),
                    (BoxHeader { size: 0, box_type: MOOV, header_size: 8 }),
                ),
            ),
        ),
    decreases atoms.len() - k,
{
    lemma_number_len(0, 4);
    lemma_number_len(MOOV as int, 4);
    if k < atoms.len() {
        let a = atoms[k];
        lemma_bytes_join(data, pos, a.bytes(), atoms_bytes(atoms, k + 1));
        lemma_atom_stands(data, pos, atoms, k, k);
        assert(a.valid());
        lemma_read_head(data, pos, a);
        lemma_open_movie_found(data, pos + a.size(), atoms, k + 1);
    } else {
        lemma_bytes_join(data, pos, number(0, 4), number(MOOV as int, 4));
        lemma_number_4(data, pos, 0);
        lemma_number_4(data, pos + 4, MOOV as int);
    }
}

} // verus!
