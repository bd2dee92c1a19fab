//! A frame reads as it was written: every channel of every element gives one
//! gain, and nothing else does.
use crate::aac_codebooks::{lemma_standard_books_valid, standard_books};
use crate::bit_reader::{aligned, field, fields, lemma_small_powers};
use crate::bits::bit_len;
use crate::block_model::{
    data_count_bits, elements_bits, elements_channels, elements_places, elements_valid,
    fill_count_bits, frame_bits, optional_bits, Element, Mask, Place, Program, Shared,
};
use crate::channel_laws::{
    holds, lemma_holds_join, lemma_numbers_len, lemma_read_any, lemma_read_fields, lemma_read_flag,
    lemma_read_own_channel, lemma_read_shared_channel, lemma_read_uint, lemma_read_window,
    lemma_uint_len, read_ok, window_bands, window_view,
};
use crate::frame_model::{numbers_bits, uint, Channel};
use crate::ics_syntax::{gain_at, ics, IcsView};
use crate::location::AacGainLocation;
use crate::raw_syntax::{
    cpe, dse, dse_count, element, fil, fil_count, optional, pce, pce_counts, pce_lists,
    pce_mixdown, raw_data_block, sce, shared_layout, PceCounts,
};
use vstd::prelude::*;

verus! {

/// The gains at the places.
pub open spec fn gains_at(places: Seq<Place>) -> Seq<AacGainLocation> {
    Seq::new(places.len(), |k: int| gain_at(places[k].pos, places[k].channel, places[k].gain))
}

/// The windows that a pair shares, as a reader knows them.
spec fn shared_view(shared: Option<Shared>) -> Option<IcsView> {
    match shared {
        Some(s) => Some(window_view(s.window)),
        None => None,
    }
}

/// What a pair shares reads as it was written. The mask takes a bit for each
/// band of each group where its code is 1, and none for any other code.
pub proof fn lemma_read_shared(data: Seq<u8>, pos: int, shared: Option<Shared>)
    requires
        shared matches Some(s) ==> s.valid(),
        holds(data, pos, Element::shared_bits(shared)),
    ensures
        shared_layout(data, pos) == read_ok(
            match shared {
                Some(s) => Some(window_view(s.window)),
                None => None,
            },
            pos + Element::shared_bits(shared).len(),
        ),
{
    reveal(shared_layout);
    lemma_small_powers();
    match shared {
        Some(s) => {
            let head = s.window.bits(s.reserved, s.shape);
            lemma_holds_join(data, pos, seq![true], s.bits());
            lemma_read_flag(data, pos, true);
            let p = pos + 1 + head.len();
            match s.mask {
                Mask::Bands(marks) => {
                    lemma_holds_join(data, pos + 1, head, uint(1, 2) + marks);
                    lemma_uint_len(1, 2);
                    lemma_holds_join(data, p, uint(1, 2), marks);
                    lemma_read_uint(data, p, 1, 2);
                    lemma_read_fields(data, p + 2, 1, marks.len());
                },
                Mask::Code(code) => {
                    lemma_holds_join(data, pos + 1, head, uint(code, 2));
                    lemma_uint_len(code, 2);
                    lemma_read_uint(data, p, code, 2);
                },
            }
            lemma_read_window(data, pos + 1, s.window, s.reserved, s.shape);
        },
        None => {
            lemma_read_flag(data, pos, false);
        },
    }
}

/// A channel of a pair reads as it was written.
proof fn lemma_read_pair_channel(
    data: Seq<u8>,
    pos: int,
    shared: Option<Shared>,
    c: Channel,
    channel: u8,
    sample_rate: u32,
)
    requires
        ({
            let w = Element::channel_window(shared, c);
            c.valid(w, window_bands(w, sample_rate))
        }),
        holds(data, pos, Element::channel_bits(shared, c)),
    ensures
        ({
            let r = ics(data, pos, standard_books(), channel, shared_view(shared), sample_rate);
            r matches Ok(((loc, _), p)) && loc == gain_at(pos, channel, c.gain) && p == pos
                + Element::channel_bits(shared, c).len()
        }),
{
    match shared {
        Some(s) => {
            lemma_read_shared_channel(data, pos, c, s.window, channel, sample_rate);
        },
        None => {
            lemma_read_own_channel(data, pos, c, channel, sample_rate);
        },
    }
}

/// A single channel reads as it was written.
proof fn lemma_read_single(data: Seq<u8>, pos: int, tag: int, c: Channel, sample_rate: u32)
    requires
        c.valid(c.window, window_bands(c.window, sample_rate)),
        holds(data, pos, uint(tag, 4) + c.own_bits()),
    ensures
        sce(data, pos, standard_books(), sample_rate) == read_ok(
            seq![gain_at(pos + 4, 0, c.gain)],
            pos + 4 + c.own_bits().len(),
        ),
{
    reveal(sce);
    lemma_uint_len(tag, 4);
    lemma_holds_join(data, pos, uint(tag, 4), c.own_bits());
    lemma_read_any(data, pos, 4);
    lemma_read_own_channel(data, pos + 4, c, 0, sample_rate);
}

/// A pair of channels reads as it was written.
#[verifier::rlimit(40)]
proof fn lemma_read_pair(
    data: Seq<u8>,
    pos: int,
    tag: int,
    shared: Option<Shared>,
    left: Channel,
    right: Channel,
    sample_rate: u32,
)
    requires
        (Element::Pair { tag, shared, left, right }).valid(0, sample_rate),
        holds(
            data,
            pos,
            uint(tag, 4) + Element::shared_bits(shared) + Element::channel_bits(shared, left)
                + Element::channel_bits(shared, right),
        ),
    ensures
        ({
            let p = pos + 4 + Element::shared_bits(shared).len();
            let q = p + Element::channel_bits(shared, left).len();
            cpe(data, pos, standard_books(), sample_rate) == read_ok(
                seq![gain_at(p, 0, left.gain), gain_at(q, 1, right.gain)],
                q + Element::channel_bits(shared, right).len(),
            )
        }),
{
    reveal(cpe);
    let a = uint(tag, 4);
    let b = Element::shared_bits(shared);
    let l = Element::channel_bits(shared, left);
    let r = Element::channel_bits(shared, right);
    lemma_uint_len(tag, 4);
    lemma_holds_join(data, pos, a + b + l, r);
    lemma_holds_join(data, pos, a + b, l);
    lemma_holds_join(data, pos, a, b);
    lemma_read_any(data, pos, 4);
    lemma_read_shared(data, pos + 4, shared);
    let p = pos + 4 + b.len();
    lemma_read_pair_channel(data, p, shared, left, 0, sample_rate);
    lemma_read_pair_channel(data, p + l.len(), shared, right, 1, sample_rate);
}

/// Data is passed over up to its last bit.
#[verifier::rlimit(40)]
proof fn lemma_read_data(data: Seq<u8>, pos: int, e: Element, sample_rate: u32)
    requires
        e is Data,
        e.valid(pos - 3, sample_rate),
        holds(data, pos - 3, e.bits()),
    ensures
        dse(data, pos) == read_ok((), pos - 3 + e.bits().len()),
{
    reveal(dse);
    lemma_small_powers();
    if let Element::Data { tag, aligned: align, padding, payload } = e {
        let n = payload.len() as int / 8;
        let a = uint(tag, 4);
        let b = seq![align];
        let c = data_count_bits(n);
        lemma_uint_len(4, 3);
        lemma_uint_len(tag, 4);
        lemma_uint_len(n, 8);
        lemma_uint_len(255, 8);
        lemma_uint_len(n - 255, 8);
        lemma_holds_join(data, pos - 3, uint(4, 3), a + b + c + padding + payload);
        lemma_holds_join(data, pos, a + b + c + padding, payload);
        lemma_holds_join(data, pos, a + b + c, padding);
        lemma_holds_join(data, pos, a + b, c);
        lemma_holds_join(data, pos, a, b);
        lemma_read_any(data, pos, 4);
        lemma_read_flag(data, pos + 4, align);
        if n < 255 {
            lemma_read_uint(data, pos + 5, n, 8);
        } else {
            lemma_holds_join(data, pos + 5, uint(255, 8), uint(n - 255, 8));
            lemma_read_uint(data, pos + 5, 255, 8);
            lemma_read_uint(data, pos + 13, n - 255, 8);
        }
        assert(dse_count(data, pos + 5) == read_ok(n, pos + 5 + c.len()));
        let p = pos + 5 + c.len();
        if align {
            lemma_aligned(p, padding.len() as int);
        }
    }
}

/// The byte boundary behind a position is fewer than eight bits away.
proof fn lemma_aligned(p: int, n: int)
    requires
        0 <= n < 8,
        (p + n) % 8 == 0,
    ensures
        aligned(p) == p + n,
{
}

/// Fill bytes are passed over up to their last bit.
proof fn lemma_read_fill(data: Seq<u8>, pos: int, payload: Seq<bool>)
    requires
        payload.len() % 8 == 0,
        payload.len() <= 8 * 269,
        holds(data, pos, fill_count_bits(payload.len() as int / 8) + payload),
    ensures
        fil(data, pos) == read_ok(
            (),
            pos + fill_count_bits(payload.len() as int / 8).len() + payload.len(),
        ),
{
    reveal(fil);
    lemma_small_powers();
    let n = payload.len() as int / 8;
    let c = fill_count_bits(n);
    lemma_uint_len(n, 4);
    lemma_uint_len(15, 4);
    lemma_uint_len(n - 14, 8);
    lemma_holds_join(data, pos, c, payload);
    if n < 15 {
        lemma_read_uint(data, pos, n, 4);
    } else {
        lemma_holds_join(data, pos, uint(15, 4), uint(n - 14, 8));
        lemma_read_uint(data, pos, 15, 4);
        lemma_read_uint(data, pos + 4, n - 14, 8);
    }
    assert(fil_count(data, pos) == read_ok(n, pos + c.len()));
}

/// The lengths of the lists of a program read as they were written.
#[verifier::rlimit(40)]
proof fn lemma_read_counts(data: Seq<u8>, pos: int, pr: Program, at: int)
    requires
        pr.valid(at),
        holds(data, pos, pr.head + pr.counts_bits()),
    ensures
        pce_counts(data, pos) == read_ok(
            PceCounts {
                front: pr.front.len() as int,
                side: pr.side.len() as int,
                back: pr.back.len() as int,
                lfe: pr.lfe.len() as int,
                assoc_data: pr.data.len() as int,
                valid_cc: pr.coupling.len() as int,
            },
            pos + 31,
        ),
        (pr.head + pr.counts_bits()).len() == 31,
{
    reveal(pce_counts);
    lemma_small_powers();
    let a = uint(pr.front.len() as int, 4);
    let b = uint(pr.side.len() as int, 4);
    let c = uint(pr.back.len() as int, 4);
    let d = uint(pr.lfe.len() as int, 2);
    let e = uint(pr.data.len() as int, 3);
    let f = uint(pr.coupling.len() as int, 4);
    lemma_uint_len(pr.front.len() as int, 4);
    lemma_uint_len(pr.side.len() as int, 4);
    lemma_uint_len(pr.back.len() as int, 4);
    lemma_uint_len(pr.lfe.len() as int, 2);
    lemma_uint_len(pr.data.len() as int, 3);
    lemma_uint_len(pr.coupling.len() as int, 4);
    lemma_holds_join(data, pos, pr.head, pr.counts_bits());
    let p = pos + 10;
    lemma_holds_join(data, p, a + b + c + d + e, f);
    lemma_holds_join(data, p, a + b + c + d, e);
    lemma_holds_join(data, p, a + b + c, d);
    lemma_holds_join(data, p, a + b, c);
    lemma_holds_join(data, p, a, b);
    lemma_read_any(data, pos, 4);
    lemma_read_any(data, pos + 4, 2);
    lemma_read_any(data, pos + 6, 4);
    lemma_read_uint(data, p, pr.front.len() as int, 4);
    lemma_read_uint(data, p + 4, pr.side.len() as int, 4);
    lemma_read_uint(data, p + 8, pr.back.len() as int, 4);
    lemma_read_uint(data, p + 12, pr.lfe.len() as int, 2);
    lemma_read_uint(data, p + 14, pr.data.len() as int, 3);
    lemma_read_uint(data, p + 17, pr.coupling.len() as int, 4);
}

/// A number that may be missing is passed over up to its last bit.
proof fn lemma_read_optional(data: Seq<u8>, pos: int, number: Option<int>, n: nat)
    requires
        holds(data, pos, optional_bits(number, n)),
    ensures
        optional(data, pos, n) == read_ok((), pos + optional_bits(number, n).len()),
{
    match number {
        Some(v) => {
            lemma_uint_len(v, n);
            lemma_holds_join(data, pos, seq![true], uint(v, n));
            lemma_read_flag(data, pos, true);
            lemma_read_any(data, pos + 1, n);
        },
        None => {
            lemma_read_flag(data, pos, false);
        },
    }
}

/// The mixdowns of a program are passed over up to their last bit.
proof fn lemma_read_mixdown(data: Seq<u8>, pos: int, pr: Program)
    requires
        holds(data, pos, pr.mixdown_bits()),
    ensures
        pce_mixdown(data, pos) == read_ok((), pos + pr.mixdown_bits().len()),
{
    reveal(pce_mixdown);
    let a = optional_bits(pr.mono, 4);
    let b = optional_bits(pr.stereo, 4);
    let c = optional_bits(pr.matrix, 3);
    lemma_holds_join(data, pos, a + b, c);
    lemma_holds_join(data, pos, a, b);
    lemma_read_optional(data, pos, pr.mono, 4);
    lemma_read_optional(data, pos + a.len(), pr.stereo, 4);
    lemma_read_optional(data, pos + a.len() + b.len(), pr.matrix, 3);
}

/// A list is passed over up to its last bit.
proof fn lemma_read_list(data: Seq<u8>, pos: int, list: Seq<int>, width: nat)
    requires
        holds(data, pos, numbers_bits(list, width, 0)),
    ensures
        fields(data, pos, width, list.len()) == read_ok(
            (),
            pos + numbers_bits(list, width, 0).len(),
        ),
{
    lemma_numbers_len(list, width, 0);
    assert(width * (list.len() - 0) == width * list.len());
    lemma_read_fields(data, pos, width, list.len());
}

/// The lists of a program are passed over up to their last bit.
#[verifier::rlimit(40)]
proof fn lemma_read_lists(data: Seq<u8>, pos: int, pr: Program, n: PceCounts)
    requires
        holds(data, pos, pr.lists_bits()),
        n.front == pr.front.len(),
        n.side == pr.side.len(),
        n.back == pr.back.len(),
        n.lfe == pr.lfe.len(),
        n.assoc_data == pr.data.len(),
        n.valid_cc == pr.coupling.len(),
    ensures
        pce_lists(data, pos, n) == read_ok((), pos + pr.lists_bits().len()),
{
    reveal(pce_lists);
    let a = numbers_bits(pr.front, 5, 0);
    let b = numbers_bits(pr.side, 5, 0);
    let c = numbers_bits(pr.back, 5, 0);
    let d = numbers_bits(pr.lfe, 4, 0);
    let e = numbers_bits(pr.data, 4, 0);
    let f = numbers_bits(pr.coupling, 5, 0);
    lemma_holds_join(data, pos, a + b + c + d + e, f);
    lemma_holds_join(data, pos, a + b + c + d, e);
    lemma_holds_join(data, pos, a + b + c, d);
    lemma_holds_join(data, pos, a + b, c);
    lemma_holds_join(data, pos, a, b);
    let p1 = pos + a.len();
    let p2 = p1 + b.len();
    let p3 = p2 + c.len();
    let p4 = p3 + d.len();
    let p5 = p4 + e.len();
    lemma_read_list(data, pos, pr.front, 5);
    lemma_read_list(data, p1, pr.side, 5);
    lemma_read_list(data, p2, pr.back, 5);
    lemma_read_list(data, p3, pr.lfe, 4);
    lemma_read_list(data, p4, pr.data, 4);
    lemma_read_list(data, p5, pr.coupling, 5);
}

/// The description of a program is passed over up to its last bit.
#[verifier::rlimit(40)]
proof fn lemma_read_program(data: Seq<u8>, pos: int, pr: Program)
    requires
        pr.valid(pos),
        holds(data, pos, pr.bits()),
    ensures
        pce(data, pos) == read_ok((), pos + pr.bits().len()),
{
    reveal(pce);
    lemma_small_powers();
    let n = pr.comment.len() as int / 8;
    let a = pr.head + pr.counts_bits();
    let b = pr.mixdown_bits();
    let c = pr.lists_bits();
    lemma_uint_len(n, 8);
    lemma_holds_join(data, pos, a + b + c + pr.padding + uint(n, 8), pr.comment);
    lemma_holds_join(data, pos, a + b + c + pr.padding, uint(n, 8));
    lemma_holds_join(data, pos, a + b + c, pr.padding);
    lemma_holds_join(data, pos, a + b, c);
    lemma_holds_join(data, pos, a, b);
    lemma_read_counts(data, pos, pr, pos);
    lemma_read_mixdown(data, pos + 31, pr);
    let counts = PceCounts {
        front: pr.front.len() as int,
        side: pr.side.len() as int,
        back: pr.back.len() as int,
        lfe: pr.lfe.len() as int,
        assoc_data: pr.data.len() as int,
        valid_cc: pr.coupling.len() as int,
    };
    lemma_read_lists(data, pos + 31 + b.len(), pr, counts);
    let p = pos + 31 + b.len() + c.len();
    assert(pr.front_bits().len() == 31 + b.len() + c.len());
    lemma_aligned(p, pr.padding.len() as int);
    lemma_read_uint(data, p + pr.padding.len(), n, 8);
}

/// Whatever the bits are, a low frequency channel is read as a single channel
/// is, and only a coupling channel is refused for what it is.
pub proof fn lemma_low_frequency_is_single(data: Seq<u8>, pos: int, sample_rate: u32)
    ensures
        element(data, pos, standard_books(), sample_rate, 3) == element(
            data,
            pos,
            standard_books(),
            sample_rate,
            0,
        ),
        element(data, pos, standard_books(), sample_rate, 2) is Err,
{
    reveal(element);
}

/// Whatever the bits are, an element that can be read gives a gain for each of
/// its channels: one for a single or a low frequency channel, two for a pair,
/// the left one before the right one, and none for anything else.
pub proof fn lemma_element_gains(data: Seq<u8>, pos: int, sample_rate: u32, id: int)
    requires
        0 <= id < 7,
    ensures
        element(data, pos, standard_books(), sample_rate, id) matches Ok((gains, _)) ==> {
            &&& id == 0 || id == 3 ==> gains.len() == 1 && gains[0].channel == 0
            &&& id == 1 ==> gains.len() == 2 && gains[0].channel == 0 && gains[1].channel == 1
            &&& id != 0 && id != 1 && id != 3 ==> gains.len() == 0
        },
{
    reveal(element);
    reveal(sce);
    reveal(cpe);
    reveal(ics);
}

/// The three bits that say which element comes.
pub open spec fn element_id(e: Element) -> int {
    match e {
        Element::Single { .. } => 0,
        Element::Pair { .. } => 1,
        Element::LowFrequency { .. } => 3,
        Element::Data { .. } => 4,
        Element::Program(_) => 5,
        Element::Fill { .. } => 6,
    }
}

/// An element reads as it was written: a gain for each of its channels, where
/// the channel starts, and no gain for anything else.
#[verifier::rlimit(40)]
pub proof fn lemma_read_element(data: Seq<u8>, pos: int, e: Element, sample_rate: u32)
    requires
        e.valid(pos, sample_rate),
        holds(data, pos, e.bits()),
    ensures
        field(data, pos, 3) == read_ok(element_id(e), pos + 3),
        element(data, pos + 3, standard_books(), sample_rate, element_id(e)) == read_ok(
            gains_at(e.places(pos)),
            pos + e.bits().len(),
        ),
        e.bits().len() >= 3,
        e.places(pos).len() == e.channels(),
{
    reveal(element);
    lemma_small_powers();
    let id = element_id(e);
    lemma_uint_len(id, 3);
    match e {
        Element::Single { tag, channel } => {
            let rest = uint(tag, 4) + channel.own_bits();
            lemma_uint_len(tag, 4);
            lemma_holds_join(data, pos, uint(id, 3), rest);
            lemma_read_single(data, pos + 3, tag, channel, sample_rate);
            assert(gains_at(e.places(pos)) =~= seq![gain_at(pos + 7, 0, channel.gain)]);
        },
        Element::LowFrequency { tag, channel } => {
            let rest = uint(tag, 4) + channel.own_bits();
            lemma_uint_len(tag, 4);
            lemma_holds_join(data, pos, uint(id, 3), rest);
            lemma_read_single(data, pos + 3, tag, channel, sample_rate);
            assert(gains_at(e.places(pos)) =~= seq![gain_at(pos + 7, 0, channel.gain)]);
        },
        Element::Pair { tag, shared, left, right } => {
            let b = Element::shared_bits(shared);
            let l = Element::channel_bits(shared, left);
            let r = Element::channel_bits(shared, right);
            lemma_uint_len(tag, 4);
            lemma_holds_join(data, pos, uint(id, 3), uint(tag, 4) + b + l + r);
            lemma_read_pair(data, pos + 3, tag, shared, left, right, sample_rate);
            let p = pos + 7 + b.len();
            assert(gains_at(e.places(pos)) =~= seq![
                gain_at(p, 0, left.gain),
                gain_at(p + l.len(), 1, right.gain),
            ]);
        },
        Element::Data { tag, aligned: align, padding, payload } => {
            lemma_holds_join(
                data,
                pos,
                uint(id, 3),
                uint(tag, 4) + seq![align] + data_count_bits(payload.len() as int / 8) + padding
                    + payload,
            );
            lemma_read_data(data, pos + 3, e, sample_rate);
            assert(gains_at(e.places(pos)) =~= Seq::empty());
        },
        Element::Program(program) => {
            lemma_holds_join(data, pos, uint(id, 3), program.bits());
            lemma_read_program(data, pos + 3, program);
            assert(gains_at(e.places(pos)) =~= Seq::empty());
        },
        Element::Fill { payload } => {
            lemma_holds_join(
                data,
                pos,
                uint(id, 3),
                fill_count_bits(payload.len() as int / 8) + payload,
            );
            lemma_read_fill(data, pos + 3, payload);
            assert(gains_at(e.places(pos)) =~= Seq::empty());
        },
    }
    lemma_read_uint(data, pos, id, 3);
}

/// Reading a frame from an element on is reading that element and then the
/// frame from the next one on.
#[verifier::rlimit(40)]
proof fn lemma_read_elements(
    data: Seq<u8>,
    pos: int,
    elements: Seq<Element>,
    sample_rate: u32,
    k: int,
    known: Seq<AacGainLocation>,
)
    requires
        0 <= k <= elements.len(),
        elements_valid(elements, pos, sample_rate, k),
        holds(data, pos, elements_bits(elements, k)),
    ensures
        ({
            let end = pos + elements_bits(elements, k).len();
            let gains = gains_at(elements_places(elements, pos, k));
            &&& elements_places(elements, pos, k).len() == elements_channels(elements, k)
            &&& raw_data_block(data, pos, standard_books(), sample_rate, known) == raw_data_block(
                data,
                end,
                standard_books(),
                sample_rate,
                known + gains,
            )
        }),
    decreases elements.len() - k,
{
    lemma_standard_books_valid();
    if k < elements.len() {
        let e = elements[k];
        let a = e.bits();
        lemma_holds_join(data, pos, a, elements_bits(elements, k + 1));
        lemma_read_element(data, pos, e, sample_rate);
        let first = gains_at(e.places(pos));
        lemma_read_elements(
            data,
            pos + a.len(),
            elements,
            sample_rate,
            k + 1,
            known + first,
        );
        let rest = gains_at(elements_places(elements, pos + a.len(), k + 1));
        assert(gains_at(elements_places(elements, pos, k)) =~= first + rest);
        assert(known + first + rest =~= known + (first + rest));
    } else {
        assert(known + gains_at(elements_places(elements, pos, k)) =~= known);
    }
}

/// A frame reads as it was written: it has one gain for each of its channels,
/// in the order of the channels, and each gain stands in the eight bits at the
/// start of its channel. What comes behind the end is not looked at.
pub proof fn lemma_read_frame(data: Seq<u8>, elements: Seq<Element>, sample_rate: u32)
    requires
        elements_valid(elements, 0, sample_rate, 0),
        holds(data, 0, frame_bits(elements)),
    ensures
        raw_data_block(data, 0, standard_books(), sample_rate, Seq::empty()) == read_ok(
            gains_at(elements_places(elements, 0, 0)),
            frame_bits(elements).len() as int,
        ),
        elements_places(elements, 0, 0).len() == elements_channels(elements, 0),
{
    lemma_standard_books_valid();
    lemma_small_powers();
    let a = elements_bits(elements, 0);
    lemma_holds_join(data, 0, a, uint(7, 3));
    lemma_uint_len(7, 3);
    lemma_read_elements(data, 0, elements, sample_rate, 0, Seq::empty());
    lemma_read_uint(data, a.len() as int, 7, 3);
    let gains = gains_at(elements_places(elements, 0, 0));
    assert(Seq::<AacGainLocation>::empty() + gains =~= gains);
}

/// A frame may also end without saying so, where no element fits any more.
pub proof fn lemma_read_frame_without_end(
    data: Seq<u8>,
    elements: Seq<Element>,
    sample_rate: u32,
)
    requires
        elements_valid(elements, 0, sample_rate, 0),
        holds(data, 0, elements_bits(elements, 0)),
        bit_len(data) - elements_bits(elements, 0).len() < 3,
    ensures
        raw_data_block(data, 0, standard_books(), sample_rate, Seq::empty()) == read_ok(
            gains_at(elements_places(elements, 0, 0)),
            elements_bits(elements, 0).len() as int,
        ),
{
    lemma_standard_books_valid();
    lemma_read_elements(data, 0, elements, sample_rate, 0, Seq::empty());
    let gains = gains_at(elements_places(elements, 0, 0));
    assert(Seq::<AacGainLocation>::empty() + gains =~= gains);
}

/// A frame with a coupling channel is refused, whatever elements come before
/// it.
pub proof fn lemma_refuse_coupling(data: Seq<u8>, elements: Seq<Element>, sample_rate: u32)
    requires
        elements_valid(elements, 0, sample_rate, 0),
        holds(data, 0, elements_bits(elements, 0) + uint(2, 3)),
    ensures
        raw_data_block(data, 0, standard_books(), sample_rate, Seq::empty()) is Err,
{
    reveal(element);
    lemma_standard_books_valid();
    lemma_small_powers();
    let a = elements_bits(elements, 0);
    lemma_holds_join(data, 0, a, uint(2, 3));
    lemma_uint_len(2, 3);
    lemma_read_elements(data, 0, elements, sample_rate, 0, Seq::empty());
    lemma_read_uint(data, a.len() as int, 2, 3);
}

} // verus!
