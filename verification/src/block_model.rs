//! The elements of an AAC frame, and how they are written one behind the
//! other.
use crate::channel_laws::window_bands;
use crate::frame_model::{numbers_bits, uint, Channel, Window};
use vstd::prelude::*;

verus! {

/// Which bands of a channel pair are coded as middle and side: one bit for each
/// band of each group, or a code that stands for all of them.
pub enum Mask {
    Bands(Seq<bool>),
    Code(int),
}

/// The windows that the channels of a pair share, and their mask.
pub struct Shared {
    pub window: Window,
    pub reserved: bool,
    pub shape: bool,
    pub mask: Mask,
}

impl Shared {
    pub open spec fn valid(self) -> bool {
        &&& self.window.valid()
        &&& match self.mask {
            Mask::Bands(marks) => marks.len() == self.window.group_lens().len()
                * self.window.max_sfb(),
            Mask::Code(code) => code == 0 || code == 2 || code == 3,
        }
    }

    /// The windows, the code of the mask, and the mask itself for the code 1
    /// only.
    pub open spec fn bits(self) -> Seq<bool> {
        self.window.bits(self.reserved, self.shape) + match self.mask {
            Mask::Bands(marks) => uint(1, 2) + marks,
            Mask::Code(code) => uint(code, 2),
        }
    }
}

/// The description of a program: its head, the lists of its elements, its
/// mixdowns and a comment.
pub struct Program {
    pub head: Seq<bool>,
    pub front: Seq<int>,
    pub side: Seq<int>,
    pub back: Seq<int>,
    pub lfe: Seq<int>,
    pub data: Seq<int>,
    pub coupling: Seq<int>,
    pub mono: Option<int>,
    pub stereo: Option<int>,
    pub matrix: Option<int>,
    pub padding: Seq<bool>,
    pub comment: Seq<bool>,
}

/// A bit that says whether there is a number, and the number.
pub open spec fn optional_bits(number: Option<int>, n: nat) -> Seq<bool> {
    match number {
        Some(v) => seq![true] + uint(v, n),
        None => seq![false],
    }
}

impl Program {
    /// The lengths of the lists.
    pub open spec fn counts_bits(self) -> Seq<bool> {
        uint(self.front.len() as int, 4) + uint(self.side.len() as int, 4) + uint(
            self.back.len() as int,
            4,
        ) + uint(self.lfe.len() as int, 2) + uint(self.data.len() as int, 3) + uint(
            self.coupling.len() as int,
            4,
        )
    }

    /// The three mixdowns.
    pub open spec fn mixdown_bits(self) -> Seq<bool> {
        optional_bits(self.mono, 4) + optional_bits(self.stereo, 4) + optional_bits(self.matrix, 3)
    }

    /// The lists.
    pub open spec fn lists_bits(self) -> Seq<bool> {
        numbers_bits(self.front, 5, 0) + numbers_bits(self.side, 5, 0) + numbers_bits(
            self.back,
            5,
            0,
        ) + numbers_bits(self.lfe, 4, 0) + numbers_bits(self.data, 4, 0) + numbers_bits(
            self.coupling,
            5,
            0,
        )
    }

    /// What comes before the comment.
    pub open spec fn front_bits(self) -> Seq<bool> {
        self.head + self.counts_bits() + self.mixdown_bits() + self.lists_bits()
    }

    pub open spec fn bits(self) -> Seq<bool> {
        self.front_bits() + self.padding + uint(self.comment.len() as int / 8, 8) + self.comment
    }

    /// Whether the description can be written at `pos`: its lists and its
    /// comment are not too long, and the comment starts on a byte boundary.
    pub open spec fn valid(self, pos: int) -> bool {
        &&& self.head.len() == 10
        &&& self.front.len() < 16
        &&& self.side.len() < 16
        &&& self.back.len() < 16
        &&& self.lfe.len() < 4
        &&& self.data.len() < 8
        &&& self.coupling.len() < 16
        &&& self.padding.len() < 8
        &&& (pos + self.front_bits().len() + self.padding.len()) % 8 == 0
        &&& self.comment.len() % 8 == 0
        &&& self.comment.len() < 8 * 256
    }
}

/// An element of a frame: one channel, a low frequency channel, a pair of
/// channels, data, the description of a program, or fill bytes.
pub enum Element {
    Single { tag: int, channel: Channel },
    LowFrequency { tag: int, channel: Channel },
    Pair { tag: int, shared: Option<Shared>, left: Channel, right: Channel },
    Data { tag: int, aligned: bool, padding: Seq<bool>, payload: Seq<bool> },
    Program(Program),
    Fill { payload: Seq<bool> },
}

/// The number of bytes of data: up to 254 in one byte, up to 510 in two.
pub open spec fn data_count_bits(n: int) -> Seq<bool> {
    if n < 255 {
        uint(n, 8)
    } else {
        uint(255, 8) + uint(n - 255, 8)
    }
}

/// The number of fill bytes: up to 14 in four bits, up to 269 in twelve.
pub open spec fn fill_count_bits(n: int) -> Seq<bool> {
    if n < 15 {
        uint(n, 4)
    } else {
        uint(15, 4) + uint(n - 14, 8)
    }
}

/// Where a gain stands: its first bit, the number of its channel in its
/// element, and its value.
pub struct Place {
    pub pos: int,
    pub channel: u8,
    pub gain: int,
}

impl Element {
    /// The bits between the tag of a channel pair and its first gain.
    pub open spec fn shared_bits(shared: Option<Shared>) -> Seq<bool> {
        match shared {
            Some(s) => seq![true] + s.bits(),
            None => seq![false],
        }
    }

    /// A channel of a pair, which may have windows of its own.
    pub open spec fn channel_bits(shared: Option<Shared>, c: Channel) -> Seq<bool> {
        match shared {
            Some(s) => c.shared_bits(s.window),
            None => c.own_bits(),
        }
    }

    /// The windows of a channel of a pair.
    pub open spec fn channel_window(shared: Option<Shared>, c: Channel) -> Window {
        match shared {
            Some(s) => s.window,
            None => c.window,
        }
    }

    /// The element as bits: three bits that say which one it is, and the rest.
    pub open spec fn bits(self) -> Seq<bool> {
        match self {
            Element::Single { tag, channel } => uint(0, 3) + (uint(tag, 4) + channel.own_bits()),
            Element::Pair { tag, shared, left, right } => uint(1, 3) + (uint(tag, 4)
                + Element::shared_bits(shared) + Element::channel_bits(shared, left)
                + Element::channel_bits(shared, right)),
            Element::LowFrequency { tag, channel } => uint(3, 3) + (uint(tag, 4)
                + channel.own_bits()),
            Element::Data { tag, aligned, padding, payload } => uint(4, 3) + (uint(tag, 4)
                + seq![aligned] + data_count_bits(payload.len() as int / 8) + padding + payload),
            Element::Program(program) => uint(5, 3) + program.bits(),
            Element::Fill { payload } => uint(6, 3) + (fill_count_bits(payload.len() as int / 8)
                + payload),
        }
    }

    /// Whether the element can be written at `pos` for a sample rate.
    pub open spec fn valid(self, pos: int, sample_rate: u32) -> bool {
        match self {
            Element::Single { channel, .. } => channel.valid(
                channel.window,
                window_bands(channel.window, sample_rate),
            ),
            Element::LowFrequency { channel, .. } => channel.valid(
                channel.window,
                window_bands(channel.window, sample_rate),
            ),
            Element::Pair { shared, left, right, .. } => {
                let lw = Element::channel_window(shared, left);
                let rw = Element::channel_window(shared, right);
                &&& shared matches Some(s) ==> s.valid()
                &&& left.valid(lw, window_bands(lw, sample_rate))
                &&& right.valid(rw, window_bands(rw, sample_rate))
            },
            Element::Data { aligned, padding, payload, .. } => {
                let n = payload.len() as int / 8;
                &&& payload.len() % 8 == 0
                &&& n <= 510
                &&& padding.len() < 8
                &&& aligned ==> (pos + 8 + data_count_bits(n).len() + padding.len()) % 8 == 0
                &&& !aligned ==> padding.len() == 0
            },
            Element::Program(program) => program.valid(pos + 3),
            Element::Fill { payload } => payload.len() % 8 == 0 && payload.len() <= 8 * 269,
        }
    }

    /// Where the gains of the element stand when it starts at `pos`: behind the
    /// kind and the tag of a single channel, and behind what a pair shares and
    /// behind its left channel.
    pub open spec fn places(self, pos: int) -> Seq<Place> {
        match self {
            Element::Single { channel, .. } => seq![
                Place { pos: pos + 7, channel: 0, gain: channel.gain },
            ],
            Element::LowFrequency { channel, .. } => seq![
                Place { pos: pos + 7, channel: 0, gain: channel.gain },
            ],
            Element::Pair { shared, left, right, .. } => {
                let first = pos + 7 + Element::shared_bits(shared).len();
                seq![
                    Place { pos: first, channel: 0, gain: left.gain },
                    Place {
                        pos: first + Element::channel_bits(shared, left).len(),
                        channel: 1,
                        gain: right.gain,
                    },
                ]
            },
            _ => seq![],
        }
    }

    /// How many channels the element has.
    pub open spec fn channels(self) -> nat {
        match self {
            Element::Single { .. } => 1,
            Element::LowFrequency { .. } => 1,
            Element::Pair { .. } => 2,
            _ => 0,
        }
    }
}

/// The elements from number `k` on, as bits.
pub open spec fn elements_bits(elements: Seq<Element>, k: int) -> Seq<bool>
    decreases elements.len() - k,
{
    if k >= elements.len() {
        seq![]
    } else {
        elements[k].bits() + elements_bits(elements, k + 1)
    }
}

/// Whether the elements from number `k` on can be written from `pos` on.
pub open spec fn elements_valid(
    elements: Seq<Element>,
    pos: int,
    sample_rate: u32,
    k: int,
) -> bool
    decreases elements.len() - k,
{
    k >= elements.len() || (elements[k].valid(pos, sample_rate) && elements_valid(
        elements,
        pos + elements[k].bits().len(),
        sample_rate,
        k + 1,
    ))
}

/// Where the gains of the elements from number `k` on stand.
pub open spec fn elements_places(elements: Seq<Element>, pos: int, k: int) -> Seq<Place>
    decreases elements.len() - k,
{
    if k >= elements.len() {
        seq![]
    } else {
        elements[k].places(pos) + elements_places(
            elements,
            pos + elements[k].bits().len(),
            k + 1,
        )
    }
}

/// How many channels the elements from number `k` on have.
pub open spec fn elements_channels(elements: Seq<Element>, k: int) -> nat
    decreases elements.len() - k,
{
    if k >= elements.len() {
        0
    } else {
        elements[k].channels() + elements_channels(elements, k + 1)
    }
}

/// A frame: its elements and the end.
pub open spec fn frame_bits(elements: Seq<Element>) -> Seq<bool> {
    elements_bits(elements, 0) + uint(7, 3)
}

} // verus!
