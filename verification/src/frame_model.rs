//! What an AAC frame says, and how it is written: a model of the channels and
//! the other elements of a frame, with the bits that an encoder puts down for
//! them.
use crate::aac_codebooks::{scf_book, spectrum_book};
use crate::huffman::Codebook;
use vstd::prelude::*;

verus! {

/// A number in `n` bits, the most significant one first.
pub open spec fn uint(v: int, n: nat) -> Seq<bool>
    decreases n,
{
    if n == 0 {
        seq![]
    } else {
        uint(v / 2, (n - 1) as nat).push(v % 2 == 1)
    }
}

/// The windows of a frame. A long window is the only one; eight short windows
/// are taken together in groups.
pub enum Window {
    Long { sequence: int, max_sfb: int },
    Short { max_sfb: int, groups: Seq<int> },
}

/// The sum of the numbers from `i` on.
pub open spec fn sum_from(s: Seq<int>, i: int) -> int
    decreases s.len() - i,
{
    if i >= s.len() {
        0
    } else {
        s[i] + sum_from(s, i + 1)
    }
}

/// Whether a group later than number `g` starts `w` windows behind the start
/// of the group number `g`.
pub open spec fn group_starts(groups: Seq<int>, g: int, w: int) -> bool
    decreases groups.len() - g,
{
    g < groups.len() && w >= groups[g] && (w == groups[g] || group_starts(
        groups,
        g + 1,
        w - groups[g],
    ))
}

impl Window {
    /// The number of scale factor bands in use.
    pub open spec fn max_sfb(self) -> int {
        match self {
            Window::Long { max_sfb, .. } => max_sfb,
            Window::Short { max_sfb, .. } => max_sfb,
        }
    }

    /// Whether there is one long window.
    pub open spec fn is_long(self) -> bool {
        self is Long
    }

    /// The number of windows in each group.
    pub open spec fn group_lens(self) -> Seq<int> {
        match self {
            Window::Long { .. } => seq![1int],
            Window::Short { groups, .. } => groups,
        }
    }

    /// Whether the windows can be written.
    pub open spec fn valid(self) -> bool {
        match self {
            Window::Long { sequence, max_sfb } => (sequence == 0 || sequence == 1 || sequence
                == 3) && 0 <= max_sfb < 64,
            Window::Short { max_sfb, groups } => 0 <= max_sfb < 16 && sum_from(groups, 0) == 8
                && forall|g: int| 0 <= g < groups.len() ==> #[trigger] groups[g] >= 1,
        }
    }

    /// The windows as bits: a reserved bit, the sequence, the shape, the number
    /// of bands, and either the absence of prediction or, for each short window
    /// but the first, whether it joins the group before it.
    pub open spec fn bits(self, reserved: bool, shape: bool) -> Seq<bool> {
        match self {
            Window::Long { sequence, max_sfb } => seq![reserved] + uint(sequence, 2) + seq![shape]
                + uint(max_sfb, 6) + seq![false],
            Window::Short { max_sfb, groups } => seq![reserved] + uint(2, 2) + seq![shape] + uint(
                max_sfb,
                4,
            ) + Seq::new(7, |w: int| !group_starts(groups, 0, w + 1)),
        }
    }
}

/// A run of bands with the same codebook.
pub struct Section {
    pub book: int,
    pub len: int,
}

/// The length of a section: as many full numbers as go into it, then the rest.
pub open spec fn section_len_bits(len: int, long: bool) -> Seq<bool>
    decreases len,
{
    if long {
        if len < 31 {
            uint(len, 5)
        } else {
            uint(31, 5) + section_len_bits(len - 31, long)
        }
    } else {
        if len < 7 {
            uint(len, 3)
        } else {
            uint(7, 3) + section_len_bits(len - 7, long)
        }
    }
}

/// The sections of a group from number `k` on.
pub open spec fn sections_bits(sections: Seq<Section>, long: bool, k: int) -> Seq<bool>
    decreases sections.len() - k,
{
    if k >= sections.len() {
        seq![]
    } else {
        uint(sections[k].book, 4) + section_len_bits(sections[k].len, long) + sections_bits(
            sections,
            long,
            k + 1,
        )
    }
}

/// The codebooks of the bands that the sections from number `k` on cover.
pub open spec fn section_bands(sections: Seq<Section>, k: int) -> Seq<u8>
    decreases sections.len() - k,
{
    if k >= sections.len() {
        seq![]
    } else {
        Seq::new(sections[k].len as nat, |i: int| sections[k].book as u8) + section_bands(
            sections,
            k + 1,
        )
    }
}

/// Whether the sections cover so many bands.
pub open spec fn sections_valid(sections: Seq<Section>, max_sfb: int) -> bool {
    &&& section_bands(sections, 0).len() == max_sfb
    &&& forall|k: int|
        0 <= k < sections.len() ==> {
            &&& (#[trigger] sections[k]).len >= 1
            &&& 0 <= sections[k].book <= 15
            &&& sections[k].book != 12
        }
}

/// The code of a symbol.
pub open spec fn code_bits(book: Codebook, symbol: int) -> Seq<bool> {
    uint(book.codes[symbol] as int, book.lens[symbol] as nat)
}

/// A pulse of a long window.
pub struct Pulse {
    pub offset: int,
    pub amplitude: int,
}

/// The pulses from number `k` on.
pub open spec fn pulse_list_bits(pulses: Seq<Pulse>, k: int) -> Seq<bool>
    decreases pulses.len() - k,
{
    if k >= pulses.len() {
        seq![]
    } else {
        uint(pulses[k].offset, 5) + uint(pulses[k].amplitude, 4) + pulse_list_bits(pulses, k + 1)
    }
}

/// One to four pulses, and the band that they start in.
pub struct PulsePart {
    pub start: int,
    pub pulses: Seq<Pulse>,
}

impl PulsePart {
    pub open spec fn valid(self) -> bool {
        &&& 0 <= self.start < 64
        &&& 1 <= self.pulses.len() <= 4
        &&& forall|k: int|
            0 <= k < self.pulses.len() ==> 0 <= (#[trigger] self.pulses[k]).offset < 32 && 0
                <= self.pulses[k].amplitude < 16
    }

    pub open spec fn bits(self) -> Seq<bool> {
        uint(self.pulses.len() - 1, 2) + uint(self.start, 6) + pulse_list_bits(self.pulses, 0)
    }
}

/// A noise shaping filter over `length` bands.
pub struct Filter {
    pub length: int,
    pub direction: bool,
    pub compressed: bool,
    pub coefficients: Seq<int>,
}

/// The filters of one window, and whether their coefficients are fine.
pub struct TnsWindow {
    pub fine: bool,
    pub filters: Seq<Filter>,
}

/// The width of a filter coefficient: three bits, one more where coefficients
/// are fine, one less where they are compressed.
pub open spec fn coefficient_width(fine: bool, compressed: bool) -> nat {
    if fine == compressed {
        3
    } else if fine {
        4
    } else {
        2
    }
}

/// Numbers of the same width, from number `k` on.
pub open spec fn numbers_bits(numbers: Seq<int>, width: nat, k: int) -> Seq<bool>
    decreases numbers.len() - k,
{
    if k >= numbers.len() {
        seq![]
    } else {
        uint(numbers[k], width) + numbers_bits(numbers, width, k + 1)
    }
}

impl Filter {
    /// The filter as bits: the number of bands, the order, and for an order
    /// above zero the direction, the compression and the coefficients.
    pub open spec fn bits(self, long: bool, fine: bool) -> Seq<bool> {
        let head = if long {
            uint(self.length, 6) + uint(self.coefficients.len() as int, 5)
        } else {
            uint(self.length, 4) + uint(self.coefficients.len() as int, 3)
        };
        if self.coefficients.len() == 0 {
            head
        } else {
            head + (seq![self.direction] + seq![self.compressed] + numbers_bits(
                self.coefficients,
                coefficient_width(fine, self.compressed),
                0,
            ))
        }
    }

    pub open spec fn valid(self, long: bool) -> bool {
        &&& 0 <= self.length
        &&& self.coefficients.len() < if long {
            32int
        } else {
            8
        }
    }
}

/// The filters from number `k` on.
pub open spec fn filters_bits(filters: Seq<Filter>, long: bool, fine: bool, k: int) -> Seq<bool>
    decreases filters.len() - k,
{
    if k >= filters.len() {
        seq![]
    } else {
        filters[k].bits(long, fine) + filters_bits(filters, long, fine, k + 1)
    }
}

/// The number of bands that the filters from number `k` on cover.
pub open spec fn filtered_bands(filters: Seq<Filter>, k: int) -> int
    decreases filters.len() - k,
{
    if k >= filters.len() {
        0
    } else {
        filters[k].length + filtered_bands(filters, k + 1)
    }
}

impl TnsWindow {
    /// At most three filters of a long window, or one of a short window, over
    /// no more bands than are in use.
    pub open spec fn valid(self, long: bool, max_sfb: int) -> bool {
        &&& self.filters.len() <= if long {
            3int
        } else {
            1
        }
        &&& filtered_bands(self.filters, 0) <= max_sfb
        &&& forall|k: int| 0 <= k < self.filters.len() ==> (#[trigger] self.filters[k]).valid(long)
    }

    pub open spec fn bits(self, long: bool) -> Seq<bool> {
        let head = uint(
            self.filters.len() as int,
            if long {
                2
            } else {
                1
            },
        );
        if self.filters.len() == 0 {
            head
        } else {
            head + (seq![self.fine] + filters_bits(self.filters, long, self.fine, 0))
        }
    }
}

/// The filters of the windows from number `k` on.
pub open spec fn tns_bits(windows: Seq<TnsWindow>, long: bool, k: int) -> Seq<bool>
    decreases windows.len() - k,
{
    if k >= windows.len() {
        seq![]
    } else {
        windows[k].bits(long) + tns_bits(windows, long, k + 1)
    }
}

/// The size of a coefficient.
pub open spec fn size_of_value(v: int) -> int {
    if v < 0 {
        -v
    } else {
        v
    }
}

/// The size of a coefficient as the escape codebook holds it: 16 stands for 16
/// and above.
pub open spec fn held_size(v: int) -> int {
    if size_of_value(v) > 16 {
        16
    } else {
        size_of_value(v)
    }
}

/// Whether coefficients can be written as one symbol of a codebook: four or
/// two of them, each no larger than the codebook holds.
pub open spec fn word_valid(book: int, values: Seq<int>) -> bool {
    if 1 <= book <= 2 {
        values.len() == 4 && forall|k: int| 0 <= k < 4 ==> -1 <= #[trigger] values[k] <= 1
    } else if 3 <= book <= 4 {
        values.len() == 4 && forall|k: int| 0 <= k < 4 ==> -2 <= #[trigger] values[k] <= 2
    } else if 5 <= book <= 6 {
        values.len() == 2 && forall|k: int| 0 <= k < 2 ==> -4 <= #[trigger] values[k] <= 4
    } else if 7 <= book <= 8 {
        values.len() == 2 && forall|k: int| 0 <= k < 2 ==> -7 <= #[trigger] values[k] <= 7
    } else if 9 <= book <= 10 {
        values.len() == 2 && forall|k: int| 0 <= k < 2 ==> -12 <= #[trigger] values[k] <= 12
    } else {
        book == 11 && values.len() == 2 && forall|k: int|
            0 <= k < 2 ==> -8191 <= #[trigger] values[k] <= 8191
    }
}

/// The symbol of coefficients in a codebook. Codebooks 1, 2, 5 and 6 hold
/// coefficients with their signs, the others hold their sizes.
pub open spec fn word_symbol(book: int, v: Seq<int>) -> int {
    if book <= 2 {
        27 * (v[0] + 1) + 9 * (v[1] + 1) + 3 * (v[2] + 1) + (v[3] + 1)
    } else if book <= 4 {
        27 * size_of_value(v[0]) + 9 * size_of_value(v[1]) + 3 * size_of_value(v[2])
            + size_of_value(v[3])
    } else if book <= 6 {
        9 * (v[0] + 4) + (v[1] + 4)
    } else if book <= 8 {
        8 * size_of_value(v[0]) + size_of_value(v[1])
    } else if book <= 10 {
        13 * size_of_value(v[0]) + size_of_value(v[1])
    } else {
        17 * held_size(v[0]) + held_size(v[1])
    }
}

/// The signs of the coefficients from number `k` on that are not zero.
pub open spec fn signs_bits(values: Seq<int>, k: int) -> Seq<bool>
    decreases values.len() - k,
{
    if k >= values.len() {
        seq![]
    } else if values[k] == 0 {
        signs_bits(values, k + 1)
    } else {
        seq![values[k] < 0] + signs_bits(values, k + 1)
    }
}

/// How many times a size, at least 16, can be halved and still be at least 16.
pub open spec fn halvings(size: int) -> nat
    decreases size,
{
    if size < 32 {
        0
    } else {
        1 + halvings(size / 2)
    }
}

/// `n` set bits.
pub open spec fn ones(n: nat) -> Seq<bool> {
    Seq::new(n, |i: int| true)
}

/// The escape sequence of a size of at least 16: a set bit for each halving, a
/// clear bit, and the bits of the size behind its first.
pub open spec fn escape_bits(size: int) -> Seq<bool> {
    ones(halvings(size)) + seq![false] + uint(size, halvings(size) + 4)
}

/// The escape sequence of a coefficient that needs one.
pub open spec fn value_escape_bits(v: int) -> Seq<bool> {
    if size_of_value(v) >= 16 {
        escape_bits(size_of_value(v))
    } else {
        seq![]
    }
}

/// What follows the code of coefficients: their signs, unless the codebook
/// holds them, and the escape sequences of codebook 11.
pub open spec fn word_tail_bits(book: int, values: Seq<int>) -> Seq<bool> {
    if book <= 2 || book == 5 || book == 6 {
        seq![]
    } else if book < 11 {
        signs_bits(values, 0)
    } else {
        signs_bits(values, 0) + value_escape_bits(values[0]) + value_escape_bits(values[1])
    }
}

/// Coefficients as bits.
pub open spec fn word_bits(book: int, values: Seq<int>) -> Seq<bool> {
    code_bits(spectrum_book(book).book, word_symbol(book, values)) + word_tail_bits(book, values)
}

/// The coefficients of one band of one window, from word number `k` on.
pub open spec fn words_bits(book: int, words: Seq<Seq<int>>, k: int) -> Seq<bool>
    decreases words.len() - k,
{
    if k >= words.len() {
        seq![]
    } else {
        word_bits(book, words[k]) + words_bits(book, words, k + 1)
    }
}

/// The coefficients of one band, from window number `w` on.
pub open spec fn band_bits(book: int, windows: Seq<Seq<Seq<int>>>, w: int) -> Seq<bool>
    decreases windows.len() - w,
{
    if w >= windows.len() {
        seq![]
    } else {
        words_bits(book, windows[w], 0) + band_bits(book, windows, w + 1)
    }
}

/// The coefficients of a channel, by group, band, window and word.
pub type Coefficients = Seq<Seq<Seq<Seq<Seq<int>>>>>;

/// Whether a band with the codebook has coefficients.
pub open spec fn has_coefficients(book: u8) -> bool {
    1 <= book <= 11
}

/// The coefficients from band `i` of group `g` on: band by band, and within a
/// band window by window.
pub open spec fn coefficients_bits(
    books: Seq<Seq<u8>>,
    coefficients: Coefficients,
    g: int,
    i: int,
) -> Seq<bool>
    decreases books.len() - g, books[g].len() - i,
{
    if g < 0 || i < 0 || g >= books.len() {
        seq![]
    } else if i >= books[g].len() {
        coefficients_bits(books, coefficients, g + 1, 0)
    } else if !has_coefficients(books[g][i]) {
        coefficients_bits(books, coefficients, g, i + 1)
    } else {
        band_bits(books[g][i] as int, coefficients[g][i], 0) + coefficients_bits(
            books,
            coefficients,
            g,
            i + 1,
        )
    }
}

/// The scale factors from band `i` of group `g` on. A band of zeros has none.
/// The first noise band has the nine bits of `noise`; any other band has a
/// symbol.
pub open spec fn factors_bits(
    books: Seq<Seq<u8>>,
    factors: Seq<Seq<int>>,
    noise: int,
    g: int,
    i: int,
    noise_seen: bool,
) -> Seq<bool>
    decreases books.len() - g, books[g].len() - i,
{
    if g < 0 || i < 0 || g >= books.len() {
        seq![]
    } else if i >= books[g].len() {
        factors_bits(books, factors, noise, g + 1, 0, noise_seen)
    } else if books[g][i] == 0 {
        factors_bits(books, factors, noise, g, i + 1, noise_seen)
    } else if books[g][i] == 13 && !noise_seen {
        uint(noise, 9) + factors_bits(books, factors, noise, g, i + 1, true)
    } else {
        code_bits(scf_book(), factors[g][i]) + factors_bits(books, factors, noise, g, i + 1, noise_seen)
    }
}

/// A channel: its gain, its sections, scale factors, pulses, noise shaping
/// filters and coefficients. The windows are its own unless it shares them.
pub struct Channel {
    pub gain: int,
    pub reserved: bool,
    pub shape: bool,
    pub window: Window,
    pub sections: Seq<Seq<Section>>,
    pub factors: Seq<Seq<int>>,
    pub noise: int,
    pub pulses: Option<PulsePart>,
    pub tns: Option<Seq<TnsWindow>>,
    pub coefficients: Coefficients,
}

/// The sections of the groups from number `g` on.
pub open spec fn group_sections_bits(
    sections: Seq<Seq<Section>>,
    long: bool,
    g: int,
) -> Seq<bool>
    decreases sections.len() - g,
{
    if g >= sections.len() {
        seq![]
    } else {
        sections_bits(sections[g], long, 0) + group_sections_bits(sections, long, g + 1)
    }
}

/// The number of words of a band that is `width` coefficients wide.
pub open spec fn word_count(book: int, width: int) -> int {
    if book <= 4 {
        width / 4
    } else {
        width / 2
    }
}

impl Channel {
    /// The codebooks of the bands of each group.
    pub open spec fn books(self) -> Seq<Seq<u8>> {
        Seq::new(self.sections.len(), |g: int| section_bands(self.sections[g], 0))
    }

    /// Whether band `i` of group `g` has the coefficients of each window, in
    /// words of its codebook.
    pub open spec fn band_valid(self, w: Window, bands: Seq<usize>, g: int, i: int) -> bool {
        let book = self.books()[g][i];
        has_coefficients(book) ==> {
            &&& self.coefficients[g][i].len() == w.group_lens()[g]
            &&& forall|v: int|
                0 <= v < w.group_lens()[g] ==> {
                    &&& (#[trigger] self.coefficients[g][i][v]).len() == word_count(
                        book as int,
                        bands[i + 1] - bands[i],
                    )
                    &&& forall|k: int|
                        0 <= k < self.coefficients[g][i][v].len() ==> word_valid(
                            book as int,
                            #[trigger] self.coefficients[g][i][v][k],
                        )
                }
        }
    }

    /// Whether the channel can be written with the windows and the band
    /// offsets.
    pub open spec fn valid(self, w: Window, bands: Seq<usize>) -> bool {
        &&& 0 <= self.gain <= 255
        &&& w.valid()
        &&& w.max_sfb() < bands.len()
        &&& self.sections.len() == w.group_lens().len()
        &&& forall|g: int|
            0 <= g < self.sections.len() ==> sections_valid(#[trigger] self.sections[g], w.max_sfb())
        &&& forall|g: int, i: int|
            0 <= g < self.sections.len() && 0 <= i < w.max_sfb() ==> 0 <= #[trigger] self.factors[g][i]
                <= 120
        &&& self.pulses matches Some(part) ==> w.is_long() && part.valid()
        &&& self.tns matches Some(windows) ==> {
            &&& windows.len() == if w.is_long() {
                1int
            } else {
                8
            }
            &&& forall|k: int|
                0 <= k < windows.len() ==> (#[trigger] windows[k]).valid(w.is_long(), w.max_sfb())
        }
        &&& forall|g: int, i: int|
            0 <= g < self.sections.len() && 0 <= i < w.max_sfb() ==> #[trigger] self.band_valid(
                w,
                bands,
                g,
                i,
            )
    }

    /// What follows the windows of a channel.
    pub open spec fn body_bits(self, w: Window) -> Seq<bool> {
        group_sections_bits(self.sections, w.is_long(), 0) + factors_bits(
            self.books(),
            self.factors,
            self.noise,
            0,
            0,
            false,
        ) + self.pulses_bits() + self.shaping_bits(w) + seq![false] + coefficients_bits(
            self.books(),
            self.coefficients,
            0,
            0,
        )
    }

    /// Whether there are pulses, and the pulses.
    pub open spec fn pulses_bits(self) -> Seq<bool> {
        match self.pulses {
            Some(part) => seq![true] + part.bits(),
            None => seq![false],
        }
    }

    /// Whether there are noise shaping filters, and the filters.
    pub open spec fn shaping_bits(self, w: Window) -> Seq<bool> {
        match self.tns {
            Some(windows) => seq![true] + tns_bits(windows, w.is_long(), 0),
            None => seq![false],
        }
    }

    /// A channel with windows of its own: the gain, the windows, the rest.
    pub open spec fn own_bits(self) -> Seq<bool> {
        uint(self.gain, 8) + (self.window.bits(self.reserved, self.shape) + self.body_bits(
            self.window,
        ))
    }

    /// A channel that shares its windows: the gain and the rest.
    pub open spec fn shared_bits(self, w: Window) -> Seq<bool> {
        uint(self.gain, 8) + self.body_bits(w)
    }
}

} // verus!
