//! The syntax of the individual channel stream of AAC: window layout, sections, scale
//! factors, pulses, temporal noise shaping and spectral coefficients.
use crate::aac_codebooks::{quad, swb_bands, BookSet, SpectrumBook};
use crate::bit_reader::{field, fields, flag, skipped, Parsed};
use crate::bits::{bit_len, byte_bit};
use crate::error::{parse_error, ErrorView};
use crate::huffman::Codebook;
use crate::location::AacGainLocation;
use crate::text::decimal;
use vstd::prelude::*;

verus! {

/// The window sequence of eight short windows.
pub const EIGHT_SHORT_SEQUENCE: u8 = 2;

/// The codebook of bands without coefficients.
pub const ZERO_HCB: u8 = 0;

/// The escape codebook.
pub const ESC_HCB: u8 = 11;

/// The codebook number of noise bands.
pub const NOISE_HCB: u8 = 13;

/// The first codebook number of intensity stereo bands.
pub const INTENSITY_HCB2: u8 = 14;

/// The second codebook number of intensity stereo bands.
pub const INTENSITY_HCB: u8 = 15;

/// The window layout of a channel: the window sequence, the number of scale
/// factor bands in use, and the number of windows in each group.
#[verifier::ext_equal]
pub struct IcsView {
    pub window_sequence: int,
    pub max_sfb: int,
    pub groups: Seq<int>,
}

impl IcsView {
    /// Whether the channel has one long window.
    pub open spec fn long_win(self) -> bool {
        self.window_sequence != EIGHT_SHORT_SEQUENCE
    }

    /// The bounds that the stream syntax keeps.
    pub open spec fn valid(self) -> bool {
        &&& 0 <= self.window_sequence < 4
        &&& 0 <= self.max_sfb < 64
        &&& 1 <= self.groups.len() <= 8
        &&& forall|g: int| 0 <= g < self.groups.len() ==> 1 <= #[trigger] self.groups[g] <= 8
    }
}

/// The group lengths that the first `i` of the seven grouping bits give: a set
/// bit joins a window to the group before it, a clear bit starts a group.
pub open spec fn window_groups(grouping: u8, i: nat) -> Seq<int>
    decreases i,
{
    if i == 0 {
        seq![1int]
    } else {
        let groups = window_groups(grouping, (i - 1) as nat);
        if byte_bit(grouping, i as u8) {
            groups.update(groups.len() - 1, groups.last() + 1)
        } else {
            groups.push(1)
        }
    }
}

/// The window layout at `pos`.
#[verifier::opaque]
pub open spec fn ics_info(data: Seq<u8>, pos: int) -> Parsed<IcsView> {
    match field(data, pos, 1) {
        Err(f) => Err(f),
        Ok((_, p)) => match field(data, p, 2) {
            Err(f) => Err(f),
            Ok((sequence, p)) => match field(data, p, 1) {
                Err(f) => Err(f),
                Ok((_, p)) => if sequence == EIGHT_SHORT_SEQUENCE {
                    match field(data, p, 4) {
                        Err(f) => Err(f),
                        Ok((max_sfb, p)) => match field(data, p, 7) {
                            Err(f) => Err(f),
                            Ok((grouping, p)) => Ok(
                                (
                                    IcsView {
                                        window_sequence: sequence,
                                        max_sfb,
                                        groups: window_groups(grouping as u8, 7),
                                    },
                                    p,
                                ),
                            ),
                        },
                    }
                } else {
                    match field(data, p, 6) {
                        Err(f) => Err(f),
                        Ok((max_sfb, p)) => match flag(data, p) {
                            Err(f) => Err(f),
                            Ok((predictor, p)) => if predictor {
                                Err(
                                    (
                                        parse_error(
                                            "predictor data not supported for AAC-LC"@,
                                        ),
                                        p,
                                    ),
                                )
                            } else {
                                Ok(
                                    (
                                        IcsView {
                                            window_sequence: sequence,
                                            max_sfb,
                                            groups: seq![1int],
                                        },
                                        p,
                                    ),
                                )
                            },
                        },
                    }
                },
            },
        },
    }
}

/// The width of a section length increment.
pub open spec fn section_bits(long: bool) -> nat {
    if long {
        5
    } else {
        3
    }
}

/// The increment after which a section length goes on.
pub open spec fn section_escape(long: bool) -> int {
    if long {
        31
    } else {
        7
    }
}

/// The length of a section.
pub open spec fn section_len(data: Seq<u8>, pos: int, long: bool) -> Parsed<int>
    decreases bit_len(data) - pos,
{
    match field(data, pos, section_bits(long)) {
        Err(f) => Err(f),
        Ok((incr, p)) => if incr < section_escape(long) {
            Ok((incr, p))
        } else {
            match section_len(data, p, long) {
                Err(f) => Err(f),
                Ok((rest, q)) => Ok((incr + rest, q)),
            }
        },
    }
}

/// The codebook numbers of the bands of one group, when those of the first
/// bands are known.
pub open spec fn group_books(
    data: Seq<u8>,
    pos: int,
    long: bool,
    max_sfb: int,
    known: Seq<u8>,
) -> Parsed<Seq<u8>>
    decreases max_sfb - known.len(),
{
    if known.len() >= max_sfb {
        Ok((known, pos))
    } else {
        match field(data, pos, 4) {
            Err(f) => Err(f),
            Ok((cb, p)) => if cb == 12 {
                Err((parse_error("reserved codebook 12"@), p))
            } else {
                match section_len(data, p, long) {
                    Err(f) => Err(f),
                    Ok((n, p)) => if n <= 0 || known.len() + n > max_sfb {
                        Err((parse_error("invalid AAC section length"@), p))
                    } else {
                        group_books(
                            data,
                            p,
                            long,
                            max_sfb,
                            known + Seq::new(n as nat, |i: int| cb as u8),
                        )
                    },
                }
            },
        }
    }
}

/// The codebook numbers of all groups, when those of the first groups are
/// known.
pub open spec fn section_books(
    data: Seq<u8>,
    pos: int,
    info: IcsView,
    known: Seq<Seq<u8>>,
) -> Parsed<Seq<Seq<u8>>>
    decreases info.groups.len() - known.len(),
{
    if known.len() >= info.groups.len() {
        Ok((known, pos))
    } else {
        match group_books(data, pos, info.long_win(), info.max_sfb, Seq::empty()) {
            Err(f) => Err(f),
            Ok((books, p)) => section_books(data, p, info, known.push(books)),
        }
    }
}

/// The codebook numbers that a parsed section table may hold.
pub open spec fn books_valid(books: Seq<Seq<u8>>, groups: int, max_sfb: int) -> bool {
    &&& books.len() == groups
    &&& forall|g: int| 0 <= g < groups ==> (#[trigger] books[g]).len() == max_sfb
    &&& forall|g: int, i: int|
        0 <= g < groups && 0 <= i < max_sfb ==> #[trigger] books[g][i] <= 15 && books[g][i] != 12
}

/// The scale factors from band `i` of group `g` on; `noise` says whether the
/// first noise band, which is coded differently, is still to come.
pub open spec fn scale_factors(
    data: Seq<u8>,
    pos: int,
    scf: Codebook,
    books: Seq<Seq<u8>>,
    g: int,
    i: int,
    noise: bool,
) -> Parsed<()>
    decreases books.len() - g, books[g].len() - i,
{
    if g < 0 || i < 0 || g >= books.len() {
        Ok(((), pos))
    } else if i >= books[g].len() {
        scale_factors(data, pos, scf, books, g + 1, 0, noise)
    } else {
        let cb = books[g][i];
        if cb == ZERO_HCB {
            scale_factors(data, pos, scf, books, g, i + 1, noise)
        } else if cb == NOISE_HCB && noise {
            match field(data, pos, 9) {
                Err(f) => Err(f),
                Ok((_, p)) => scale_factors(data, p, scf, books, g, i + 1, false),
            }
        } else {
            match scf.decode(data, pos) {
                Err(f) => Err(f),
                Ok((_, p)) => scale_factors(data, p, scf, books, g, i + 1, noise),
            }
        }
    }
}

/// An escape sequence of which `n` leading ones have been read.
pub open spec fn escape(data: Seq<u8>, pos: int, n: int) -> Parsed<()>
    decreases 9 - n,
{
    match flag(data, pos) {
        Err(f) => Err(f),
        Ok((more, p)) => if !more {
            skipped(data, p, n + 4)
        } else if n + 1 >= 9 {
            Err((parse_error("escape sequence too long"@), p))
        } else {
            escape(data, p, n + 1)
        },
    }
}

/// 1 for a coefficient that has a sign, 0 for one that is zero.
pub open spec fn sign_bit(coefficient: int) -> nat {
    if coefficient != 0 {
        1
    } else {
        0
    }
}

/// The bits that follow the symbol of a spectrum codebook: the signs of an
/// unsigned one, and the escape sequences of the escape codebook.
pub open spec fn symbol_tail(
    data: Seq<u8>,
    pos: int,
    spectrum: SpectrumBook,
    escapes: bool,
    symbol: int,
) -> Parsed<()> {
    if !spectrum.is_unsigned {
        Ok(((), pos))
    } else if spectrum.dimension == 4 {
        let (a, b, c, d) = quad(symbol);
        fields(data, pos, 1, sign_bit(a) + sign_bit(b) + sign_bit(c) + sign_bit(d))
    } else {
        let x = symbol / spectrum.mod_value as int;
        let y = symbol % spectrum.mod_value as int;
        match fields(data, pos, 1, sign_bit(x) + sign_bit(y)) {
            Err(f) => Err(f),
            Ok((_, p)) => if !escapes {
                Ok(((), p))
            } else {
                match (if x == 16 {
                    escape(data, p, 0)
                } else {
                    Ok(((), p))
                }) {
                    Err(f) => Err(f),
                    Ok((_, p)) => if y == 16 {
                        escape(data, p, 0)
                    } else {
                        Ok(((), p))
                    },
                }
            },
        }
    }
}

/// `n` symbols of a spectrum codebook with what follows each.
pub open spec fn symbols(
    data: Seq<u8>,
    pos: int,
    spectrum: SpectrumBook,
    escapes: bool,
    n: nat,
) -> Parsed<()>
    decreases n,
{
    if n == 0 {
        Ok(((), pos))
    } else {
        match spectrum.book.decode(data, pos) {
            Err(f) => Err(f),
            Ok((symbol, p)) => match symbol_tail(data, p, spectrum, escapes, symbol) {
                Err(f) => Err(f),
                Ok((_, p)) => symbols(data, p, spectrum, escapes, (n - 1) as nat),
            },
        }
    }
}

/// The symbols of one band in each of `windows` windows.
pub open spec fn window_symbols(
    data: Seq<u8>,
    pos: int,
    spectrum: SpectrumBook,
    escapes: bool,
    n: nat,
    windows: nat,
) -> Parsed<()>
    decreases windows,
{
    if windows == 0 {
        Ok(((), pos))
    } else {
        match symbols(data, pos, spectrum, escapes, n) {
            Err(f) => Err(f),
            Ok((_, p)) => window_symbols(data, p, spectrum, escapes, n, (windows - 1) as nat),
        }
    }
}

/// The spectral coefficients from band `i` of group `g` on.
pub open spec fn spectrum(
    data: Seq<u8>,
    pos: int,
    set: BookSet,
    info: IcsView,
    books: Seq<Seq<u8>>,
    bands: Seq<usize>,
    g: int,
    i: int,
) -> Parsed<()>
    decreases books.len() - g, books[g].len() - i,
{
    if g < 0 || i < 0 || g >= books.len() {
        Ok(((), pos))
    } else if i >= books[g].len() {
        spectrum(data, pos, set, info, books, bands, g + 1, 0)
    } else {
        let cb = books[g][i];
        if cb == ZERO_HCB || cb == NOISE_HCB || cb == INTENSITY_HCB || cb == INTENSITY_HCB2 {
            spectrum(data, pos, set, info, books, bands, g, i + 1)
        } else {
            let book = set.spectrum[cb - 1];
            let n = (bands[i + 1] - bands[i]) / book.dimension as int;
            match window_symbols(
                data,
                pos,
                book,
                cb == ESC_HCB,
                n as nat,
                info.groups[g] as nat,
            ) {
                Err(f) => Err(f),
                Ok((_, p)) => spectrum(data, p, set, info, books, bands, g, i + 1),
            }
        }
    }
}

/// `n` pulses.
pub open spec fn pulses(data: Seq<u8>, pos: int, n: nat) -> Parsed<()>
    decreases n,
{
    if n == 0 {
        Ok(((), pos))
    } else {
        match field(data, pos, 5) {
            Err(f) => Err(f),
            Ok((_, p)) => match field(data, p, 4) {
                Err(f) => Err(f),
                Ok((_, p)) => pulses(data, p, (n - 1) as nat),
            },
        }
    }
}

/// The pulse data.
pub open spec fn pulse_data(data: Seq<u8>, pos: int) -> Parsed<()> {
    match field(data, pos, 2) {
        Err(f) => Err(f),
        Ok((number, p)) => match field(data, p, 6) {
            Err(f) => Err(f),
            Ok((_, p)) => pulses(data, p, (number + 1) as nat),
        },
    }
}

/// `n` noise shaping filters over at most `bands` bands, with coefficients of
/// the resolution `res`.
pub open spec fn tns_filters(
    data: Seq<u8>,
    pos: int,
    long: bool,
    bands: int,
    res: int,
    n: nat,
) -> Parsed<()>
    decreases n,
{
    if n == 0 {
        Ok(((), pos))
    } else {
        match field(data, pos, if long {
            6
        } else {
            4
        }) {
            Err(f) => Err(f),
            Ok((length, p)) => if length > bands {
                Err((parse_error("invalid TNS filter length"@), p))
            } else {
                match field(data, p, if long {
                    5
                } else {
                    3
                }) {
                    Err(f) => Err(f),
                    Ok((order, p)) => match tns_coefficients(data, p, res, order) {
                        Err(f) => Err(f),
                        Ok((_, p)) => tns_filters(
                            data,
                            p,
                            long,
                            bands - length,
                            res,
                            (n - 1) as nat,
                        ),
                    },
                }
            },
        }
    }
}

/// The direction, the compression and the coefficients of a filter; a filter
/// of order zero has none of them.
pub open spec fn tns_coefficients(data: Seq<u8>, pos: int, res: int, order: int) -> Parsed<()> {
    if order <= 0 {
        Ok(((), pos))
    } else {
        match field(data, pos, 1) {
            Err(f) => Err(f),
            Ok((_, p)) => match field(data, p, 1) {
                Err(f) => Err(f),
                Ok((compress, p)) => fields(data, p, (res + 3 - compress) as nat, order as nat),
            },
        }
    }
}

/// The filters of `windows` windows.
pub open spec fn tns_windows(
    data: Seq<u8>,
    pos: int,
    long: bool,
    max_sfb: int,
    windows: nat,
) -> Parsed<()>
    decreases windows,
{
    if windows == 0 {
        Ok(((), pos))
    } else {
        match field(data, pos, if long {
            2
        } else {
            1
        }) {
            Err(f) => Err(f),
            Ok((n, p)) => match tns_window(data, p, long, max_sfb, n) {
                Err(f) => Err(f),
                Ok((_, p)) => tns_windows(data, p, long, max_sfb, (windows - 1) as nat),
            },
        }
    }
}

/// The coefficient resolution and the `n` filters of one window.
pub open spec fn tns_window(data: Seq<u8>, pos: int, long: bool, max_sfb: int, n: int) -> Parsed<
    (),
> {
    if n <= 0 {
        Ok(((), pos))
    } else {
        match field(data, pos, 1) {
            Err(f) => Err(f),
            Ok((res, p)) => tns_filters(data, p, long, max_sfb, res, n as nat),
        }
    }
}

/// The temporal noise shaping data.
pub open spec fn tns_data(data: Seq<u8>, pos: int, info: IcsView) -> Parsed<()> {
    tns_windows(
        data,
        pos,
        info.long_win(),
        info.max_sfb,
        if info.long_win() {
            1
        } else {
            8
        },
    )
}

/// The band offsets of a window layout at a sample rate.
pub open spec fn layout_bands(info: IcsView, sample_rate: u32) -> Seq<usize> {
    if info.long_win() {
        swb_bands(sample_rate).0
    } else {
        swb_bands(sample_rate).1
    }
}

/// The error of a channel with more bands than its sample rate has.
pub open spec fn too_many_bands(max_sfb: int, bands: int) -> ErrorView {
    parse_error(
        "max_sfb "@ + decimal(max_sfb as nat) + " exceeds available bands "@ + decimal(
            (bands - 1) as nat,
        ),
    )
}

/// The optional pulse data of a channel.
pub open spec fn pulse_part(data: Seq<u8>, pos: int, info: IcsView) -> Parsed<()> {
    match flag(data, pos) {
        Err(f) => Err(f),
        Ok((present, p)) => if !present {
            Ok(((), p))
        } else if !info.long_win() {
            Err((parse_error("pulse data in short window"@), p))
        } else {
            pulse_data(data, p)
        },
    }
}

/// The optional noise shaping data of a channel.
pub open spec fn tns_part(data: Seq<u8>, pos: int, info: IcsView) -> Parsed<()> {
    match flag(data, pos) {
        Err(f) => Err(f),
        Ok((present, p)) => if present {
            tns_data(data, p, info)
        } else {
            Ok(((), p))
        },
    }
}

/// What follows the window layout of a channel.
#[verifier::opaque]
pub open spec fn ics_body(
    data: Seq<u8>,
    pos: int,
    set: BookSet,
    info: IcsView,
    bands: Seq<usize>,
) -> Parsed<()> {
    if info.max_sfb >= bands.len() {
        Err((too_many_bands(info.max_sfb, bands.len() as int), pos))
    } else {
        match section_books(data, pos, info, Seq::empty()) {
            Err(f) => Err(f),
            Ok((books, p)) => match scale_factors(data, p, set.scf, books, 0, 0, true) {
                Err(f) => Err(f),
                Ok((_, p)) => match pulse_part(data, p, info) {
                    Err(f) => Err(f),
                    Ok((_, p)) => match tns_part(data, p, info) {
                        Err(f) => Err(f),
                        Ok((_, p)) => match flag(data, p) {
                            Err(f) => Err(f),
                            Ok((gain_control, p)) => if gain_control {
                                Err(
                                    (
                                        parse_error(
                                            "gain control data not supported for AAC-LC"@,
                                        ),
                                        p,
                                    ),
                                )
                            } else {
                                spectrum(data, p, set, info, books, bands, 0, 0)
                            },
                        },
                    },
                },
            },
        }
    }
}

/// The window layout of a channel and what follows it; a shared layout is not
/// in the channel itself.
#[verifier::opaque]
pub open spec fn ics_rest(
    data: Seq<u8>,
    pos: int,
    set: BookSet,
    shared: Option<IcsView>,
    sample_rate: u32,
) -> Parsed<IcsView> {
    match (match shared {
        Some(info) => Ok((info, pos)),
        None => ics_info(data, pos),
    }) {
        Err(f) => Err(f),
        Ok((info, p)) => match ics_body(data, p, set, info, layout_bands(info, sample_rate)) {
            Err(f) => Err(f),
            Ok((_, p)) => Ok((info, p)),
        },
    }
}

/// The `global_gain` field at `pos`.
pub open spec fn gain_at(pos: int, channel: u8, gain: int) -> AacGainLocation {
    AacGainLocation {
        sample_index: 0,
        file_offset: 0,
        sample_byte_offset: (pos / 8) as u32,
        bit_offset: (pos % 8) as u8,
        channel,
        original_gain: gain as u8,
    }
}

/// A whole channel: its gain and its window layout.
#[verifier::opaque]
pub open spec fn ics(
    data: Seq<u8>,
    pos: int,
    set: BookSet,
    channel: u8,
    shared: Option<IcsView>,
    sample_rate: u32,
) -> Parsed<(AacGainLocation, IcsView)> {
    match field(data, pos, 8) {
        Err(f) => Err(f),
        Ok((gain, p)) => match ics_rest(data, p, set, shared, sample_rate) {
            Err(f) => Err(f),
            Ok((info, p)) => Ok(((gain_at(pos, channel, gain), info), p)),
        },
    }
}

} // verus!
