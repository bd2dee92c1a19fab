//! Reading any part of a channel moves forward within the data and depends on
//! the bits that it moves over alone.
use crate::aac_codebooks::{BookSet, SpectrumBook};
use crate::bit_reader::{
    agree, field, fields, flag, lemma_field, lemma_fields, lemma_flag, lemma_small_powers, settled,
};
use crate::bits::bit_len;
use crate::huffman::Codebook;
use crate::ics_syntax::{
    books_valid, escape, group_books, ics_body, ics_info, ics_rest, layout_bands, pulse_part,
    pulses, scale_factors, section_bits, section_books, section_len, sign_bit, spectrum,
    symbol_tail, symbols, tns_coefficients, tns_filters, tns_part, tns_window, tns_windows,
    window_groups, window_symbols, IcsView, ESC_HCB, INTENSITY_HCB, INTENSITY_HCB2, NOISE_HCB,
    ZERO_HCB,
};
use vstd::prelude::*;

verus! {

/// Grouping bits give one to eight groups, of eight windows in all.
pub proof fn lemma_window_groups(grouping: u8, i: nat)
    requires
        i <= 7,
    ensures
        1 <= window_groups(grouping, i).len() <= i + 1,
        forall|g: int|
            0 <= g < window_groups(grouping, i).len() ==> 1 <= #[trigger] window_groups(
                grouping,
                i,
            )[g] <= i + 1,
        total(window_groups(grouping, i)) == i + 1,
    decreases i,
{
    if i > 0 {
        let before = window_groups(grouping, (i - 1) as nat);
        lemma_window_groups(grouping, (i - 1) as nat);
        assert(before.push(1).drop_last() =~= before);
        assert(before.update(before.len() - 1, before.last() + 1).drop_last()
            =~= before.drop_last());
    } else {
        assert(seq![1int].drop_last() =~= Seq::<int>::empty());
        reveal_with_fuel(total, 2);
    }
}

/// The sum of the lengths of window groups.
pub open spec fn total(groups: Seq<int>) -> int
    decreases groups.len(),
{
    if groups.len() == 0 {
        0
    } else {
        total(groups.drop_last()) + groups.last()
    }
}

/// A window layout is settled and valid.
pub proof fn lemma_ics_info(d1: Seq<u8>, d2: Seq<u8>, pos: int)
    requires
        0 <= pos <= bit_len(d1),
    ensures
        settled(true, d1, d2, pos, ics_info(d1, pos), ics_info(d2, pos)),
        ics_info(d1, pos) matches Ok((info, _)) ==> info.valid(),
{
    reveal(ics_info);
    lemma_small_powers();
    lemma_field(d1, d2, pos, 1);
    if let Ok((_, p)) = field(d1, pos, 1) {
        lemma_field(d1, d2, p, 2);
        if let Ok((_, p)) = field(d1, p, 2) {
            lemma_field(d1, d2, p, 1);
            if let Ok((_, p)) = field(d1, p, 1) {
                lemma_field(d1, d2, p, 4);
                if let Ok((_, p)) = field(d1, p, 4) {
                    lemma_field(d1, d2, p, 7);
                    if let Ok((grouping, p)) = field(d1, p, 7) {
                        lemma_window_groups(grouping as u8, 7);
                    }
                }
                lemma_field(d1, d2, p, 6);
                if let Ok((_, p)) = field(d1, p, 6) {
                    lemma_flag(d1, d2, p);
                }
            }
        }
    }
}

/// A section length is settled and not negative.
pub proof fn lemma_section_len(d1: Seq<u8>, d2: Seq<u8>, pos: int, long: bool)
    requires
        0 <= pos <= bit_len(d1),
    ensures
        settled(true, d1, d2, pos, section_len(d1, pos, long), section_len(d2, pos, long)),
        section_len(d1, pos, long) matches Ok((n, _)) ==> n >= 0,
    decreases bit_len(d1) - pos,
{
    lemma_field(d1, d2, pos, section_bits(long));
    if let Ok((_, p)) = field(d1, pos, section_bits(long)) {
        lemma_section_len(d1, d2, p, long);
    }
}

/// Whether no number is out of range or reserved.
pub open spec fn known_valid(known: Seq<u8>) -> bool {
    forall|i: int| 0 <= i < known.len() ==> #[trigger] known[i] <= 15 && known[i] != 12
}

/// The codebook numbers of a group are settled, one for each band, and none
/// is out of range or reserved.
pub proof fn lemma_group_books(
    d1: Seq<u8>,
    d2: Seq<u8>,
    pos: int,
    long: bool,
    max_sfb: int,
    known: Seq<u8>,
)
    requires
        0 <= pos <= bit_len(d1),
        known.len() <= max_sfb,
        known_valid(known),
    ensures
        settled(
            true,
            d1,
            d2,
            pos,
            group_books(d1, pos, long, max_sfb, known),
            group_books(d2, pos, long, max_sfb, known),
        ),
        group_books(d1, pos, long, max_sfb, known) matches Ok((books, _)) ==> books.len()
            == max_sfb && known_valid(books),
    decreases max_sfb - known.len(),
{
    lemma_small_powers();
    lemma_field(d1, d2, pos, 4);
    if let Ok((cb, p)) = field(d1, pos, 4) {
        lemma_section_len(d1, d2, p, long);
        if let Ok((n, q)) = section_len(d1, p, long) {
            if known.len() < max_sfb && cb != 12 && n > 0 && known.len() + n <= max_sfb {
                let longer = known + Seq::new(n as nat, |i: int| cb as u8);
                assert forall|i: int| 0 <= i < longer.len() implies #[trigger] longer[i] <= 15
                    && longer[i] != 12 by {
                    if i < known.len() {
                        assert(known[i] <= 15);
                    }
                }
                lemma_group_books(d1, d2, q, long, max_sfb, longer);
            }
        }
    }
}

/// The section table is settled, and holds a usable codebook number for each
/// band of each group.
pub proof fn lemma_section_books(
    d1: Seq<u8>,
    d2: Seq<u8>,
    pos: int,
    info: IcsView,
    known: Seq<Seq<u8>>,
)
    requires
        0 <= pos <= bit_len(d1),
        0 <= info.max_sfb,
        known.len() <= info.groups.len(),
        books_valid(known, known.len() as int, info.max_sfb),
    ensures
        settled(
            true,
            d1,
            d2,
            pos,
            section_books(d1, pos, info, known),
            section_books(d2, pos, info, known),
        ),
        section_books(d1, pos, info, known) matches Ok((books, _)) ==> books_valid(
            books,
            info.groups.len() as int,
            info.max_sfb,
        ),
    decreases info.groups.len() - known.len(),
{
    if known.len() < info.groups.len() {
        lemma_group_books(d1, d2, pos, info.long_win(), info.max_sfb, Seq::empty());
        if let Ok((books, p)) = group_books(
            d1,
            pos,
            info.long_win(),
            info.max_sfb,
            Seq::empty(),
        ) {
            let longer = known.push(books);
            assert forall|g: int, i: int|
                0 <= g < longer.len() && 0 <= i < info.max_sfb implies #[trigger] longer[g][i]
                <= 15 && longer[g][i] != 12 by {
                if g < known.len() {
                    assert(known[g][i] <= 15);
                } else {
                    assert(books[i] <= 15);
                }
            }
            lemma_section_books(d1, d2, p, info, longer);
        }
    }
}

/// Decoding a symbol is settled.
pub proof fn lemma_decode(d1: Seq<u8>, d2: Seq<u8>, pos: int, book: Codebook)
    requires
        0 <= pos <= bit_len(d1),
        book.valid(),
    ensures
        settled(book.prefix_free(), d1, d2, pos, book.decode(d1, pos), book.decode(d2, pos)),
        book.decode(d1, pos) matches Ok((s, p)) ==> 0 <= s < book.size() && pos < p,
{
    book.lemma_decode_bounds(d1, pos);
    if let Ok((s, p)) = book.decode(d1, pos) {
        if book.prefix_free() && d1.len() == d2.len() && agree(d1, d2, pos, p) {
            book.lemma_decode_local(d1, d2, pos);
        }
    }
}

/// The scale factors are settled.
pub proof fn lemma_scale_factors(
    d1: Seq<u8>,
    d2: Seq<u8>,
    pos: int,
    scf: Codebook,
    books: Seq<Seq<u8>>,
    g: int,
    i: int,
    noise: bool,
)
    requires
        0 <= pos <= bit_len(d1),
        scf.valid(),
    ensures
        settled(
            scf.prefix_free(),
            d1,
            d2,
            pos,
            scale_factors(d1, pos, scf, books, g, i, noise),
            scale_factors(d2, pos, scf, books, g, i, noise),
        ),
    decreases books.len() - g, books[g].len() - i,
{
    if g < 0 || i < 0 || g >= books.len() {
    } else if i >= books[g].len() {
        lemma_scale_factors(d1, d2, pos, scf, books, g + 1, 0, noise);
    } else {
        let cb = books[g][i];
        if cb == ZERO_HCB {
            lemma_scale_factors(d1, d2, pos, scf, books, g, i + 1, noise);
        } else if cb == NOISE_HCB && noise {
            lemma_field(d1, d2, pos, 9);
            if let Ok((_, p)) = field(d1, pos, 9) {
                lemma_scale_factors(d1, d2, p, scf, books, g, i + 1, false);
            }
        } else {
            lemma_decode(d1, d2, pos, scf);
            if let Ok((_, p)) = scf.decode(d1, pos) {
                lemma_scale_factors(d1, d2, p, scf, books, g, i + 1, noise);
            }
        }
    }
}

/// An escape sequence is settled.
pub proof fn lemma_escape(d1: Seq<u8>, d2: Seq<u8>, pos: int, n: int)
    requires
        0 <= pos <= bit_len(d1),
        0 <= n <= 9,
    ensures
        settled(true, d1, d2, pos, escape(d1, pos, n), escape(d2, pos, n)),
    decreases 9 - n,
{
    lemma_flag(d1, d2, pos);
    if let Ok((more, p)) = flag(d1, pos) {
        if more && n + 1 < 9 {
            lemma_escape(d1, d2, p, n + 1);
        }
    }
}

/// What follows a symbol is settled.
pub proof fn lemma_symbol_tail(
    d1: Seq<u8>,
    d2: Seq<u8>,
    pos: int,
    spectrum: SpectrumBook,
    escapes: bool,
    symbol: int,
)
    requires
        0 <= pos <= bit_len(d1),
    ensures
        settled(
            true,
            d1,
            d2,
            pos,
            symbol_tail(d1, pos, spectrum, escapes, symbol),
            symbol_tail(d2, pos, spectrum, escapes, symbol),
        ),
{
    if spectrum.is_unsigned {
        if spectrum.dimension == 4 {
            let (a, b, c, d) = crate::aac_codebooks::quad(symbol);
            let n = sign_bit(a) + sign_bit(b) + sign_bit(c) + sign_bit(d);
            lemma_fields(d1, d2, pos, 1, n);
        } else {
            let x = symbol / spectrum.mod_value as int;
            let y = symbol % spectrum.mod_value as int;
            let n = sign_bit(x) + sign_bit(y);
            lemma_fields(d1, d2, pos, 1, n);
            if let Ok((_, p)) = fields(d1, pos, 1, n) {
                lemma_escape(d1, d2, p, 0);
                if let Ok((_, p)) = escape(d1, p, 0) {
                    lemma_escape(d1, d2, p, 0);
                }
            }
        }
    }
}

/// Symbols are settled.
pub proof fn lemma_symbols(
    d1: Seq<u8>,
    d2: Seq<u8>,
    pos: int,
    spectrum: SpectrumBook,
    escapes: bool,
    n: nat,
)
    requires
        0 <= pos <= bit_len(d1),
        spectrum.book.valid(),
    ensures
        settled(
            spectrum.book.prefix_free(),
            d1,
            d2,
            pos,
            symbols(d1, pos, spectrum, escapes, n),
            symbols(d2, pos, spectrum, escapes, n),
        ),
    decreases n,
{
    if n > 0 {
        lemma_decode(d1, d2, pos, spectrum.book);
        if let Ok((symbol, p)) = spectrum.book.decode(d1, pos) {
            lemma_symbol_tail(d1, d2, p, spectrum, escapes, symbol);
            if let Ok((_, p)) = symbol_tail(d1, p, spectrum, escapes, symbol) {
                lemma_symbols(d1, d2, p, spectrum, escapes, (n - 1) as nat);
            }
        }
    }
}

/// The symbols of a band are settled.
pub proof fn lemma_window_symbols(
    d1: Seq<u8>,
    d2: Seq<u8>,
    pos: int,
    spectrum: SpectrumBook,
    escapes: bool,
    n: nat,
    windows: nat,
)
    requires
        0 <= pos <= bit_len(d1),
        spectrum.book.valid(),
    ensures
        settled(
            spectrum.book.prefix_free(),
            d1,
            d2,
            pos,
            window_symbols(d1, pos, spectrum, escapes, n, windows),
            window_symbols(d2, pos, spectrum, escapes, n, windows),
        ),
    decreases windows,
{
    if windows > 0 {
        lemma_symbols(d1, d2, pos, spectrum, escapes, n);
        if let Ok((_, p)) = symbols(d1, pos, spectrum, escapes, n) {
            lemma_window_symbols(d1, d2, p, spectrum, escapes, n, (windows - 1) as nat);
        }
    }
}

/// The spectral coefficients are settled.
pub proof fn lemma_spectrum(
    d1: Seq<u8>,
    d2: Seq<u8>,
    pos: int,
    set: BookSet,
    info: IcsView,
    books: Seq<Seq<u8>>,
    bands: Seq<usize>,
    g: int,
    i: int,
)
    requires
        0 <= pos <= bit_len(d1),
        set.valid(),
        books_valid(books, books.len() as int, info.max_sfb),
    ensures
        settled(
            set.prefix_free(),
            d1,
            d2,
            pos,
            spectrum(d1, pos, set, info, books, bands, g, i),
            spectrum(d2, pos, set, info, books, bands, g, i),
        ),
    decreases books.len() - g, books[g].len() - i,
{
    if g < 0 || i < 0 || g >= books.len() {
    } else if i >= books[g].len() {
        lemma_spectrum(d1, d2, pos, set, info, books, bands, g + 1, 0);
    } else {
        let cb = books[g][i];
        if cb == ZERO_HCB || cb == NOISE_HCB || cb == INTENSITY_HCB || cb == INTENSITY_HCB2 {
            lemma_spectrum(d1, d2, pos, set, info, books, bands, g, i + 1);
        } else {
            let book = set.spectrum[cb - 1];
            let n = (bands[i + 1] - bands[i]) / book.dimension as int;
            let escapes = cb == ESC_HCB;
            let windows = info.groups[g] as nat;
            lemma_window_symbols(d1, d2, pos, book, escapes, n as nat, windows);
            if let Ok((_, p)) = window_symbols(d1, pos, book, escapes, n as nat, windows) {
                lemma_spectrum(d1, d2, p, set, info, books, bands, g, i + 1);
            }
        }
    }
}

/// Pulses are settled.
pub proof fn lemma_pulses(d1: Seq<u8>, d2: Seq<u8>, pos: int, n: nat)
    requires
        0 <= pos <= bit_len(d1),
    ensures
        settled(true, d1, d2, pos, pulses(d1, pos, n), pulses(d2, pos, n)),
    decreases n,
{
    if n > 0 {
        lemma_field(d1, d2, pos, 5);
        if let Ok((_, p)) = field(d1, pos, 5) {
            lemma_field(d1, d2, p, 4);
            if let Ok((_, p)) = field(d1, p, 4) {
                lemma_pulses(d1, d2, p, (n - 1) as nat);
            }
        }
    }
}

/// The optional pulse data is settled.
pub proof fn lemma_pulse_part(d1: Seq<u8>, d2: Seq<u8>, pos: int, info: IcsView)
    requires
        0 <= pos <= bit_len(d1),
    ensures
        settled(true, d1, d2, pos, pulse_part(d1, pos, info), pulse_part(d2, pos, info)),
{
    lemma_flag(d1, d2, pos);
    if let Ok((_, p)) = flag(d1, pos) {
        lemma_field(d1, d2, p, 2);
        if let Ok((number, p)) = field(d1, p, 2) {
            lemma_field(d1, d2, p, 6);
            if let Ok((_, p)) = field(d1, p, 6) {
                lemma_pulses(d1, d2, p, (number + 1) as nat);
            }
        }
    }
}

/// The coefficients of a filter are settled.
pub proof fn lemma_tns_coefficients(d1: Seq<u8>, d2: Seq<u8>, pos: int, res: int, order: int)
    requires
        0 <= pos <= bit_len(d1),
    ensures
        settled(
            true,
            d1,
            d2,
            pos,
            tns_coefficients(d1, pos, res, order),
            tns_coefficients(d2, pos, res, order),
        ),
{
    lemma_field(d1, d2, pos, 1);
    if let Ok((_, p)) = field(d1, pos, 1) {
        lemma_field(d1, d2, p, 1);
        if let Ok((compress, p)) = field(d1, p, 1) {
            lemma_fields(d1, d2, p, (res + 3 - compress) as nat, order as nat);
        }
    }
}

/// Filters are settled.
pub proof fn lemma_tns_filters(
    d1: Seq<u8>,
    d2: Seq<u8>,
    pos: int,
    long: bool,
    bands: int,
    res: int,
    n: nat,
)
    requires
        0 <= pos <= bit_len(d1),
    ensures
        settled(
            true,
            d1,
            d2,
            pos,
            tns_filters(d1, pos, long, bands, res, n),
            tns_filters(d2, pos, long, bands, res, n),
        ),
    decreases n,
{
    if n > 0 {
        let a: nat = if long {
            6
        } else {
            4
        };
        let b: nat = if long {
            5
        } else {
            3
        };
        lemma_field(d1, d2, pos, a);
        if let Ok((length, p)) = field(d1, pos, a) {
            lemma_field(d1, d2, p, b);
            if let Ok((order, p)) = field(d1, p, b) {
                lemma_tns_coefficients(d1, d2, p, res, order);
                if let Ok((_, p)) = tns_coefficients(d1, p, res, order) {
                    lemma_tns_filters(d1, d2, p, long, bands - length, res, (n - 1) as nat);
                }
            }
        }
    }
}

/// The filters of windows are settled.
pub proof fn lemma_tns_windows(
    d1: Seq<u8>,
    d2: Seq<u8>,
    pos: int,
    long: bool,
    max_sfb: int,
    windows: nat,
)
    requires
        0 <= pos <= bit_len(d1),
    ensures
        settled(
            true,
            d1,
            d2,
            pos,
            tns_windows(d1, pos, long, max_sfb, windows),
            tns_windows(d2, pos, long, max_sfb, windows),
        ),
    decreases windows,
{
    if windows > 0 {
        let a: nat = if long {
            2
        } else {
            1
        };
        lemma_field(d1, d2, pos, a);
        if let Ok((n, p)) = field(d1, pos, a) {
            lemma_field(d1, d2, p, 1);
            if let Ok((res, q)) = field(d1, p, 1) {
                lemma_tns_filters(d1, d2, q, long, max_sfb, res, n as nat);
            }
            if let Ok((_, q)) = tns_window(d1, p, long, max_sfb, n) {
                lemma_tns_windows(d1, d2, q, long, max_sfb, (windows - 1) as nat);
            }
        }
    }
}

/// The optional noise shaping data is settled.
pub proof fn lemma_tns_part(d1: Seq<u8>, d2: Seq<u8>, pos: int, info: IcsView)
    requires
        0 <= pos <= bit_len(d1),
    ensures
        settled(true, d1, d2, pos, tns_part(d1, pos, info), tns_part(d2, pos, info)),
{
    lemma_flag(d1, d2, pos);
    if let Ok((_, p)) = flag(d1, pos) {
        lemma_tns_windows(
            d1,
            d2,
            p,
            info.long_win(),
            info.max_sfb,
            if info.long_win() {
                1
            } else {
                8
            },
        );
    }
}

/// What follows the window layout of a channel is settled.
pub proof fn lemma_ics_body(
    d1: Seq<u8>,
    d2: Seq<u8>,
    pos: int,
    set: BookSet,
    info: IcsView,
    bands: Seq<usize>,
)
    requires
        0 <= pos <= bit_len(d1),
        set.valid(),
        info.valid(),
    ensures
        settled(
            set.prefix_free(),
            d1,
            d2,
            pos,
            ics_body(d1, pos, set, info, bands),
            ics_body(d2, pos, set, info, bands),
        ),
{
    reveal(ics_body);
    if info.max_sfb < bands.len() {
        lemma_section_books(d1, d2, pos, info, Seq::empty());
        if let Ok((books, p)) = section_books(d1, pos, info, Seq::empty()) {
            lemma_scale_factors(d1, d2, p, set.scf, books, 0, 0, true);
            if let Ok((_, p)) = scale_factors(d1, p, set.scf, books, 0, 0, true) {
                lemma_pulse_part(d1, d2, p, info);
                if let Ok((_, p)) = pulse_part(d1, p, info) {
                    lemma_tns_part(d1, d2, p, info);
                    if let Ok((_, p)) = tns_part(d1, p, info) {
                        lemma_flag(d1, d2, p);
                        if let Ok((_, p)) = flag(d1, p) {
                            lemma_spectrum(d1, d2, p, set, info, books, bands, 0, 0);
                        }
                    }
                }
            }
        }
    }
}

/// What follows the gain of a channel is settled.
pub proof fn lemma_ics_rest(
    d1: Seq<u8>,
    d2: Seq<u8>,
    pos: int,
    set: BookSet,
    shared: Option<IcsView>,
    sample_rate: u32,
)
    requires
        0 <= pos <= bit_len(d1),
        set.valid(),
        shared matches Some(info) ==> info.valid(),
    ensures
        settled(
            set.prefix_free(),
            d1,
            d2,
            pos,
            ics_rest(d1, pos, set, shared, sample_rate),
            ics_rest(d2, pos, set, shared, sample_rate),
        ),
{
    reveal(ics_rest);
    match shared {
        Some(info) => {
            lemma_ics_body(d1, d2, pos, set, info, layout_bands(info, sample_rate));
        },
        None => {
            lemma_ics_info(d1, d2, pos);
            if let Ok((info, p)) = ics_info(d1, pos) {
                lemma_ics_body(d1, d2, p, set, info, layout_bands(info, sample_rate));
            }
        },
    }
}

} // verus!
