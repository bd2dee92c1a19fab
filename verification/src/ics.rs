//! Reading the individual channel stream of AAC.
use crate::aac_codebooks::{aac_quads, bands_valid, swb_offsets, HuffmanTables, SpectrumTable};
use crate::bit_reader::{lemma_small_powers, BitReader};
use crate::bits::bit_len;
use crate::error::Error;
use crate::huffman::decode_huffman;
use crate::ics_settled::{
    lemma_ics_info, lemma_section_books, lemma_section_len, lemma_window_groups,
};
use crate::ics_syntax::{
    books_valid, escape, group_books, ics, ics_body, ics_info, ics_rest, pulse_data, pulses,
    scale_factors, section_bits, section_books, section_escape, section_len, spectrum, symbol_tail,
    symbols, tns_coefficients, tns_data, tns_filters, tns_window, tns_windows, too_many_bands,
    window_groups, window_symbols, IcsView, EIGHT_SHORT_SEQUENCE, ESC_HCB, INTENSITY_HCB,
    INTENSITY_HCB2, NOISE_HCB, ZERO_HCB,
};
use crate::location::AacGainLocation;
use crate::text::decimal_text;
use vstd::prelude::*;
use vstd::string::*;

verus! {

/// The number of scale factor bands that a section table has room for.
pub const MAX_SFBS: usize = 64;

/// The number of windows that a frame can have.
pub const MAX_WINDOWS: usize = 8;

/// The window layout of a channel.
#[derive(Debug, Clone, Copy)]
pub struct IcsInfo {
    pub window_sequence: u8,
    pub max_sfb: usize,
    pub long_win: bool,
    pub window_groups: usize,
    pub window_group_len: [usize; MAX_WINDOWS],
}

impl View for IcsInfo {
    type V = IcsView;

    open spec fn view(&self) -> IcsView {
        IcsView {
            window_sequence: self.window_sequence as int,
            max_sfb: self.max_sfb as int,
            groups: Seq::new(self.window_groups as nat, |g: int| self.window_group_len@[g] as int),
        }
    }
}

impl IcsInfo {
    /// The layout is valid, and there is nothing behind the last group.
    pub open spec fn wf(self) -> bool {
        &&& self@.valid()
        &&& self.long_win == self@.long_win()
        &&& forall|g: int|
            self.window_groups <= g < MAX_WINDOWS ==> #[trigger] self.window_group_len@[g] == 0
    }
}

/// Reads a window layout.
pub fn parse_ics_info(reader: &mut BitReader) -> (r: Result<IcsInfo, Error>)
    requires
        old(reader).ready(),
    ensures
        final(reader).wf(),
        r is Ok ==> final(reader).ready(),
        final(reader).data == old(reader).data,
        match ics_info(old(reader).data@, old(reader).pos()) {
            Ok((info, p)) => r is Ok && r->Ok_0.wf() && r->Ok_0@ == info && final(reader).pos()
                == p,
            Err((e, p)) => r is Err && r->Err_0@ == e && final(reader).pos() == p,
        },
{
    proof {
        reveal(ics_info);
    }
    proof {
        lemma_small_powers();
        lemma_ics_info(reader.data@, reader.data@, reader.pos());
    }
    reader.read_bits(1)?;
    let window_sequence = reader.read_bits(2)? as u8;
    reader.read_bits(1)?;
    let long_win = window_sequence != EIGHT_SHORT_SEQUENCE;
    if !long_win {
        let max_sfb = reader.read_bits(4)? as usize;
        let scale_factor_grouping = reader.read_bits(7)? as u8;
        let mut groups: usize = 1;
        let mut group_len: [usize; MAX_WINDOWS] = [0usize; MAX_WINDOWS];
        group_len[0] = 1;
        let mut i: u8 = 0;
        proof {
            assert(Seq::new(1, |g: int| group_len@[g] as int) =~= seq![1int]);
        }
        while i < 7
            invariant
                i <= 7,
                1 <= groups <= i + 1,
                Seq::new(groups as nat, |g: int| group_len@[g] as int) =~= window_groups(
                    scale_factor_grouping,
                    i as nat,
                ),
                forall|g: int| groups <= g < MAX_WINDOWS ==> #[trigger] group_len@[g] == 0,
            decreases 7 - i,
        {
            let ghost before = group_len@;
            let ghost seq_before = window_groups(scale_factor_grouping, i as nat);
            proof {
                lemma_window_groups(scale_factor_grouping, i as nat);
                assert(seq_before.last() == group_len@[groups - 1]);
                let k = (7 - (i + 1)) as u8;
                assert((scale_factor_grouping >> k) & 1 == 0 <==> !((scale_factor_grouping >> k)
                    & 1 == 1)) by (bit_vector);
            }
            if (scale_factor_grouping >> (6 - i)) & 1 == 0 {
                groups = groups + 1;
                group_len[groups - 1] = 1;
            } else {
                group_len[groups - 1] = group_len[groups - 1] + 1;
            }
            i = i + 1;
        }
        Ok(
            IcsInfo {
                window_sequence,
                max_sfb,
                long_win,
                window_groups: groups,
                window_group_len: group_len,
            },
        )
    } else {
        let max_sfb = reader.read_bits(6)? as usize;
        let predictor_data_present = reader.read_bit()?;
        if predictor_data_present {
            return Err(Error::aac_parse("predictor data not supported for AAC-LC"));
        }
        let mut group_len: [usize; MAX_WINDOWS] = [0usize; MAX_WINDOWS];
        group_len[0] = 1;
        let info = IcsInfo {
            window_sequence,
            max_sfb,
            long_win,
            window_groups: 1,
            window_group_len: group_len,
        };
        assert(info@.groups =~= seq![1int]);
        Ok(info)
    }
}

/// The codebook number of every band of every window group.
pub struct SectionData {
    pub sfb_cb: [[u8; MAX_SFBS]; MAX_WINDOWS],
}

impl SectionData {
    /// The codebook numbers of the first `groups` groups and `max_sfb` bands.
    pub open spec fn books(self, groups: int, max_sfb: int) -> Seq<Seq<u8>> {
        Seq::new(
            groups as nat,
            |g: int| Seq::new(max_sfb as nat, |i: int| self.sfb_cb@[g]@[i]),
        )
    }

    /// The entries behind the first `groups` groups, and behind the first
    /// `max_sfb` bands of any group, are zero.
    pub open spec fn zero_beyond(self, groups: int, max_sfb: int) -> bool {
        forall|g: int, i: int|
            0 <= g < MAX_WINDOWS && 0 <= i < MAX_SFBS && (g >= groups || i >= max_sfb)
                ==> #[trigger] self.sfb_cb@[g]@[i] == 0
    }
}

/// Reads the length of a section. A length above `limit` may come out as
/// another one above `limit`.
fn parse_section_len(reader: &mut BitReader, long_win: bool, limit: usize) -> (r: Result<
    usize,
    Error,
>)
    requires
        old(reader).ready(),
        limit < MAX_SFBS,
    ensures
        final(reader).wf(),
        r is Ok ==> final(reader).ready(),
        final(reader).data == old(reader).data,
        match section_len(old(reader).data@, old(reader).pos(), long_win) {
            Ok((n, p)) => r is Ok && (r->Ok_0 == n || n > limit && r->Ok_0 > limit)
                && final(reader).pos() == p,
            Err((e, p)) => r is Err && r->Err_0@ == e && final(reader).pos() == p,
        },
{
    let sect_bits: u8 = if long_win {
        5
    } else {
        3
    };
    let sect_esc_val: u32 = if long_win {
        31
    } else {
        7
    };
    let ghost mut exact: int = 0;
    let mut sect_len: usize = 0;
    loop
        invariant
            limit < MAX_SFBS,
            reader.ready(),
            reader.data == old(reader).data,
            sect_bits == section_bits(long_win),
            sect_esc_val == section_escape(long_win),
            exact >= 0,
            sect_len <= 200,
            sect_len == exact || exact > limit && sect_len > limit,
            match section_len(reader.data@, reader.pos(), long_win) {
                Ok((n, p)) => section_len(old(reader).data@, old(reader).pos(), long_win) == Ok::<
                    (int, int),
                    (crate::error::ErrorView, int),
                >((exact + n, p)),
                Err(f) => section_len(old(reader).data@, old(reader).pos(), long_win) == Err::<
                    (int, int),
                    (crate::error::ErrorView, int),
                >(f),
            },
        decreases bit_len(reader.data@) - reader.pos(),
    {
        proof {
            lemma_small_powers();
            lemma_section_len(reader.data@, reader.data@, reader.pos(), long_win);
        }
        let incr = reader.read_bits(sect_bits)?;
        if sect_len <= limit {
            sect_len = sect_len + incr as usize;
        }
        proof {
            exact = exact + incr;
        }
        if incr < sect_esc_val {
            return Ok(sect_len);
        }
    }
}

/// Reads the codebook numbers of one window group into `row`.
fn parse_group_section(reader: &mut BitReader, info: &IcsInfo, row: &mut [u8; MAX_SFBS]) -> (r:
    Result<(), Error>)
    requires
        old(reader).ready(),
        info.wf(),
        forall|i: int| 0 <= i < MAX_SFBS ==> #[trigger] old(row)@[i] == 0,
    ensures
        final(reader).wf(),
        r is Ok ==> final(reader).ready(),
        final(reader).data == old(reader).data,
        match group_books(
            old(reader).data@,
            old(reader).pos(),
            info.long_win,
            info.max_sfb as int,
            Seq::empty(),
        ) {
            Ok((books, p)) => r is Ok && final(row)@.subrange(0, info.max_sfb as int) == books
                && final(reader).pos() == p && forall|i: int|
                info.max_sfb <= i < MAX_SFBS ==> #[trigger] final(row)@[i] == 0,
            Err((e, p)) => r is Err && r->Err_0@ == e && final(reader).pos() == p,
        },
{
    let mut k: usize = 0;
    proof {
        lemma_small_powers();
        assert(row@.subrange(0, 0) =~= Seq::<u8>::empty());
    }
    while k < info.max_sfb
        invariant
            info.wf(),
            k <= info.max_sfb,
            reader.ready(),
            reader.data == old(reader).data,
            group_books(
                old(reader).data@,
                old(reader).pos(),
                info.long_win,
                info.max_sfb as int,
                Seq::empty(),
            ) == group_books(
                reader.data@,
                reader.pos(),
                info.long_win,
                info.max_sfb as int,
                row@.subrange(0, k as int),
            ),
            forall|i: int| k <= i < MAX_SFBS ==> #[trigger] row@[i] == 0,
        decreases info.max_sfb - k,
    {
        let ghost before = row@;
        proof {
            lemma_small_powers();
        }
        let cb = reader.read_bits(4)? as u8;
        if cb == 12 {
            return Err(Error::aac_parse("reserved codebook 12"));
        }
        proof {
            lemma_section_len(reader.data@, reader.data@, reader.pos(), info.long_win);
        }
        let sect_len = parse_section_len(reader, info.long_win, info.max_sfb)?;
        if sect_len == 0 || sect_len > info.max_sfb || k + sect_len > info.max_sfb {
            return Err(Error::aac_parse("invalid AAC section length"));
        }
        let mut i: usize = k;
        while i < k + sect_len
            invariant
                info.wf(),
                k <= i <= k + sect_len,
                k + sect_len <= info.max_sfb,
                before.len() == MAX_SFBS,
                forall|j: int|
                    0 <= j < MAX_SFBS ==> #[trigger] row@[j] == (if k <= j < i {
                        cb
                    } else {
                        before[j]
                    }),
            decreases k + sect_len - i,
        {
            row[i] = cb;
            i = i + 1;
        }
        proof {
            assert(row@.subrange(0, k + sect_len) =~= before.subrange(0, k as int) + Seq::new(
                sect_len as nat,
                |i: int| cb,
            ));
        }
        k = k + sect_len;
    }
    Ok(())
}

/// Reads the codebook numbers of all bands.
pub fn parse_section_data(reader: &mut BitReader, info: &IcsInfo) -> (r: Result<
    SectionData,
    Error,
>)
    requires
        old(reader).ready(),
        info.wf(),
    ensures
        final(reader).wf(),
        r is Ok ==> final(reader).ready(),
        final(reader).data == old(reader).data,
        match section_books(old(reader).data@, old(reader).pos(), info@, Seq::empty()) {
            Ok((books, p)) => r is Ok && r->Ok_0.books(
                info.window_groups as int,
                info.max_sfb as int,
            ) == books && final(reader).pos() == p,
            Err((e, p)) => r is Err && r->Err_0@ == e && final(reader).pos() == p,
        },
        r matches Ok(section) ==> section.zero_beyond(
            info.window_groups as int,
            info.max_sfb as int,
        ),
{
    let mut sfb_cb: [[u8; MAX_SFBS]; MAX_WINDOWS] = [[0u8; MAX_SFBS]; MAX_WINDOWS];
    let mut g: usize = 0;
    proof {
        assert((SectionData { sfb_cb }).books(0, info.max_sfb as int) =~= Seq::empty());
    }
    while g < info.window_groups
        invariant
            info.wf(),
            g <= info.window_groups,
            reader.ready(),
            reader.data == old(reader).data,
            section_books(old(reader).data@, old(reader).pos(), info@, Seq::empty())
                == section_books(
                reader.data@,
                reader.pos(),
                info@,
                (SectionData { sfb_cb }).books(g as int, info.max_sfb as int),
            ),
            (SectionData { sfb_cb }).zero_beyond(g as int, info.max_sfb as int),
        decreases info.window_groups - g,
    {
        let ghost before = (SectionData { sfb_cb }).books(g as int, info.max_sfb as int);
        let mut row: [u8; MAX_SFBS] = [0u8; MAX_SFBS];
        parse_group_section(reader, info, &mut row)?;
        sfb_cb[g] = row;
        proof {
            let after = (SectionData { sfb_cb }).books(g + 1, info.max_sfb as int);
            let books = row@.subrange(0, info.max_sfb as int);
            assert(after[g as int] =~= books);
            assert forall|h: int| 0 <= h < g implies #[trigger] after[h] == before[h] by {
                assert(after[h] =~= before[h]);
            }
            assert(after =~= before.push(books));
        }
        g = g + 1;
    }
    Ok(SectionData { sfb_cb })
}

/// Reads the scale factors.
pub fn parse_scale_factor_data(
    reader: &mut BitReader,
    info: &IcsInfo,
    section: &SectionData,
    tables: &HuffmanTables,
) -> (r: Result<(), Error>)
    requires
        old(reader).ready(),
        info.wf(),
        tables.wf(),
    ensures
        final(reader).wf(),
        r is Ok ==> final(reader).ready(),
        final(reader).data == old(reader).data,
        match scale_factors(
            old(reader).data@,
            old(reader).pos(),
            tables@.scf,
            section.books(info.window_groups as int, info.max_sfb as int),
            0,
            0,
            true,
        ) {
            Ok((_, p)) => r is Ok && final(reader).pos() == p,
            Err((e, p)) => r is Err && r->Err_0@ == e && final(reader).pos() == p,
        },
{
    let ghost books = section.books(info.window_groups as int, info.max_sfb as int);
    let mut noise_pcm_flag = true;
    let mut g: usize = 0;
    while g < info.window_groups
        invariant
            info.wf(),
            tables.wf(),
            books == section.books(info.window_groups as int, info.max_sfb as int),
            g <= info.window_groups,
            reader.ready(),
            reader.data == old(reader).data,
            scale_factors(
                old(reader).data@,
                old(reader).pos(),
                tables@.scf,
                books,
                0,
                0,
                true,
            ) == scale_factors(
                reader.data@,
                reader.pos(),
                tables@.scf,
                books,
                g as int,
                0,
                noise_pcm_flag,
            ),
        decreases info.window_groups - g,
    {
        let mut sfb: usize = 0;
        while sfb < info.max_sfb
            invariant
                info.wf(),
                tables.wf(),
                books == section.books(info.window_groups as int, info.max_sfb as int),
                g < info.window_groups,
                sfb <= info.max_sfb,
                reader.ready(),
                reader.data == old(reader).data,
                scale_factors(
                    old(reader).data@,
                    old(reader).pos(),
                    tables@.scf,
                    books,
                    0,
                    0,
                    true,
                ) == scale_factors(
                    reader.data@,
                    reader.pos(),
                    tables@.scf,
                    books,
                    g as int,
                    sfb as int,
                    noise_pcm_flag,
                ),
            decreases info.max_sfb - sfb,
        {
            let cb = section.sfb_cb[g][sfb];
            assert(cb == books[g as int][sfb as int]);
            if cb == ZERO_HCB {
            } else if cb == NOISE_HCB && noise_pcm_flag {
                reader.read_bits(9)?;
                noise_pcm_flag = false;
            } else {
                decode_huffman(reader, &tables.scf)?;
            }
            sfb = sfb + 1;
        }
        g = g + 1;
    }
    Ok(())
}

/// Reads an escape sequence.
pub fn read_escape(reader: &mut BitReader) -> (r: Result<(), Error>)
    requires
        old(reader).ready(),
    ensures
        final(reader).wf(),
        r is Ok ==> final(reader).ready(),
        final(reader).data == old(reader).data,
        match escape(old(reader).data@, old(reader).pos(), 0) {
            Ok((_, p)) => r is Ok && final(reader).pos() == p,
            Err((e, p)) => r is Err && r->Err_0@ == e && final(reader).pos() == p,
        },
{
    let mut n: usize = 0;
    loop
        invariant
            n < 9,
            reader.ready(),
            reader.data == old(reader).data,
            escape(old(reader).data@, old(reader).pos(), 0) == escape(
                reader.data@,
                reader.pos(),
                n as int,
            ),
        decreases 9 - n,
    {
        let more = reader.read_bit()?;
        if !more {
            return reader.skip_bits(n + 4);
        }
        n = n + 1;
        if n >= 9 {
            return Err(Error::aac_parse("escape sequence too long"));
        }
    }
}

/// Reads what follows a symbol of a spectrum codebook.
fn parse_symbol_tail(
    reader: &mut BitReader,
    spectrum: &SpectrumTable,
    escapes: bool,
    symbol: usize,
) -> (r: Result<(), Error>)
    requires
        old(reader).ready(),
        spectrum@.valid(),
        symbol < spectrum@.book.size(),
    ensures
        final(reader).wf(),
        r is Ok ==> final(reader).ready(),
        final(reader).data == old(reader).data,
        match symbol_tail(
            old(reader).data@,
            old(reader).pos(),
            spectrum@,
            escapes,
            symbol as int,
        ) {
            Ok((_, p)) => r is Ok && final(reader).pos() == p,
            Err((e, p)) => r is Err && r->Err_0@ == e && final(reader).pos() == p,
        },
{
    if spectrum.is_unsigned {
        if spectrum.dimension == 4 {
            let (a, b, c, d) = aac_quads(symbol);
            let mut signs: usize = 0;
            if a != 0 {
                signs = signs + 1;
            }
            if b != 0 {
                signs = signs + 1;
            }
            if c != 0 {
                signs = signs + 1;
            }
            if d != 0 {
                signs = signs + 1;
            }
            reader.drop_fields(1, signs)?;
        } else {
            let mod_val = spectrum.mod_value as usize;
            let x: usize = symbol / mod_val;
            let y: usize = symbol % mod_val;
            let mut signs: usize = 0;
            if x != 0 {
                signs = signs + 1;
            }
            if y != 0 {
                signs = signs + 1;
            }
            reader.drop_fields(1, signs)?;
            if escapes {
                if x == 16 {
                    read_escape(reader)?;
                }
                if y == 16 {
                    read_escape(reader)?;
                }
            }
        }
    }
    Ok(())
}

/// Reads the symbols of one band in each of `windows` windows.
fn parse_band(
    reader: &mut BitReader,
    table: &SpectrumTable,
    escapes: bool,
    num_codewords: usize,
    windows: usize,
) -> (r: Result<(), Error>)
    requires
        old(reader).ready(),
        table@.valid(),
        table.table.wf(),
    ensures
        final(reader).wf(),
        r is Ok ==> final(reader).ready(),
        final(reader).data == old(reader).data,
        match window_symbols(
            old(reader).data@,
            old(reader).pos(),
            table@,
            escapes,
            num_codewords as nat,
            windows as nat,
        ) {
            Ok((_, p)) => r is Ok && final(reader).pos() == p,
            Err((e, p)) => r is Err && r->Err_0@ == e && final(reader).pos() == p,
        },
{
    let mut w: usize = 0;
    while w < windows
        invariant
            w <= windows,
            table@.valid(),
            table.table.wf(),
            reader.ready(),
            reader.data == old(reader).data,
            window_symbols(
                old(reader).data@,
                old(reader).pos(),
                table@,
                escapes,
                num_codewords as nat,
                windows as nat,
            ) == window_symbols(
                reader.data@,
                reader.pos(),
                table@,
                escapes,
                num_codewords as nat,
                (windows - w) as nat,
            ),
        decreases windows - w,
    {
        let ghost at = reader.pos();
        let mut c: usize = 0;
        while c < num_codewords
            invariant
                w < windows,
                c <= num_codewords,
                table@.valid(),
                table.table.wf(),
                reader.ready(),
                reader.data == old(reader).data,
                window_symbols(
                    old(reader).data@,
                    old(reader).pos(),
                    table@,
                    escapes,
                    num_codewords as nat,
                    windows as nat,
                ) == window_symbols(
                    reader.data@,
                    at,
                    table@,
                    escapes,
                    num_codewords as nat,
                    (windows - w) as nat,
                ),
                symbols(reader.data@, at, table@, escapes, num_codewords as nat) == symbols(
                    reader.data@,
                    reader.pos(),
                    table@,
                    escapes,
                    (num_codewords - c) as nat,
                ),
            decreases num_codewords - c,
        {
            let symbol = decode_huffman(reader, &table.table)?;
            parse_symbol_tail(reader, table, escapes, symbol)?;
            c = c + 1;
        }
        w = w + 1;
    }
    Ok(())
}

/// Reads the spectral coefficients.
pub fn parse_spectral_data(
    reader: &mut BitReader,
    info: &IcsInfo,
    section: &SectionData,
    bands: &[usize],
    tables: &HuffmanTables,
) -> (r: Result<(), Error>)
    requires
        old(reader).ready(),
        info.wf(),
        tables.wf(),
        bands_valid(bands@),
        info.max_sfb < bands@.len(),
        books_valid(
            section.books(info.window_groups as int, info.max_sfb as int),
            info.window_groups as int,
            info.max_sfb as int,
        ),
    ensures
        final(reader).wf(),
        r is Ok ==> final(reader).ready(),
        final(reader).data == old(reader).data,
        match spectrum(
            old(reader).data@,
            old(reader).pos(),
            tables@,
            info@,
            section.books(info.window_groups as int, info.max_sfb as int),
            bands@,
            0,
            0,
        ) {
            Ok((_, p)) => r is Ok && final(reader).pos() == p,
            Err((e, p)) => r is Err && r->Err_0@ == e && final(reader).pos() == p,
        },
{
    let ghost books = section.books(info.window_groups as int, info.max_sfb as int);
    let mut g: usize = 0;
    while g < info.window_groups
        invariant
            info.wf(),
            tables.wf(),
            bands_valid(bands@),
            info.max_sfb < bands@.len(),
            books == section.books(info.window_groups as int, info.max_sfb as int),
            books_valid(books, info.window_groups as int, info.max_sfb as int),
            g <= info.window_groups,
            reader.ready(),
            reader.data == old(reader).data,
            spectrum(
                old(reader).data@,
                old(reader).pos(),
                tables@,
                info@,
                books,
                bands@,
                0,
                0,
            ) == spectrum(
                reader.data@,
                reader.pos(),
                tables@,
                info@,
                books,
                bands@,
                g as int,
                0,
            ),
        decreases info.window_groups - g,
    {
        // The coefficients of short windows are ordered by scale factor band
        // and, within a band, by the windows of the group.
        let mut sfb: usize = 0;
        while sfb < info.max_sfb
            invariant
                info.wf(),
                tables.wf(),
                bands_valid(bands@),
                info.max_sfb < bands@.len(),
                books == section.books(info.window_groups as int, info.max_sfb as int),
                books_valid(books, info.window_groups as int, info.max_sfb as int),
                g < info.window_groups,
                sfb <= info.max_sfb,
                reader.ready(),
                reader.data == old(reader).data,
                spectrum(
                    old(reader).data@,
                    old(reader).pos(),
                    tables@,
                    info@,
                    books,
                    bands@,
                    0,
                    0,
                ) == spectrum(
                    reader.data@,
                    reader.pos(),
                    tables@,
                    info@,
                    books,
                    bands@,
                    g as int,
                    sfb as int,
                ),
            decreases info.max_sfb - sfb,
        {
            let cb_idx = section.sfb_cb[g][sfb];
            assert(cb_idx == books[g as int][sfb as int]);
            if cb_idx == ZERO_HCB || cb_idx == NOISE_HCB || cb_idx == INTENSITY_HCB || cb_idx
                == INTENSITY_HCB2 {
            } else {
                assert(bands@[sfb as int] <= bands@[sfb + 1]);
                let width: usize = bands[sfb + 1] - bands[sfb];
                let table = &tables.spectrum[cb_idx as usize - 1];
                assert(tables@.spectrum[cb_idx - 1] == table@);
                assert(tables@.spectrum[cb_idx - 1].valid());
                let num_codewords: usize = width / table.dimension as usize;
                assert(info@.groups[g as int] == info.window_group_len@[g as int]);
                parse_band(
                    reader,
                    table,
                    cb_idx == ESC_HCB,
                    num_codewords,
                    info.window_group_len[g],
                )?;
            }
            sfb = sfb + 1;
        }
        g = g + 1;
    }
    Ok(())
}

/// Reads the pulse data.
pub fn parse_pulse_data(reader: &mut BitReader) -> (r: Result<(), Error>)
    requires
        old(reader).ready(),
    ensures
        final(reader).wf(),
        r is Ok ==> final(reader).ready(),
        final(reader).data == old(reader).data,
        match pulse_data(old(reader).data@, old(reader).pos()) {
            Ok((_, p)) => r is Ok && final(reader).pos() == p,
            Err((e, p)) => r is Err && r->Err_0@ == e && final(reader).pos() == p,
        },
{
    proof {
        lemma_small_powers();
    }
    let number_pulse = reader.read_bits(2)? as usize;
    reader.read_bits(6)?;
    let mut i: usize = 0;
    while i < number_pulse + 1
        invariant
            number_pulse < 4,
            i <= number_pulse + 1,
            reader.ready(),
            reader.data == old(reader).data,
            pulse_data(old(reader).data@, old(reader).pos()) == pulses(
                reader.data@,
                reader.pos(),
                (number_pulse + 1 - i) as nat,
            ),
        decreases number_pulse + 1 - i,
    {
        reader.read_bits(5)?;
        reader.read_bits(4)?;
        i = i + 1;
    }
    Ok(())
}

/// Reads the direction, the compression and the coefficients of a filter.
fn parse_tns_coefficients(reader: &mut BitReader, coef_res: u32, order: usize) -> (r: Result<
    (),
    Error,
>)
    requires
        old(reader).ready(),
        coef_res < 2,
    ensures
        final(reader).wf(),
        r is Ok ==> final(reader).ready(),
        final(reader).data == old(reader).data,
        match tns_coefficients(
            old(reader).data@,
            old(reader).pos(),
            coef_res as int,
            order as int,
        ) {
            Ok((_, p)) => r is Ok && final(reader).pos() == p,
            Err((e, p)) => r is Err && r->Err_0@ == e && final(reader).pos() == p,
        },
{
    proof {
        lemma_small_powers();
    }
    if order > 0 {
        reader.read_bits(1)?;
        let coef_compress = reader.read_bits(1)?;
        let coef_bits = (coef_res + 3 - coef_compress) as u8;
        reader.drop_fields(coef_bits, order)?;
    }
    Ok(())
}

/// Reads the coefficient resolution and the filters of one window.
fn parse_tns_window(reader: &mut BitReader, info: &IcsInfo, n_filt: usize) -> (r: Result<
    (),
    Error,
>)
    requires
        old(reader).ready(),
        info.wf(),
    ensures
        final(reader).wf(),
        r is Ok ==> final(reader).ready(),
        final(reader).data == old(reader).data,
        match tns_window(
            old(reader).data@,
            old(reader).pos(),
            info.long_win,
            info.max_sfb as int,
            n_filt as int,
        ) {
            Ok((_, p)) => r is Ok && final(reader).pos() == p,
            Err((e, p)) => r is Err && r->Err_0@ == e && final(reader).pos() == p,
        },
{
    let length_bits: u8 = if info.long_win {
        6
    } else {
        4
    };
    let order_bits: u8 = if info.long_win {
        5
    } else {
        3
    };
    if n_filt > 0 {
        proof {
            lemma_small_powers();
        }
        let mut remaining_bands: usize = info.max_sfb;
        let coef_res = reader.read_bits(1)?;
        let mut i: usize = 0;
        while i < n_filt
            invariant
                i <= n_filt,
                info.wf(),
                coef_res < 2,
                length_bits == (if info.long_win {
                    6u8
                } else {
                    4u8
                }),
                order_bits == (if info.long_win {
                    5u8
                } else {
                    3u8
                }),
                reader.ready(),
                reader.data == old(reader).data,
                tns_window(
                    old(reader).data@,
                    old(reader).pos(),
                    info.long_win,
                    info.max_sfb as int,
                    n_filt as int,
                ) == tns_filters(
                    reader.data@,
                    reader.pos(),
                    info.long_win,
                    remaining_bands as int,
                    coef_res as int,
                    (n_filt - i) as nat,
                ),
            decreases n_filt - i,
        {
            let length = reader.read_bits(length_bits)? as usize;
            if length > remaining_bands {
                return Err(Error::aac_parse("invalid TNS filter length"));
            }
            remaining_bands = remaining_bands - length;
            let order = reader.read_bits(order_bits)? as usize;
            parse_tns_coefficients(reader, coef_res, order)?;
            i = i + 1;
        }
    }
    Ok(())
}

/// Reads the temporal noise shaping data.
pub fn parse_tns_data(reader: &mut BitReader, info: &IcsInfo) -> (r: Result<(), Error>)
    requires
        old(reader).ready(),
        info.wf(),
    ensures
        final(reader).wf(),
        r is Ok ==> final(reader).ready(),
        final(reader).data == old(reader).data,
        match tns_data(old(reader).data@, old(reader).pos(), info@) {
            Ok((_, p)) => r is Ok && final(reader).pos() == p,
            Err((e, p)) => r is Err && r->Err_0@ == e && final(reader).pos() == p,
        },
{
    let n_filt_bits: u8 = if info.long_win {
        2
    } else {
        1
    };
    let num_windows: usize = if info.long_win {
        1
    } else {
        8
    };
    let mut w: usize = 0;
    while w < num_windows
        invariant
            w <= num_windows,
            info.wf(),
            n_filt_bits == (if info.long_win {
                2u8
            } else {
                1u8
            }),
            reader.ready(),
            reader.data == old(reader).data,
            tns_data(old(reader).data@, old(reader).pos(), info@) == tns_windows(
                reader.data@,
                reader.pos(),
                info.long_win,
                info.max_sfb as int,
                (num_windows - w) as nat,
            ),
        decreases num_windows - w,
    {
        let n_filt = reader.read_bits(n_filt_bits)? as usize;
        parse_tns_window(reader, info, n_filt)?;
        w = w + 1;
    }
    Ok(())
}

/// The text of the error of a channel with more bands than its sample rate
/// has.
fn too_many_bands_error(max_sfb: usize, bands: usize) -> (error: Error)
    requires
        bands > 0,
    ensures
        error@ == too_many_bands(max_sfb as int, bands as int),
{
    let mut message = "max_sfb ".to_string();
    message.append(decimal_text(max_sfb as u64).as_str());
    message.append(" exceeds available bands ");
    message.append(decimal_text((bands - 1) as u64).as_str());
    Error::AacParse { message }
}

/// Reads what follows the window layout of a channel.
fn parse_ics_body(
    reader: &mut BitReader,
    info: &IcsInfo,
    bands: &[usize],
    tables: &HuffmanTables,
) -> (r: Result<(), Error>)
    requires
        old(reader).ready(),
        info.wf(),
        tables.wf(),
        bands_valid(bands@),
    ensures
        final(reader).wf(),
        r is Ok ==> final(reader).ready(),
        final(reader).data == old(reader).data,
        match ics_body(old(reader).data@, old(reader).pos(), tables@, info@, bands@) {
            Ok((_, p)) => r is Ok && final(reader).pos() == p,
            Err((e, p)) => r is Err && r->Err_0@ == e && final(reader).pos() == p,
        },
{
    proof {
        reveal(ics_body);
    }
    if info.max_sfb >= bands.len() {
        return Err(too_many_bands_error(info.max_sfb, bands.len()));
    }
    proof {
        lemma_section_books(reader.data@, reader.data@, reader.pos(), info@, Seq::empty());
    }
    let section = parse_section_data(reader, info)?;
    parse_scale_factor_data(reader, info, &section, tables)?;
    if reader.read_bit()? {
        if !info.long_win {
            return Err(Error::aac_parse("pulse data in short window"));
        }
        parse_pulse_data(reader)?;
    }
    if reader.read_bit()? {
        parse_tns_data(reader, info)?;
    }
    if reader.read_bit()? {
        return Err(Error::aac_parse("gain control data not supported for AAC-LC"));
    }
    parse_spectral_data(reader, info, &section, bands, tables)
}

/// Reads a channel: the place of its gain and its window layout.
pub fn parse_ics(
    reader: &mut BitReader,
    channel: u8,
    common_window: bool,
    shared_info: Option<&IcsInfo>,
    sample_rate: u32,
    tables: &HuffmanTables,
) -> (r: Result<(AacGainLocation, IcsInfo), Error>)
    requires
        old(reader).ready(),
        tables.wf(),
        common_window ==> shared_info is Some,
        shared_info matches Some(info) ==> info.wf(),
    ensures
        final(reader).wf(),
        r is Ok ==> final(reader).ready(),
        final(reader).data == old(reader).data,
        match ics(
            old(reader).data@,
            old(reader).pos(),
            tables@,
            channel,
            if common_window {
                Some(shared_info->Some_0@)
            } else {
                None
            },
            sample_rate,
        ) {
            Ok(((loc, info), p)) => r is Ok && r->Ok_0.0 == loc && r->Ok_0.1.wf() && r->Ok_0.1@
                == info && final(reader).pos() == p,
            Err((e, p)) => r is Err && r->Err_0@ == e && final(reader).pos() == p,
        },
{
    proof {
        reveal(ics);
        reveal(ics_rest);
    }
    proof {
        lemma_small_powers();
    }
    let (byte_off, bit_off) = reader.position();
    proof {
        assert(reader.pos() / 8 == byte_off);
        assert(reader.pos() % 8 == bit_off);
    }
    let global_gain = reader.read_bits(8)? as u8;
    let gain_loc = AacGainLocation::new(0, 0, byte_off as u32, bit_off, channel, global_gain);
    let info = match shared_info {
        Some(info) if common_window => *info,
        _ => parse_ics_info(reader)?,
    };
    let (long_bands, short_bands) = swb_offsets(sample_rate);
    let bands = if info.long_win {
        long_bands
    } else {
        short_bands
    };
    parse_ics_body(reader, &info, bands, tables)?;
    Ok((gain_loc, info))
}

} // verus!
