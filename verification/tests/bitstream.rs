use m4againpy::aac_codebooks::{
    aac_quads, swb_offsets, HuffmanTables, SCF_CB_CODES, SCF_CB_LENS, SPECTRUM_10_CODES,
    SPECTRUM_10_LENS, SPECTRUM_11_CODES, SPECTRUM_11_LENS, SPECTRUM_1_CODES, SPECTRUM_1_LENS,
    SPECTRUM_2_CODES, SPECTRUM_2_LENS, SPECTRUM_3_CODES, SPECTRUM_3_LENS, SPECTRUM_4_CODES,
    SPECTRUM_4_LENS, SPECTRUM_5_CODES, SPECTRUM_5_LENS, SPECTRUM_6_CODES, SPECTRUM_6_LENS,
    SPECTRUM_7_CODES, SPECTRUM_7_LENS, SPECTRUM_8_CODES, SPECTRUM_8_LENS, SPECTRUM_9_CODES,
    SPECTRUM_9_LENS,
};
use m4againpy::bit_reader::BitReader;
use m4againpy::bits::{adjust_gain_value, read_bits_u8, write_bits_u8};
use m4againpy::error::Error;
use m4againpy::huffman::{decode_huffman, decode_huffman_slow, HuffmanEntry, HuffmanTable};
use m4againpy::ics::{
    parse_ics, parse_ics_info, parse_pulse_data, parse_section_data, parse_tns_data, read_escape,
    IcsInfo,
};
use m4againpy::location::AacGainLocation;
use m4againpy::raw_block::{
    parse_cpe, parse_raw_data_block, parse_sce, skip_dse, skip_fil, skip_pce,
};
use m4againpy::text::{decimal_text, signed_decimal_text};

struct Bits(Vec<bool>);

impl Bits {
    fn new() -> Bits {
        Bits(Vec::new())
    }

    fn put(mut self, value: u32, n: u32) -> Bits {
        for i in (0..n).rev() {
            self.0.push((value >> i) & 1 == 1);
        }
        self
    }

    fn bytes(&self) -> Vec<u8> {
        let mut out = vec![0u8; (self.0.len() + 7) / 8];
        for (i, b) in self.0.iter().enumerate() {
            if *b {
                out[i / 8] |= 0x80 >> (i % 8);
            }
        }
        out
    }
}

fn parse_message<T>(r: Result<T, Error>) -> String {
    match r {
        Err(Error::AacParse { message }) => message,
        _ => panic!("no parse error"),
    }
}

/// A long window without bands in use, behind the gain.
fn plain_window(bits: Bits) -> Bits {
    // reserved, window sequence, window shape, max_sfb, predictor
    bits.put(0, 1).put(0, 2).put(0, 1).put(0, 6).put(0, 1)
}

/// No pulses, no noise shaping, no gain control.
fn no_tools(bits: Bits) -> Bits {
    bits.put(0, 1).put(0, 1).put(0, 1)
}

/// A single channel element with a gain and nothing else.
fn plain_sce(bits: Bits, gain: u8) -> Bits {
    let bits = bits.put(0, 3).put(0, 4).put(gain as u32, 8);
    no_tools(plain_window(bits))
}

fn frame(bits: Bits) -> Result<Vec<AacGainLocation>, Error> {
    let bytes = bits.bytes();
    let tables = HuffmanTables::standard();
    parse_raw_data_block(&mut BitReader::new(&bytes), 44100, &tables)
}

#[test]
fn fields_are_written_and_read_at_any_bit() {
    let mut data = [0xff, 0x00, 0x81];
    write_bits_u8(&mut data, 0, 4, 0x5a);
    assert_eq!(data, [0xf5, 0xa0, 0x81]);
    assert_eq!(read_bits_u8(&data, 0, 4), 0x5a);
    for bit in 0..8u8 {
        for fill in [0x00u8, 0xff] {
            let mut data = [fill, fill, fill];
            write_bits_u8(&mut data, 1, 0, 0x96);
            assert_eq!(data, [fill, 0x96, fill]);
            let mut data = [fill, fill];
            write_bits_u8(&mut data, 0, bit, 0x96);
            if bit == 0 {
                assert_eq!(data, [0x96, fill]);
                continue;
            }
            assert_eq!(read_bits_u8(&data, 0, bit), 0x96);
            assert_eq!(data[0] >> (8 - bit), fill >> (8 - bit));
            assert_eq!(data[1] << bit, fill << bit);
        }
    }
}

#[test]
fn gains_saturate() {
    assert_eq!(adjust_gain_value(100, 5), 105);
    assert_eq!(adjust_gain_value(100, -5), 95);
    assert_eq!(adjust_gain_value(250, 10), 255);
    assert_eq!(adjust_gain_value(3, -5), 0);
    assert_eq!(adjust_gain_value(200, i32::MAX), 255);
    assert_eq!(adjust_gain_value(200, i32::MIN), 0);
}

#[test]
fn reader_reads_most_significant_bits_first() {
    let data = [0b1010_0110, 0xf0, 0x0f];
    let mut reader = BitReader::new(&data);
    assert_eq!(reader.bits_remaining(), 24);
    assert_eq!(reader.peek_bits(3), Ok(0b101));
    assert_eq!(reader.read_bits(3), Ok(0b101));
    assert_eq!(reader.position(), (0, 3));
    assert_eq!(reader.read_bit(), Ok(false));
    assert_eq!(reader.read_bits(8), Ok(0x6f));
    assert_eq!(reader.position(), (1, 4));
    reader.byte_align();
    assert_eq!(reader.position(), (2, 0));
    reader.byte_align();
    assert_eq!(reader.position(), (2, 0));
    assert_eq!(reader.skip_bits(5), Ok(()));
    reader.advance_bits(1);
    assert_eq!(reader.bits_remaining(), 2);
    assert_eq!(reader.drop_fields(1, 2), Ok(()));
    assert_eq!(reader.bits_remaining(), 0);
}

#[test]
fn reader_stops_at_the_end() {
    let data = [0xffu8];
    let end = "unexpected end of bitstream";
    let mut reader = BitReader::new(&data);
    assert_eq!(parse_message(reader.peek_bits(9)), end);
    assert_eq!(parse_message(reader.read_bits(9)), end);
    let mut reader = BitReader::new(&data);
    assert_eq!(parse_message(reader.skip_bits(9)), end);
    let mut reader = BitReader::new(&data);
    assert_eq!(parse_message(reader.drop_fields(3, 3)), end);
    let mut reader = BitReader::new(&data);
    reader.advance_bits(8);
    assert_eq!(parse_message(reader.read_bit()), end);
}

fn books() -> Vec<(&'static [u8], &'static [u32], u8)> {
    vec![
        (&SCF_CB_LENS, &SCF_CB_CODES, 19),
        (&SPECTRUM_1_LENS, &SPECTRUM_1_CODES, 11),
        (&SPECTRUM_2_LENS, &SPECTRUM_2_CODES, 9),
        (&SPECTRUM_3_LENS, &SPECTRUM_3_CODES, 16),
        (&SPECTRUM_4_LENS, &SPECTRUM_4_CODES, 12),
        (&SPECTRUM_5_LENS, &SPECTRUM_5_CODES, 13),
        (&SPECTRUM_6_LENS, &SPECTRUM_6_CODES, 11),
        (&SPECTRUM_7_LENS, &SPECTRUM_7_CODES, 12),
        (&SPECTRUM_8_LENS, &SPECTRUM_8_CODES, 10),
        (&SPECTRUM_9_LENS, &SPECTRUM_9_CODES, 15),
        (&SPECTRUM_10_LENS, &SPECTRUM_10_CODES, 12),
        (&SPECTRUM_11_LENS, &SPECTRUM_11_CODES, 12),
    ]
}

#[test]
fn every_codebook_uses_every_word_once() {
    for (lens, codes, max_len) in books() {
        assert_eq!(lens.len(), codes.len());
        let mut used = vec![false; 1 << max_len];
        for (len, code) in lens.iter().zip(codes.iter()) {
            let shift = max_len - len;
            for word in (code << shift)..((code + 1) << shift) {
                assert!(!used[word as usize]);
                used[word as usize] = true;
            }
        }
        assert!(used.iter().all(|u| *u));
    }
}

#[test]
fn every_code_is_decoded_looked_up_or_searched() {
    for (lens, codes, max_len) in books() {
        let table = HuffmanTable::new(lens, codes, max_len);
        for s in 0..lens.len() {
            let (len, code) = (lens[s] as u32, codes[s]);
            // In the middle of the data, and so that the data end with it.
            let behind = Bits::new().put(0b101, 3).put(code, len).put(0x15555, 24).bytes();
            let lead = (8 - len % 8) % 8;
            let last = Bits::new().put(0, lead).put(code, len).bytes();
            for (data, at) in [(behind, 3usize), (last, lead as usize)] {
                let mut fast = BitReader::new(&data);
                fast.advance_bits(at);
                assert_eq!(decode_huffman(&mut fast, &table), Ok(s));
                let mut slow = BitReader::new(&data);
                slow.advance_bits(at);
                assert_eq!(decode_huffman_slow(&mut slow, lens, codes, max_len), Ok(s));
                assert_eq!(fast.position(), slow.position());
                assert_eq!(data.len() * 8 - fast.bits_remaining(), at + len as usize);
            }
        }
    }
}

#[test]
fn words_that_start_no_code_are_refused() {
    let table = HuffmanTable::new(&[1, 2], &[0, 2], 2);
    assert_eq!(table.entries[0], HuffmanEntry { symbol: 0, len: 1 });
    assert_eq!(table.entries[1], HuffmanEntry { symbol: 0, len: 1 });
    assert_eq!(table.entries[2], HuffmanEntry { symbol: 1, len: 2 });
    assert_eq!(table.entries[3].len, 0);
    let data = [0b1011_0000];
    let mut reader = BitReader::new(&data);
    assert_eq!(decode_huffman(&mut reader, &table), Ok(1));
    assert_eq!(parse_message(decode_huffman(&mut reader, &table)), "invalid Huffman code");
    let mut reader = BitReader::new(&[]);
    assert_eq!(parse_message(decode_huffman(&mut reader, &table)), "unexpected end of bitstream");
}

#[test]
fn band_tables_cover_a_frame() {
    for rate in [96000, 88200, 64000, 48000, 44100, 32000, 24000, 22050, 16000, 12000, 11025, 8000] {
        let (long, short) = swb_offsets(rate);
        assert_eq!((long[0], short[0]), (0, 0));
        assert_eq!(long[long.len() - 1], 1024);
        assert_eq!(short[short.len() - 1], 128);
    }
    assert_eq!(swb_offsets(44100).0.len(), 50);
    assert_eq!(swb_offsets(44100).1.len(), 15);
    assert_eq!(swb_offsets(32000).0.len(), 52);
    assert_eq!(swb_offsets(96000).0.len(), 42);
    assert_eq!(swb_offsets(8000).0.len(), 41);
}

#[test]
fn quads_count_in_base_three() {
    assert_eq!(aac_quads(0), (0, 0, 0, 0));
    assert_eq!(aac_quads(1), (0, 0, 0, 1));
    assert_eq!(aac_quads(27), (1, 0, 0, 0));
    assert_eq!(aac_quads(40), (1, 1, 1, 1));
    assert_eq!(aac_quads(80), (2, 2, 2, 2));
}

#[test]
fn numbers_are_written_in_decimal() {
    assert_eq!(decimal_text(0), "0");
    assert_eq!(decimal_text(9), "9");
    assert_eq!(decimal_text(10), "10");
    assert_eq!(decimal_text(9007199254740993), "9007199254740993");
    assert_eq!(signed_decimal_text(-12), "-12");
    assert_eq!(signed_decimal_text(i32::MIN), "-2147483648");
    assert_eq!(signed_decimal_text(i32::MAX), "2147483647");
}

fn layout(bits: Bits) -> Result<IcsInfo, Error> {
    parse_ics_info(&mut BitReader::new(&bits.bytes()))
}

#[test]
fn short_windows_are_grouped() {
    let head = || Bits::new().put(0, 1).put(2, 2).put(0, 1).put(9, 4);
    let info = layout(head().put(0b0110_100, 7)).unwrap();
    assert!(!info.long_win);
    assert_eq!(info.max_sfb, 9);
    assert_eq!(info.window_groups, 5);
    assert_eq!(info.window_group_len, [1, 3, 2, 1, 1, 0, 0, 0]);
    let info = layout(head().put(0, 7)).unwrap();
    assert_eq!(info.window_group_len, [1; 8]);
    let info = layout(head().put(0x7f, 7)).unwrap();
    assert_eq!((info.window_groups, info.window_group_len[0]), (1, 8));
    for grouping in 0..128u32 {
        let info = layout(head().put(grouping, 7)).unwrap();
        assert_eq!(info.window_group_len.iter().sum::<usize>(), 8);
    }
}

#[test]
fn prediction_is_refused() {
    let bits = Bits::new().put(0, 1).put(0, 2).put(0, 1).put(3, 6).put(1, 1);
    assert_eq!(parse_message(layout(bits)), "predictor data not supported for AAC-LC");
}

#[test]
fn sections_fill_the_bands() {
    let info = layout(Bits::new().put(0, 1).put(0, 2).put(0, 1).put(40, 6).put(0, 1)).unwrap();
    let bits = Bits::new().put(5, 4).put(31, 5).put(4, 5).put(0, 4).put(5, 5).bytes();
    let section = parse_section_data(&mut BitReader::new(&bits), &info).unwrap();
    assert_eq!(section.sfb_cb[0][34], 5);
    assert_eq!(section.sfb_cb[0][35], 0);
    let bits = Bits::new().put(12, 4).put(1, 5).bytes();
    let r = parse_section_data(&mut BitReader::new(&bits), &info);
    assert_eq!(parse_message(r), "reserved codebook 12");
    for len in [0, 41] {
        let bits = if len == 0 {
            Bits::new().put(1, 4).put(0, 5).bytes()
        } else {
            Bits::new().put(1, 4).put(31, 5).put(10, 5).bytes()
        };
        let r = parse_section_data(&mut BitReader::new(&bits), &info);
        assert_eq!(parse_message(r), "invalid AAC section length");
    }
}

#[test]
fn sections_leave_the_other_bands_at_zero() {
    let info = IcsInfo {
        window_sequence: 0,
        max_sfb: 35,
        long_win: true,
        window_groups: 1,
        window_group_len: [1, 0, 0, 0, 0, 0, 0, 0],
    };
    let mut reader = BitReader::new(&[0x1f, 0x90]);
    let section = parse_section_data(&mut reader, &info).unwrap();
    for g in 0..8 {
        for k in 0..64 {
            let expected = if g == 0 && k < 35 { 1 } else { 0 };
            assert_eq!(section.sfb_cb[g][k], expected);
        }
    }
    assert_eq!(reader.position(), (1, 6));
}

#[test]
fn escapes_grow_with_their_prefix() {
    for n in 0..9u32 {
        let bits = Bits::new().put((1 << n) - 1, n).put(0, 1).put(0, n + 4);
        let len = bits.0.len();
        let bytes = bits.put(1, 9).bytes();
        let mut reader = BitReader::new(&bytes);
        assert_eq!(read_escape(&mut reader), Ok(()));
        assert_eq!(bytes.len() * 8 - reader.bits_remaining(), len);
    }
    let bytes = [0xff, 0xff, 0xff, 0xff];
    let r = read_escape(&mut BitReader::new(&bytes));
    assert_eq!(parse_message(r), "escape sequence too long");
}

#[test]
fn pulses_and_filters_are_passed_over() {
    // Two pulses.
    let bits = Bits::new().put(1, 2).put(0, 6).put(0, 18).put(1, 6).bytes();
    let mut reader = BitReader::new(&bits);
    assert_eq!(parse_pulse_data(&mut reader), Ok(()));
    assert_eq!(reader.position(), (3, 2));
    // One filter over two of three bands, of order two with three-bit
    // coefficients, and an empty filter over the third band.
    let info = layout(Bits::new().put(0, 1).put(0, 2).put(0, 1).put(3, 6).put(0, 1)).unwrap();
    let tns = Bits::new().put(2, 2).put(1, 1).put(2, 6).put(2, 5).put(0, 1).put(1, 1).put(0, 6);
    let bits = tns.put(1, 6).put(0, 5).put(0, 7).bytes();
    let mut reader = BitReader::new(&bits);
    assert_eq!(parse_tns_data(&mut reader, &info), Ok(()));
    assert_eq!(bits.len() * 8 - reader.bits_remaining(), 33);
    let bits = Bits::new().put(1, 2).put(0, 1).put(4, 6).put(0, 8).bytes();
    let r = parse_tns_data(&mut BitReader::new(&bits), &info);
    assert_eq!(parse_message(r), "invalid TNS filter length");
}

#[test]
fn a_single_channel_has_one_gain() {
    let locs = frame(plain_sce(Bits::new(), 180).put(7, 3)).unwrap();
    assert_eq!(locs, vec![AacGainLocation::new(0, 0, 0, 7, 0, 180)]);
    let bytes = plain_sce(Bits::new(), 7).bytes();
    let tables = HuffmanTables::standard();
    let mut reader = BitReader::new(&bytes);
    reader.advance_bits(3);
    let locs = parse_sce(&mut reader, 44100, &tables).unwrap();
    assert_eq!(locs, vec![AacGainLocation::new(0, 0, 0, 7, 0, 7)]);
    let mut reader = BitReader::new(&bytes);
    reader.advance_bits(7);
    let (loc, info) = parse_ics(&mut reader, 1, false, None, 44100, &tables).unwrap();
    assert_eq!((loc.channel, loc.original_gain), (1, 7));
    assert_eq!(info.max_sfb, 0);
}

#[test]
fn a_channel_pair_has_two_gains() {
    // With windows of their own.
    let pair = || Bits::new().put(1, 3).put(0, 4);
    let first = no_tools(plain_window(pair().put(0, 1).put(11, 8)));
    let both = no_tools(plain_window(first.put(22, 8))).put(7, 3);
    assert_eq!(
        frame(both).unwrap(),
        vec![AacGainLocation::new(0, 0, 1, 0, 0, 11), AacGainLocation::new(0, 0, 3, 6, 1, 22)]
    );
    // With a shared window of two bands, and a mask for them.
    let shared = pair().put(1, 1).put(0, 1).put(0, 2).put(0, 1).put(2, 6).put(0, 1);
    let masked = shared.put(1, 2).put(0b10, 2);
    let empty = |bits: Bits| no_tools(bits.put(0, 4).put(2, 5));
    let both = empty(empty(masked.put(33, 8)).put(44, 8));
    let bytes = both.bytes();
    let tables = HuffmanTables::standard();
    let mut reader = BitReader::new(&bytes);
    reader.advance_bits(3);
    let locs = parse_cpe(&mut reader, 44100, &tables).unwrap();
    assert_eq!(
        locs,
        vec![AacGainLocation::new(0, 0, 2, 7, 0, 33), AacGainLocation::new(0, 0, 5, 3, 1, 44)]
    );
}

#[test]
fn coefficients_are_passed_over() {
    // One band of four coefficients: a scale factor, then spectrum codebook 3
    // with a symbol of two signed coefficients, and one of codebook 11 with
    // two escapes.
    let sce = |bits: Bits| bits.put(0, 3).put(0, 4).put(90, 8);
    let window = |bits: Bits| bits.put(0, 1).put(0, 2).put(0, 1).put(1, 6).put(0, 1);
    let head = |cb: u32| window(sce(Bits::new())).put(cb, 4).put(1, 5).put(0, 1);
    let symbol = 2 * 27 + 1;
    let code = SPECTRUM_3_CODES[symbol];
    let len = SPECTRUM_3_LENS[symbol] as u32;
    let bits = no_tools(head(3)).put(code, len).put(0b11, 2);
    let second = plain_sce(bits, 91).put(7, 3);
    let locs = frame(second).unwrap();
    assert_eq!(locs.iter().map(|l| l.original_gain).collect::<Vec<u8>>(), vec![90, 91]);
    let symbol = 16 * 17 + 16;
    let code = SPECTRUM_11_CODES[symbol];
    let len = SPECTRUM_11_LENS[symbol] as u32;
    let bits = no_tools(head(11)).put(code, len).put(0b00, 2).put(0, 5).put(0b10, 2).put(0, 5);
    // The second pair of the band is zero.
    let bits = bits.put(SPECTRUM_11_CODES[0], SPECTRUM_11_LENS[0] as u32);
    let locs = frame(plain_sce(bits, 92).put(7, 3)).unwrap();
    assert_eq!(locs.iter().map(|l| l.original_gain).collect::<Vec<u8>>(), vec![90, 92]);
}

#[test]
fn noise_and_intensity_bands_have_no_coefficients() {
    let head = Bits::new().put(0, 3).put(0, 4).put(77, 8);
    let window = head.put(0, 1).put(0, 2).put(0, 1).put(3, 6).put(0, 1);
    // Two noise bands, of which the first starts with nine bits, and an
    // intensity band.
    let sections = window.put(13, 4).put(2, 5).put(15, 4).put(1, 5);
    let factors = sections.put(0x155, 9).put(0, 1).put(0, 1);
    let locs = frame(plain_sce(no_tools(factors), 78).put(7, 3)).unwrap();
    assert_eq!(locs.iter().map(|l| l.original_gain).collect::<Vec<u8>>(), vec![77, 78]);
}

#[test]
fn unsupported_tools_are_refused() {
    let gain = || Bits::new().put(0, 3).put(0, 4).put(1, 8);
    let long = |bits: Bits| bits.put(0, 1).put(0, 2).put(0, 1).put(0, 6).put(0, 1);
    let short = |bits: Bits| bits.put(0, 1).put(2, 2).put(0, 1).put(0, 4).put(0x7f, 7);
    let r = frame(short(gain()).put(1, 1).put(0, 20));
    assert_eq!(parse_message(r), "pulse data in short window");
    let r = frame(long(gain()).put(0, 1).put(0, 1).put(1, 1).put(0, 20));
    assert_eq!(parse_message(r), "gain control data not supported for AAC-LC");
    let r = frame(gain().put(0, 1).put(0, 2).put(0, 1).put(50, 6).put(0, 1).put(0, 20));
    assert_eq!(parse_message(r), "max_sfb 50 exceeds available bands 49");
    let r = frame(Bits::new().put(2, 3).put(0, 20));
    assert_eq!(parse_message(r), "CCE element found - sample skipped");
    let r = frame(gain());
    assert_eq!(parse_message(r), "unexpected end of bitstream");
}

#[test]
fn other_elements_are_skipped() {
    // A data stream element that is aligned, with two bytes.
    let dse = |bits: Bits| bits.put(4, 3).put(0, 4).put(1, 1).put(2, 8).put(0xabcd, 16);
    let bits = dse(Bits::new());
    let bytes = Bits::new().put(0, 4).put(1, 1).put(2, 8).put(0, 3).put(0xffff, 16).put(1, 8).bytes();
    let mut reader = BitReader::new(&bytes);
    assert_eq!(skip_dse(&mut reader), Ok(()));
    assert_eq!(reader.position(), (4, 0));
    // The element is aligned already here.
    let locs = frame(plain_sce(bits, 5).put(7, 3)).unwrap();
    assert_eq!(locs[0].original_gain, 5);
    // Fill elements of one byte, and of 15 + 2 - 1 bytes.
    let bytes = Bits::new().put(1, 4).put(0xff, 8).put(15, 4).put(2, 8).put(0, 8).bytes();
    let mut reader = BitReader::new(&bytes);
    assert_eq!(skip_fil(&mut reader), Ok(()));
    assert_eq!(reader.position(), (1, 4));
    assert_eq!(parse_message(skip_fil(&mut reader)), "unexpected end of bitstream");
    let mut long = Bits::new().put(15, 4).put(2, 8);
    for _ in 0..16 {
        long = long.put(0xff, 8);
    }
    let bytes = long.put(0, 4).bytes();
    let mut reader = BitReader::new(&bytes);
    assert_eq!(skip_fil(&mut reader), Ok(()));
    assert_eq!(reader.bits_remaining(), 4);
    let locs = frame(plain_sce(Bits::new().put(6, 3).put(1, 4).put(0xff, 8), 6).put(7, 3)).unwrap();
    assert_eq!(locs[0].original_gain, 6);
}

#[test]
fn a_program_config_is_skipped() {
    // One front and one effects channel, a mono mixdown, a comment of two
    // bytes.
    let head = Bits::new().put(0, 4).put(1, 2).put(4, 4).put(1, 4).put(0, 4).put(0, 4);
    let counts = head.put(1, 2).put(0, 3).put(0, 4).put(1, 1).put(3, 4).put(0, 1).put(0, 1);
    let lists = counts.put(0, 5).put(0, 4);
    assert_eq!(lists.0.len(), 47);
    let bytes = lists.put(0, 1).put(2, 8).put(0x4142, 16).put(0xff, 8).bytes();
    let mut reader = BitReader::new(&bytes);
    assert_eq!(skip_pce(&mut reader), Ok(()));
    assert_eq!(reader.position(), (9, 0));
}

#[test]
fn a_block_ends_with_its_data() {
    assert_eq!(frame(Bits::new()).unwrap(), vec![]);
    assert_eq!(frame(Bits::new().put(7, 3)).unwrap(), vec![]);
    let locs = frame(plain_sce(Bits::new(), 9).put(0b111, 3)).unwrap();
    assert_eq!(locs.len(), 1);
}

#[test]
fn the_places_do_not_depend_on_the_gains() {
    let build = |gain: u8| {
        let bits = plain_sce(plain_sce(Bits::new(), gain), gain ^ 0x55);
        bits.put(7, 3)
    };
    let first = frame(build(0)).unwrap();
    for gain in 1..=255u8 {
        let locs = frame(build(gain)).unwrap();
        assert_eq!(locs.len(), first.len());
        for (a, b) in locs.iter().zip(first.iter()) {
            assert_eq!(a.sample_byte_offset, b.sample_byte_offset);
            assert_eq!(a.bit_offset, b.bit_offset);
        }
        assert_eq!((locs[0].original_gain, locs[1].original_gain), (gain, gain ^ 0x55));
    }
}
