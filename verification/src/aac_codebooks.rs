//! The codebooks and the scale factor bands of AAC.
use crate::huffman::{Codebook, HuffmanTable};
use vstd::prelude::*;

verus! {

/// Code lengths of the scale factor codebook.
pub const SCF_CB_LENS: [u8; 121] = [
    18, 18, 18, 18, 19, 19, 19, 19, 19, 19, 19, 19, 19, 19, 19, 19,
    19, 19, 19, 18, 19, 18, 17, 17, 16, 17, 16, 16, 16, 16, 15, 15,
    14, 14, 14, 14, 14, 14, 13, 13, 12, 12, 12, 11, 12, 11, 10, 10,
    10, 9, 9, 8, 8, 8, 7, 6, 6, 5, 4, 3, 1, 4, 4, 5,
    6, 6, 7, 7, 8, 8, 9, 9, 10, 10, 10, 11, 11, 11, 11, 12,
    12, 13, 13, 13, 14, 14, 16, 15, 16, 15, 18, 19, 19, 19, 19, 19,
    19, 19, 19, 19, 19, 19, 19, 19, 19, 19, 19, 19, 19, 19, 19, 19,
    19, 19, 19, 19, 19, 19, 19, 19, 19,
];

/// Codes of the scale factor codebook.
pub const SCF_CB_CODES: [u32; 121] = [
    0x3ffe8, 0x3ffe6, 0x3ffe7, 0x3ffe5, 0x7fff5, 0x7fff1, 0x7ffed, 0x7fff6,
    0x7ffee, 0x7ffef, 0x7fff0, 0x7fffc, 0x7fffd, 0x7ffff, 0x7fffe, 0x7fff7,
    0x7fff8, 0x7fffb, 0x7fff9, 0x3ffe4, 0x7fffa, 0x3ffe3, 0x1ffef, 0x1fff0,
    0xfff5, 0x1ffee, 0xfff2, 0xfff3, 0xfff4, 0xfff1, 0x7ff6, 0x7ff7,
    0x3ff9, 0x3ff5, 0x3ff7, 0x3ff3, 0x3ff6, 0x3ff2, 0x1ff7, 0x1ff5,
    0xff9, 0xff7, 0xff6, 0x7f9, 0xff4, 0x7f8, 0x3f9, 0x3f7,
    0x3f5, 0x1f8, 0x1f7, 0xfa, 0xf8, 0xf6, 0x79, 0x3a,
    0x38, 0x1a, 0xb, 0x4, 0x0, 0xa, 0xc, 0x1b,
    0x39, 0x3b, 0x78, 0x7a, 0xf7, 0xf9, 0x1f6, 0x1f9,
    0x3f4, 0x3f6, 0x3f8, 0x7f5, 0x7f4, 0x7f6, 0x7f7, 0xff5,
    0xff8, 0x1ff4, 0x1ff6, 0x1ff8, 0x3ff8, 0x3ff4, 0xfff0, 0x7ff4,
    0xfff6, 0x7ff5, 0x3ffe2, 0x7ffd9, 0x7ffda, 0x7ffdb, 0x7ffdc, 0x7ffdd,
    0x7ffde, 0x7ffd8, 0x7ffd2, 0x7ffd3, 0x7ffd4, 0x7ffd5, 0x7ffd6, 0x7fff2,
    0x7ffdf, 0x7ffe7, 0x7ffe8, 0x7ffe9, 0x7ffea, 0x7ffeb, 0x7ffe6, 0x7ffe0,
    0x7ffe1, 0x7ffe2, 0x7ffe3, 0x7ffe4, 0x7ffe5, 0x7ffd7, 0x7ffec, 0x7fff4,
    0x7fff3,
];

/// Code lengths of spectrum codebook 1.
pub const SPECTRUM_1_LENS: [u8; 81] = [
    11, 9, 11, 10, 7, 10, 11, 9, 11, 10, 7, 10, 7, 5, 7, 9,
    7, 10, 11, 9, 11, 9, 7, 9, 11, 9, 11, 9, 7, 9, 7, 5,
    7, 9, 7, 9, 7, 5, 7, 5, 1, 5, 7, 5, 7, 9, 7, 9,
    7, 5, 7, 9, 7, 9, 11, 9, 11, 9, 7, 9, 11, 9, 11, 10,
    7, 9, 7, 5, 7, 9, 7, 10, 11, 9, 11, 10, 7, 9, 11, 9,
    11,
];

/// Codes of spectrum codebook 1.
pub const SPECTRUM_1_CODES: [u32; 81] = [
    0x7f8, 0x1f1, 0x7fd, 0x3f5, 0x68, 0x3f0, 0x7f7, 0x1ec,
    0x7f5, 0x3f1, 0x72, 0x3f4, 0x74, 0x11, 0x76, 0x1eb,
    0x6c, 0x3f6, 0x7fc, 0x1e1, 0x7f1, 0x1f0, 0x61, 0x1f6,
    0x7f2, 0x1ea, 0x7fb, 0x1f2, 0x69, 0x1ed, 0x77, 0x17,
    0x6f, 0x1e6, 0x64, 0x1e5, 0x67, 0x15, 0x62, 0x12,
    0x0, 0x14, 0x65, 0x16, 0x6d, 0x1e9, 0x63, 0x1e4,
    0x6b, 0x13, 0x71, 0x1e3, 0x70, 0x1f3, 0x7fe, 0x1e7,
    0x7f3, 0x1ef, 0x60, 0x1ee, 0x7f0, 0x1e2, 0x7fa, 0x3f3,
    0x6a, 0x1e8, 0x75, 0x10, 0x73, 0x1f4, 0x6e, 0x3f7,
    0x7f6, 0x1e0, 0x7f9, 0x3f2, 0x66, 0x1f5, 0x7ff, 0x1f7,
    0x7f4,
];

/// Code lengths of spectrum codebook 2.
pub const SPECTRUM_2_LENS: [u8; 81] = [
    9, 7, 9, 8, 6, 8, 9, 8, 9, 8, 6, 7, 6, 5, 6, 7,
    6, 8, 9, 7, 8, 8, 6, 8, 9, 7, 9, 8, 6, 7, 6, 5,
    6, 7, 6, 8, 6, 5, 6, 5, 3, 5, 6, 5, 6, 8, 6, 7,
    6, 5, 6, 8, 6, 8, 9, 7, 9, 8, 6, 8, 8, 7, 9, 8,
    6, 7, 6, 4, 6, 8, 6, 7, 9, 7, 9, 7, 6, 8, 9, 7,
    9,
];

/// Codes of spectrum codebook 2.
pub const SPECTRUM_2_CODES: [u32; 81] = [
    0x1f3, 0x6f, 0x1fd, 0xeb, 0x23, 0xea, 0x1f7, 0xe8,
    0x1fa, 0xf2, 0x2d, 0x70, 0x20, 0x6, 0x2b, 0x6e,
    0x28, 0xe9, 0x1f9, 0x66, 0xf8, 0xe7, 0x1b, 0xf1,
    0x1f4, 0x6b, 0x1f5, 0xec, 0x2a, 0x6c, 0x2c, 0xa,
    0x27, 0x67, 0x1a, 0xf5, 0x24, 0x8, 0x1f, 0x9,
    0x0, 0x7, 0x1d, 0xb, 0x30, 0xef, 0x1c, 0x64,
    0x1e, 0xc, 0x29, 0xf3, 0x2f, 0xf0, 0x1fc, 0x71,
    0x1f2, 0xf4, 0x21, 0xe6, 0xf7, 0x68, 0x1f8, 0xee,
    0x22, 0x65, 0x31, 0x2, 0x26, 0xed, 0x25, 0x6a,
    0x1fb, 0x72, 0x1fe, 0x69, 0x2e, 0xf6, 0x1ff, 0x6d,
    0x1f6,
];

/// Code lengths of spectrum codebook 3.
pub const SPECTRUM_3_LENS: [u8; 81] = [
    1, 4, 8, 4, 5, 8, 9, 9, 10, 4, 6, 9, 6, 6, 9, 9,
    9, 10, 9, 10, 13, 9, 9, 11, 11, 10, 12, 4, 6, 10, 6, 7,
    10, 10, 10, 12, 5, 7, 11, 6, 7, 10, 9, 9, 11, 9, 10, 13,
    8, 9, 12, 10, 11, 12, 8, 10, 15, 9, 11, 15, 13, 14, 16, 8,
    10, 14, 9, 10, 14, 12, 12, 15, 11, 12, 16, 10, 11, 15, 12, 12,
    15,
];

/// Codes of spectrum codebook 3.
pub const SPECTRUM_3_CODES: [u32; 81] = [
    0x0, 0x9, 0xef, 0xb, 0x19, 0xf0, 0x1eb, 0x1e6,
    0x3f2, 0xa, 0x35, 0x1ef, 0x34, 0x37, 0x1e9, 0x1ed,
    0x1e7, 0x3f3, 0x1ee, 0x3ed, 0x1ffa, 0x1ec, 0x1f2, 0x7f9,
    0x7f8, 0x3f8, 0xff8, 0x8, 0x38, 0x3f6, 0x36, 0x75,
    0x3f1, 0x3eb, 0x3ec, 0xff4, 0x18, 0x76, 0x7f4, 0x39,
    0x74, 0x3ef, 0x1f3, 0x1f4, 0x7f6, 0x1e8, 0x3ea, 0x1ffc,
    0xf2, 0x1f1, 0xffb, 0x3f5, 0x7f3, 0xffc, 0xee, 0x3f7,
    0x7ffe, 0x1f0, 0x7f5, 0x7ffd, 0x1ffb, 0x3ffa, 0xffff, 0xf1,
    0x3f0, 0x3ffc, 0x1ea, 0x3ee, 0x3ffb, 0xff6, 0xffa, 0x7ffc,
    0x7f2, 0xff5, 0xfffe, 0x3f4, 0x7f7, 0x7ffb, 0xff7, 0xff9,
    0x7ffa,
];

/// Code lengths of spectrum codebook 4.
pub const SPECTRUM_4_LENS: [u8; 81] = [
    4, 5, 8, 5, 4, 8, 9, 8, 11, 5, 5, 8, 5, 4, 8, 8,
    7, 10, 9, 8, 11, 8, 8, 10, 11, 10, 11, 4, 5, 8, 4, 4,
    8, 8, 8, 10, 4, 4, 8, 4, 4, 7, 8, 7, 9, 8, 8, 10,
    7, 7, 9, 10, 9, 10, 8, 8, 11, 8, 7, 10, 11, 10, 12, 8,
    7, 10, 7, 7, 9, 10, 9, 11, 11, 10, 12, 10, 9, 11, 11, 10,
    11,
];

/// Codes of spectrum codebook 4.
pub const SPECTRUM_4_CODES: [u32; 81] = [
    0x7, 0x16, 0xf6, 0x18, 0x8, 0xef, 0x1ef, 0xf3,
    0x7f8, 0x19, 0x17, 0xed, 0x15, 0x1, 0xe2, 0xf0,
    0x70, 0x3f0, 0x1ee, 0xf1, 0x7fa, 0xee, 0xe4, 0x3f2,
    0x7f6, 0x3ef, 0x7fd, 0x5, 0x14, 0xf2, 0x9, 0x4,
    0xe5, 0xf4, 0xe8, 0x3f4, 0x6, 0x2, 0xe7, 0x3,
    0x0, 0x6b, 0xe3, 0x69, 0x1f3, 0xeb, 0xe6, 0x3f6,
    0x6e, 0x6a, 0x1f4, 0x3ec, 0x1f0, 0x3f9, 0xf5, 0xec,
    0x7fb, 0xea, 0x6f, 0x3f7, 0x7f9, 0x3f3, 0xfff, 0xe9,
    0x6d, 0x3f8, 0x6c, 0x68, 0x1f5, 0x3ee, 0x1f2, 0x7f4,
    0x7f7, 0x3f1, 0xffe, 0x3ed, 0x1f1, 0x7f5, 0x7fe, 0x3f5,
    0x7fc,
];

/// Code lengths of spectrum codebook 5.
pub const SPECTRUM_5_LENS: [u8; 81] = [
    13, 12, 11, 11, 10, 11, 11, 12, 13, 12, 11, 10, 9, 8, 9, 10,
    11, 12, 12, 10, 9, 8, 7, 8, 9, 10, 11, 11, 9, 8, 5, 4,
    5, 8, 9, 11, 10, 8, 7, 4, 1, 4, 7, 8, 11, 11, 9, 8,
    5, 4, 5, 8, 9, 11, 11, 10, 9, 8, 7, 8, 9, 10, 11, 12,
    11, 10, 9, 8, 9, 10, 11, 12, 13, 12, 12, 11, 10, 10, 11, 12,
    13,
];

/// Codes of spectrum codebook 5.
pub const SPECTRUM_5_CODES: [u32; 81] = [
    0x1fff, 0xff7, 0x7f4, 0x7e8, 0x3f1, 0x7ee, 0x7f9, 0xff8,
    0x1ffd, 0xffd, 0x7f1, 0x3e8, 0x1e8, 0xf0, 0x1ec, 0x3ee,
    0x7f2, 0xffa, 0xff4, 0x3ef, 0x1f2, 0xe8, 0x70, 0xec,
    0x1f0, 0x3ea, 0x7f3, 0x7eb, 0x1eb, 0xea, 0x1a, 0x8,
    0x19, 0xee, 0x1ef, 0x7ed, 0x3f0, 0xf2, 0x73, 0xb,
    0x0, 0xa, 0x71, 0xf3, 0x7e9, 0x7ef, 0x1ee, 0xef,
    0x18, 0x9, 0x1b, 0xeb, 0x1e9, 0x7ec, 0x7f6, 0x3eb,
    0x1f3, 0xed, 0x72, 0xe9, 0x1f1, 0x3ed, 0x7f7, 0xff6,
    0x7f0, 0x3e9, 0x1ed, 0xf1, 0x1ea, 0x3ec, 0x7f8, 0xff9,
    0x1ffc, 0xffc, 0xff5, 0x7ea, 0x3f3, 0x3f2, 0x7f5, 0xffb,
    0x1ffe,
];

/// Code lengths of spectrum codebook 6.
pub const SPECTRUM_6_LENS: [u8; 81] = [
    11, 10, 9, 9, 9, 9, 9, 10, 11, 10, 9, 8, 7, 7, 7, 8,
    9, 10, 9, 8, 6, 6, 6, 6, 6, 8, 9, 9, 7, 6, 4, 4,
    4, 6, 7, 9, 9, 7, 6, 4, 4, 4, 6, 7, 9, 9, 7, 6,
    4, 4, 4, 6, 7, 9, 9, 8, 6, 6, 6, 6, 6, 8, 9, 10,
    9, 8, 7, 7, 7, 7, 8, 10, 11, 10, 9, 9, 9, 9, 9, 10,
    11,
];

/// Codes of spectrum codebook 6.
pub const SPECTRUM_6_CODES: [u32; 81] = [
    0x7fe, 0x3fd, 0x1f1, 0x1eb, 0x1f4, 0x1ea, 0x1f0, 0x3fc,
    0x7fd, 0x3f6, 0x1e5, 0xea, 0x6c, 0x71, 0x68, 0xf0,
    0x1e6, 0x3f7, 0x1f3, 0xef, 0x32, 0x27, 0x28, 0x26,
    0x31, 0xeb, 0x1f7, 0x1e8, 0x6f, 0x2e, 0x8, 0x4,
    0x6, 0x29, 0x6b, 0x1ee, 0x1ef, 0x72, 0x2d, 0x2,
    0x0, 0x3, 0x2f, 0x73, 0x1fa, 0x1e7, 0x6e, 0x2b,
    0x7, 0x1, 0x5, 0x2c, 0x6d, 0x1ec, 0x1f9, 0xee,
    0x30, 0x24, 0x2a, 0x25, 0x33, 0xec, 0x1f2, 0x3f8,
    0x1e4, 0xed, 0x6a, 0x70, 0x69, 0x74, 0xf1, 0x3fa,
    0x7ff, 0x3f9, 0x1f6, 0x1ed, 0x1f8, 0x1e9, 0x1f5, 0x3fb,
    0x7fc,
];

/// Code lengths of spectrum codebook 7.
pub const SPECTRUM_7_LENS: [u8; 64] = [
    1, 3, 6, 7, 8, 9, 10, 11, 3, 4, 6, 7, 8, 8, 9, 9,
    6, 6, 7, 8, 8, 9, 9, 10, 7, 7, 8, 8, 9, 9, 10, 10,
    8, 8, 9, 9, 10, 10, 10, 11, 9, 8, 9, 9, 10, 10, 11, 11,
    10, 9, 9, 10, 10, 11, 12, 12, 11, 10, 10, 10, 11, 11, 12, 12,
];

/// Codes of spectrum codebook 7.
pub const SPECTRUM_7_CODES: [u32; 64] = [
    0x0, 0x5, 0x37, 0x74, 0xf2, 0x1eb, 0x3ed, 0x7f7,
    0x4, 0xc, 0x35, 0x71, 0xec, 0xee, 0x1ee, 0x1f5,
    0x36, 0x34, 0x72, 0xea, 0xf1, 0x1e9, 0x1f3, 0x3f5,
    0x73, 0x70, 0xeb, 0xf0, 0x1f1, 0x1f0, 0x3ec, 0x3fa,
    0xf3, 0xed, 0x1e8, 0x1ef, 0x3ef, 0x3f1, 0x3f9, 0x7fb,
    0x1ed, 0xef, 0x1ea, 0x1f2, 0x3f3, 0x3f8, 0x7f9, 0x7fc,
    0x3ee, 0x1ec, 0x1f4, 0x3f4, 0x3f7, 0x7f8, 0xffd, 0xffe,
    0x7f6, 0x3f0, 0x3f2, 0x3f6, 0x7fa, 0x7fd, 0xffc, 0xfff,
];

/// Code lengths of spectrum codebook 8.
pub const SPECTRUM_8_LENS: [u8; 64] = [
    5, 4, 5, 6, 7, 8, 9, 10, 4, 3, 4, 5, 6, 7, 7, 8,
    5, 4, 4, 5, 6, 7, 7, 8, 6, 5, 5, 6, 6, 7, 8, 8,
    7, 6, 6, 6, 7, 7, 8, 9, 8, 7, 6, 7, 7, 8, 8, 10,
    9, 7, 7, 8, 8, 8, 9, 9, 10, 8, 8, 8, 9, 9, 9, 10,
];

/// Codes of spectrum codebook 8.
pub const SPECTRUM_8_CODES: [u32; 64] = [
    0xe, 0x5, 0x10, 0x30, 0x6f, 0xf1, 0x1fa, 0x3fe,
    0x3, 0x0, 0x4, 0x12, 0x2c, 0x6a, 0x75, 0xf8,
    0xf, 0x2, 0x6, 0x14, 0x2e, 0x69, 0x72, 0xf5,
    0x2f, 0x11, 0x13, 0x2a, 0x32, 0x6c, 0xec, 0xfa,
    0x71, 0x2b, 0x2d, 0x31, 0x6d, 0x70, 0xf2, 0x1f9,
    0xef, 0x68, 0x33, 0x6b, 0x6e, 0xee, 0xf9, 0x3fc,
    0x1f8, 0x74, 0x73, 0xed, 0xf0, 0xf6, 0x1f6, 0x1fd,
    0x3fd, 0xf3, 0xf4, 0xf7, 0x1f7, 0x1fb, 0x1fc, 0x3ff,
];

/// Code lengths of spectrum codebook 9.
pub const SPECTRUM_9_LENS: [u8; 169] = [
    1, 3, 6, 8, 9, 10, 10, 11, 11, 12, 12, 13, 13, 3, 4, 6,
    7, 8, 8, 9, 10, 10, 10, 11, 12, 12, 6, 6, 7, 8, 8, 9,
    10, 10, 10, 11, 12, 12, 12, 8, 7, 8, 9, 9, 10, 10, 11, 11,
    11, 12, 12, 13, 9, 8, 9, 9, 10, 10, 11, 11, 11, 12, 12, 12,
    13, 10, 9, 9, 10, 11, 11, 11, 12, 11, 12, 12, 13, 13, 11, 9,
    10, 11, 11, 11, 12, 12, 12, 12, 13, 13, 13, 11, 10, 10, 11, 11,
    12, 12, 13, 13, 13, 13, 13, 13, 11, 10, 10, 11, 11, 11, 12, 12,
    13, 13, 14, 13, 14, 11, 10, 11, 11, 12, 12, 12, 12, 13, 13, 14,
    14, 14, 12, 11, 11, 12, 12, 12, 13, 13, 13, 14, 14, 14, 15, 12,
    11, 12, 12, 12, 13, 13, 13, 13, 14, 14, 15, 15, 13, 12, 12, 12,
    13, 13, 13, 13, 14, 14, 14, 14, 15,
];

/// Codes of spectrum codebook 9.
pub const SPECTRUM_9_CODES: [u32; 169] = [
    0x0, 0x5, 0x37, 0xe7, 0x1de, 0x3ce, 0x3d9, 0x7c8,
    0x7cd, 0xfc8, 0xfdd, 0x1fe4, 0x1fec, 0x4, 0xc, 0x35,
    0x72, 0xea, 0xed, 0x1e2, 0x3d1, 0x3d3, 0x3e0, 0x7d8,
    0xfcf, 0xfd5, 0x36, 0x34, 0x71, 0xe8, 0xec, 0x1e1,
    0x3cf, 0x3dd, 0x3db, 0x7d0, 0xfc7, 0xfd4, 0xfe4, 0xe6,
    0x70, 0xe9, 0x1dd, 0x1e3, 0x3d2, 0x3dc, 0x7cc, 0x7ca,
    0x7de, 0xfd8, 0xfea, 0x1fdb, 0x1df, 0xeb, 0x1dc, 0x1e6,
    0x3d5, 0x3de, 0x7cb, 0x7dd, 0x7dc, 0xfcd, 0xfe2, 0xfe7,
    0x1fe1, 0x3d0, 0x1e0, 0x1e4, 0x3d6, 0x7c5, 0x7d1, 0x7db,
    0xfd2, 0x7e0, 0xfd9, 0xfeb, 0x1fe3, 0x1fe9, 0x7c4, 0x1e5,
    0x3d7, 0x7c6, 0x7cf, 0x7da, 0xfcb, 0xfda, 0xfe3, 0xfe9,
    0x1fe6, 0x1ff3, 0x1ff7, 0x7d3, 0x3d8, 0x3e1, 0x7d4, 0x7d9,
    0xfd3, 0xfde, 0x1fdd, 0x1fd9, 0x1fe2, 0x1fea, 0x1ff1, 0x1ff6,
    0x7d2, 0x3d4, 0x3da, 0x7c7, 0x7d7, 0x7e2, 0xfce, 0xfdb,
    0x1fd8, 0x1fee, 0x3ff0, 0x1ff4, 0x3ff2, 0x7e1, 0x3df, 0x7c9,
    0x7d6, 0xfca, 0xfd0, 0xfe5, 0xfe6, 0x1feb, 0x1fef, 0x3ff3,
    0x3ff4, 0x3ff5, 0xfe0, 0x7ce, 0x7d5, 0xfc6, 0xfd1, 0xfe1,
    0x1fe0, 0x1fe8, 0x1ff0, 0x3ff1, 0x3ff8, 0x3ff6, 0x7ffc, 0xfe8,
    0x7df, 0xfc9, 0xfd7, 0xfdc, 0x1fdc, 0x1fdf, 0x1fed, 0x1ff5,
    0x3ff9, 0x3ffb, 0x7ffd, 0x7ffe, 0x1fe7, 0xfcc, 0xfd6, 0xfdf,
    0x1fde, 0x1fda, 0x1fe5, 0x1ff2, 0x3ffa, 0x3ff7, 0x3ffc, 0x3ffd,
    0x7fff,
];

/// Code lengths of spectrum codebook 10.
pub const SPECTRUM_10_LENS: [u8; 169] = [
    6, 5, 6, 6, 7, 8, 9, 10, 10, 10, 11, 11, 12, 5, 4, 4,
    5, 6, 7, 7, 8, 8, 9, 10, 10, 11, 6, 4, 5, 5, 6, 6,
    7, 8, 8, 9, 9, 10, 10, 6, 5, 5, 5, 6, 7, 7, 8, 8,
    9, 9, 10, 10, 7, 6, 6, 6, 6, 7, 7, 8, 8, 9, 9, 10,
    10, 8, 7, 6, 7, 7, 7, 8, 8, 8, 9, 10, 10, 11, 9, 7,
    7, 7, 7, 8, 8, 9, 9, 9, 10, 10, 11, 9, 8, 8, 8, 8,
    8, 9, 9, 9, 10, 10, 11, 11, 9, 8, 8, 8, 8, 8, 9, 9,
    10, 10, 10, 11, 11, 10, 9, 9, 9, 9, 9, 9, 10, 10, 10, 11,
    11, 12, 10, 9, 9, 9, 9, 10, 10, 10, 10, 11, 11, 11, 12, 11,
    10, 9, 10, 10, 10, 10, 10, 11, 11, 11, 11, 12, 11, 10, 10, 10,
    10, 10, 10, 11, 11, 12, 12, 12, 12,
];

/// Codes of spectrum codebook 10.
pub const SPECTRUM_10_CODES: [u32; 169] = [
    0x22, 0x8, 0x1d, 0x26, 0x5f, 0xd3, 0x1cf, 0x3d0,
    0x3d7, 0x3ed, 0x7f0, 0x7f6, 0xffd, 0x7, 0x0, 0x1,
    0x9, 0x20, 0x54, 0x60, 0xd5, 0xdc, 0x1d4, 0x3cd,
    0x3de, 0x7e7, 0x1c, 0x2, 0x6, 0xc, 0x1e, 0x28,
    0x5b, 0xcd, 0xd9, 0x1ce, 0x1dc, 0x3d9, 0x3f1, 0x25,
    0xb, 0xa, 0xd, 0x24, 0x57, 0x61, 0xcc, 0xdd,
    0x1cc, 0x1de, 0x3d3, 0x3e7, 0x5d, 0x21, 0x1f, 0x23,
    0x27, 0x59, 0x64, 0xd8, 0xdf, 0x1d2, 0x1e2, 0x3dd,
    0x3ee, 0xd1, 0x55, 0x29, 0x56, 0x58, 0x62, 0xce,
    0xe0, 0xe2, 0x1da, 0x3d4, 0x3e3, 0x7eb, 0x1c9, 0x5e,
    0x5a, 0x5c, 0x63, 0xca, 0xda, 0x1c7, 0x1ca, 0x1e0,
    0x3db, 0x3e8, 0x7ec, 0x1e3, 0xd2, 0xcb, 0xd0, 0xd7,
    0xdb, 0x1c6, 0x1d5, 0x1d8, 0x3ca, 0x3da, 0x7ea, 0x7f1,
    0x1e1, 0xd4, 0xcf, 0xd6, 0xde, 0xe1, 0x1d0, 0x1d6,
    0x3d1, 0x3d5, 0x3f2, 0x7ee, 0x7fb, 0x3e9, 0x1cd, 0x1c8,
    0x1cb, 0x1d1, 0x1d7, 0x1df, 0x3cf, 0x3e0, 0x3ef, 0x7e6,
    0x7f8, 0xffa, 0x3eb, 0x1dd, 0x1d3, 0x1d9, 0x1db, 0x3d2,
    0x3cc, 0x3dc, 0x3ea, 0x7ed, 0x7f3, 0x7f9, 0xff9, 0x7f2,
    0x3ce, 0x1e4, 0x3cb, 0x3d8, 0x3d6, 0x3e2, 0x3e5, 0x7e8,
    0x7f4, 0x7f5, 0x7f7, 0xffb, 0x7fa, 0x3ec, 0x3df, 0x3e1,
    0x3e4, 0x3e6, 0x3f0, 0x7e9, 0x7ef, 0xff8, 0xffe, 0xffc,
    0xfff,
];

/// Code lengths of spectrum codebook 11.
pub const SPECTRUM_11_LENS: [u8; 289] = [
    4, 5, 6, 7, 8, 8, 9, 10, 10, 10, 11, 11, 12, 11, 12, 12,
    10, 5, 4, 5, 6, 7, 7, 8, 8, 9, 9, 9, 10, 10, 10, 10,
    11, 8, 6, 5, 5, 6, 7, 7, 8, 8, 8, 9, 9, 9, 10, 10,
    10, 10, 8, 7, 6, 6, 6, 7, 7, 8, 8, 8, 9, 9, 9, 10,
    10, 10, 10, 8, 8, 7, 7, 7, 7, 8, 8, 8, 8, 9, 9, 9,
    10, 10, 10, 10, 8, 8, 7, 7, 7, 7, 8, 8, 8, 9, 9, 9,
    9, 10, 10, 10, 10, 8, 9, 8, 8, 8, 8, 8, 8, 8, 9, 9,
    9, 10, 10, 10, 10, 10, 8, 9, 8, 8, 8, 8, 8, 8, 9, 9,
    9, 10, 10, 10, 10, 10, 10, 8, 10, 9, 8, 8, 9, 9, 9, 9,
    9, 10, 10, 10, 10, 10, 10, 11, 8, 10, 9, 9, 9, 9, 9, 9,
    9, 10, 10, 10, 10, 10, 10, 11, 11, 8, 11, 9, 9, 9, 9, 9,
    9, 10, 10, 10, 10, 10, 11, 10, 11, 11, 8, 11, 10, 9, 9, 10,
    9, 10, 10, 10, 10, 10, 11, 11, 11, 11, 11, 8, 11, 10, 10, 10,
    10, 10, 10, 10, 10, 10, 10, 11, 11, 11, 11, 11, 9, 11, 10, 9,
    9, 10, 10, 10, 10, 10, 10, 11, 11, 11, 11, 11, 11, 9, 11, 10,
    10, 10, 10, 10, 10, 10, 10, 10, 11, 11, 11, 11, 11, 11, 9, 12,
    10, 10, 10, 10, 10, 10, 10, 11, 11, 11, 11, 11, 11, 12, 12, 9,
    9, 8, 8, 8, 8, 8, 8, 8, 8, 8, 8, 8, 8, 8, 8, 9,
    5,
];

/// Codes of spectrum codebook 11.
pub const SPECTRUM_11_CODES: [u32; 289] = [
    0x0, 0x6, 0x19, 0x3d, 0x9c, 0xc6, 0x1a7, 0x390,
    0x3c2, 0x3df, 0x7e6, 0x7f3, 0xffb, 0x7ec, 0xffa, 0xffe,
    0x38e, 0x5, 0x1, 0x8, 0x14, 0x37, 0x42, 0x92,
    0xaf, 0x191, 0x1a5, 0x1b5, 0x39e, 0x3c0, 0x3a2, 0x3cd,
    0x7d6, 0xae, 0x17, 0x7, 0x9, 0x18, 0x39, 0x40,
    0x8e, 0xa3, 0xb8, 0x199, 0x1ac, 0x1c1, 0x3b1, 0x396,
    0x3be, 0x3ca, 0x9d, 0x3c, 0x15, 0x16, 0x1a, 0x3b,
    0x44, 0x91, 0xa5, 0xbe, 0x196, 0x1ae, 0x1b9, 0x3a1,
    0x391, 0x3a5, 0x3d5, 0x94, 0x9a, 0x36, 0x38, 0x3a,
    0x41, 0x8c, 0x9b, 0xb0, 0xc3, 0x19e, 0x1ab, 0x1bc,
    0x39f, 0x38f, 0x3a9, 0x3cf, 0x93, 0xbf, 0x3e, 0x3f,
    0x43, 0x45, 0x9e, 0xa7, 0xb9, 0x194, 0x1a2, 0x1ba,
    0x1c3, 0x3a6, 0x3a7, 0x3bb, 0x3d4, 0x9f, 0x1a0, 0x8f,
    0x8d, 0x90, 0x98, 0xa6, 0xb6, 0xc4, 0x19f, 0x1af,
    0x1bf, 0x399, 0x3bf, 0x3b4, 0x3c9, 0x3e7, 0xa8, 0x1b6,
    0xab, 0xa4, 0xaa, 0xb2, 0xc2, 0xc5, 0x198, 0x1a4,
    0x1b8, 0x38c, 0x3a4, 0x3c4, 0x3c6, 0x3dd, 0x3e8, 0xad,
    0x3af, 0x192, 0xbd, 0xbc, 0x18e, 0x197, 0x19a, 0x1a3,
    0x1b1, 0x38d, 0x398, 0x3b7, 0x3d3, 0x3d1, 0x3db, 0x7dd,
    0xb4, 0x3de, 0x1a9, 0x19b, 0x19c, 0x1a1, 0x1aa, 0x1ad,
    0x1b3, 0x38b, 0x3b2, 0x3b8, 0x3ce, 0x3e1, 0x3e0, 0x7d2,
    0x7e5, 0xb7, 0x7e3, 0x1bb, 0x1a8, 0x1a6, 0x1b0, 0x1b2,
    0x1b7, 0x39b, 0x39a, 0x3ba, 0x3b5, 0x3d6, 0x7d7, 0x3e4,
    0x7d8, 0x7ea, 0xba, 0x7e8, 0x3a0, 0x1bd, 0x1b4, 0x38a,
    0x1c4, 0x392, 0x3aa, 0x3b0, 0x3bc, 0x3d7, 0x7d4, 0x7dc,
    0x7db, 0x7d5, 0x7f0, 0xc1, 0x7fb, 0x3c8, 0x3a3, 0x395,
    0x39d, 0x3ac, 0x3ae, 0x3c5, 0x3d8, 0x3e2, 0x3e6, 0x7e4,
    0x7e7, 0x7e0, 0x7e9, 0x7f7, 0x190, 0x7f2, 0x393, 0x1be,
    0x1c0, 0x394, 0x397, 0x3ad, 0x3c3, 0x3c1, 0x3d2, 0x7da,
    0x7d9, 0x7df, 0x7eb, 0x7f4, 0x7fa, 0x195, 0x7f8, 0x3bd,
    0x39c, 0x3ab, 0x3a8, 0x3b3, 0x3b9, 0x3d0, 0x3e3, 0x3e5,
    0x7e2, 0x7de, 0x7ed, 0x7f1, 0x7f9, 0x7fc, 0x193, 0xffd,
    0x3dc, 0x3b6, 0x3c7, 0x3cc, 0x3cb, 0x3d9, 0x3da, 0x7d3,
    0x7e1, 0x7ee, 0x7ef, 0x7f5, 0x7f6, 0xffc, 0xfff, 0x19d,
    0x1c2, 0xb5, 0xa1, 0x96, 0x97, 0x95, 0x99, 0xa0,
    0xa2, 0xac, 0xa9, 0xb1, 0xb3, 0xbb, 0xc0, 0x18f,
    0x4,
];

/// Scale factor band offsets of long windows at 88.2 and 96 kHz.
pub const SWB_LONG_96: [usize; 42] = [
    0, 4, 8, 12, 16, 20, 24, 28, 32, 36, 40, 44,
    48, 52, 56, 64, 72, 80, 88, 96, 108, 120, 132, 144,
    156, 172, 188, 212, 240, 276, 320, 384, 448, 512, 576, 640,
    704, 768, 832, 896, 960, 1024,
];

/// Scale factor band offsets of long windows at 64 kHz.
pub const SWB_LONG_64: [usize; 48] = [
    0, 4, 8, 12, 16, 20, 24, 28, 32, 36, 40, 44,
    48, 52, 56, 64, 72, 80, 88, 100, 112, 124, 140, 156,
    172, 192, 216, 240, 268, 304, 344, 384, 424, 464, 504, 544,
    584, 624, 664, 704, 744, 784, 824, 864, 904, 944, 984, 1024,
];

/// Scale factor band offsets of long windows at 44.1 and 48 kHz.
pub const SWB_LONG_48: [usize; 50] = [
    0, 4, 8, 12, 16, 20, 24, 28, 32, 36, 40, 48,
    56, 64, 72, 80, 88, 96, 108, 120, 132, 144, 160, 176,
    196, 216, 240, 264, 292, 320, 352, 384, 416, 448, 480, 512,
    544, 576, 608, 640, 672, 704, 736, 768, 800, 832, 864, 896,
    928, 1024,
];

/// Scale factor band offsets of long windows at 32 kHz.
pub const SWB_LONG_32: [usize; 52] = [
    0, 4, 8, 12, 16, 20, 24, 28, 32, 36, 40, 48,
    56, 64, 72, 80, 88, 96, 108, 120, 132, 144, 160, 176,
    196, 216, 240, 264, 292, 320, 352, 384, 416, 448, 480, 512,
    544, 576, 608, 640, 672, 704, 736, 768, 800, 832, 864, 896,
    928, 960, 992, 1024,
];

/// Scale factor band offsets of long windows at 22.05 and 24 kHz.
pub const SWB_LONG_24: [usize; 48] = [
    0, 4, 8, 12, 16, 20, 24, 28, 32, 36, 40, 44,
    52, 60, 68, 76, 84, 92, 100, 108, 116, 124, 136, 148,
    160, 172, 188, 204, 220, 240, 260, 284, 308, 336, 364, 396,
    432, 468, 508, 552, 600, 652, 704, 768, 832, 896, 960, 1024,
];

/// Scale factor band offsets of long windows at 11.025, 12 and 16 kHz.
pub const SWB_LONG_16: [usize; 44] = [
    0, 8, 16, 24, 32, 40, 48, 56, 64, 72, 80, 88,
    100, 112, 124, 136, 148, 160, 172, 184, 196, 212, 228, 244,
    260, 280, 300, 320, 344, 368, 396, 424, 456, 492, 532, 572,
    616, 664, 716, 772, 832, 896, 960, 1024,
];

/// Scale factor band offsets of long windows at 7.35 and 8 kHz.
pub const SWB_LONG_8: [usize; 41] = [
    0, 12, 24, 36, 48, 60, 72, 84, 96, 108, 120, 132,
    144, 156, 172, 188, 204, 220, 236, 252, 268, 288, 308, 328,
    348, 372, 396, 420, 448, 476, 508, 544, 580, 620, 664, 712,
    764, 820, 880, 944, 1024,
];

/// Scale factor band offsets of short windows at 64, 88.2 and 96 kHz.
pub const SWB_SHORT_96: [usize; 13] = [
    0, 4, 8, 12, 16, 20, 24, 32, 40, 48, 64, 92,
    128,
];

/// Scale factor band offsets of short windows at 32, 44.1 and 48 kHz.
pub const SWB_SHORT_48: [usize; 15] = [
    0, 4, 8, 12, 16, 20, 28, 36, 44, 56, 68, 80,
    96, 112, 128,
];

/// Scale factor band offsets of short windows at 22.05 and 24 kHz.
pub const SWB_SHORT_24: [usize; 16] = [
    0, 4, 8, 12, 16, 20, 24, 28, 36, 44, 52, 64,
    76, 92, 108, 128,
];

/// Scale factor band offsets of short windows at 11.025, 12 and 16 kHz.
pub const SWB_SHORT_16: [usize; 16] = [
    0, 4, 8, 12, 16, 20, 24, 28, 32, 40, 48, 60,
    72, 88, 108, 128,
];

/// Scale factor band offsets of short windows at 7.35 and 8 kHz.
pub const SWB_SHORT_8: [usize; 16] = [
    0, 4, 8, 12, 16, 20, 24, 28, 36, 44, 52, 60,
    72, 88, 108, 128,
];

/// The longest code of the scale factor codebook.
pub const SCF_CB_MAX_LEN: u8 = 19;

/// The scale factor codebook.
#[verifier::opaque]
pub open spec fn scf_book() -> Codebook {
    Codebook { lens: SCF_CB_LENS@, codes: SCF_CB_CODES@, max_len: SCF_CB_MAX_LEN as nat }
}

/// A spectrum codebook: its codes, the number of coefficients that one symbol
/// stands for, whether their signs follow the symbol as bits of their own,
/// and, for unsigned pairs, the number of values of a coefficient.
pub struct SpectrumBook {
    pub book: Codebook,
    pub dimension: u8,
    pub is_unsigned: bool,
    pub mod_value: u8,
}

/// Spectrum codebook number `k`, from 1 to 11.
#[verifier::opaque]
pub open spec fn spectrum_book(k: int) -> SpectrumBook {
    if k == 1 {
        SpectrumBook {
            book: Codebook {
                lens: SPECTRUM_1_LENS@,
                codes: SPECTRUM_1_CODES@,
                max_len: 11,
            },
            dimension: 4,
            is_unsigned: false,
            mod_value: 0,
        }
    } else if k == 2 {
        SpectrumBook {
            book: Codebook {
                lens: SPECTRUM_2_LENS@,
                codes: SPECTRUM_2_CODES@,
                max_len: 9,
            },
            dimension: 4,
            is_unsigned: false,
            mod_value: 0,
        }
    } else if k == 3 {
        SpectrumBook {
            book: Codebook {
                lens: SPECTRUM_3_LENS@,
                codes: SPECTRUM_3_CODES@,
                max_len: 16,
            },
            dimension: 4,
            is_unsigned: true,
            mod_value: 0,
        }
    } else if k == 4 {
        SpectrumBook {
            book: Codebook {
                lens: SPECTRUM_4_LENS@,
                codes: SPECTRUM_4_CODES@,
                max_len: 12,
            },
            dimension: 4,
            is_unsigned: true,
            mod_value: 0,
        }
    } else if k == 5 {
        SpectrumBook {
            book: Codebook {
                lens: SPECTRUM_5_LENS@,
                codes: SPECTRUM_5_CODES@,
                max_len: 13,
            },
            dimension: 2,
            is_unsigned: false,
            mod_value: 0,
        }
    } else if k == 6 {
        SpectrumBook {
            book: Codebook {
                lens: SPECTRUM_6_LENS@,
                codes: SPECTRUM_6_CODES@,
                max_len: 11,
            },
            dimension: 2,
            is_unsigned: false,
            mod_value: 0,
        }
    } else if k == 7 {
        SpectrumBook {
            book: Codebook {
                lens: SPECTRUM_7_LENS@,
                codes: SPECTRUM_7_CODES@,
                max_len: 12,
            },
            dimension: 2,
            is_unsigned: true,
            mod_value: 8,
        }
    } else if k == 8 {
        SpectrumBook {
            book: Codebook {
                lens: SPECTRUM_8_LENS@,
                codes: SPECTRUM_8_CODES@,
                max_len: 10,
            },
            dimension: 2,
            is_unsigned: true,
            mod_value: 8,
        }
    } else if k == 9 {
        SpectrumBook {
            book: Codebook {
                lens: SPECTRUM_9_LENS@,
                codes: SPECTRUM_9_CODES@,
                max_len: 15,
            },
            dimension: 2,
            is_unsigned: true,
            mod_value: 13,
        }
    } else if k == 10 {
        SpectrumBook {
            book: Codebook {
                lens: SPECTRUM_10_LENS@,
                codes: SPECTRUM_10_CODES@,
                max_len: 12,
            },
            dimension: 2,
            is_unsigned: true,
            mod_value: 13,
        }
    } else {
        SpectrumBook {
            book: Codebook {
                lens: SPECTRUM_11_LENS@,
                codes: SPECTRUM_11_CODES@,
                max_len: 12,
            },
            dimension: 2,
            is_unsigned: true,
            mod_value: 17,
        }
    }
}

/// Everything that is needed to follow the Huffman codes of a stream.
pub struct BookSet {
    pub scf: Codebook,
    pub spectrum: Seq<SpectrumBook>,
}

/// The codebooks of AAC; spectrum codebook `k` is the element `k - 1`.
#[verifier::opaque]
pub open spec fn standard_books() -> BookSet {
    BookSet { scf: scf_book(), spectrum: Seq::new(11, |i: int| spectrum_book(i + 1)) }
}

impl SpectrumBook {
    /// Every symbol stands for `dimension` coefficients.
    pub open spec fn valid(self) -> bool {
        &&& self.book.valid()
        &&& self.dimension == 2 || self.dimension == 4
        &&& self.is_unsigned && self.dimension == 4 ==> self.book.size() <= 81
        &&& self.is_unsigned && self.dimension == 2 ==> self.mod_value > 0
    }
}

impl BookSet {
    /// There are eleven spectrum codebooks, and every codebook is usable.
    pub open spec fn valid(self) -> bool {
        &&& self.scf.valid()
        &&& self.spectrum.len() == 11
        &&& forall|i: int| 0 <= i < 11 ==> (#[trigger] self.spectrum[i]).valid()
    }

    /// Every symbol of every codebook has a code.
    pub open spec fn all_used(self) -> bool {
        &&& self.scf.all_used()
        &&& forall|i: int| 0 <= i < 11 ==> (#[trigger] self.spectrum[i]).book.all_used()
    }

    /// In every codebook, shorter codes come first.
    pub open spec fn shorter_first(self) -> bool {
        &&& self.scf.shorter_first()
        &&& forall|i: int| 0 <= i < 11 ==> (#[trigger] self.spectrum[i]).book.shorter_first()
    }

    /// In every codebook, every word of bits starts with a code.
    pub open spec fn complete(self) -> bool {
        &&& self.scf.complete()
        &&& forall|i: int| 0 <= i < 11 ==> (#[trigger] self.spectrum[i]).book.complete()
    }

    /// Every codebook is prefix-free.
    pub open spec fn prefix_free(self) -> bool {
        &&& self.scf.prefix_free()
        &&& forall|i: int| 0 <= i < 11 ==> (#[trigger] self.spectrum[i]).book.prefix_free()
    }
}

/// A spectrum codebook with its lookup table.
pub struct SpectrumTable {
    pub table: HuffmanTable,
    pub dimension: u8,
    pub is_unsigned: bool,
    pub mod_value: u8,
}

impl View for SpectrumTable {
    type V = SpectrumBook;

    open spec fn view(&self) -> SpectrumBook {
        SpectrumBook {
            book: self.table.book(),
            dimension: self.dimension,
            is_unsigned: self.is_unsigned,
            mod_value: self.mod_value,
        }
    }
}

/// The lookup tables of all codebooks.
pub struct HuffmanTables {
    pub scf: HuffmanTable,
    pub spectrum: Vec<SpectrumTable>,
}

impl View for HuffmanTables {
    type V = BookSet;

    open spec fn view(&self) -> BookSet {
        BookSet {
            scf: self.scf.book(),
            spectrum: Seq::new(self.spectrum@.len(), |i: int| self.spectrum@[i]@),
        }
    }
}

impl HuffmanTables {
    /// The codebooks are valid, and every lookup table is filled.
    pub open spec fn wf(self) -> bool {
        &&& self@.valid()
        &&& self.scf.wf()
        &&& forall|i: int|
            0 <= i < self.spectrum@.len() ==> (#[trigger] self.spectrum@[i]).table.wf()
    }

    /// The tables of the codebooks of AAC.
    pub fn standard() -> (tables: HuffmanTables)
        ensures
            tables.wf(),
            tables@ == standard_books(),
    {
        let scf = scf_huffman_table();
        let spectrum = spectrum_huffman_tables();
        let tables = HuffmanTables { scf, spectrum };
        proof {
            reveal(standard_books);
            lemma_standard_books_valid();
            assert(tables@.spectrum =~= standard_books().spectrum);
        }
        tables
    }
}

/// The lookup table of the scale factor codebook.
pub fn scf_huffman_table() -> (table: HuffmanTable)
    ensures
        table.wf(),
        table.book() == scf_book(),
{
    proof {
        reveal(scf_book);
        lemma_scf_book_valid();
    }
    HuffmanTable::new(&SCF_CB_LENS, &SCF_CB_CODES, SCF_CB_MAX_LEN)
}

/// The lookup tables of the spectrum codebooks, in order.
pub fn spectrum_huffman_tables() -> (tables: Vec<SpectrumTable>)
    ensures
        tables@.len() == 11,
        forall|i: int|
            0 <= i < 11 ==> (#[trigger] tables@[i]).table.wf() && tables@[i]@ == spectrum_book(
                i + 1,
            ),
{
    let mut tables: Vec<SpectrumTable> = Vec::new();
    let mut i: usize = 0;
    while i < 11
        invariant
            i <= 11,
            tables@.len() == i,
            forall|j: int|
                0 <= j < i ==> (#[trigger] tables@[j]).table.wf() && tables@[j]@ == spectrum_book(
                    j + 1,
                ),
        decreases 11 - i,
    {
        tables.push(spectrum_huffman_table(i + 1));
        i = i + 1;
    }
    tables
}

/// The lookup table of one spectrum codebook.
fn spectrum_huffman_table(k: usize) -> (table: SpectrumTable)
    requires
        1 <= k <= 11,
    ensures
        table.table.wf(),
        table@ == spectrum_book(k as int),
{
    proof {
        reveal(spectrum_book);
        lemma_spectrum_book_valid(k as int);
    }
    match k {
        1 => SpectrumTable {
            table: HuffmanTable::new(&SPECTRUM_1_LENS, &SPECTRUM_1_CODES, 11),
            dimension: 4,
            is_unsigned: false,
            mod_value: 0,
        },
        2 => SpectrumTable {
            table: HuffmanTable::new(&SPECTRUM_2_LENS, &SPECTRUM_2_CODES, 9),
            dimension: 4,
            is_unsigned: false,
            mod_value: 0,
        },
        3 => SpectrumTable {
            table: HuffmanTable::new(&SPECTRUM_3_LENS, &SPECTRUM_3_CODES, 16),
            dimension: 4,
            is_unsigned: true,
            mod_value: 0,
        },
        4 => SpectrumTable {
            table: HuffmanTable::new(&SPECTRUM_4_LENS, &SPECTRUM_4_CODES, 12),
            dimension: 4,
            is_unsigned: true,
            mod_value: 0,
        },
        5 => SpectrumTable {
            table: HuffmanTable::new(&SPECTRUM_5_LENS, &SPECTRUM_5_CODES, 13),
            dimension: 2,
            is_unsigned: false,
            mod_value: 0,
        },
        6 => SpectrumTable {
            table: HuffmanTable::new(&SPECTRUM_6_LENS, &SPECTRUM_6_CODES, 11),
            dimension: 2,
            is_unsigned: false,
            mod_value: 0,
        },
        7 => SpectrumTable {
            table: HuffmanTable::new(&SPECTRUM_7_LENS, &SPECTRUM_7_CODES, 12),
            dimension: 2,
            is_unsigned: true,
            mod_value: 8,
        },
        8 => SpectrumTable {
            table: HuffmanTable::new(&SPECTRUM_8_LENS, &SPECTRUM_8_CODES, 10),
            dimension: 2,
            is_unsigned: true,
            mod_value: 8,
        },
        9 => SpectrumTable {
            table: HuffmanTable::new(&SPECTRUM_9_LENS, &SPECTRUM_9_CODES, 15),
            dimension: 2,
            is_unsigned: true,
            mod_value: 13,
        },
        10 => SpectrumTable {
            table: HuffmanTable::new(&SPECTRUM_10_LENS, &SPECTRUM_10_CODES, 12),
            dimension: 2,
            is_unsigned: true,
            mod_value: 13,
        },
        _ => SpectrumTable {
            table: HuffmanTable::new(&SPECTRUM_11_LENS, &SPECTRUM_11_CODES, 12),
            dimension: 2,
            is_unsigned: true,
            mod_value: 17,
        },
    }
}

/// The scale factor codebook of AAC can be used.
#[verifier::spinoff_prover]
proof fn lemma_scf_book_valid()
    ensures
        scf_book().valid(),
{
    reveal(scf_book);
}

/// Every spectrum codebook of AAC can be used.
#[verifier::spinoff_prover]
proof fn lemma_spectrum_book_valid(k: int)
    requires
        1 <= k <= 11,
    ensures
        spectrum_book(k).valid(),
{
    reveal(spectrum_book);
}

/// What the spectrum codebooks of AAC are like: codebooks 1 to 4 hold four
/// coefficients, the others two; codebooks 1, 2, 5 and 6 hold signs; and each
/// has a symbol for all the coefficients that it holds.
pub proof fn lemma_spectrum_book_shapes(k: int)
    requires
        1 <= k <= 11,
    ensures
        spectrum_book(k).dimension == if k <= 4 {
            4int
        } else {
            2
        },
        spectrum_book(k).is_unsigned == !(k == 1 || k == 2 || k == 5 || k == 6),
        7 <= k <= 8 ==> spectrum_book(k).mod_value == 8,
        9 <= k <= 10 ==> spectrum_book(k).mod_value == 13,
        k == 11 ==> spectrum_book(k).mod_value == 17,
        spectrum_book(k).book.size() == if k <= 6 {
            81int
        } else if k <= 8 {
            64
        } else if k <= 10 {
            169
        } else {
            289
        },
{
    reveal(spectrum_book);
}

/// The scale factor codebook has a symbol for each of 121 steps.
pub proof fn lemma_scf_book_shape()
    ensures
        scf_book().size() == 121,
{
    reveal(scf_book);
}

/// Every codebook of AAC can be used.
pub proof fn lemma_standard_books_valid()
    ensures
        standard_books().valid(),
{
    reveal(standard_books);
    lemma_scf_book_valid();
    assert forall|i: int| 0 <= i < 11 implies (
    #[trigger] standard_books().spectrum[i]).valid() by {
        lemma_spectrum_book_valid(i + 1);
    }
}

/// The four coefficients, each 0, 1 or 2, that a symbol of an unsigned
/// four-dimensional codebook stands for.
pub open spec fn quad(symbol: int) -> (int, int, int, int) {
    (symbol / 27, symbol / 9 % 3, symbol / 3 % 3, symbol % 3)
}

/// The four coefficients that a symbol of an unsigned four-dimensional
/// codebook stands for.
pub fn aac_quads(symbol: usize) -> (q: (u8, u8, u8, u8))
    requires
        symbol < 81,
    ensures
        (q.0 as int, q.1 as int, q.2 as int, q.3 as int) == quad(symbol as int),
{
    ((symbol / 27) as u8, (symbol / 9 % 3) as u8, (symbol / 3 % 3) as u8, (symbol % 3) as u8)
}

/// Band offsets that start no band before the one that precedes it.
pub open spec fn bands_valid(bands: Seq<usize>) -> bool {
    &&& 1 <= bands.len()
    &&& forall|i: int, j: int|
        0 <= i <= j < bands.len() ==> #[trigger] bands[i] <= #[trigger] bands[j]
}

/// The band offsets of long and of short windows at a sample rate. A rate that
/// is not one of the standard's takes the tables of the nearest one.
pub open spec fn swb_bands(sample_rate: u32) -> (Seq<usize>, Seq<usize>) {
    if sample_rate >= 75132 {
        (SWB_LONG_96@, SWB_SHORT_96@)
    } else if sample_rate >= 55426 {
        (SWB_LONG_64@, SWB_SHORT_96@)
    } else if sample_rate >= 37566 {
        (SWB_LONG_48@, SWB_SHORT_48@)
    } else if sample_rate >= 27713 {
        (SWB_LONG_32@, SWB_SHORT_48@)
    } else if sample_rate >= 18783 {
        (SWB_LONG_24@, SWB_SHORT_24@)
    } else if sample_rate >= 9391 {
        (SWB_LONG_16@, SWB_SHORT_16@)
    } else {
        (SWB_LONG_8@, SWB_SHORT_8@)
    }
}

/// The band offsets of long and of short windows at a sample rate.
pub fn swb_offsets(sample_rate: u32) -> (r: (&'static [usize], &'static [usize]))
    ensures
        (r.0@, r.1@) == swb_bands(sample_rate),
        bands_valid(r.0@),
        bands_valid(r.1@),
{
    if sample_rate >= 75132 {
        (&SWB_LONG_96, &SWB_SHORT_96)
    } else if sample_rate >= 55426 {
        (&SWB_LONG_64, &SWB_SHORT_96)
    } else if sample_rate >= 37566 {
        (&SWB_LONG_48, &SWB_SHORT_48)
    } else if sample_rate >= 27713 {
        (&SWB_LONG_32, &SWB_SHORT_48)
    } else if sample_rate >= 18783 {
        (&SWB_LONG_24, &SWB_SHORT_24)
    } else if sample_rate >= 9391 {
        (&SWB_LONG_16, &SWB_SHORT_16)
    } else {
        (&SWB_LONG_8, &SWB_SHORT_8)
    }
}

} // verus!
