//! The order of the codes in the codebooks of AAC, which shows that no code
//! starts with another one.
//!
//! In every codebook the codes of one length follow each other without a gap,
//! and behind the codes of one length come those of the next. So a codebook is
//! given by the symbols in the order of their codes, and by where the codes of
//! each length begin.
use crate::aac_codebooks::{
    scf_book, spectrum_book, standard_books, SCF_CB_CODES, SCF_CB_LENS, SPECTRUM_10_CODES,
    SPECTRUM_10_LENS,
    SPECTRUM_11_CODES, SPECTRUM_11_LENS, SPECTRUM_1_CODES, SPECTRUM_1_LENS, SPECTRUM_2_CODES,
    SPECTRUM_2_LENS, SPECTRUM_3_CODES, SPECTRUM_3_LENS, SPECTRUM_4_CODES, SPECTRUM_4_LENS,
    SPECTRUM_5_CODES, SPECTRUM_5_LENS, SPECTRUM_6_CODES, SPECTRUM_6_LENS, SPECTRUM_7_CODES,
    SPECTRUM_7_LENS, SPECTRUM_8_CODES, SPECTRUM_8_LENS, SPECTRUM_9_CODES, SPECTRUM_9_LENS,
};
use crate::huffman::Codebook;
use vstd::arithmetic::power2::*;
use vstd::prelude::*;

verus! {

/// The first code of each length in the scale factor codebook.
const SCF_CB_FIRST: [u32; 21] = [
    0, 0, 2, 4, 10, 26, 56, 120, 246, 502, 1012, 2036, 4084, 8180, 16370, 32756,
    65520, 131054, 262114, 524242, 1048576,
];

/// Where the symbols of each length begin in the order below.
const SCF_CB_START: [u32; 21] = [
    0, 0, 1, 1, 2, 5, 7, 11, 14, 19, 23, 29, 35, 41, 46, 54,
    58, 65, 68, 75, 121,
];

/// The symbols of the scale factor codebook in the order of their codes.
const SCF_CB_ORDER: [u16; 121] = [
    60, 59, 61, 58, 62, 57, 63, 56, 64, 55, 65, 66, 54, 67, 53, 68,
    52, 69, 51, 70, 50, 49, 71, 72, 48, 73, 47, 74, 46, 76, 75, 77,
    78, 45, 43, 44, 79, 42, 41, 80, 40, 81, 39, 82, 38, 83, 37, 35,
    85, 33, 36, 34, 84, 32, 87, 89, 30, 31, 86, 29, 26, 27, 28, 24,
    88, 25, 22, 23, 90, 21, 19, 3, 1, 2, 0, 98, 99, 100, 101, 102,
    117, 97, 91, 92, 93, 94, 95, 96, 104, 111, 112, 113, 114, 115, 116, 110,
    105, 106, 107, 108, 109, 118, 6, 8, 9, 10, 5, 103, 120, 119, 4, 7,
    15, 16, 18, 20, 17, 11, 12, 14, 13,
];

/// The first code of each length in spectrum codebook 1.
const SPECTRUM_1_FIRST: [u32; 13] = [
    0, 0, 2, 4, 8, 16, 48, 96, 240, 480, 1008, 2032, 4096,
];

/// Where the symbols of each length begin in the order below.
const SPECTRUM_1_START: [u32; 13] = [
    0, 0, 1, 1, 1, 1, 9, 9, 33, 33, 57, 65, 81,
];

/// The symbols of spectrum codebook 1 in the order of their codes.
const SPECTRUM_1_ORDER: [u16; 81] = [
    40, 67, 13, 39, 49, 41, 37, 43, 31, 58, 22, 38, 46, 34, 42, 76,
    36, 4, 28, 64, 48, 16, 44, 70, 32, 52, 50, 10, 68, 12, 66, 14,
    30, 73, 19, 61, 51, 47, 35, 33, 55, 65, 45, 25, 15, 7, 29, 59,
    57, 21, 1, 27, 53, 69, 77, 23, 79, 5, 9, 75, 63, 11, 3, 17,
    71, 60, 20, 24, 56, 80, 8, 72, 6, 0, 74, 62, 26, 18, 2, 54,
    78,
];

/// The first code of each length in spectrum codebook 2.
const SPECTRUM_2_FIRST: [u32; 11] = [
    0, 0, 0, 0, 2, 6, 26, 100, 230, 498, 1024,
];

/// Where the symbols of each length begin in the order below.
const SPECTRUM_2_START: [u32; 11] = [
    0, 0, 0, 0, 1, 2, 9, 33, 48, 67, 81,
];

/// The symbols of spectrum codebook 2 in the order of their codes.
const SPECTRUM_2_ORDER: [u16; 81] = [
    40, 67, 13, 41, 37, 39, 31, 43, 49, 34, 22, 46, 42, 48, 38, 12,
    58, 64, 4, 36, 70, 68, 32, 16, 50, 28, 14, 30, 10, 76, 52, 44,
    66, 47, 65, 19, 33, 61, 75, 71, 25, 29, 79, 15, 1, 11, 55, 73,
    59, 21, 7, 17, 5, 3, 27, 69, 63, 45, 53, 23, 9, 51, 57, 35,
    77, 60, 20, 56, 0, 24, 26, 80, 6, 62, 18, 8, 72, 54, 2, 74,
    78,
];

/// The first code of each length in spectrum codebook 3.
const SPECTRUM_3_FIRST: [u32; 18] = [
    0, 0, 2, 4, 8, 24, 52, 116, 238, 486, 1002, 2034, 4084, 8186, 16378, 32762,
    65534, 131072,
];

/// Where the symbols of each length begin in the order below.
const SPECTRUM_3_START: [u32; 18] = [
    0, 0, 1, 1, 1, 5, 7, 13, 16, 21, 36, 51, 59, 68, 71, 74,
    79, 81,
];

/// The symbols of spectrum codebook 3 in the order of their codes.
const SPECTRUM_3_ORDER: [u16; 81] = [
    0, 27, 1, 9, 3, 36, 4, 12, 10, 30, 13, 28, 39, 40, 31, 37,
    54, 2, 5, 63, 48, 7, 16, 45, 14, 66, 6, 21, 15, 18, 11, 57,
    49, 22, 42, 43, 46, 33, 34, 19, 67, 41, 64, 32, 8, 17, 75, 51,
    29, 55, 25, 72, 52, 38, 58, 44, 76, 24, 23, 35, 73, 69, 78, 26,
    79, 70, 50, 53, 20, 60, 47, 61, 68, 65, 80, 77, 71, 59, 56, 74,
    62,
];

/// The first code of each length in spectrum codebook 4.
const SPECTRUM_4_FIRST: [u32; 14] = [
    0, 0, 0, 0, 0, 20, 52, 104, 226, 494, 1004, 2036, 4094, 8192,
];

/// Where the symbols of each length begin in the order below.
const SPECTRUM_4_START: [u32; 14] = [
    0, 0, 0, 0, 0, 10, 16, 16, 25, 46, 54, 68, 79, 81,
];

/// The symbols of spectrum codebook 4 in the order of their codes.
const SPECTRUM_4_ORDER: [u16; 81] = [
    40, 13, 37, 39, 31, 27, 36, 0, 4, 30, 28, 12, 1, 10, 3, 9,
    67, 43, 49, 41, 66, 64, 48, 58, 16, 14, 42, 22, 32, 46, 38, 34,
    63, 57, 45, 55, 11, 21, 5, 15, 19, 29, 7, 33, 54, 2, 18, 6,
    52, 76, 70, 44, 50, 68, 51, 75, 69, 25, 17, 73, 23, 61, 35, 79,
    47, 59, 65, 53, 71, 77, 24, 72, 8, 60, 20, 56, 80, 26, 78, 74,
    62,
];

/// The first code of each length in spectrum codebook 5.
const SPECTRUM_5_FIRST: [u32; 15] = [
    0, 0, 2, 4, 8, 24, 56, 112, 232, 488, 1000, 2024, 4084, 8188, 16384,
];

/// Where the symbols of each length begin in the order below.
const SPECTRUM_5_START: [u32; 15] = [
    0, 0, 1, 1, 1, 5, 9, 9, 13, 25, 37, 49, 67, 77, 81,
];

/// The symbols of spectrum codebook 5 in the order of their codes.
const SPECTRUM_5_ORDER: [u16; 81] = [
    40, 31, 49, 41, 39, 48, 32, 30, 50, 22, 42, 58, 38, 21, 59, 29,
    51, 23, 57, 33, 47, 13, 67, 37, 43, 12, 52, 68, 28, 14, 66, 46,
    34, 24, 60, 20, 56, 11, 65, 25, 55, 69, 61, 15, 19, 36, 4, 77,
    76, 3, 44, 75, 27, 53, 35, 5, 45, 64, 10, 16, 26, 2, 78, 54,
    62, 70, 6, 18, 74, 63, 1, 7, 71, 17, 79, 73, 9, 72, 8, 80,
    0,
];

/// The first code of each length in spectrum codebook 6.
const SPECTRUM_6_FIRST: [u32; 13] = [
    0, 0, 0, 0, 0, 18, 36, 104, 234, 484, 1014, 2044, 4096,
];

/// Where the symbols of each length begin in the order below.
const SPECTRUM_6_START: [u32; 13] = [
    0, 0, 0, 0, 0, 9, 9, 25, 38, 46, 69, 77, 81,
];

/// The symbols of spectrum codebook 6 in the order of their codes.
const SPECTRUM_6_ORDER: [u16; 81] = [
    40, 49, 39, 41, 31, 50, 32, 48, 30, 57, 59, 23, 21, 22, 33, 58,
    47, 51, 38, 29, 42, 56, 24, 20, 60, 14, 68, 66, 34, 12, 52, 46,
    28, 67, 13, 37, 43, 69, 11, 25, 61, 65, 55, 19, 15, 70, 64, 10,
    16, 45, 27, 77, 5, 3, 53, 75, 35, 36, 6, 2, 62, 18, 4, 78,
    74, 26, 76, 54, 44, 9, 17, 63, 73, 71, 79, 7, 1, 80, 8, 0,
    72,
];

/// The first code of each length in spectrum codebook 7.
const SPECTRUM_7_FIRST: [u32; 14] = [
    0, 0, 2, 4, 12, 26, 52, 112, 234, 488, 1004, 2038, 4092, 8192,
];

/// Where the symbols of each length begin in the order below.
const SPECTRUM_7_START: [u32; 14] = [
    0, 0, 1, 1, 3, 4, 4, 8, 13, 23, 37, 52, 60, 64,
];

/// The symbols of spectrum codebook 7 in the order of their codes.
const SPECTRUM_7_ORDER: [u16; 64] = [
    0, 8, 1, 9, 17, 10, 16, 2, 25, 11, 18, 24, 3, 19, 26, 12,
    33, 13, 41, 27, 20, 4, 32, 34, 21, 42, 5, 49, 40, 14, 35, 29,
    28, 43, 22, 50, 15, 30, 6, 48, 36, 57, 37, 58, 44, 51, 23, 59,
    52, 45, 38, 31, 56, 7, 53, 46, 60, 39, 47, 61, 62, 54, 55, 63,
];

/// The first code of each length in spectrum codebook 8.
const SPECTRUM_8_FIRST: [u32; 12] = [
    0, 0, 0, 0, 2, 14, 42, 104, 236, 502, 1020, 2048,
];

/// Where the symbols of each length begin in the order below.
const SPECTRUM_8_START: [u32; 12] = [
    0, 0, 0, 0, 1, 6, 13, 23, 37, 52, 60, 64,
];

/// The symbols of spectrum codebook 8 in the order of their codes.
const SPECTRUM_8_ORDER: [u16; 64] = [
    9, 17, 8, 10, 1, 18, 0, 16, 2, 25, 11, 26, 19, 27, 33, 12,
    34, 20, 24, 3, 35, 28, 42, 41, 21, 13, 43, 29, 36, 44, 4, 37,
    32, 22, 50, 49, 14, 30, 51, 45, 40, 52, 5, 38, 57, 58, 23, 53,
    59, 15, 46, 31, 54, 60, 48, 39, 6, 61, 62, 55, 47, 56, 7, 63,
];

/// The first code of each length in spectrum codebook 9.
const SPECTRUM_9_FIRST: [u32; 17] = [
    0, 0, 2, 4, 12, 26, 52, 112, 230, 476, 974, 1988, 4038, 8152, 16368, 32764,
    65536,
];

/// Where the symbols of each length begin in the order below.
const SPECTRUM_9_START: [u32; 17] = [
    0, 0, 1, 1, 3, 4, 4, 8, 11, 19, 30, 50, 81, 119, 151, 165,
    169,
];

/// The symbols of spectrum codebook 9 in the order of their codes.
const SPECTRUM_9_ORDER: [u16; 169] = [
    0, 13, 1, 14, 27, 15, 26, 2, 40, 28, 16, 39, 3, 29, 41, 17,
    53, 30, 18, 54, 42, 4, 52, 66, 31, 19, 43, 67, 79, 55, 5, 32,
    65, 20, 44, 21, 105, 56, 68, 80, 92, 6, 106, 34, 45, 33, 57, 118,
    22, 93, 78, 69, 81, 107, 7, 119, 47, 58, 46, 8, 131, 82, 35, 70,
    104, 91, 94, 132, 120, 108, 23, 95, 83, 71, 60, 59, 48, 144, 73, 117,
    109, 133, 36, 9, 145, 121, 84, 157, 61, 110, 24, 122, 134, 72, 96, 37,
    25, 158, 146, 49, 74, 85, 111, 147, 10, 97, 159, 130, 135, 62, 86, 38,
    123, 124, 63, 143, 87, 50, 75, 112, 99, 161, 51, 148, 98, 160, 149, 136,
    64, 100, 76, 11, 162, 88, 156, 137, 77, 101, 125, 12, 150, 113, 126, 138,
    102, 163, 89, 115, 151, 103, 90, 114, 139, 116, 127, 128, 129, 141, 165, 140,
    152, 164, 153, 166, 167, 142, 154, 155, 168,
];

/// The first code of each length in spectrum codebook 10.
const SPECTRUM_10_FIRST: [u32; 14] = [
    0, 0, 0, 0, 0, 6, 28, 84, 202, 454, 970, 2022, 4088, 8192,
];

/// Where the symbols of each length begin in the order below.
const SPECTRUM_10_START: [u32; 14] = [
    0, 0, 0, 0, 0, 3, 11, 25, 42, 67, 98, 139, 161, 169,
];

/// The symbols of spectrum codebook 10 in the order of their codes.
const SPECTRUM_10_ORDER: [u16; 169] = [
    14, 15, 27, 28, 13, 1, 16, 41, 40, 29, 42, 26, 2, 30, 54, 17,
    53, 0, 55, 43, 39, 3, 56, 31, 67, 18, 66, 68, 44, 69, 57, 80,
    32, 81, 52, 79, 4, 19, 45, 70, 82, 58, 83, 93, 46, 33, 71, 106,
    94, 65, 92, 5, 105, 20, 107, 95, 59, 34, 84, 96, 21, 47, 108, 60,
    72, 109, 73, 97, 85, 119, 78, 86, 120, 48, 118, 35, 6, 110, 121, 61,
    132, 22, 98, 111, 122, 99, 133, 74, 134, 36, 131, 49, 123, 87, 104, 62,
    91, 145, 100, 146, 136, 23, 144, 124, 7, 112, 135, 50, 75, 113, 148, 8,
    147, 37, 101, 88, 137, 63, 24, 158, 125, 159, 149, 76, 160, 150, 161, 51,
    89, 117, 138, 130, 157, 9, 64, 126, 162, 38, 114, 127, 25, 151, 163, 102,
    77, 90, 139, 115, 164, 10, 103, 143, 140, 152, 153, 11, 154, 128, 141, 156,
    116, 165, 142, 129, 155, 167, 12, 166, 168,
];

/// The first code of each length in spectrum codebook 11.
const SPECTRUM_11_FIRST: [u32; 14] = [
    0, 0, 0, 0, 0, 4, 20, 54, 140, 398, 906, 2002, 4090, 8192,
];

/// Where the symbols of each length begin in the order below.
const SPECTRUM_11_START: [u32; 14] = [
    0, 0, 0, 0, 0, 2, 8, 15, 31, 90, 145, 240, 283, 289,
];

/// The symbols of spectrum codebook 11 in the order of their codes.
const SPECTRUM_11_ORDER: [u16; 289] = [
    0, 18, 288, 17, 1, 35, 19, 36, 20, 52, 53, 34, 37, 2, 54, 69,
    21, 70, 38, 71, 55, 51, 3, 86, 87, 39, 72, 22, 88, 56, 89, 73,
    104, 40, 103, 105, 57, 23, 84, 67, 277, 275, 276, 106, 278, 68, 74, 4,
    50, 90, 101, 279, 274, 280, 41, 121, 58, 107, 91, 118, 282, 122, 120, 281,
    135, 33, 24, 75, 283, 123, 284, 152, 273, 108, 169, 42, 92, 186, 285, 139,
    138, 59, 85, 286, 203, 124, 76, 109, 125, 5, 140, 287, 220, 25, 137, 254,
    93, 237, 60, 141, 126, 43, 142, 155, 156, 271, 77, 110, 102, 157, 94, 143,
    127, 26, 173, 6, 172, 154, 158, 78, 44, 159, 61, 111, 174, 144, 175, 160,
    190, 27, 119, 176, 128, 62, 95, 171, 79, 189, 223, 112, 224, 45, 272, 96,
    192, 191, 161, 129, 145, 16, 81, 7, 64, 193, 222, 225, 207, 47, 226, 146,
    113, 178, 177, 240, 208, 28, 80, 188, 63, 30, 206, 130, 65, 97, 98, 242,
    82, 194, 241, 209, 227, 210, 136, 195, 46, 162, 243, 115, 180, 257, 147, 163,
    244, 179, 99, 196, 239, 48, 114, 29, 229, 8, 228, 131, 211, 132, 258, 205,
    116, 49, 260, 259, 31, 164, 83, 245, 149, 230, 148, 100, 66, 181, 197, 212,
    261, 262, 150, 256, 133, 153, 9, 166, 165, 213, 246, 183, 247, 214, 117, 134,
    167, 263, 198, 201, 32, 182, 184, 232, 231, 200, 199, 151, 249, 233, 217, 264,
    248, 170, 215, 168, 10, 216, 187, 218, 185, 234, 13, 250, 265, 266, 202, 251,
    221, 11, 235, 267, 268, 219, 238, 252, 236, 204, 253, 14, 12, 269, 255, 15,
    270,
];

/// The codes of a codebook in order: `first[l]` is the first code of length
/// `l`, and the symbols of that length begin at `symbols[start[l]]`.
pub struct CodeOrder {
    pub first: Seq<u32>,
    pub start: Seq<u32>,
    pub symbols: Seq<u16>,
}

/// Whether the codes of `book` stand in the order: behind the codes of one
/// length come those of the next, and every symbol is found by its code.
pub open spec fn ordered(book: Codebook, order: CodeOrder) -> bool {
    &&& order.first.len() == book.max_len + 2
    &&& order.first[(book.max_len + 1) as int] == pow2(book.max_len + 1)
    &&& forall|l: int|
        0 <= l <= book.max_len ==> 2 * (#[trigger] order.first[l]) <= order.first[l + 1]
    &&& forall|s: int|
        0 <= s < book.size() ==> {
            let l = #[trigger] book.lens[s] as int;
            &&& 1 <= l <= book.max_len
            &&& order.first[l] <= book.codes[s]
            &&& 2 * (book.codes[s] + 1) <= order.first[l + 1]
            &&& order.symbols[order.start[l] + book.codes[s] - order.first[l]] == s
        }
}

/// First codes at least double with every further bit.
proof fn lemma_first_codes(book: Codebook, order: CodeOrder, a: int, b: int)
    requires
        ordered(book, order),
        0 <= a <= b <= book.max_len + 1,
    ensures
        order.first[a] * pow2((b - a) as nat) <= order.first[b],
    decreases b,
{
    if a == b {
        lemma2_to64();
        assert(order.first[a] * 1 == order.first[a]);
    } else {
        lemma_first_codes(book, order, a, b - 1);
        lemma_pow2_unfold((b - a) as nat);
        let f = order.first[a] as int;
        let p = pow2((b - 1 - a) as nat) as int;
        assert(f * (2 * p) == 2 * (f * p)) by (nonlinear_arith);
        assert(2 * order.first[b - 1] <= order.first[b - 1 + 1]);
    }
}

/// The words that start with the code of `s` come before those that start
/// with a longer code.
proof fn lemma_shorter_first(book: Codebook, order: CodeOrder, s: int, l: int)
    requires
        ordered(book, order),
        0 <= s < book.size(),
        book.lens[s] < l <= book.max_len + 1,
    ensures
        (book.codes[s] + 1) * pow2((l - book.lens[s]) as nat) <= order.first[l],
{
    let k = book.lens[s] as int;
    lemma_first_codes(book, order, k + 1, l);
    lemma_pow2_unfold((l - k) as nat);
    let c = book.codes[s] as int;
    let p = pow2((l - k - 1) as nat) as int;
    let f = order.first[k + 1] as int;
    assert((c + 1) * (2 * p) <= f * p) by (nonlinear_arith)
        requires
            2 * (c + 1) <= f,
            0 <= p,
    ;
}

/// A codebook whose codes stand in order is prefix-free.
pub proof fn lemma_ordered_prefix_free(book: Codebook, order: CodeOrder)
    requires
        ordered(book, order),
    ensures
        book.prefix_free(),
        book.all_used(),
        book.shorter_first(),
{
    reveal(Codebook::shorter_first);
    let m = book.max_len as int;
    assert forall|s: int, t: int|
        0 <= s < book.size() && 0 <= t < book.size() && #[trigger] book.lens[s]
            < #[trigger] book.lens[t] implies (book.codes[s] + 1) * pow2(
        (book.lens[t] - book.lens[s]) as nat,
    ) <= book.codes[t] by {
        lemma_shorter_first(book, order, s, book.lens[t] as int);
    }
    assert forall|s: int| 0 <= s < book.size() && book.lens[s] != 0 implies #[trigger] book.codes[s]
        < pow2(book.lens[s] as nat) by {
        let k = book.lens[s] as nat;
        lemma_shorter_first(book, order, s, m + 1);
        lemma_pow2_adds(k, (m + 1 - k) as nat);
        lemma_pow2_pos((m + 1 - k) as nat);
        let c = book.codes[s] as int;
        let p = pow2((m + 1 - k) as nat) as int;
        let q = pow2(k) as int;
        assert(c + 1 <= q) by (nonlinear_arith)
            requires
                (c + 1) * p <= q * p,
                0 < p,
        ;
    }
    assert forall|s: int, t: int, w: int|
        0 <= s < book.size() && 0 <= t < book.size() && #[trigger] book.covers(s, w)
            && #[trigger] book.covers(t, w) implies s == t by {
        if book.lens[s] < book.lens[t] {
            lemma_one_covers(book, order, s, t, w);
        }
        if book.lens[t] < book.lens[s] {
            lemma_one_covers(book, order, t, s, w);
        }
        let p = book.span(s);
        lemma_pow2_pos((m - book.lens[s]) as nat);
        let c = book.codes[s] as int;
        let d = book.codes[t] as int;
        assert(c == d) by (nonlinear_arith)
            requires
                0 < p,
                c * p <= w < (c + 1) * p,
                d * p <= w < (d + 1) * p,
        ;
        let l = book.lens[s] as int;
        assert(order.symbols[order.start[l] + c - order.first[l]] == s);
        assert(order.symbols[order.start[l] + d - order.first[l]] == t);
    }
}

/// No word starts with both a code and a longer one.
proof fn lemma_one_covers(book: Codebook, order: CodeOrder, s: int, t: int, w: int)
    requires
        ordered(book, order),
        0 <= s < book.size(),
        0 <= t < book.size(),
        book.lens[s] < book.lens[t],
    ensures
        !(book.covers(s, w) && book.covers(t, w)),
{
    let m = book.max_len as int;
    let k = book.lens[s] as int;
    let l = book.lens[t] as int;
    lemma_shorter_first(book, order, s, l);
    lemma_pow2_adds((l - k) as nat, (m - l) as nat);
    let c = book.codes[s] as int;
    let d = book.codes[t] as int;
    let a = pow2((l - k) as nat) as int;
    let p = pow2((m - l) as nat) as int;
    assert((c + 1) * (a * p) <= d * p) by (nonlinear_arith)
        requires
            (c + 1) * a <= d,
            0 <= p,
    ;
}

/// No code of the scale factor codebook starts with another one.
#[verifier::spinoff_prover]
proof fn lemma_scf_cb_prefix_free()
    ensures
        (Codebook { lens: SCF_CB_LENS@, codes: SCF_CB_CODES@, max_len: 19 }).prefix_free(),
        (Codebook { lens: SCF_CB_LENS@, codes: SCF_CB_CODES@, max_len: 19 }).all_used(),
        (Codebook { lens: SCF_CB_LENS@, codes: SCF_CB_CODES@, max_len: 19 }).shorter_first(),
{
    lemma2_to64();
    let order = CodeOrder {
        first: SCF_CB_FIRST@,
        start: SCF_CB_START@,
        symbols: SCF_CB_ORDER@,
    };
    lemma_ordered_prefix_free(
        Codebook { lens: SCF_CB_LENS@, codes: SCF_CB_CODES@, max_len: 19 },
        order,
    );
}

/// No code of spectrum codebook 1 starts with another one.
#[verifier::spinoff_prover]
proof fn lemma_spectrum_1_prefix_free()
    ensures
        (Codebook { lens: SPECTRUM_1_LENS@, codes: SPECTRUM_1_CODES@, max_len: 11 }).prefix_free(),
        (Codebook { lens: SPECTRUM_1_LENS@, codes: SPECTRUM_1_CODES@, max_len: 11 }).all_used(),
        (Codebook { lens: SPECTRUM_1_LENS@, codes: SPECTRUM_1_CODES@, max_len: 11 }).shorter_first(),
{
    lemma2_to64();
    let order = CodeOrder {
        first: SPECTRUM_1_FIRST@,
        start: SPECTRUM_1_START@,
        symbols: SPECTRUM_1_ORDER@,
    };
    lemma_ordered_prefix_free(
        Codebook { lens: SPECTRUM_1_LENS@, codes: SPECTRUM_1_CODES@, max_len: 11 },
        order,
    );
}

/// No code of spectrum codebook 2 starts with another one.
#[verifier::spinoff_prover]
proof fn lemma_spectrum_2_prefix_free()
    ensures
        (Codebook { lens: SPECTRUM_2_LENS@, codes: SPECTRUM_2_CODES@, max_len: 9 }).prefix_free(),
        (Codebook { lens: SPECTRUM_2_LENS@, codes: SPECTRUM_2_CODES@, max_len: 9 }).all_used(),
        (Codebook { lens: SPECTRUM_2_LENS@, codes: SPECTRUM_2_CODES@, max_len: 9 }).shorter_first(),
{
    lemma2_to64();
    let order = CodeOrder {
        first: SPECTRUM_2_FIRST@,
        start: SPECTRUM_2_START@,
        symbols: SPECTRUM_2_ORDER@,
    };
    lemma_ordered_prefix_free(
        Codebook { lens: SPECTRUM_2_LENS@, codes: SPECTRUM_2_CODES@, max_len: 9 },
        order,
    );
}

/// No code of spectrum codebook 3 starts with another one.
#[verifier::spinoff_prover]
proof fn lemma_spectrum_3_prefix_free()
    ensures
        (Codebook { lens: SPECTRUM_3_LENS@, codes: SPECTRUM_3_CODES@, max_len: 16 }).prefix_free(),
        (Codebook { lens: SPECTRUM_3_LENS@, codes: SPECTRUM_3_CODES@, max_len: 16 }).all_used(),
        (Codebook { lens: SPECTRUM_3_LENS@, codes: SPECTRUM_3_CODES@, max_len: 16 }).shorter_first(),
{
    lemma2_to64();
    let order = CodeOrder {
        first: SPECTRUM_3_FIRST@,
        start: SPECTRUM_3_START@,
        symbols: SPECTRUM_3_ORDER@,
    };
    lemma_ordered_prefix_free(
        Codebook { lens: SPECTRUM_3_LENS@, codes: SPECTRUM_3_CODES@, max_len: 16 },
        order,
    );
}

/// No code of spectrum codebook 4 starts with another one.
#[verifier::spinoff_prover]
proof fn lemma_spectrum_4_prefix_free()
    ensures
        (Codebook { lens: SPECTRUM_4_LENS@, codes: SPECTRUM_4_CODES@, max_len: 12 }).prefix_free(),
        (Codebook { lens: SPECTRUM_4_LENS@, codes: SPECTRUM_4_CODES@, max_len: 12 }).all_used(),
        (Codebook { lens: SPECTRUM_4_LENS@, codes: SPECTRUM_4_CODES@, max_len: 12 }).shorter_first(),
{
    lemma2_to64();
    let order = CodeOrder {
        first: SPECTRUM_4_FIRST@,
        start: SPECTRUM_4_START@,
        symbols: SPECTRUM_4_ORDER@,
    };
    lemma_ordered_prefix_free(
        Codebook { lens: SPECTRUM_4_LENS@, codes: SPECTRUM_4_CODES@, max_len: 12 },
        order,
    );
}

/// No code of spectrum codebook 5 starts with another one.
#[verifier::spinoff_prover]
proof fn lemma_spectrum_5_prefix_free()
    ensures
        (Codebook { lens: SPECTRUM_5_LENS@, codes: SPECTRUM_5_CODES@, max_len: 13 }).prefix_free(),
        (Codebook { lens: SPECTRUM_5_LENS@, codes: SPECTRUM_5_CODES@, max_len: 13 }).all_used(),
        (Codebook { lens: SPECTRUM_5_LENS@, codes: SPECTRUM_5_CODES@, max_len: 13 }).shorter_first(),
{
    lemma2_to64();
    let order = CodeOrder {
        first: SPECTRUM_5_FIRST@,
        start: SPECTRUM_5_START@,
        symbols: SPECTRUM_5_ORDER@,
    };
    lemma_ordered_prefix_free(
        Codebook { lens: SPECTRUM_5_LENS@, codes: SPECTRUM_5_CODES@, max_len: 13 },
        order,
    );
}

/// No code of spectrum codebook 6 starts with another one.
#[verifier::spinoff_prover]
proof fn lemma_spectrum_6_prefix_free()
    ensures
        (Codebook { lens: SPECTRUM_6_LENS@, codes: SPECTRUM_6_CODES@, max_len: 11 }).prefix_free(),
        (Codebook { lens: SPECTRUM_6_LENS@, codes: SPECTRUM_6_CODES@, max_len: 11 }).all_used(),
        (Codebook { lens: SPECTRUM_6_LENS@, codes: SPECTRUM_6_CODES@, max_len: 11 }).shorter_first(),
{
    lemma2_to64();
    let order = CodeOrder {
        first: SPECTRUM_6_FIRST@,
        start: SPECTRUM_6_START@,
        symbols: SPECTRUM_6_ORDER@,
    };
    lemma_ordered_prefix_free(
        Codebook { lens: SPECTRUM_6_LENS@, codes: SPECTRUM_6_CODES@, max_len: 11 },
        order,
    );
}

/// No code of spectrum codebook 7 starts with another one.
#[verifier::spinoff_prover]
proof fn lemma_spectrum_7_prefix_free()
    ensures
        (Codebook { lens: SPECTRUM_7_LENS@, codes: SPECTRUM_7_CODES@, max_len: 12 }).prefix_free(),
        (Codebook { lens: SPECTRUM_7_LENS@, codes: SPECTRUM_7_CODES@, max_len: 12 }).all_used(),
        (Codebook { lens: SPECTRUM_7_LENS@, codes: SPECTRUM_7_CODES@, max_len: 12 }).shorter_first(),
{
    lemma2_to64();
    let order = CodeOrder {
        first: SPECTRUM_7_FIRST@,
        start: SPECTRUM_7_START@,
        symbols: SPECTRUM_7_ORDER@,
    };
    lemma_ordered_prefix_free(
        Codebook { lens: SPECTRUM_7_LENS@, codes: SPECTRUM_7_CODES@, max_len: 12 },
        order,
    );
}

/// No code of spectrum codebook 8 starts with another one.
#[verifier::spinoff_prover]
proof fn lemma_spectrum_8_prefix_free()
    ensures
        (Codebook { lens: SPECTRUM_8_LENS@, codes: SPECTRUM_8_CODES@, max_len: 10 }).prefix_free(),
        (Codebook { lens: SPECTRUM_8_LENS@, codes: SPECTRUM_8_CODES@, max_len: 10 }).all_used(),
        (Codebook { lens: SPECTRUM_8_LENS@, codes: SPECTRUM_8_CODES@, max_len: 10 }).shorter_first(),
{
    lemma2_to64();
    let order = CodeOrder {
        first: SPECTRUM_8_FIRST@,
        start: SPECTRUM_8_START@,
        symbols: SPECTRUM_8_ORDER@,
    };
    lemma_ordered_prefix_free(
        Codebook { lens: SPECTRUM_8_LENS@, codes: SPECTRUM_8_CODES@, max_len: 10 },
        order,
    );
}

/// No code of spectrum codebook 9 starts with another one.
#[verifier::spinoff_prover]
proof fn lemma_spectrum_9_prefix_free()
    ensures
        (Codebook { lens: SPECTRUM_9_LENS@, codes: SPECTRUM_9_CODES@, max_len: 15 }).prefix_free(),
        (Codebook { lens: SPECTRUM_9_LENS@, codes: SPECTRUM_9_CODES@, max_len: 15 }).all_used(),
        (Codebook { lens: SPECTRUM_9_LENS@, codes: SPECTRUM_9_CODES@, max_len: 15 }).shorter_first(),
{
    lemma2_to64();
    let order = CodeOrder {
        first: SPECTRUM_9_FIRST@,
        start: SPECTRUM_9_START@,
        symbols: SPECTRUM_9_ORDER@,
    };
    lemma_ordered_prefix_free(
        Codebook { lens: SPECTRUM_9_LENS@, codes: SPECTRUM_9_CODES@, max_len: 15 },
        order,
    );
}

/// No code of spectrum codebook 10 starts with another one.
#[verifier::spinoff_prover]
proof fn lemma_spectrum_10_prefix_free()
    ensures
        (Codebook {
            lens: SPECTRUM_10_LENS@,
            codes: SPECTRUM_10_CODES@,
            max_len: 12,
        }).prefix_free(),
        (Codebook {
            lens: SPECTRUM_10_LENS@,
            codes: SPECTRUM_10_CODES@,
            max_len: 12,
        }).all_used(),
        (Codebook {
            lens: SPECTRUM_10_LENS@,
            codes: SPECTRUM_10_CODES@,
            max_len: 12,
        }).shorter_first(),
{
    lemma2_to64();
    let order = CodeOrder {
        first: SPECTRUM_10_FIRST@,
        start: SPECTRUM_10_START@,
        symbols: SPECTRUM_10_ORDER@,
    };
    lemma_ordered_prefix_free(
        Codebook { lens: SPECTRUM_10_LENS@, codes: SPECTRUM_10_CODES@, max_len: 12 },
        order,
    );
}

/// No code of spectrum codebook 11 starts with another one.
#[verifier::spinoff_prover]
proof fn lemma_spectrum_11_prefix_free()
    ensures
        (Codebook {
            lens: SPECTRUM_11_LENS@,
            codes: SPECTRUM_11_CODES@,
            max_len: 12,
        }).prefix_free(),
        (Codebook {
            lens: SPECTRUM_11_LENS@,
            codes: SPECTRUM_11_CODES@,
            max_len: 12,
        }).all_used(),
        (Codebook {
            lens: SPECTRUM_11_LENS@,
            codes: SPECTRUM_11_CODES@,
            max_len: 12,
        }).shorter_first(),
{
    lemma2_to64();
    let order = CodeOrder {
        first: SPECTRUM_11_FIRST@,
        start: SPECTRUM_11_START@,
        symbols: SPECTRUM_11_ORDER@,
    };
    lemma_ordered_prefix_free(
        Codebook { lens: SPECTRUM_11_LENS@, codes: SPECTRUM_11_CODES@, max_len: 12 },
        order,
    );
}

/// Whether the symbols in order, taken with where the codes of each length
/// begin, give all codes of the codebook, and leave no gap between the codes of
/// one length and those of the next.
pub open spec fn filled(book: Codebook, order: CodeOrder) -> bool {
    &&& book.max_len >= 1
    &&& order.first.len() == book.max_len + 2
    &&& order.start.len() == book.max_len + 2
    &&& order.symbols.len() == book.size()
    &&& order.first[1] == 0
    &&& order.start[1] == 0
    &&& order.start[(book.max_len + 1) as int] == book.size()
    &&& order.first[(book.max_len + 1) as int] == pow2(book.max_len + 1)
    &&& forall|l: int|
        1 <= l <= book.max_len ==> {
            &&& (#[trigger] order.start[l]) <= order.start[l + 1]
            &&& 2 * (order.first[l] + order.start[l + 1] - order.start[l]) == order.first[l + 1]
        }
    &&& forall|k: int|
        0 <= k < book.size() ==> {
            let s = #[trigger] order.symbols[k] as int;
            let l = book.lens[s] as int;
            &&& s < book.size()
            &&& 1 <= l <= book.max_len
            &&& order.start[l] <= k < order.start[l + 1]
            &&& book.codes[s] == order.first[l] + k - order.start[l]
        }
}

/// The symbols of a length do not begin before those of a shorter one.
proof fn lemma_starts(book: Codebook, order: CodeOrder, a: int, b: int)
    requires
        filled(book, order),
        1 <= a <= b <= book.max_len + 1,
    ensures
        order.start[a] <= order.start[b],
    decreases b - a,
{
    if a < b {
        lemma_starts(book, order, a, b - 1);
        assert(order.start[b - 1] <= order.start[b - 1 + 1]);
    }
}

/// A word before the codes that are longer than `l` starts with a code.
proof fn lemma_word_covered(book: Codebook, order: CodeOrder, l: int, w: int) -> (s: int)
    requires
        filled(book, order),
        1 <= l <= book.max_len,
        0 <= w < (order.first[l] + order.start[l + 1] - order.start[l]) * pow2(
            (book.max_len - l) as nat,
        ),
    ensures
        0 <= s < book.size(),
        book.covers(s, w),
    decreases l,
{
    let p = pow2((book.max_len - l) as nat) as int;
    let f = order.first[l] as int;
    lemma_pow2_pos((book.max_len - l) as nat);
    assert(order.start[l] <= order.start[l + 1]);
    if w >= f * p {
        let c = w / p;
        vstd::arithmetic::div_mod::lemma_fundamental_div_mod(w, p);
        vstd::arithmetic::div_mod::lemma_mod_bound(w, p);
        let n = order.start[l + 1] - order.start[l];
        assert(f <= c < f + n) by (nonlinear_arith)
            requires
                f * p <= w < (f + n) * p,
                w == p * c + w % p,
                0 <= w % p < p,
        ;
        let k = order.start[l] + c - f;
        lemma_starts(book, order, 1, l);
        lemma_starts(book, order, l + 1, book.max_len as int + 1);
        let s = order.symbols[k] as int;
        let m = book.lens[s] as int;
        if m < l {
            lemma_starts(book, order, m + 1, l);
        }
        if m > l {
            lemma_starts(book, order, l + 1, m);
        }
        assert(book.codes[s] == c);
        assert(c * p <= w < (c + 1) * p) by (nonlinear_arith)
            requires
                w == p * c + w % p,
                0 <= w % p < p,
        ;
        s
    } else {
        assert(l > 1) by {
            if l == 1 {
                assert(f * p == 0) by (nonlinear_arith)
                    requires
                        f == 0,
                ;
            }
        }
        lemma_pow2_unfold((book.max_len - l + 1) as nat);
        assert(order.start[l - 1] <= order.start[l - 1 + 1]);
        let g = order.first[l - 1] + order.start[l] - order.start[l - 1];
        assert(f == 2 * g);
        assert(f * p == g * (2 * p)) by (nonlinear_arith)
            requires
                f == 2 * g,
        ;
        lemma_word_covered(book, order, l - 1, w)
    }
}

/// A codebook whose codes leave no gap is complete.
proof fn lemma_filled_complete(book: Codebook, order: CodeOrder)
    requires
        filled(book, order),
    ensures
        book.complete(),
{
    reveal(Codebook::complete);
    assert forall|w: int| 0 <= w < pow2(book.max_len) implies #[trigger] book.covered(w) by {
        let l = book.max_len as int;
        lemma_pow2_unfold(book.max_len + 1);
        assert(order.start[l] <= order.start[l + 1]);
        assert(pow2(0) == 1) by {
            lemma2_to64();
        }
        let x = order.first[l] + order.start[l + 1] - order.start[l];
        assert(2 * x == pow2(book.max_len + 1));
        assert(x * 1 == x);
        assert((book.max_len - l) as nat == 0);
        let s = lemma_word_covered(book, order, l, w);
        assert(book.covers(s, w));
    }
}

/// Every word of bits starts with a code of the scale factor codebook.
#[verifier::spinoff_prover]
proof fn lemma_scf_cb_complete()
    ensures
        (Codebook {
            lens: SCF_CB_LENS@,
            codes: SCF_CB_CODES@,
            max_len: 19,
        }).complete(),
{
    lemma2_to64();
    let order = CodeOrder {
        first: SCF_CB_FIRST@,
        start: SCF_CB_START@,
        symbols: SCF_CB_ORDER@,
    };
    lemma_filled_complete(
        Codebook { lens: SCF_CB_LENS@, codes: SCF_CB_CODES@, max_len: 19 },
        order,
    );
}

/// Every word of bits starts with a code of spectrum codebook 1.
#[verifier::spinoff_prover]
proof fn lemma_spectrum_1_complete()
    ensures
        (Codebook {
            lens: SPECTRUM_1_LENS@,
            codes: SPECTRUM_1_CODES@,
            max_len: 11,
        }).complete(),
{
    lemma2_to64();
    let order = CodeOrder {
        first: SPECTRUM_1_FIRST@,
        start: SPECTRUM_1_START@,
        symbols: SPECTRUM_1_ORDER@,
    };
    lemma_filled_complete(
        Codebook { lens: SPECTRUM_1_LENS@, codes: SPECTRUM_1_CODES@, max_len: 11 },
        order,
    );
}

/// Every word of bits starts with a code of spectrum codebook 2.
#[verifier::spinoff_prover]
proof fn lemma_spectrum_2_complete()
    ensures
        (Codebook {
            lens: SPECTRUM_2_LENS@,
            codes: SPECTRUM_2_CODES@,
            max_len: 9,
        }).complete(),
{
    lemma2_to64();
    let order = CodeOrder {
        first: SPECTRUM_2_FIRST@,
        start: SPECTRUM_2_START@,
        symbols: SPECTRUM_2_ORDER@,
    };
    lemma_filled_complete(
        Codebook { lens: SPECTRUM_2_LENS@, codes: SPECTRUM_2_CODES@, max_len: 9 },
        order,
    );
}

/// Every word of bits starts with a code of spectrum codebook 3.
#[verifier::spinoff_prover]
proof fn lemma_spectrum_3_complete()
    ensures
        (Codebook {
            lens: SPECTRUM_3_LENS@,
            codes: SPECTRUM_3_CODES@,
            max_len: 16,
        }).complete(),
{
    lemma2_to64();
    let order = CodeOrder {
        first: SPECTRUM_3_FIRST@,
        start: SPECTRUM_3_START@,
        symbols: SPECTRUM_3_ORDER@,
    };
    lemma_filled_complete(
        Codebook { lens: SPECTRUM_3_LENS@, codes: SPECTRUM_3_CODES@, max_len: 16 },
        order,
    );
}

/// Every word of bits starts with a code of spectrum codebook 4.
#[verifier::spinoff_prover]
proof fn lemma_spectrum_4_complete()
    ensures
        (Codebook {
            lens: SPECTRUM_4_LENS@,
            codes: SPECTRUM_4_CODES@,
            max_len: 12,
        }).complete(),
{
    lemma2_to64();
    let order = CodeOrder {
        first: SPECTRUM_4_FIRST@,
        start: SPECTRUM_4_START@,
        symbols: SPECTRUM_4_ORDER@,
    };
    lemma_filled_complete(
        Codebook { lens: SPECTRUM_4_LENS@, codes: SPECTRUM_4_CODES@, max_len: 12 },
        order,
    );
}

/// Every word of bits starts with a code of spectrum codebook 5.
#[verifier::spinoff_prover]
proof fn lemma_spectrum_5_complete()
    ensures
        (Codebook {
            lens: SPECTRUM_5_LENS@,
            codes: SPECTRUM_5_CODES@,
            max_len: 13,
        }).complete(),
{
    lemma2_to64();
    let order = CodeOrder {
        first: SPECTRUM_5_FIRST@,
        start: SPECTRUM_5_START@,
        symbols: SPECTRUM_5_ORDER@,
    };
    lemma_filled_complete(
        Codebook { lens: SPECTRUM_5_LENS@, codes: SPECTRUM_5_CODES@, max_len: 13 },
        order,
    );
}

/// Every word of bits starts with a code of spectrum codebook 6.
#[verifier::spinoff_prover]
proof fn lemma_spectrum_6_complete()
    ensures
        (Codebook {
            lens: SPECTRUM_6_LENS@,
            codes: SPECTRUM_6_CODES@,
            max_len: 11,
        }).complete(),
{
    lemma2_to64();
    let order = CodeOrder {
        first: SPECTRUM_6_FIRST@,
        start: SPECTRUM_6_START@,
        symbols: SPECTRUM_6_ORDER@,
    };
    lemma_filled_complete(
        Codebook { lens: SPECTRUM_6_LENS@, codes: SPECTRUM_6_CODES@, max_len: 11 },
        order,
    );
}

/// Every word of bits starts with a code of spectrum codebook 7.
#[verifier::spinoff_prover]
proof fn lemma_spectrum_7_complete()
    ensures
        (Codebook {
            lens: SPECTRUM_7_LENS@,
            codes: SPECTRUM_7_CODES@,
            max_len: 12,
        }).complete(),
{
    lemma2_to64();
    let order = CodeOrder {
        first: SPECTRUM_7_FIRST@,
        start: SPECTRUM_7_START@,
        symbols: SPECTRUM_7_ORDER@,
    };
    lemma_filled_complete(
        Codebook { lens: SPECTRUM_7_LENS@, codes: SPECTRUM_7_CODES@, max_len: 12 },
        order,
    );
}

/// Every word of bits starts with a code of spectrum codebook 8.
#[verifier::spinoff_prover]
proof fn lemma_spectrum_8_complete()
    ensures
        (Codebook {
            lens: SPECTRUM_8_LENS@,
            codes: SPECTRUM_8_CODES@,
            max_len: 10,
        }).complete(),
{
    lemma2_to64();
    let order = CodeOrder {
        first: SPECTRUM_8_FIRST@,
        start: SPECTRUM_8_START@,
        symbols: SPECTRUM_8_ORDER@,
    };
    lemma_filled_complete(
        Codebook { lens: SPECTRUM_8_LENS@, codes: SPECTRUM_8_CODES@, max_len: 10 },
        order,
    );
}

/// Every word of bits starts with a code of spectrum codebook 9.
#[verifier::spinoff_prover]
proof fn lemma_spectrum_9_complete()
    ensures
        (Codebook {
            lens: SPECTRUM_9_LENS@,
            codes: SPECTRUM_9_CODES@,
            max_len: 15,
        }).complete(),
{
    lemma2_to64();
    let order = CodeOrder {
        first: SPECTRUM_9_FIRST@,
        start: SPECTRUM_9_START@,
        symbols: SPECTRUM_9_ORDER@,
    };
    lemma_filled_complete(
        Codebook { lens: SPECTRUM_9_LENS@, codes: SPECTRUM_9_CODES@, max_len: 15 },
        order,
    );
}

/// Every word of bits starts with a code of spectrum codebook 10.
#[verifier::spinoff_prover]
proof fn lemma_spectrum_10_complete()
    ensures
        (Codebook {
            lens: SPECTRUM_10_LENS@,
            codes: SPECTRUM_10_CODES@,
            max_len: 12,
        }).complete(),
{
    lemma2_to64();
    let order = CodeOrder {
        first: SPECTRUM_10_FIRST@,
        start: SPECTRUM_10_START@,
        symbols: SPECTRUM_10_ORDER@,
    };
    lemma_filled_complete(
        Codebook { lens: SPECTRUM_10_LENS@, codes: SPECTRUM_10_CODES@, max_len: 12 },
        order,
    );
}

/// Every word of bits starts with a code of spectrum codebook 11.
#[verifier::spinoff_prover]
proof fn lemma_spectrum_11_complete()
    ensures
        (Codebook {
            lens: SPECTRUM_11_LENS@,
            codes: SPECTRUM_11_CODES@,
            max_len: 12,
        }).complete(),
{
    lemma2_to64();
    let order = CodeOrder {
        first: SPECTRUM_11_FIRST@,
        start: SPECTRUM_11_START@,
        symbols: SPECTRUM_11_ORDER@,
    };
    lemma_filled_complete(
        Codebook { lens: SPECTRUM_11_LENS@, codes: SPECTRUM_11_CODES@, max_len: 12 },
        order,
    );
}

/// No code of a codebook of AAC starts with another one, and shorter codes come
/// first.
pub proof fn lemma_standard_books_prefix_free()
    ensures
        standard_books().prefix_free(),
        standard_books().all_used(),
        standard_books().shorter_first(),
{
    reveal(standard_books);
    reveal(scf_book);
    reveal(spectrum_book);
    lemma_scf_cb_prefix_free();
    lemma_spectrum_1_prefix_free();
    lemma_spectrum_2_prefix_free();
    lemma_spectrum_3_prefix_free();
    lemma_spectrum_4_prefix_free();
    lemma_spectrum_5_prefix_free();
    lemma_spectrum_6_prefix_free();
    lemma_spectrum_7_prefix_free();
    lemma_spectrum_8_prefix_free();
    lemma_spectrum_9_prefix_free();
    lemma_spectrum_10_prefix_free();
    lemma_spectrum_11_prefix_free();
}

/// Every word of bits starts with a code, in every codebook of AAC.
pub proof fn lemma_standard_books_complete()
    ensures
        standard_books().complete(),
{
    reveal(standard_books);
    reveal(scf_book);
    reveal(spectrum_book);
    lemma_scf_cb_complete();
    lemma_spectrum_1_complete();
    lemma_spectrum_2_complete();
    lemma_spectrum_3_complete();
    lemma_spectrum_4_complete();
    lemma_spectrum_5_complete();
    lemma_spectrum_6_complete();
    lemma_spectrum_7_complete();
    lemma_spectrum_8_complete();
    lemma_spectrum_9_complete();
    lemma_spectrum_10_complete();
    lemma_spectrum_11_complete();
}

} // verus!
