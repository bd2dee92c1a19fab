//! What sets the codebooks of AAC apart: their tables, and the codes of their
//! most common words.
use crate::aac_codebooks::{
    scf_book, spectrum_book, SCF_CB_CODES, SCF_CB_LENS,
    SPECTRUM_10_CODES, SPECTRUM_10_LENS, SPECTRUM_11_CODES, SPECTRUM_11_LENS, SPECTRUM_1_CODES,
    SPECTRUM_1_LENS, SPECTRUM_2_CODES, SPECTRUM_2_LENS, SPECTRUM_3_CODES, SPECTRUM_3_LENS,
    SPECTRUM_4_CODES, SPECTRUM_4_LENS, SPECTRUM_5_CODES, SPECTRUM_5_LENS, SPECTRUM_6_CODES,
    SPECTRUM_6_LENS, SPECTRUM_7_CODES, SPECTRUM_7_LENS, SPECTRUM_8_CODES, SPECTRUM_8_LENS,
    SPECTRUM_9_CODES, SPECTRUM_9_LENS,
};
use crate::frame_model::{code_bits, uint, word_symbol};
use crate::huffman::Codebook;
use vstd::prelude::*;

verus! {

/// Each codebook has its own tables, and its own longest code.
pub proof fn lemma_book_tables()
    ensures
        scf_book() == (Codebook { lens: SCF_CB_LENS@, codes: SCF_CB_CODES@, max_len: 19 }),
        spectrum_book(1).book == (Codebook {
            lens: SPECTRUM_1_LENS@,
            codes: SPECTRUM_1_CODES@,
            max_len: 11,
        }),
        spectrum_book(2).book == (Codebook {
            lens: SPECTRUM_2_LENS@,
            codes: SPECTRUM_2_CODES@,
            max_len: 9,
        }),
        spectrum_book(3).book == (Codebook {
            lens: SPECTRUM_3_LENS@,
            codes: SPECTRUM_3_CODES@,
            max_len: 16,
        }),
        spectrum_book(4).book == (Codebook {
            lens: SPECTRUM_4_LENS@,
            codes: SPECTRUM_4_CODES@,
            max_len: 12,
        }),
        spectrum_book(5).book == (Codebook {
            lens: SPECTRUM_5_LENS@,
            codes: SPECTRUM_5_CODES@,
            max_len: 13,
        }),
        spectrum_book(6).book == (Codebook {
            lens: SPECTRUM_6_LENS@,
            codes: SPECTRUM_6_CODES@,
            max_len: 11,
        }),
        spectrum_book(7).book == (Codebook {
            lens: SPECTRUM_7_LENS@,
            codes: SPECTRUM_7_CODES@,
            max_len: 12,
        }),
        spectrum_book(8).book == (Codebook {
            lens: SPECTRUM_8_LENS@,
            codes: SPECTRUM_8_CODES@,
            max_len: 10,
        }),
        spectrum_book(9).book == (Codebook {
            lens: SPECTRUM_9_LENS@,
            codes: SPECTRUM_9_CODES@,
            max_len: 15,
        }),
        spectrum_book(10).book == (Codebook {
            lens: SPECTRUM_10_LENS@,
            codes: SPECTRUM_10_CODES@,
            max_len: 12,
        }),
        spectrum_book(11).book == (Codebook {
            lens: SPECTRUM_11_LENS@,
            codes: SPECTRUM_11_CODES@,
            max_len: 12,
        }),
{
    reveal(scf_book);
    reveal(spectrum_book);
}

/// A word of zeros as each codebook writes it.
pub proof fn lemma_codes_of_zeros()
    ensures
        code_bits(spectrum_book(1).book, word_symbol(1, seq![0int, 0, 0, 0])) == uint(0, 1),
        code_bits(spectrum_book(2).book, word_symbol(2, seq![0int, 0, 0, 0])) == uint(0, 3),
        code_bits(spectrum_book(3).book, word_symbol(3, seq![0int, 0, 0, 0])) == uint(0, 1),
        code_bits(spectrum_book(4).book, word_symbol(4, seq![0int, 0, 0, 0])) == uint(7, 4),
        code_bits(spectrum_book(5).book, word_symbol(5, seq![0int, 0])) == uint(0, 1),
        code_bits(spectrum_book(6).book, word_symbol(6, seq![0int, 0])) == uint(0, 4),
        code_bits(spectrum_book(7).book, word_symbol(7, seq![0int, 0])) == uint(0, 1),
        code_bits(spectrum_book(8).book, word_symbol(8, seq![0int, 0])) == uint(14, 5),
        code_bits(spectrum_book(9).book, word_symbol(9, seq![0int, 0])) == uint(0, 1),
        code_bits(spectrum_book(10).book, word_symbol(10, seq![0int, 0])) == uint(34, 6),
        code_bits(spectrum_book(11).book, word_symbol(11, seq![0int, 0])) == uint(0, 4),
{
    lemma_book_tables();
}

/// A word with a 1 before zeros as each codebook writes it.
pub proof fn lemma_codes_of_ones()
    ensures
        code_bits(spectrum_book(1).book, word_symbol(1, seq![1int, 0, 0, 0])) == uint(16, 5),
        code_bits(spectrum_book(2).book, word_symbol(2, seq![1int, 0, 0, 0])) == uint(2, 4),
        code_bits(spectrum_book(3).book, word_symbol(3, seq![1int, 0, 0, 0])) == uint(8, 4),
        code_bits(spectrum_book(4).book, word_symbol(4, seq![1int, 0, 0, 0])) == uint(5, 4),
        code_bits(spectrum_book(5).book, word_symbol(5, seq![1int, 0])) == uint(9, 4),
        code_bits(spectrum_book(6).book, word_symbol(6, seq![1int, 0])) == uint(1, 4),
        code_bits(spectrum_book(7).book, word_symbol(7, seq![1int, 0])) == uint(4, 3),
        code_bits(spectrum_book(8).book, word_symbol(8, seq![1int, 0])) == uint(3, 4),
        code_bits(spectrum_book(9).book, word_symbol(9, seq![1int, 0])) == uint(4, 3),
        code_bits(spectrum_book(10).book, word_symbol(10, seq![1int, 0])) == uint(7, 5),
        code_bits(spectrum_book(11).book, word_symbol(11, seq![1int, 0])) == uint(5, 5),
{
    lemma_book_tables();
}

/// A scale factor that is the same as the one before it, and one that is a step
/// below or above it.
pub proof fn lemma_codes_of_factors()
    ensures
        code_bits(scf_book(), 60) == uint(0, 1),
        code_bits(scf_book(), 59) == uint(4, 3),
        code_bits(scf_book(), 61) == uint(10, 4),
{
    lemma_book_tables();
}

} // verus!
