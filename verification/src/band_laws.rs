//! The scale factor bands: how wide they are, and which sample rates have
//! which.
use crate::aac_codebooks::{
    swb_bands, SWB_LONG_16, SWB_LONG_24, SWB_LONG_32, SWB_LONG_48, SWB_LONG_64, SWB_LONG_8,
    SWB_LONG_96, SWB_SHORT_16, SWB_SHORT_24, SWB_SHORT_48, SWB_SHORT_8, SWB_SHORT_96,
};
use crate::audio_config::SAMPLE_RATE_TABLE;
use vstd::prelude::*;

verus! {

/// Whether the bands from number `a` up to number `b` are `width` coefficients
/// wide.
pub open spec fn all_wide(bands: Seq<usize>, a: int, b: int, width: int) -> bool {
    forall|i: int| a <= i < b ==> #[trigger] bands[i] + width == bands[i + 1]
}

/// The widths of the bands of long windows at 88.2 and 96 kHz: 41 bands
/// for 1024 coefficients.
pub proof fn lemma_widths_long_96()
    ensures
        SWB_LONG_96@.len() == 42,
        SWB_LONG_96@[0] == 0,
        SWB_LONG_96@[41] == 1024,
        all_wide(SWB_LONG_96@, 0, 14, 4),
        all_wide(SWB_LONG_96@, 14, 19, 8),
        all_wide(SWB_LONG_96@, 19, 24, 12),
        all_wide(SWB_LONG_96@, 24, 26, 16),
        all_wide(SWB_LONG_96@, 26, 27, 24),
        all_wide(SWB_LONG_96@, 27, 28, 28),
        all_wide(SWB_LONG_96@, 28, 29, 36),
        all_wide(SWB_LONG_96@, 29, 30, 44),
        all_wide(SWB_LONG_96@, 30, 41, 64),
{
}

/// The widths of the bands of long windows at 64 kHz: 47 bands
/// for 1024 coefficients.
pub proof fn lemma_widths_long_64()
    ensures
        SWB_LONG_64@.len() == 48,
        SWB_LONG_64@[0] == 0,
        SWB_LONG_64@[47] == 1024,
        all_wide(SWB_LONG_64@, 0, 14, 4),
        all_wide(SWB_LONG_64@, 14, 18, 8),
        all_wide(SWB_LONG_64@, 18, 21, 12),
        all_wide(SWB_LONG_64@, 21, 24, 16),
        all_wide(SWB_LONG_64@, 24, 25, 20),
        all_wide(SWB_LONG_64@, 25, 27, 24),
        all_wide(SWB_LONG_64@, 27, 28, 28),
        all_wide(SWB_LONG_64@, 28, 29, 36),
        all_wide(SWB_LONG_64@, 29, 47, 40),
{
}

/// The widths of the bands of long windows at 44.1 and 48 kHz: 49 bands
/// for 1024 coefficients.
pub proof fn lemma_widths_long_48()
    ensures
        SWB_LONG_48@.len() == 50,
        SWB_LONG_48@[0] == 0,
        SWB_LONG_48@[49] == 1024,
        all_wide(SWB_LONG_48@, 0, 10, 4),
        all_wide(SWB_LONG_48@, 10, 17, 8),
        all_wide(SWB_LONG_48@, 17, 21, 12),
        all_wide(SWB_LONG_48@, 21, 23, 16),
        all_wide(SWB_LONG_48@, 23, 25, 20),
        all_wide(SWB_LONG_48@, 25, 27, 24),
        all_wide(SWB_LONG_48@, 27, 29, 28),
        all_wide(SWB_LONG_48@, 29, 48, 32),
        all_wide(SWB_LONG_48@, 48, 49, 96),
{
}

/// The widths of the bands of long windows at 32 kHz: 51 bands
/// for 1024 coefficients.
pub proof fn lemma_widths_long_32()
    ensures
        SWB_LONG_32@.len() == 52,
        SWB_LONG_32@[0] == 0,
        SWB_LONG_32@[51] == 1024,
        all_wide(SWB_LONG_32@, 0, 10, 4),
        all_wide(SWB_LONG_32@, 10, 17, 8),
        all_wide(SWB_LONG_32@, 17, 21, 12),
        all_wide(SWB_LONG_32@, 21, 23, 16),
        all_wide(SWB_LONG_32@, 23, 25, 20),
        all_wide(SWB_LONG_32@, 25, 27, 24),
        all_wide(SWB_LONG_32@, 27, 29, 28),
        all_wide(SWB_LONG_32@, 29, 51, 32),
{
}

/// The widths of the bands of long windows at 22.05 and 24 kHz: 47 bands
/// for 1024 coefficients.
pub proof fn lemma_widths_long_24()
    ensures
        SWB_LONG_24@.len() == 48,
        SWB_LONG_24@[0] == 0,
        SWB_LONG_24@[47] == 1024,
        all_wide(SWB_LONG_24@, 0, 11, 4),
        all_wide(SWB_LONG_24@, 11, 21, 8),
        all_wide(SWB_LONG_24@, 21, 25, 12),
        all_wide(SWB_LONG_24@, 25, 28, 16),
        all_wide(SWB_LONG_24@, 28, 30, 20),
        all_wide(SWB_LONG_24@, 30, 32, 24),
        all_wide(SWB_LONG_24@, 32, 34, 28),
        all_wide(SWB_LONG_24@, 34, 35, 32),
        all_wide(SWB_LONG_24@, 35, 37, 36),
        all_wide(SWB_LONG_24@, 37, 38, 40),
        all_wide(SWB_LONG_24@, 38, 39, 44),
        all_wide(SWB_LONG_24@, 39, 40, 48),
        all_wide(SWB_LONG_24@, 40, 42, 52),
        all_wide(SWB_LONG_24@, 42, 47, 64),
{
}

/// The widths of the bands of long windows at 11.025, 12 and 16 kHz: 43 bands
/// for 1024 coefficients.
pub proof fn lemma_widths_long_16()
    ensures
        SWB_LONG_16@.len() == 44,
        SWB_LONG_16@[0] == 0,
        SWB_LONG_16@[43] == 1024,
        all_wide(SWB_LONG_16@, 0, 11, 8),
        all_wide(SWB_LONG_16@, 11, 20, 12),
        all_wide(SWB_LONG_16@, 20, 24, 16),
        all_wide(SWB_LONG_16@, 24, 27, 20),
        all_wide(SWB_LONG_16@, 27, 29, 24),
        all_wide(SWB_LONG_16@, 29, 31, 28),
        all_wide(SWB_LONG_16@, 31, 32, 32),
        all_wide(SWB_LONG_16@, 32, 33, 36),
        all_wide(SWB_LONG_16@, 33, 35, 40),
        all_wide(SWB_LONG_16@, 35, 36, 44),
        all_wide(SWB_LONG_16@, 36, 37, 48),
        all_wide(SWB_LONG_16@, 37, 38, 52),
        all_wide(SWB_LONG_16@, 38, 39, 56),
        all_wide(SWB_LONG_16@, 39, 40, 60),
        all_wide(SWB_LONG_16@, 40, 43, 64),
{
}

/// The widths of the bands of long windows at 7.35 and 8 kHz: 40 bands
/// for 1024 coefficients.
pub proof fn lemma_widths_long_8()
    ensures
        SWB_LONG_8@.len() == 41,
        SWB_LONG_8@[0] == 0,
        SWB_LONG_8@[40] == 1024,
        all_wide(SWB_LONG_8@, 0, 13, 12),
        all_wide(SWB_LONG_8@, 13, 20, 16),
        all_wide(SWB_LONG_8@, 20, 24, 20),
        all_wide(SWB_LONG_8@, 24, 27, 24),
        all_wide(SWB_LONG_8@, 27, 29, 28),
        all_wide(SWB_LONG_8@, 29, 30, 32),
        all_wide(SWB_LONG_8@, 30, 32, 36),
        all_wide(SWB_LONG_8@, 32, 33, 40),
        all_wide(SWB_LONG_8@, 33, 34, 44),
        all_wide(SWB_LONG_8@, 34, 35, 48),
        all_wide(SWB_LONG_8@, 35, 36, 52),
        all_wide(SWB_LONG_8@, 36, 37, 56),
        all_wide(SWB_LONG_8@, 37, 38, 60),
        all_wide(SWB_LONG_8@, 38, 39, 64),
        all_wide(SWB_LONG_8@, 39, 40, 80),
{
}

/// The widths of the bands of short windows at 64, 88.2 and 96 kHz: 12 bands
/// for 128 coefficients.
pub proof fn lemma_widths_short_96()
    ensures
        SWB_SHORT_96@.len() == 13,
        SWB_SHORT_96@[0] == 0,
        SWB_SHORT_96@[12] == 128,
        all_wide(SWB_SHORT_96@, 0, 6, 4),
        all_wide(SWB_SHORT_96@, 6, 9, 8),
        all_wide(SWB_SHORT_96@, 9, 10, 16),
        all_wide(SWB_SHORT_96@, 10, 11, 28),
        all_wide(SWB_SHORT_96@, 11, 12, 36),
{
}

/// The widths of the bands of short windows at 32, 44.1 and 48 kHz: 14 bands
/// for 128 coefficients.
pub proof fn lemma_widths_short_48()
    ensures
        SWB_SHORT_48@.len() == 15,
        SWB_SHORT_48@[0] == 0,
        SWB_SHORT_48@[14] == 128,
        all_wide(SWB_SHORT_48@, 0, 5, 4),
        all_wide(SWB_SHORT_48@, 5, 8, 8),
        all_wide(SWB_SHORT_48@, 8, 11, 12),
        all_wide(SWB_SHORT_48@, 11, 14, 16),
{
}

/// The widths of the bands of short windows at 22.05 and 24 kHz: 15 bands
/// for 128 coefficients.
pub proof fn lemma_widths_short_24()
    ensures
        SWB_SHORT_24@.len() == 16,
        SWB_SHORT_24@[0] == 0,
        SWB_SHORT_24@[15] == 128,
        all_wide(SWB_SHORT_24@, 0, 7, 4),
        all_wide(SWB_SHORT_24@, 7, 10, 8),
        all_wide(SWB_SHORT_24@, 10, 12, 12),
        all_wide(SWB_SHORT_24@, 12, 14, 16),
        all_wide(SWB_SHORT_24@, 14, 15, 20),
{
}

/// The widths of the bands of short windows at 11.025, 12 and 16 kHz: 15 bands
/// for 128 coefficients.
pub proof fn lemma_widths_short_16()
    ensures
        SWB_SHORT_16@.len() == 16,
        SWB_SHORT_16@[0] == 0,
        SWB_SHORT_16@[15] == 128,
        all_wide(SWB_SHORT_16@, 0, 8, 4),
        all_wide(SWB_SHORT_16@, 8, 10, 8),
        all_wide(SWB_SHORT_16@, 10, 12, 12),
        all_wide(SWB_SHORT_16@, 12, 13, 16),
        all_wide(SWB_SHORT_16@, 13, 15, 20),
{
}

/// The widths of the bands of short windows at 7.35 and 8 kHz: 15 bands
/// for 128 coefficients.
pub proof fn lemma_widths_short_8()
    ensures
        SWB_SHORT_8@.len() == 16,
        SWB_SHORT_8@[0] == 0,
        SWB_SHORT_8@[15] == 128,
        all_wide(SWB_SHORT_8@, 0, 7, 4),
        all_wide(SWB_SHORT_8@, 7, 11, 8),
        all_wide(SWB_SHORT_8@, 11, 12, 12),
        all_wide(SWB_SHORT_8@, 12, 13, 16),
        all_wide(SWB_SHORT_8@, 13, 15, 20),
{
}

/// The bands of each of the standard's sample rates.
pub proof fn lemma_bands_of_rates()
    ensures
        SAMPLE_RATE_TABLE[0] == 96000,
        swb_bands(96000) == (SWB_LONG_96@, SWB_SHORT_96@),
        SAMPLE_RATE_TABLE[1] == 88200,
        swb_bands(88200) == (SWB_LONG_96@, SWB_SHORT_96@),
        SAMPLE_RATE_TABLE[2] == 64000,
        swb_bands(64000) == (SWB_LONG_64@, SWB_SHORT_96@),
        SAMPLE_RATE_TABLE[3] == 48000,
        swb_bands(48000) == (SWB_LONG_48@, SWB_SHORT_48@),
        SAMPLE_RATE_TABLE[4] == 44100,
        swb_bands(44100) == (SWB_LONG_48@, SWB_SHORT_48@),
        SAMPLE_RATE_TABLE[5] == 32000,
        swb_bands(32000) == (SWB_LONG_32@, SWB_SHORT_48@),
        SAMPLE_RATE_TABLE[6] == 24000,
        swb_bands(24000) == (SWB_LONG_24@, SWB_SHORT_24@),
        SAMPLE_RATE_TABLE[7] == 22050,
        swb_bands(22050) == (SWB_LONG_24@, SWB_SHORT_24@),
        SAMPLE_RATE_TABLE[8] == 16000,
        swb_bands(16000) == (SWB_LONG_16@, SWB_SHORT_16@),
        SAMPLE_RATE_TABLE[9] == 12000,
        swb_bands(12000) == (SWB_LONG_16@, SWB_SHORT_16@),
        SAMPLE_RATE_TABLE[10] == 11025,
        swb_bands(11025) == (SWB_LONG_16@, SWB_SHORT_16@),
        SAMPLE_RATE_TABLE[11] == 8000,
        swb_bands(8000) == (SWB_LONG_8@, SWB_SHORT_8@),
        SAMPLE_RATE_TABLE[12] == 7350,
        swb_bands(7350) == (SWB_LONG_8@, SWB_SHORT_8@),
{
}

/// Whether the standard's sample rate number `k` is the one that a rate is
/// nearest to in ratio.
pub open spec fn nearest_rate(rate: u32, k: int) -> bool {
    let own = SAMPLE_RATE_TABLE[k] as int;
    &&& 0 <= k < 13
    &&& forall|j: int|
        0 <= j < k ==> rate * rate < own * #[trigger] SAMPLE_RATE_TABLE[j]
    &&& forall|j: int|
        k < j < 13 ==> rate * rate > own * #[trigger] SAMPLE_RATE_TABLE[j]
}

/// A square is on the same side of a square as the number is of the number.
proof fn lemma_square(rate: int, limit: int)
    requires
        0 <= rate,
        0 < limit,
    ensures
        rate >= limit ==> rate * rate >= limit * limit,
        rate < limit ==> rate * rate <= (limit - 1) * (limit - 1),
{
    if rate >= limit {
        assert(rate * rate >= limit * limit) by (nonlinear_arith)
            requires
                rate >= limit,
                0 < limit,
        ;
    } else {
        assert(rate * rate <= (limit - 1) * (limit - 1)) by (nonlinear_arith)
            requires
                0 <= rate,
                rate <= limit - 1,
        ;
    }
}

/// A sample rate has the bands of the standard's rate that it is nearest to.
/// The rate 9391, which is a little nearer to 8000 than to 11025, has those of
/// 11025.
pub proof fn lemma_bands_of_nearest_rate(rate: u32, k: int)
    requires
        nearest_rate(rate, k),
    ensures
        rate != 9391 ==> swb_bands(rate) == swb_bands(SAMPLE_RATE_TABLE[k]),
        rate == 9391 ==> swb_bands(rate) == swb_bands(11025),
{
    lemma_bands_of_rates();
    let r = rate as int;
    lemma_square(r, 75132);
    lemma_square(r, 55426);
    lemma_square(r, 37566);
    lemma_square(r, 27713);
    lemma_square(r, 18783);
    lemma_square(r, 9392);
    let own = SAMPLE_RATE_TABLE[k] as int;
    let sq = r * r;
    if k == 0 {
        assert(sq > 96000 * SAMPLE_RATE_TABLE[1]);
    }
    if k == 1 {
        assert(sq < 88200 * SAMPLE_RATE_TABLE[0]);
        assert(sq > 88200 * SAMPLE_RATE_TABLE[2]);
    }
    if k == 2 {
        assert(sq < 64000 * SAMPLE_RATE_TABLE[1]);
        assert(sq > 64000 * SAMPLE_RATE_TABLE[3]);
    }
    if k == 3 {
        assert(sq < 48000 * SAMPLE_RATE_TABLE[2]);
        assert(sq > 48000 * SAMPLE_RATE_TABLE[4]);
    }
    if k == 4 {
        assert(sq < 44100 * SAMPLE_RATE_TABLE[3]);
        assert(sq > 44100 * SAMPLE_RATE_TABLE[5]);
    }
    if k == 5 {
        assert(sq < 32000 * SAMPLE_RATE_TABLE[4]);
        assert(sq > 32000 * SAMPLE_RATE_TABLE[6]);
    }
    if k == 6 {
        assert(sq < 24000 * SAMPLE_RATE_TABLE[5]);
        assert(sq > 24000 * SAMPLE_RATE_TABLE[7]);
    }
    if k == 7 {
        assert(sq < 22050 * SAMPLE_RATE_TABLE[6]);
        assert(sq > 22050 * SAMPLE_RATE_TABLE[8]);
    }
    if k == 8 {
        assert(sq < 16000 * SAMPLE_RATE_TABLE[7]);
        assert(sq > 16000 * SAMPLE_RATE_TABLE[9]);
    }
    if k == 9 {
        assert(sq < 12000 * SAMPLE_RATE_TABLE[8]);
        assert(sq > 12000 * SAMPLE_RATE_TABLE[10]);
    }
    if k == 10 {
        assert(sq < 11025 * SAMPLE_RATE_TABLE[9]);
        assert(sq > 11025 * SAMPLE_RATE_TABLE[11]);
    }
    if k == 11 {
        assert(sq < 8000 * SAMPLE_RATE_TABLE[10]);
        assert(sq > 8000 * SAMPLE_RATE_TABLE[12]);
    }
    if k == 12 {
        assert(sq < 7350 * SAMPLE_RATE_TABLE[11]);
    }
}

} // verus!
