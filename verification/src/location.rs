//! Places of `global_gain` fields.
use vstd::prelude::*;

verus! {

/// A `global_gain` field: the sample and the channel that it belongs to, its
/// place in the sample and in the file, and the gain found there.
#[derive(Debug, Clone, Copy, PartialEq, Eq)]
pub struct AacGainLocation {
    pub sample_index: u32,
    pub file_offset: u64,
    pub sample_byte_offset: u32,
    pub bit_offset: u8,
    pub channel: u8,
    pub original_gain: u8,
}

impl AacGainLocation {
    pub fn new(
        sample_index: u32,
        file_offset: u64,
        sample_byte_offset: u32,
        bit_offset: u8,
        channel: u8,
        original_gain: u8,
    ) -> (loc: Self)
        ensures
            loc == (AacGainLocation {
                sample_index,
                file_offset,
                sample_byte_offset,
                bit_offset,
                channel,
                original_gain,
            }),
    {
        AacGainLocation {
            sample_index,
            file_offset,
            sample_byte_offset,
            bit_offset,
            channel,
            original_gain,
        }
    }

    /// The first bit of the field, counted from the start of its sample.
    pub open spec fn sample_bit(self) -> int {
        8 * self.sample_byte_offset + self.bit_offset
    }

    /// The first bit of the field, counted from the start of the file.
    pub open spec fn file_bit(self) -> int {
        8 * self.file_offset + self.bit_offset
    }

    /// The same field with another gain found in it.
    pub open spec fn with_gain(self, gain: u8) -> AacGainLocation {
        AacGainLocation { original_gain: gain, ..self }
    }
}

} // verus!
