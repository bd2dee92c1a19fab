//! The sample rate that the AAC decoder is configured with.
use crate::error::{parse_error, Error, Fault, FaultView};
use crate::mp4::{be32, box_in_container, find_box_in_container, least, read_u32_be, ESDS};
use vstd::prelude::*;
use vstd::slice::slice_subrange;

verus! {

/// The sample rates that an AudioSpecificConfig names by an index.
pub const SAMPLE_RATE_TABLE: [u32; 13] = [
    96000,
    88200,
    64000,
    48000,
    44100,
    32000,
    24000,
    22050,
    16000,
    12000,
    11025,
    8000,
    7350,
];

/// The length of a descriptor, written in base 128 in at most four bytes of
/// which all but the last have their top bit set, and the number of these
/// bytes. `len` and `consumed` are what the bytes before `pos` gave.
pub open spec fn desc_length(
    data: Seq<u8>,
    pos: int,
    end: int,
    len: int,
    consumed: int,
) -> Result<Option<(int, int)>, FaultView>
    decreases 4 - consumed,
{
    if pos >= end {
        Ok(None)
    } else if pos >= data.len() {
        Err(FaultView::OutOfRange)
    } else if data[pos] < 128 || consumed + 1 >= 4 {
        Ok(Some((128 * len + data[pos] % 128, consumed + 1)))
    } else {
        desc_length(data, pos + 1, end, 128 * len + data[pos] % 128, consumed + 1)
    }
}

/// Reads the length of a descriptor, and the number of bytes that hold it.
pub fn read_desc_length(data: &[u8], start: usize, end: usize) -> (r: Result<
    Option<(usize, usize)>,
    Fault,
>)
    ensures
        match desc_length(data@, start as int, end as int, 0, 0) {
            Ok(None) => r is Ok && r->Ok_0 is None,
            Ok(Some((len, consumed))) => r matches Ok(Some(found)) && found.0 == len && found.1
                == consumed && start + consumed <= end && start + consumed <= data@.len() && len
                < 0x1000_0000,
            Err(f) => r is Err && r->Err_0@ == f,
        },
{
    let mut len: usize = 0;
    let mut consumed: usize = 0;
    let mut pos: usize = start;
    loop
        invariant
            consumed < 4,
            pos == start + consumed,
            consumed > 0 ==> pos <= data@.len(),
            consumed == 0 ==> len == 0,
            consumed == 1 ==> len < 0x80,
            consumed == 2 ==> len < 0x4000,
            consumed == 3 ==> len < 0x20_0000,
            desc_length(data@, start as int, end as int, 0, 0) == desc_length(
                data@,
                pos as int,
                end as int,
                len as int,
                consumed as int,
            ),
        decreases 4 - consumed,
    {
        if pos >= end {
            return Ok(None);
        }
        if pos >= data.len() {
            return Err(Fault::OutOfRange);
        }
        let b: u8 = data[pos];
        pos = pos + 1;
        consumed = consumed + 1;
        len = len * 128 + (b % 128) as usize;
        if b < 128 || consumed >= 4 {
            return Ok(Some((len, consumed)));
        }
    }
}

/// Where the content of the descriptor at `pos` starts and how long it is, if
/// a descriptor with the tag stands there.
pub open spec fn descriptor(data: Seq<u8>, pos: int, end: int, tag: u8) -> Result<
    Option<(int, int)>,
    FaultView,
> {
    if pos >= end {
        Ok(None)
    } else if pos >= data.len() {
        Err(FaultView::OutOfRange)
    } else if data[pos] != tag {
        Ok(None)
    } else {
        match desc_length(data, pos + 1, end, 0, 0) {
            Err(f) => Err(f),
            Ok(None) => Ok(None),
            Ok(Some((len, consumed))) => Ok(Some((pos + 1 + consumed, len))),
        }
    }
}

/// Reads the head of the descriptor `skip` bytes behind `start`.
pub fn read_descriptor(data: &[u8], start: usize, skip: usize, end: usize, tag: u8) -> (r: Result<
    Option<(usize, usize)>,
    Fault,
>)
    ensures
        match descriptor(data@, start + skip, end as int, tag) {
            Ok(None) => r is Ok && r->Ok_0 is None,
            Ok(Some((pos, len))) => r matches Ok(Some(found)) && found.0 == pos && found.1 == len
                && pos <= end && pos <= data@.len() && len < 0x1000_0000,
            Err(f) => r is Err && r->Err_0@ == f,
        },
{
    if start >= end || skip >= end - start {
        return Ok(None);
    }
    let pos: usize = start + skip;
    if pos >= data.len() {
        return Err(Fault::OutOfRange);
    }
    if data[pos] != tag {
        return Ok(None);
    }
    match read_desc_length(data, pos + 1, end) {
        Err(f) => Err(f),
        Ok(None) => Ok(None),
        Ok(Some((len, consumed))) => Ok(Some((pos + 1 + consumed, len))),
    }
}

/// The bytes of the AudioSpecificConfig in the descriptors from `start` up to
/// `end`: a decoder-specific descriptor in a decoder configuration descriptor
/// in an elementary stream descriptor.
pub open spec fn specific_config(data: Seq<u8>, start: int, end: int) -> Result<
    Option<Seq<u8>>,
    FaultView,
> {
    match descriptor(data, start, end, 3) {
        Err(f) => Err(f),
        Ok(None) => Ok(None),
        Ok(Some((stream, _))) => match descriptor(data, stream + 3, end, 4) {
            Err(f) => Err(f),
            Ok(None) => Ok(None),
            Ok(Some((decoder, _))) => match descriptor(data, decoder + 13, end, 5) {
                Err(f) => Err(f),
                Ok(None) => Ok(None),
                Ok(Some((pos, len))) => if least(pos + len, end) > data.len() {
                    Err(FaultView::OutOfRange)
                } else {
                    Ok(Some(data.subrange(pos, least(pos + len, end))))
                },
            },
        },
    }
}

/// Finds the bytes of the AudioSpecificConfig.
pub fn find_audio_specific_config(data: &[u8], start: usize, end: usize) -> (r: Result<
    Option<&[u8]>,
    Fault,
>)
    ensures
        match specific_config(data@, start as int, end as int) {
            Ok(None) => r is Ok && r->Ok_0 is None,
            Ok(Some(config)) => r matches Ok(Some(found)) && found@ == config,
            Err(f) => r is Err && r->Err_0@ == f,
        },
{
    let stream: usize = match read_descriptor(data, start, 0, end, 3) {
        Err(f) => {
            return Err(f);
        },
        Ok(None) => {
            return Ok(None);
        },
        Ok(Some((pos, _))) => pos,
    };
    let decoder: usize = match read_descriptor(data, stream, 3, end, 4) {
        Err(f) => {
            return Err(f);
        },
        Ok(None) => {
            return Ok(None);
        },
        Ok(Some((pos, _))) => pos,
    };
    let (pos, len) = match read_descriptor(data, decoder, 13, end, 5) {
        Err(f) => {
            return Err(f);
        },
        Ok(None) => {
            return Ok(None);
        },
        Ok(Some(found)) => found,
    };
    let asc_end: usize = if len <= end - pos {
        pos + len
    } else {
        end
    };
    if asc_end > data.len() {
        return Err(Fault::OutOfRange);
    }
    Ok(Some(slice_subrange(data, pos, asc_end)))
}

/// The index of the sample rate in an AudioSpecificConfig: the four bits
/// behind the five of the object type.
pub open spec fn rate_index(config: Seq<u8>) -> int {
    2 * (config[0] % 8) + config[1] / 128
}

/// The sample rate written out in the 24 bits behind the index.
pub open spec fn explicit_rate(config: Seq<u8>) -> int {
    0x2_0000 * (config[1] % 128) + 0x200 * config[2] + 2 * config[3] + config[4] / 128
}

/// The sample rate that an AudioSpecificConfig gives.
pub open spec fn config_rate(config: Seq<u8>) -> Option<u32> {
    if config.len() < 2 {
        None
    } else if rate_index(config) == 15 && config.len() >= 5 {
        Some(explicit_rate(config) as u32)
    } else if rate_index(config) < 13 {
        Some(SAMPLE_RATE_TABLE[rate_index(config)])
    } else {
        None
    }
}

/// The sample rate that an AudioSpecificConfig gives.
pub fn parse_config_rate(config: &[u8]) -> (r: Option<u32>)
    ensures
        r == config_rate(config@),
{
    if config.len() < 2 {
        return None;
    }
    let index: usize = 2 * (config[0] % 8) as usize + (config[1] / 128) as usize;
    if index == 15 && config.len() >= 5 {
        let rate: u32 = 0x2_0000 * (config[1] % 128) as u32 + 0x200 * config[2] as u32 + 2
            * config[3] as u32 + (config[4] / 128) as u32;
        return Some(rate);
    }
    if index < 13 {
        Some(SAMPLE_RATE_TABLE[index])
    } else {
        None
    }
}

/// The sample rate that the elementary stream descriptor box between `start`
/// and `end` gives.
pub open spec fn esds_rate(data: Seq<u8>, start: int, end: int) -> Result<Option<u32>, FaultView> {
    match box_in_container(data, start, end - start, ESDS) {
        Err(f) => Err(f),
        Ok(None) => Ok(None),
        Ok(Some((pos, header))) => if pos + header.size > usize::MAX {
            Err(FaultView::OutOfRange)
        } else {
            match specific_config(data, pos + header.header_size + 4, pos + header.size) {
                Err(f) => Err(f),
                Ok(None) => Ok(None),
                Ok(Some(config)) => Ok(config_rate(config)),
            }
        },
    }
}

/// Reads the sample rate that an elementary stream descriptor box gives.
pub fn parse_esds_sample_rate(data: &[u8], start: usize, end: usize) -> (r: Result<
    Option<u32>,
    Fault,
>)
    requires
        start <= end,
    ensures
        match esds_rate(data@, start as int, end as int) {
            Ok(rate) => r is Ok && r->Ok_0 == rate,
            Err(f) => r is Err && r->Err_0@ == f,
        },
{
    let (esds_pos, esds) = match find_box_in_container(data, start, end - start, ESDS) {
        Err(f) => {
            return Err(f);
        },
        Ok(None) => {
            return Ok(None);
        },
        Ok(Some(found)) => found,
    };
    if esds.size > (usize::MAX - esds_pos) as u64 {
        return Err(Fault::OutOfRange);
    }
    if esds.size < esds.header_size as u64 + 4 {
        return Ok(None);
    }
    let esds_content: usize = esds_pos + esds.header_size as usize + 4;
    let esds_end: usize = esds_pos + esds.size as usize;
    match find_audio_specific_config(data, esds_content, esds_end) {
        Err(f) => Err(f),
        Ok(None) => Ok(None),
        Ok(Some(config)) => Ok(parse_config_rate(config)),
    }
}

/// The sample rate of the first sample description: the one of its elementary
/// stream descriptor, or else the one of the description itself.
#[verifier::opaque]
pub open spec fn audio_rate(data: Seq<u8>, stsd_pos: int) -> Result<u32, FaultView> {
    let start = stsd_pos + 16;
    if start + 4 > data.len() {
        Err(FaultView::Reject(parse_error("stsd too short"@)))
    } else {
        let end = start + be32(data, start);
        if end > usize::MAX {
            Err(FaultView::OutOfRange)
        } else if start + 36 > data.len() {
            Err(FaultView::Reject(parse_error("mp4a too short for sample rate"@)))
        } else {
            let own_rate = (be32(data, start + 32) / 0x1_0000) as u32;
            if start + 36 < end {
                match esds_rate(data, start + 36, end) {
                    Err(f) => Err(f),
                    Ok(Some(rate)) => Ok(rate),
                    Ok(None) => Ok(own_rate),
                }
            } else {
                Ok(own_rate)
            }
        }
    }
}

/// Reads the sample rate of the first sample description.
pub fn parse_audio_config(data: &[u8], stsd_pos: usize) -> (r: Result<u32, Fault>)
    requires
        stsd_pos <= data@.len(),
    ensures
        match audio_rate(data@, stsd_pos as int) {
            Ok(rate) => r is Ok && r->Ok_0 == rate,
            Err(f) => r is Err && r->Err_0@ == f,
        },
{
    proof {
        reveal(audio_rate);
    }
    if data.len() - stsd_pos < 20 {
        return Err(Fault::Reject(Error::aac_parse("stsd too short")));
    }
    let mp4a_start: usize = stsd_pos + 16;
    let mp4a_size: usize = read_u32_be(data, mp4a_start) as usize;
    if mp4a_size > usize::MAX - mp4a_start {
        return Err(Fault::OutOfRange);
    }
    let mp4a_end: usize = mp4a_start + mp4a_size;
    if data.len() - mp4a_start < 36 {
        return Err(Fault::Reject(Error::aac_parse("mp4a too short for sample rate")));
    }
    let sample_rate: u32 = read_u32_be(data, mp4a_start + 32) / 0x1_0000;
    let esds_search_start: usize = mp4a_start + 36;
    if esds_search_start < mp4a_end {
        match parse_esds_sample_rate(data, esds_search_start, mp4a_end) {
            Err(f) => {
                return Err(f);
            },
            Ok(Some(rate)) => {
                return Ok(rate);
            },
            Ok(None) => {},
        }
    }
    Ok(sample_rate)
}

} // verus!
