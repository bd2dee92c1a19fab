//! Fixed-step gain adjustment of the `global_gain` fields of a file.
use crate::analysis::{analyze_locations, gains_of, lemma_gains_read};
use crate::bits::{
    adjust_gain_value, bit_len, bits_value, read_bits_u8, shifted_gain, with_u8_at, write_bits_u8,
};
use crate::error::{Error, ErrorView, Fault, FaultView};
use crate::location::AacGainLocation;
use vstd::prelude::*;
use vstd::slice::slice_to_vec;

verus! {

/// Whether a field lies in `data`.
pub open spec fn fits(data: Seq<u8>, loc: AacGainLocation) -> bool {
    loc.bit_offset < 8 && loc.file_bit() + 8 <= bit_len(data)
}

/// The gain that a field holds.
pub open spec fn gain_in(data: Seq<u8>, loc: AacGainLocation) -> int {
    bits_value(data, loc.file_bit(), 8) as int
}

/// The gain that a field is to hold after a shift by `steps`: silence stays.
pub open spec fn new_gain(gain: int, steps: int) -> int {
    if gain == 0 {
        0
    } else {
        shifted_gain(gain, steps)
    }
}

/// `data` after one field was shifted.
pub open spec fn shift_one(data: Seq<u8>, loc: AacGainLocation, steps: int) -> Seq<u8> {
    if new_gain(gain_in(data, loc), steps) == gain_in(data, loc) {
        data
    } else {
        with_u8_at(data, loc.file_bit(), new_gain(gain_in(data, loc), steps) as u8)
    }
}

/// `data` after the first `n` fields were shifted, one behind the other.
pub open spec fn shift_first(
    data: Seq<u8>,
    locs: Seq<AacGainLocation>,
    n: int,
    steps: int,
) -> Seq<u8>
    decreases n,
{
    if n <= 0 {
        data
    } else {
        shift_one(shift_first(data, locs, n - 1, steps), locs[n - 1], steps)
    }
}

/// `data` after all fields were shifted, one behind the other.
pub open spec fn shift_all(data: Seq<u8>, locs: Seq<AacGainLocation>, steps: int) -> Seq<u8> {
    shift_first(data, locs, locs.len() as int, steps)
}

/// The number of the first `n` fields whose gain changes.
pub open spec fn changed_first(
    data: Seq<u8>,
    locs: Seq<AacGainLocation>,
    n: int,
    steps: int,
) -> int
    decreases n,
{
    if n <= 0 {
        0
    } else {
        let before = gain_in(shift_first(data, locs, n - 1, steps), locs[n - 1]);
        changed_first(data, locs, n - 1, steps) + if new_gain(before, steps) == before {
            0int
        } else {
            1int
        }
    }
}

/// The gain that a field holds.
pub fn read_aac_gain_at(data: &[u8], loc: &AacGainLocation) -> (gain: u8)
    requires
        fits(data@, *loc),
    ensures
        gain == gain_in(data@, *loc),
{
    assert(data@.len() == data.len());
    read_bits_u8(data, loc.file_offset as usize, loc.bit_offset)
}

/// Stores a gain in a field.
pub fn write_aac_gain_at(data: &mut [u8], loc: &AacGainLocation, value: u8)
    requires
        fits(old(data)@, *loc),
    ensures
        final(data)@ == with_u8_at(old(data)@, loc.file_bit(), value),
        final(data)@.len() == old(data)@.len(),
{
    assert(data@.len() == data.len());
    write_bits_u8(data, loc.file_offset as usize, loc.bit_offset, value)
}

/// Shifts the fields, one behind the other. Gives the number of fields whose
/// gain changed.
pub fn apply_gain_to_data(
    data: &mut [u8],
    locations: &[AacGainLocation],
    gain_steps: i32,
) -> (modified: usize)
    requires
        forall|k: int| 0 <= k < locations@.len() ==> fits(old(data)@, #[trigger] locations@[k]),
    ensures
        final(data)@ == shift_all(old(data)@, locations@, gain_steps as int),
        final(data)@.len() == old(data)@.len(),
        modified == changed_first(
            old(data)@,
            locations@,
            locations@.len() as int,
            gain_steps as int,
        ),
{
    let mut modified: usize = 0;
    let mut i: usize = 0;
    while i < locations.len()
        invariant
            i <= locations@.len(),
            modified <= i,
            data@.len() == old(data)@.len(),
            forall|k: int| 0 <= k < locations@.len() ==> fits(old(data)@, #[trigger] locations@[k]),
            data@ == shift_first(old(data)@, locations@, i as int, gain_steps as int),
            modified == changed_first(old(data)@, locations@, i as int, gain_steps as int),
        decreases locations@.len() - i,
    {
        let loc = locations[i];
        assert(fits(old(data)@, locations@[i as int]));
        let current: u8 = read_aac_gain_at(data, &loc);
        if current != 0 {
            let new_value: u8 = adjust_gain_value(current, gain_steps);
            if new_value != current {
                write_aac_gain_at(data, &loc, new_value);
                modified = modified + 1;
            }
        }
        i = i + 1;
    }
    modified
}

/// Shifts all gains of a file held in memory. Gives the number of fields whose
/// gain changed.
pub fn apply_gain_to_bytes(data: &mut [u8], gain_steps: i32) -> (r: Result<usize, Fault>)
    ensures
        match gains_of(old(data)@) {
            Ok(locs) => r is Ok && r->Ok_0 == changed_first(
                old(data)@,
                locs,
                locs.len() as int,
                gain_steps as int,
            ) && final(data)@ == shift_all(old(data)@, locs, gain_steps as int)
                && final(data)@.len() == old(data)@.len(),
            Err(f) => r is Err && r->Err_0@ == f && final(data)@ == old(data)@,
        },
{
    match analyze_locations(data) {
        Err(f) => Err(f),
        Ok(locations) => {
            proof {
                lemma_gains_read(data@);
            }
            Ok(apply_gain_to_data(data, &locations, gain_steps))
        },
    }
}

/// What becomes of a file held in memory when its gains are shifted.
pub open spec fn gain_applied(data: Seq<u8>, steps: int) -> Result<Seq<u8>, FaultView> {
    if steps == 0 {
        Err(FaultView::Reject(ErrorView::ZeroGainSteps))
    } else {
        match gains_of(data) {
            Err(f) => Err(f),
            Ok(locs) => Ok(shift_all(data, locs, steps)),
        }
    }
}

/// Applies a static `gain_steps` (1 step is about 1.5 dB) to AAC/M4A bytes.
///
/// Gives new bytes with the `global_gain` fields rewritten: saturating at
/// `0..=255`, with silence (gain 0) left alone. Zero steps are an error. The
/// call is for files whose offsets and tables stay within their bytes; see
/// [`try_aac_apply_gain`] for any others.
pub fn aac_apply_gain(data: &[u8], gain_steps: i32) -> (r: Result<Vec<u8>, Error>)
    requires
        gain_applied(data@, gain_steps as int) != Err::<Seq<u8>, _>(FaultView::OutOfRange),
    ensures
        match gain_applied(data@, gain_steps as int) {
            Ok(out) => r is Ok && r->Ok_0@ == out && out.len() == data@.len(),
            Err(FaultView::Reject(e)) => r is Err && r->Err_0@ == e,
            Err(FaultView::OutOfRange) => false,
        },
{
    try_aac_apply_gain(data, gain_steps).unwrap()
}

/// Applies a static `gain_steps` to bytes of any kind. There is no result
/// where an offset, a size or a table of the file points outside of its bytes.
pub fn try_aac_apply_gain(data: &[u8], gain_steps: i32) -> (r: Option<Result<Vec<u8>, Error>>)
    ensures
        match gain_applied(data@, gain_steps as int) {
            Ok(out) => r matches Some(Ok(bytes)) && bytes@ == out && out.len() == data@.len(),
            Err(FaultView::Reject(e)) => r matches Some(Err(error)) && error@ == e,
            Err(FaultView::OutOfRange) => r is None,
        },
{
    if gain_steps == 0 {
        return Some(Err(Error::ZeroGainSteps));
    }
    let mut out: Vec<u8> = slice_to_vec(data);
    match apply_gain_to_bytes(&mut out, gain_steps) {
        Err(Fault::Reject(e)) => Some(Err(e)),
        Err(Fault::OutOfRange) => None,
        Ok(_) => Some(Ok(out)),
    }
}

} // verus!
