//! What a shift of the gains does to a file, and what it leaves alone.
use crate::analysis::{gains_of, lemma_gains_read};
use crate::bits::{
    bit, bit_len, bits_value, lemma_bits_agree, lemma_bits_bound, lemma_byte_value,
    lemma_with_u8_at,
};
use crate::bit_reader::lemma_small_powers;
use crate::gain::{
    changed_first, fits, gain_applied, gain_in, new_gain, shift_all, shift_first, shift_one,
};
use crate::location::AacGainLocation;
use vstd::prelude::*;

verus! {

/// Whether every field lies in `data`.
pub open spec fn all_fit(data: Seq<u8>, locs: Seq<AacGainLocation>) -> bool {
    forall|k: int| 0 <= k < locs.len() ==> fits(data, #[trigger] locs[k])
}

/// Whether two fields have no bit in common.
pub open spec fn apart(a: AacGainLocation, b: AacGainLocation) -> bool {
    a.file_bit() + 8 <= b.file_bit() || b.file_bit() + 8 <= a.file_bit()
}

/// Whether no two fields have a bit in common.
pub open spec fn separate(locs: Seq<AacGainLocation>) -> bool {
    forall|j: int, k: int|
        0 <= j < k < locs.len() ==> apart(#[trigger] locs[j], #[trigger] locs[k])
}

/// Whether bit `i` of the file belongs to one of the fields.
pub open spec fn in_field(locs: Seq<AacGainLocation>, i: int) -> bool {
    exists|k: int|
        0 <= k < locs.len() && (#[trigger] locs[k]).file_bit() <= i < locs[k].file_bit() + 8
}

/// Whether two files have the same length and the same bits outside of the
/// fields.
pub open spec fn same_but_fields(
    d1: Seq<u8>,
    d2: Seq<u8>,
    locs: Seq<AacGainLocation>,
) -> bool {
    &&& d1.len() == d2.len()
    &&& forall|i: int|
        0 <= i < bit_len(d1) && !in_field(locs, i) ==> #[trigger] bit(d1, i) == bit(d2, i)
}

/// A gain is an 8-bit number, and so is a shifted one.
pub proof fn lemma_gain_range(data: Seq<u8>, loc: AacGainLocation, steps: int)
    ensures
        0 <= gain_in(data, loc) <= 255,
        0 <= new_gain(gain_in(data, loc), steps) <= 255,
{
    lemma_small_powers();
    lemma_bits_bound(data, loc.file_bit(), 8);
}

/// A shift of one field changes its gain and no other bit.
pub proof fn lemma_shift_one(data: Seq<u8>, loc: AacGainLocation, steps: int)
    requires
        fits(data, loc),
    ensures
        shift_one(data, loc, steps).len() == data.len(),
        gain_in(shift_one(data, loc, steps), loc) == new_gain(gain_in(data, loc), steps),
        forall|i: int|
            0 <= i < bit_len(data) && !(loc.file_bit() <= i < loc.file_bit() + 8) ==> #[trigger] bit(
                shift_one(data, loc, steps),
                i,
            ) == bit(data, i),
        forall|other: AacGainLocation| #[trigger]
            fits(data, other) && apart(loc, other) ==> gain_in(shift_one(data, loc, steps), other)
                == gain_in(data, other),
{
    lemma_gain_range(data, loc, steps);
    let out = shift_one(data, loc, steps);
    if new_gain(gain_in(data, loc), steps) != gain_in(data, loc) {
        lemma_with_u8_at(data, loc.file_bit(), new_gain(gain_in(data, loc), steps) as u8);
    }
    assert forall|other: AacGainLocation| #[trigger]
        fits(data, other) && apart(loc, other) implies gain_in(out, other) == gain_in(
        data,
        other,
    ) by {
        let p = other.file_bit();
        assert forall|i: int| 0 <= i < 8 implies #[trigger] bit(out, p + i) == bit(data, p + i) by {
        }
        lemma_bits_agree(out, p, data, p, 8);
    }
}

/// A shift of the first `n` fields keeps the length of the file and all bits
/// outside of the fields.
pub proof fn lemma_shift_first_bits(
    data: Seq<u8>,
    locs: Seq<AacGainLocation>,
    n: int,
    steps: int,
)
    requires
        all_fit(data, locs),
        n <= locs.len(),
    ensures
        same_but_fields(data, shift_first(data, locs, n, steps), locs),
        all_fit(shift_first(data, locs, n, steps), locs),
    decreases n,
{
    if n > 0 {
        lemma_shift_first_bits(data, locs, n - 1, steps);
        let before = shift_first(data, locs, n - 1, steps);
        assert(fits(before, locs[n - 1]));
        lemma_shift_one(before, locs[n - 1], steps);
        let out = shift_first(data, locs, n, steps);
        assert forall|i: int| 0 <= i < bit_len(data) && !in_field(locs, i) implies #[trigger] bit(
            data,
            i,
        ) == bit(out, i) by {
            assert(bit(before, i) == bit(data, i));
            let loc = locs[n - 1];
            assert(!(loc.file_bit() <= i < loc.file_bit() + 8));
        }
        assert forall|k: int| 0 <= k < locs.len() implies fits(out, #[trigger] locs[k]) by {
            assert(fits(before, locs[k]));
        }
    }
}

/// The number of the first `n` fields whose gain a shift changes.
pub open spec fn count_changes(
    data: Seq<u8>,
    locs: Seq<AacGainLocation>,
    n: int,
    steps: int,
) -> int
    decreases n,
{
    if n <= 0 {
        0
    } else {
        let gain = gain_in(data, locs[n - 1]);
        count_changes(data, locs, n - 1, steps) + if new_gain(gain, steps) == gain {
            0int
        } else {
            1int
        }
    }
}

/// Where no two fields have a bit in common, a shift of the first `n` fields
/// gives each of them its new gain and leaves the others alone.
pub proof fn lemma_shift_first_gains(
    data: Seq<u8>,
    locs: Seq<AacGainLocation>,
    n: int,
    steps: int,
)
    requires
        all_fit(data, locs),
        separate(locs),
        0 <= n <= locs.len(),
    ensures
        forall|k: int|
            0 <= k < n ==> gain_in(shift_first(data, locs, n, steps), #[trigger] locs[k])
                == new_gain(gain_in(data, locs[k]), steps),
        forall|k: int|
            n <= k < locs.len() ==> gain_in(shift_first(data, locs, n, steps), #[trigger] locs[k])
                == gain_in(data, locs[k]),
        changed_first(data, locs, n, steps) == count_changes(data, locs, n, steps),
    decreases n,
{
    if n > 0 {
        lemma_shift_first_gains(data, locs, n - 1, steps);
        lemma_shift_first_bits(data, locs, n - 1, steps);
        let before = shift_first(data, locs, n - 1, steps);
        let last = locs[n - 1];
        assert(fits(before, last));
        lemma_shift_one(before, last, steps);
        assert forall|k: int| 0 <= k < locs.len() && k != n - 1 implies gain_in(
            shift_first(data, locs, n, steps),
            #[trigger] locs[k],
        ) == gain_in(before, locs[k]) by {
            assert(fits(before, locs[k]));
            assert(apart(last, locs[k]));
        }
    }
}

/// A shift of the gains patches only the gain bits: the file keeps its length
/// and every bit outside of the fields.
pub proof fn lemma_shift_patches_only_gains(
    data: Seq<u8>,
    locs: Seq<AacGainLocation>,
    steps: int,
)
    requires
        all_fit(data, locs),
    ensures
        same_but_fields(data, shift_all(data, locs, steps), locs),
{
    lemma_shift_first_bits(data, locs, locs.len() as int, steps);
}

/// Where no two fields have a bit in common, every field ends up with its gain
/// moved by `steps`, held within `0..=255`, or 0 where it was 0; and the
/// number that a shift counts is the number of fields whose gain that changes.
pub proof fn lemma_shift_moves_every_gain(
    data: Seq<u8>,
    locs: Seq<AacGainLocation>,
    steps: int,
)
    requires
        all_fit(data, locs),
        separate(locs),
    ensures
        forall|k: int|
            0 <= k < locs.len() ==> gain_in(shift_all(data, locs, steps), #[trigger] locs[k])
                == new_gain(gain_in(data, locs[k]), steps),
        changed_first(data, locs, locs.len() as int, steps) == count_changes(
            data,
            locs,
            locs.len() as int,
            steps,
        ),
{
    lemma_shift_first_gains(data, locs, locs.len() as int, steps);
}

/// Equal numbers are spelled by equal bits.
pub proof fn lemma_bits_equal(d1: Seq<u8>, p1: int, d2: Seq<u8>, p2: int, n: nat)
    requires
        bits_value(d1, p1, n) == bits_value(d2, p2, n),
    ensures
        forall|i: int| 0 <= i < n ==> #[trigger] bit(d1, p1 + i) == bit(d2, p2 + i),
    decreases n,
{
    if n > 0 {
        lemma_bits_equal(d1, p1, d2, p2, (n - 1) as nat);
        assert forall|i: int| 0 <= i < n implies #[trigger] bit(d1, p1 + i) == bit(d2, p2 + i) by {
            if i == n - 1 {
                assert(p1 + i == p1 + n - 1);
                assert(p2 + i == p2 + n - 1);
            }
        }
    }
}

/// Byte sequences of the same length with equal bits are equal.
pub proof fn lemma_bits_decide(d1: Seq<u8>, d2: Seq<u8>)
    requires
        d1.len() == d2.len(),
        forall|i: int| 0 <= i < bit_len(d1) ==> #[trigger] bit(d1, i) == bit(d2, i),
    ensures
        d1 == d2,
{
    assert forall|b: int| 0 <= b < d1.len() implies d1[b] == d2[b] by {
        assert forall|i: int| 0 <= i < 8 implies #[trigger] bit(d1, 8 * b + i) == bit(
            d2,
            8 * b + i,
        ) by {}
        lemma_bits_agree(d1, 8 * b, d2, 8 * b, 8);
        lemma_byte_value(d1, b);
        lemma_byte_value(d2, b);
    }
    assert(d1 =~= d2);
}

/// Files with equal bits outside of the fields and equal gains are equal.
pub proof fn lemma_fields_decide(d1: Seq<u8>, d2: Seq<u8>, locs: Seq<AacGainLocation>)
    requires
        all_fit(d1, locs),
        same_but_fields(d1, d2, locs),
        forall|k: int|
            0 <= k < locs.len() ==> gain_in(d1, #[trigger] locs[k]) == gain_in(d2, locs[k]),
    ensures
        d1 == d2,
{
    assert forall|i: int| 0 <= i < bit_len(d1) implies #[trigger] bit(d1, i) == bit(d2, i) by {
        if in_field(locs, i) {
            let k = choose|k: int|
                0 <= k < locs.len() && (#[trigger] locs[k]).file_bit() <= i < locs[k].file_bit()
                    + 8;
            let p = locs[k].file_bit();
            assert(gain_in(d1, locs[k]) == gain_in(d2, locs[k]));
            lemma_bits_equal(d1, p, d2, p, 8);
            assert(bit(d1, p + (i - p)) == bit(d2, p + (i - p)));
        }
    }
    lemma_bits_decide(d1, d2);
}

/// Whether a shift by `steps` moves every gain that is not silent by the whole
/// number of steps, and makes none silent.
pub open spec fn no_gain_clamps(
    data: Seq<u8>,
    locs: Seq<AacGainLocation>,
    steps: int,
) -> bool {
    forall|k: int|
        0 <= k < locs.len() && gain_in(data, #[trigger] locs[k]) != 0 ==> 1 <= gain_in(
            data,
            locs[k],
        ) + steps <= 255
}

/// Whether two numbers of steps go the same way.
pub open spec fn same_way(first: int, second: int) -> bool {
    first > 0 && second > 0 || first < 0 && second < 0
}

/// Two shifts in a row do what one shift by the sum of their steps does, if
/// they do so for each gain.
proof fn lemma_shifts_compose(
    data: Seq<u8>,
    locs: Seq<AacGainLocation>,
    first: int,
    second: int,
)
    requires
        all_fit(data, locs),
        separate(locs),
        forall|k: int|
            0 <= k < locs.len() ==> new_gain(
                new_gain(gain_in(data, #[trigger] locs[k]), first),
                second,
            ) == new_gain(gain_in(data, locs[k]), first + second),
    ensures
        shift_all(shift_all(data, locs, first), locs, second) == shift_all(
            data,
            locs,
            first + second,
        ),
{
    let n = locs.len() as int;
    let once = shift_all(data, locs, first);
    let twice = shift_all(once, locs, second);
    let sum = shift_all(data, locs, first + second);
    lemma_shift_first_bits(data, locs, n, first);
    lemma_shift_first_bits(once, locs, n, second);
    lemma_shift_first_bits(data, locs, n, first + second);
    lemma_shift_first_gains(data, locs, n, first);
    lemma_shift_first_gains(once, locs, n, second);
    lemma_shift_first_gains(data, locs, n, first + second);
    assert forall|i: int| 0 <= i < bit_len(twice) && !in_field(locs, i) implies #[trigger] bit(
        twice,
        i,
    ) == bit(sum, i) by {
        assert(bit(data, i) == bit(once, i));
        assert(bit(once, i) == bit(twice, i));
        assert(bit(data, i) == bit(sum, i));
    }
    lemma_fields_decide(twice, sum, locs);
}

/// Two shifts the same way do what one shift by the sum of their steps does,
/// also where gains are held at a limit.
pub proof fn lemma_shifts_one_way_add_up(
    data: Seq<u8>,
    locs: Seq<AacGainLocation>,
    first: int,
    second: int,
)
    requires
        all_fit(data, locs),
        separate(locs),
        same_way(first, second),
    ensures
        shift_all(shift_all(data, locs, first), locs, second) == shift_all(
            data,
            locs,
            first + second,
        ),
{
    assert forall|k: int| 0 <= k < locs.len() implies new_gain(
        new_gain(gain_in(data, #[trigger] locs[k]), first),
        second,
    ) == new_gain(gain_in(data, locs[k]), first + second) by {
        lemma_gain_range(data, locs[k], first);
    }
    lemma_shifts_compose(data, locs, first, second);
}

/// Two shifts in a row do what one shift by the sum of their steps does, if
/// the first one moves every gain in full and makes none silent.
pub proof fn lemma_shifts_add_up(
    data: Seq<u8>,
    locs: Seq<AacGainLocation>,
    first: int,
    second: int,
)
    requires
        all_fit(data, locs),
        separate(locs),
        no_gain_clamps(data, locs, first),
    ensures
        shift_all(shift_all(data, locs, first), locs, second) == shift_all(
            data,
            locs,
            first + second,
        ),
{
    assert forall|k: int| 0 <= k < locs.len() implies new_gain(
        new_gain(gain_in(data, #[trigger] locs[k]), first),
        second,
    ) == new_gain(gain_in(data, locs[k]), first + second) by {
        lemma_gain_range(data, locs[k], first);
    }
    lemma_shifts_compose(data, locs, first, second);
}

/// A shift by no steps leaves the file alone.
pub proof fn lemma_shift_by_nothing(data: Seq<u8>, locs: Seq<AacGainLocation>, n: int)
    ensures
        shift_first(data, locs, n, 0) == data,
    decreases n,
{
    if n > 0 {
        lemma_shift_by_nothing(data, locs, n - 1);
        lemma_gain_range(data, locs[n - 1], 0);
    }
}

/// A shift is undone by a shift by as many steps the other way, if it moves
/// every gain in full and makes none silent.
pub proof fn lemma_shift_undone(data: Seq<u8>, locs: Seq<AacGainLocation>, steps: int)
    requires
        all_fit(data, locs),
        separate(locs),
        no_gain_clamps(data, locs, steps),
    ensures
        shift_all(shift_all(data, locs, steps), locs, -steps) == data,
{
    lemma_shifts_add_up(data, locs, steps, -steps);
    lemma_shift_by_nothing(data, locs, locs.len() as int);
}

/// Applying a gain keeps the length of a file, and every bit of it that is not
/// part of one of its gains.
pub proof fn lemma_gain_applied_patches_only_gains(data: Seq<u8>, steps: int)
    ensures
        gain_applied(data, steps) matches Ok(out) ==> (gains_of(data) matches Ok(locs)
            && same_but_fields(data, out, locs)),
{
    lemma_gains_read(data);
    if let Ok(locs) = gains_of(data) {
        assert forall|k: int| 0 <= k < locs.len() implies fits(data, #[trigger] locs[k]) by {}
        lemma_shift_patches_only_gains(data, locs, steps);
    }
}

} // verus!
