//! Bits of a byte sequence, most significant bit first, and the 8-bit fields
//! that may start at any of them.
use vstd::arithmetic::power2::*;
use vstd::prelude::*;

verus! {

/// Bit `i` of `data`; bit 0 is the most significant bit of `data[0]`.
pub open spec fn bit(data: Seq<u8>, i: int) -> bool {
    byte_bit(data[i / 8], (i % 8) as u8)
}

/// Bit `j` of one byte, counted from its most significant bit.
pub open spec fn byte_bit(b: u8, j: u8) -> bool {
    (b >> ((7 - j) as u8)) & 1 == 1
}

/// The unsigned number spelled by the `n` bits of `data` from bit `pos` on.
pub open spec fn bits_value(data: Seq<u8>, pos: int, n: nat) -> nat
    decreases n,
{
    if n == 0 {
        0
    } else {
        2 * bits_value(data, pos, (n - 1) as nat) + (if bit(data, pos + n - 1) {
            1nat
        } else {
            0nat
        })
    }
}

/// The number of bits that `data` holds.
pub open spec fn bit_len(data: Seq<u8>) -> int {
    8 * data.len() as int
}

/// An `n`-bit field holds a number below two to the `n`.
pub proof fn lemma_bits_bound(data: Seq<u8>, pos: int, n: nat)
    ensures
        bits_value(data, pos, n) < pow2(n),
    decreases n,
{
    if n == 0 {
        lemma2_to64();
    } else {
        lemma_bits_bound(data, pos, (n - 1) as nat);
        lemma_pow2_unfold(n);
    }
}

/// A field splits into its leading and its trailing bits.
pub proof fn lemma_bits_split(data: Seq<u8>, pos: int, a: nat, b: nat)
    ensures
        bits_value(data, pos, a + b) == bits_value(data, pos, a) * pow2(b) + bits_value(
            data,
            pos + a,
            b,
        ),
    decreases b,
{
    if b == 0 {
        lemma2_to64();
    } else {
        let b1 = (b - 1) as nat;
        lemma_bits_split(data, pos, a, b1);
        lemma_pow2_unfold(b);
        let h = bits_value(data, pos, a);
        assert(2 * (h * pow2(b1)) == h * (2 * pow2(b1))) by (nonlinear_arith);
        assert((a + b - 1) as nat == a + b1);
    }
}

/// Two fields with equal bits hold the same number.
pub proof fn lemma_bits_agree(d1: Seq<u8>, p1: int, d2: Seq<u8>, p2: int, n: nat)
    requires
        forall|i: int| 0 <= i < n ==> #[trigger] bit(d1, p1 + i) == bit(d2, p2 + i),
    ensures
        bits_value(d1, p1, n) == bits_value(d2, p2, n),
    decreases n,
{
    if n > 0 {
        lemma_bits_agree(d1, p1, d2, p2, (n - 1) as nat);
        assert(bit(d1, p1 + (n - 1)) == bit(d2, p2 + (n - 1)));
    }
}

/// The eight bits of a byte spell the byte.
pub proof fn lemma_byte_value(data: Seq<u8>, i: int)
    requires
        0 <= i < data.len(),
    ensures
        bits_value(data, 8 * i, 8) == data[i],
{
    let b = data[i];
    assert forall|j: int| 0 <= j < 8 implies #[trigger] bit(data, 8 * i + j) == byte_bit(
        b,
        j as u8,
    ) by {
        assert((8 * i + j) / 8 == i);
        assert((8 * i + j) % 8 == j);
    }
    assert(bit(data, 8 * i + 0) == byte_bit(b, 0));
    assert(bit(data, 8 * i + 1) == byte_bit(b, 1));
    assert(bit(data, 8 * i + 2) == byte_bit(b, 2));
    assert(bit(data, 8 * i + 3) == byte_bit(b, 3));
    assert(bit(data, 8 * i + 4) == byte_bit(b, 4));
    assert(bit(data, 8 * i + 5) == byte_bit(b, 5));
    assert(bit(data, 8 * i + 6) == byte_bit(b, 6));
    assert(bit(data, 8 * i + 7) == byte_bit(b, 7));
    reveal_with_fuel(bits_value, 9);
    assert(b == 128 * ((b >> 7) & 1) + 64 * ((b >> 6) & 1) + 32 * ((b >> 5) & 1) + 16 * ((b >> 4)
        & 1) + 8 * ((b >> 3) & 1) + 4 * ((b >> 2) & 1) + 2 * ((b >> 1) & 1) + ((b >> 0) & 1))
        by (bit_vector);
    assert(((b >> 7) & 1) <= 1 && ((b >> 6) & 1) <= 1 && ((b >> 5) & 1) <= 1 && ((b >> 4) & 1) <= 1
        && ((b >> 3) & 1) <= 1 && ((b >> 2) & 1) <= 1 && ((b >> 1) & 1) <= 1 && ((b >> 0) & 1) <= 1)
        by (bit_vector);
}

/// `data` with the eight bits from `pos` on replaced by those of `value`.
pub open spec fn with_u8_at(data: Seq<u8>, pos: int, value: u8) -> Seq<u8> {
    let i = pos / 8;
    let k = (pos % 8) as u8;
    if k == 0 {
        data.update(i, value)
    } else {
        data.update(i, high_part(data[i], k, value)).update(i + 1, low_part(data[i + 1], k, value))
    }
}

/// A byte that keeps its first `k` bits and takes the first bits of `value`
/// after them.
pub open spec fn high_part(b: u8, k: u8, value: u8) -> u8 {
    (b & !(0xffu8 >> k)) | (value >> k)
}

/// A byte that starts with the last `k` bits of `value` and keeps its own bits
/// after them.
pub open spec fn low_part(b: u8, k: u8, value: u8) -> u8 {
    (b & (0xffu8 >> k)) | (value << ((8 - k) as u8))
}

/// Writing an 8-bit field and reading it gives the value back; every bit
/// outside of the field keeps its value.
pub proof fn lemma_with_u8_at(data: Seq<u8>, pos: int, value: u8)
    requires
        0 <= pos,
        pos + 8 <= bit_len(data),
    ensures
        with_u8_at(data, pos, value).len() == data.len(),
        bits_value(with_u8_at(data, pos, value), pos, 8) == value,
        forall|i: int|
            0 <= i < bit_len(data) && !(pos <= i < pos + 8) ==> #[trigger] bit(
                with_u8_at(data, pos, value),
                i,
            ) == bit(data, i),
{
    let out = with_u8_at(data, pos, value);
    let b = pos / 8;
    let k = (pos % 8) as u8;
    let one = seq![value];
    assert forall|i: int| 0 <= i < bit_len(data) implies #[trigger] bit(out, i) == (if pos <= i
        < pos + 8 {
        bit(one, i - pos)
    } else {
        bit(data, i)
    }) by {
        let j = (i % 8) as u8;
        if k == 0 {
            if pos <= i < pos + 8 {
                assert(i / 8 == b);
                assert((i - pos) / 8 == 0);
                assert((i - pos) % 8 == i % 8);
            } else {
                assert(i / 8 != b);
            }
        } else if i / 8 == b {
            let x = data[b];
            assert(byte_bit(high_part(x, k, value), j) == (if k <= j {
                byte_bit(value, (j - k) as u8)
            } else {
                byte_bit(x, j)
            })) by (bit_vector)
                requires
                    k < 8,
                    j < 8,
            ;
            assert((i - pos) == j - k);
            if pos <= i {
                assert((i - pos) / 8 == 0);
                assert((i - pos) % 8 == j - k);
            }
        } else if i / 8 == b + 1 {
            let x = data[b + 1];
            assert(byte_bit(low_part(x, k, value), j) == (if j < k {
                byte_bit(value, (8 - k + j) as u8)
            } else {
                byte_bit(x, j)
            })) by (bit_vector)
                requires
                    0 < k < 8,
                    j < 8,
            ;
            assert((i - pos) == 8 - k + j);
            if i < pos + 8 {
                assert((i - pos) / 8 == 0);
                assert((i - pos) % 8 == 8 - k + j);
            }
        } else {
            assert(!(pos <= i < pos + 8));
        }
    }
    assert forall|i: int| 0 <= i < 8 implies #[trigger] bit(out, pos + i) == bit(one, 0 + i) by {}
    lemma_bits_agree(out, pos, one, 0, 8);
    lemma_byte_value(one, 0);
}

/// The 8-bit field that starts `bit_offset` bits into `data[byte_offset]`.
pub fn read_bits_u8(data: &[u8], byte_offset: usize, bit_offset: u8) -> (value: u8)
    requires
        bit_offset < 8,
        8 * byte_offset + bit_offset + 8 <= bit_len(data@),
    ensures
        value == bits_value(data@, 8 * byte_offset + bit_offset, 8),
{
    let ghost pos = 8 * byte_offset + bit_offset;
    if bit_offset == 0 {
        proof {
            lemma_byte_value(data@, byte_offset as int);
        }
        data[byte_offset]
    } else {
        let hi = data[byte_offset];
        let lo = data[byte_offset + 1];
        let value = (hi << bit_offset) | (lo >> (8 - bit_offset));
        proof {
            let one = seq![value];
            let k = bit_offset;
            assert forall|i: int| 0 <= i < 8 implies #[trigger] bit(data@, pos + i) == bit(
                one,
                0 + i,
            ) by {
                let j = i as u8;
                assert(byte_bit((hi << k) | (lo >> ((8 - k) as u8)), j) == (if k + j < 8 {
                    byte_bit(hi, (k + j) as u8)
                } else {
                    byte_bit(lo, (k + j - 8) as u8)
                })) by (bit_vector)
                    requires
                        0 < k < 8,
                        j < 8,
                ;
                if k + j < 8 {
                    assert((pos + i) / 8 == byte_offset);
                    assert((pos + i) % 8 == k + j);
                } else {
                    assert((pos + i) / 8 == byte_offset + 1);
                    assert((pos + i) % 8 == k + j - 8);
                }
            }
            lemma_bits_agree(data@, pos, one, 0, 8);
            lemma_byte_value(one, 0);
        }
        value
    }
}

/// Stores `value` in the 8-bit field that starts `bit_offset` bits into
/// `data[byte_offset]`.
pub fn write_bits_u8(data: &mut [u8], byte_offset: usize, bit_offset: u8, value: u8)
    requires
        bit_offset < 8,
        8 * byte_offset + bit_offset + 8 <= bit_len(old(data)@),
    ensures
        final(data)@ == with_u8_at(old(data)@, 8 * byte_offset + bit_offset, value),
        bits_value(final(data)@, 8 * byte_offset + bit_offset, 8) == value,
        forall|i: int|
            0 <= i < bit_len(old(data)@) && !(8 * byte_offset + bit_offset <= i < 8 * byte_offset
                + bit_offset + 8) ==> #[trigger] bit(final(data)@, i) == bit(old(data)@, i),
{
    proof {
        lemma_with_u8_at(data@, 8 * byte_offset + bit_offset, value);
        assert((8 * byte_offset + bit_offset) / 8 == byte_offset);
        assert((8 * byte_offset + bit_offset) % 8 == bit_offset);
    }
    if bit_offset == 0 {
        data[byte_offset] = value;
    } else {
        let hi = data[byte_offset];
        let lo = data[byte_offset + 1];
        data[byte_offset] = (hi & !(0xffu8 >> bit_offset)) | (value >> bit_offset);
        data[byte_offset + 1] = (lo & (0xffu8 >> bit_offset)) | (value << (8 - bit_offset));
    }
}

/// A gain moved by `steps` and held within `0..=255`.
pub open spec fn shifted_gain(gain: int, steps: int) -> int {
    if gain + steps < 0 {
        0
    } else if gain + steps > 255 {
        255
    } else {
        gain + steps
    }
}

/// Moves `current` by `gain_steps`, saturating at 0 and at 255.
pub fn adjust_gain_value(current: u8, gain_steps: i32) -> (value: u8)
    ensures
        value == shifted_gain(current as int, gain_steps as int),
{
    let sum: i64 = current as i64 + gain_steps as i64;
    if sum < 0 {
        0
    } else if sum > 255 {
        255
    } else {
        sum as u8
    }
}

} // verus!
