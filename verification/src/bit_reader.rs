//! A cursor over the bits of a byte slice.
use crate::bits::{
    bit, bit_len, bits_value, lemma_bits_agree, lemma_bits_bound, lemma_bits_split,
    lemma_byte_value,
};
use crate::error::{parse_error, Error, ErrorView};
use vstd::arithmetic::div_mod::*;
use vstd::arithmetic::mul::*;
use vstd::arithmetic::power2::*;
use vstd::bits::*;
use vstd::prelude::*;

verus! {

/// What reading at some position comes to: a value and the position after it,
/// or an error and the position at which reading stopped.
pub type Parsed<T> = Result<(T, int), (ErrorView, int)>;

/// The error of a read past the last bit.
pub open spec fn end_of_bits() -> ErrorView {
    parse_error("unexpected end of bitstream"@)
}

/// An `n`-bit field at `pos`; of a field of more than 32 bits, its last 32.
pub open spec fn field(data: Seq<u8>, pos: int, n: nat) -> Parsed<int> {
    if n == 0 {
        Ok((0, pos))
    } else if pos + n > bit_len(data) {
        Err((end_of_bits(), pos))
    } else {
        Ok(((bits_value(data, pos, n) % 0x1_0000_0000) as int, pos + n))
    }
}

/// A single bit at `pos`.
pub open spec fn flag(data: Seq<u8>, pos: int) -> Parsed<bool> {
    if pos >= bit_len(data) {
        Err((end_of_bits(), pos))
    } else {
        Ok((bit(data, pos), pos + 1))
    }
}

/// `n` bits at `pos` that nobody looks at.
pub open spec fn skipped(data: Seq<u8>, pos: int, n: int) -> Parsed<()> {
    if pos + n > bit_len(data) {
        Err((end_of_bits(), pos + n))
    } else {
        Ok(((), pos + n))
    }
}

/// The first byte boundary at or after `pos`.
pub open spec fn aligned(pos: int) -> int {
    (pos + 7) / 8 * 8
}

/// `n` fields of `width` bits each that nobody looks at.
pub open spec fn fields(data: Seq<u8>, pos: int, width: nat, n: nat) -> Parsed<()>
    decreases n,
{
    if n == 0 {
        Ok(((), pos))
    } else {
        match field(data, pos, width) {
            Err(f) => Err(f),
            Ok((_, p)) => fields(data, p, width, (n - 1) as nat),
        }
    }
}

/// Whether two byte sequences have the same bits from `a` up to `b`.
pub open spec fn agree(d1: Seq<u8>, d2: Seq<u8>, a: int, b: int) -> bool {
    forall|i: int| a <= i < b ==> #[trigger] bit(d1, i) == bit(d2, i)
}

/// What a read that succeeds with `r1` on `d1` keeps to: it moves forward
/// within the data, and, given `pure`, any data of the same length with the
/// same bits up to there reads alike.
pub open spec fn settled<T>(
    pure: bool,
    d1: Seq<u8>,
    d2: Seq<u8>,
    pos: int,
    r1: Parsed<T>,
    r2: Parsed<T>,
) -> bool {
    r1 matches Ok((v, q)) ==> pos <= q <= bit_len(d1) && (pure && d1.len() == d2.len() && agree(
        d1,
        d2,
        pos,
        q,
    ) ==> r2 == r1)
}

/// Reading a field is settled, and its value has no more bits than the field.
pub proof fn lemma_field(d1: Seq<u8>, d2: Seq<u8>, pos: int, n: nat)
    requires
        0 <= pos <= bit_len(d1),
    ensures
        settled(true, d1, d2, pos, field(d1, pos, n), field(d2, pos, n)),
        field(d1, pos, n) matches Ok((v, q)) ==> 0 <= v < pow2(n) && q == pos + n,
{
    lemma2_to64();
    lemma_bits_bound(d1, pos, n);
    let v = bits_value(d1, pos, n);
    lemma_mod_decreases(v, 0x1_0000_0000);
    if pos + n <= bit_len(d1) && d1.len() == d2.len() && agree(d1, d2, pos, pos + n) {
        lemma_bits_agree(d1, pos, d2, pos, n);
    }
}

/// Reading a bit is settled.
pub proof fn lemma_flag(d1: Seq<u8>, d2: Seq<u8>, pos: int)
    requires
        0 <= pos <= bit_len(d1),
    ensures
        settled(true, d1, d2, pos, flag(d1, pos), flag(d2, pos)),
{
}

/// Reading fields is settled.
pub proof fn lemma_fields(d1: Seq<u8>, d2: Seq<u8>, pos: int, width: nat, n: nat)
    requires
        0 <= pos <= bit_len(d1),
    ensures
        settled(true, d1, d2, pos, fields(d1, pos, width, n), fields(d2, pos, width, n)),
    decreases n,
{
    if n > 0 {
        lemma_field(d1, d2, pos, width);
        if let Ok((_, p)) = field(d1, pos, width) {
            lemma_fields(d1, d2, p, width, (n - 1) as nat);
        }
    }
}

/// The values that short fields are bounded by.
pub proof fn lemma_small_powers()
    ensures
        pow2(1) == 2,
        pow2(2) == 4,
        pow2(3) == 8,
        pow2(4) == 16,
        pow2(5) == 32,
        pow2(6) == 64,
        pow2(7) == 128,
        pow2(8) == 256,
        pow2(9) == 512,
{
    lemma2_to64();
}

/// Whether positions within so many bytes, counted in bits, fit a `usize`
/// with room for the longest skip.
pub open spec fn readable_len(len: int) -> bool {
    8 * len + 0x2000 <= usize::MAX
}

/// A position within a byte slice, counted in bits from its start.
pub struct BitReader<'a> {
    pub data: &'a [u8],
    pub byte_pos: usize,
    pub bit_pos: u8,
}

impl<'a> BitReader<'a> {
    /// The position in bits.
    pub open spec fn pos(self) -> int {
        8 * self.byte_pos + self.bit_pos
    }

    /// The bit position is normalised, and no position within the slice
    /// overflows.
    pub open spec fn wf(self) -> bool {
        self.bit_pos < 8 && readable_len(self.data@.len() as int)
    }

    /// A well-formed reader that has not run past its last bit.
    pub open spec fn ready(self) -> bool {
        self.wf() && self.pos() <= bit_len(self.data@)
    }

    /// A reader at the first bit of `data`.
    pub fn new(data: &'a [u8]) -> (reader: Self)
        requires
            readable_len(data@.len() as int),
        ensures
            reader.ready(),
            reader.data@ == data@,
            reader.pos() == 0,
    {
        BitReader { data, byte_pos: 0, bit_pos: 0 }
    }

    /// The byte that holds the next bit, and the bit's place in it.
    pub fn position(&self) -> (r: (usize, u8))
        requires
            self.wf(),
        ensures
            r.1 < 8,
            8 * r.0 + r.1 == self.pos(),
    {
        (self.byte_pos, self.bit_pos)
    }

    /// The number of bits that are left.
    pub fn bits_remaining(&self) -> (n: usize)
        requires
            self.wf(),
        ensures
            n == if self.pos() <= bit_len(self.data@) {
                bit_len(self.data@) - self.pos()
            } else {
                0
            },
    {
        let remaining_bytes = self.data.len().saturating_sub(self.byte_pos);
        let total_bits: usize = remaining_bytes * 8;
        total_bits.saturating_sub(self.bit_pos as usize)
    }

    /// Reads an `n`-bit field.
    pub fn read_bits(&mut self, n: u8) -> (r: Result<u32, Error>)
        requires
            old(self).wf(),
            n < 64,
        ensures
            final(self).wf(),
            final(self).data == old(self).data,
            match field(old(self).data@, old(self).pos(), n as nat) {
                Ok((v, p)) => r is Ok && r->Ok_0 == v && v < pow2(n as nat) && final(self).pos()
                    == p,
                Err((e, p)) => r is Err && r->Err_0@ == e && final(self).pos() == p,
            },
    {
        let bits_to_read = n as usize;
        proof {
            lemma2_to64();
        }
        if bits_to_read == 0 {
            return Ok(0);
        }
        let value = self.peek_bits(n)?;
        proof {
            lemma_bits_bound(self.data@, self.pos(), n as nat);
            let v = bits_value(self.data@, self.pos(), n as nat);
            lemma_mod_decreases(v, 0x1_0000_0000);
        }
        self.advance_bits(bits_to_read);
        Ok(value)
    }

    /// Reads an `n`-bit field without moving past it.
    pub fn peek_bits(&self, n: u8) -> (r: Result<u32, Error>)
        requires
            self.wf(),
            n < 64,
        ensures
            match field(self.data@, self.pos(), n as nat) {
                Ok((v, p)) => r is Ok && r->Ok_0 == v,
                Err((e, p)) => r is Err && r->Err_0@ == e,
            },
    {
        let bits_to_read = n as usize;
        if bits_to_read == 0 {
            return Ok(0);
        }
        if self.bits_remaining() < bits_to_read {
            return Err(Error::aac_parse("unexpected end of bitstream"));
        }
        let bytes_needed: usize = (self.bit_pos as usize + bits_to_read + 7) / 8;
        let ghost start = 8 * self.byte_pos as int;
        let mut window: u64 = 0;
        let mut i: usize = 0;
        while i < bytes_needed
            invariant
                i <= bytes_needed,
                self.wf(),
                self.byte_pos + bytes_needed <= self.data@.len(),
                start == 8 * self.byte_pos,
                window == bits_value(self.data@, start, (8 * i) as nat) % 0x1_0000_0000_0000_0000,
            decreases bytes_needed - i,
        {
            let byte = self.data[self.byte_pos + i];
            proof {
                let v = bits_value(self.data@, start, (8 * i) as nat);
                lemma_bits_split(self.data@, start, (8 * i) as nat, 8);
                lemma_byte_value(self.data@, self.byte_pos + i);
                lemma2_to64();
                assert((8 * (i + 1)) as nat == (8 * i) as nat + 8);
                let m = 0x1_0000_0000_0000_0000int;
                assert((window << 8) | (byte as u64) == (window * 256 + byte)
                    % 0x1_0000_0000_0000_0000) by (bit_vector);
                lemma_fundamental_div_mod(v as int, m);
                let q = v as int / m;
                assert(v * 256 + byte == m * (q * 256) + (window * 256 + byte)) by (nonlinear_arith)
                    requires
                        v == m * q + window,
                ;
                lemma_mod_multiples_vanish(q * 256, window * 256 + byte, m);
            }
            window = (window << 8) | byte as u64;
            i = i + 1;
        }
        let window_bits: usize = bytes_needed * 8;
        let shift: usize = window_bits - self.bit_pos as usize - bits_to_read;
        proof {
            lemma_u64_pow2_no_overflow(n as nat);
            lemma_u64_shl_is_mul(1, n as u64);
            lemma_pow2_pos(n as nat);
        }
        let mask: u64 = (1u64 << bits_to_read) - 1;
        let value = ((window >> shift) & mask) as u32;
        proof {
            lemma_window(self.data@, start, self.bit_pos as nat, n as nat, shift as nat, window);
            lemma_u64_shr_is_div(window, shift as u64);
            lemma_u64_low_bits_mask_is_mod(window >> shift, n as nat);
            let x = (window >> shift) & mask;
            assert(x as u32 == x % 0x1_0000_0000) by (bit_vector);
        }
        Ok(value)
    }

    /// Moves past bits without a look at whether they are there.
    pub fn advance_bits(&mut self, bits_to_advance: usize)
        requires
            old(self).wf(),
            old(self).pos() + bits_to_advance <= usize::MAX,
        ensures
            final(self).wf(),
            final(self).data == old(self).data,
            final(self).pos() == old(self).pos() + bits_to_advance,
    {
        let next_bit: usize = self.byte_pos * 8 + self.bit_pos as usize + bits_to_advance;
        self.byte_pos = next_bit / 8;
        self.bit_pos = (next_bit % 8) as u8;
    }

    /// Reads a single bit.
    pub fn read_bit(&mut self) -> (r: Result<bool, Error>)
        requires
            old(self).wf(),
        ensures
            final(self).wf(),
            final(self).data == old(self).data,
            match flag(old(self).data@, old(self).pos()) {
                Ok((v, p)) => r is Ok && r->Ok_0 == v && final(self).pos() == p,
                Err((e, p)) => r is Err && r->Err_0@ == e && final(self).pos() == p,
            },
    {
        if self.byte_pos >= self.data.len() {
            return Err(Error::aac_parse("unexpected end of bitstream"));
        }
        let byte = self.data[self.byte_pos];
        let bit = ((byte >> (7 - self.bit_pos)) & 1) != 0;
        proof {
            assert(self.pos() / 8 == self.byte_pos);
            assert(self.pos() % 8 == self.bit_pos);
            let k = (7 - self.bit_pos) as u8;
            assert((byte >> k) & 1 != 0 <==> (byte >> k) & 1 == 1) by (bit_vector);
        }
        self.bit_pos = self.bit_pos + 1;
        if self.bit_pos == 8 {
            self.bit_pos = 0;
            self.byte_pos = self.byte_pos + 1;
        }
        Ok(bit)
    }

    /// Moves past `n` bits, whether or not they are there.
    pub fn skip_bits(&mut self, n: usize) -> (r: Result<(), Error>)
        requires
            old(self).wf(),
            old(self).pos() + n <= usize::MAX,
        ensures
            final(self).wf(),
            final(self).data == old(self).data,
            match skipped(old(self).data@, old(self).pos(), n as int) {
                Ok((_, p)) => r is Ok && final(self).pos() == p,
                Err((e, p)) => r is Err && r->Err_0@ == e && final(self).pos() == p,
            },
    {
        let total_bits: usize = self.byte_pos * 8 + self.bit_pos as usize + n;
        self.byte_pos = total_bits / 8;
        self.bit_pos = (total_bits % 8) as u8;
        if self.byte_pos > self.data.len() || (self.byte_pos == self.data.len() && self.bit_pos
            > 0) {
            return Err(Error::aac_parse("unexpected end of bitstream"));
        }
        Ok(())
    }

    /// Reads `n` fields of `width` bits each and drops them.
    pub fn drop_fields(&mut self, width: u8, n: usize) -> (r: Result<(), Error>)
        requires
            old(self).ready(),
            width < 64,
        ensures
            final(self).wf(),
            r is Ok ==> final(self).ready(),
            final(self).data == old(self).data,
            match fields(old(self).data@, old(self).pos(), width as nat, n as nat) {
                Ok((_, p)) => r is Ok && final(self).pos() == p,
                Err((e, p)) => r is Err && r->Err_0@ == e && final(self).pos() == p,
            },
    {
        let ghost start = *self;
        let mut i: usize = 0;
        while i < n
            invariant
                i <= n,
                width < 64,
                start == *old(self),
                self.ready(),
                self.data == start.data,
                fields(start.data@, start.pos(), width as nat, n as nat) == fields(
                    self.data@,
                    self.pos(),
                    width as nat,
                    (n - i) as nat,
                ),
            decreases n - i,
        {
            self.read_bits(width)?;
            i = i + 1;
        }
        Ok(())
    }

    /// Moves to the next byte boundary, unless the reader is at one.
    pub fn byte_align(&mut self)
        requires
            old(self).wf(),
            old(self).byte_pos < usize::MAX,
        ensures
            final(self).wf(),
            old(self).ready() ==> final(self).ready(),
            final(self).data == old(self).data,
            final(self).pos() == aligned(old(self).pos()),
    {
        if self.bit_pos > 0 {
            self.bit_pos = 0;
            self.byte_pos = self.byte_pos + 1;
        }
    }
}

/// Shifting and masking the bytes that hold an `n`-bit field leaves the last
/// 32 bits of the field.
proof fn lemma_window(data: Seq<u8>, start: int, skip: nat, n: nat, shift: nat, window: u64)
    requires
        skip < 8,
        0 < n < 64,
        shift < 8,
        (skip + n + shift) % 8 == 0,
        window == bits_value(data, start, skip + n + shift) % 0x1_0000_0000_0000_0000,
    ensures
        (window as int / pow2(shift) as int) % (pow2(n) as int) % 0x1_0000_0000 == bits_value(
            data,
            start + skip,
            n,
        ) % 0x1_0000_0000,
{
    let m = 0x1_0000_0000_0000_0000int;
    let total = bits_value(data, start, skip + n + shift) as int;
    let upper = bits_value(data, start, skip + n) as int;
    let value = bits_value(data, start + skip, n) as int;
    let high = bits_value(data, start, skip) as int;
    let low = bits_value(data, start + skip + n, shift) as int;
    let ps = pow2(shift) as int;
    let pn = pow2(n) as int;
    lemma2_to64();
    lemma_pow2_pos(shift);
    lemma_pow2_pos(n);
    lemma_bits_split(data, start, skip + n, shift);
    lemma_bits_split(data, start, skip, n);
    lemma_bits_bound(data, start + skip + n, shift);
    lemma_bits_bound(data, start + skip, n);
    assert(total == upper * ps + low);
    assert(upper == high * pn + value);
    lemma_fundamental_div_mod_converse(total, ps, upper, low);
    lemma_mul_is_commutative(high, pn);
    lemma_fundamental_div_mod_converse(upper, pn, high, value);
    if skip + n + shift <= 64 {
        lemma_bits_bound(data, start, skip + n + shift);
        if skip + n + shift < 64 {
            lemma_pow2_strictly_increases(skip + n + shift, 64);
        }
        lemma_small_mod(total as nat, m as nat);
    } else {
        // The window has lost leading bits, none of them among the last 32 of
        // the field.
        let q = total / m;
        let r = window as int;
        lemma_fundamental_div_mod(total, m);
        let k = pow2((64 - shift) as nat) as int;
        lemma_pow2_adds((64 - shift) as nat, shift);
        assert(m * q == (q * k) * ps) by (nonlinear_arith)
            requires
                m == k * ps,
        ;
        lemma_hoist_over_denominator(r, q * k, ps as nat);
        assert(upper == r / ps + q * k);
        let h = 0x1_0000_0000int;
        let k1 = pow2((32 - shift) as nat) as int;
        lemma_pow2_adds(32, (32 - shift) as nat);
        assert(q * k == h * (q * k1)) by (nonlinear_arith)
            requires
                k == h * k1,
        ;
        lemma_mod_multiples_vanish(q * k1, r / ps, h);
        let n1 = pow2((n - 32) as nat) as int;
        lemma_pow2_adds(32, (n - 32) as nat);
        assert(high * pn == h * (high * n1)) by (nonlinear_arith)
            requires
                pn == h * n1,
        ;
        lemma_mod_multiples_vanish(high * n1, value, h);
        lemma_pow2_pos((n - 32) as nat);
        lemma_mod_mod(r / ps, h, n1);
    }
}

} // verus!
