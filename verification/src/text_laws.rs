//! Numbers as text can be read again, and the record of a gain operation is a
//! box of its own.
use crate::box_model::{number, spelled, Atom};
use crate::metadata::{record_box, record_text, GAIN_UUID, UUID};
use crate::mp4::be_bytes;
use crate::text::{decimal, signed_decimal};
use vstd::prelude::*;
use vstd::string::*;
use vstd::utf8::*;

verus! {

/// The number that digits spell.
pub open spec fn spelled_number(text: Seq<char>) -> int
    decreases text.len(),
{
    if text.len() == 0 {
        0
    } else {
        10 * spelled_number(text.drop_last()) + (text.last() as int - '0' as int)
    }
}

/// A number in decimal spells the number, with digits only, and does not start
/// with a zero unless it is one.
pub proof fn lemma_decimal_spells(n: nat)
    ensures
        spelled_number(decimal(n)) == n,
        decimal(n).len() >= 1,
        forall|i: int| 0 <= i < decimal(n).len() ==> '0' <= #[trigger] decimal(n)[i] <= '9',
        n > 0 ==> decimal(n)[0] != '0',
    decreases n,
{
    reveal_with_fuel(spelled_number, 2);
    if n < 10 {
        assert(decimal(n).drop_last() =~= Seq::empty());
    } else {
        lemma_decimal_spells(n / 10);
        assert(decimal(n).drop_last() =~= decimal(n / 10));
    }
}

/// A negative number is a minus sign and the number without it; any other
/// number has no sign.
pub proof fn lemma_signed_decimal_spells(n: int)
    ensures
        n < 0 ==> signed_decimal(n)[0] == '-' && spelled_number(
            signed_decimal(n).subrange(1, signed_decimal(n).len() as int),
        ) == -n,
        n >= 0 ==> spelled_number(signed_decimal(n)) == n && signed_decimal(n)[0] != '-',
{
    if n < 0 {
        lemma_decimal_spells((-n) as nat);
        let text = signed_decimal(n);
        assert(text.subrange(1, text.len() as int) =~= decimal((-n) as nat));
    } else {
        lemma_decimal_spells(n as nat);
    }
}

/// The record of a gain operation is a `uuid` box that holds its identifier and
/// its text, and nothing else.
pub proof fn lemma_record_is_box(steps: int)
    ensures
        record_box(steps) == (Atom {
            kind: spelled('u', 'u', 'i', 'd'),
            wide: false,
            content: GAIN_UUID@ + encode_utf8(record_text(steps)),
        }).bytes(),
{
    let text = encode_utf8(record_text(steps));
    let size = 24 + text.len() as int;
    lemma_be_bytes(size);
    lemma_be_bytes(UUID as int);
    let a = number(size, 4) + number(UUID as int, 4);
    assert(a + GAIN_UUID@ + text =~= a + (GAIN_UUID@ + text));
}

/// Four bytes of a number are its bytes, the most significant one first.
pub proof fn lemma_be_bytes(n: int)
    requires
        0 <= n,
    ensures
        be_bytes(n) == number(n, 4),
{
    reveal_with_fuel(number, 5);
    assert(n / 256 / 256 == n / 0x1_0000);
    assert(n / 256 / 256 / 256 == n / 0x100_0000);
    assert(be_bytes(n) =~= number(n, 4));
}

} // verus!
