//! The record of a gain operation that is appended to a file: a top-level
//! `uuid` box, so that no other box has to grow or move.
use crate::mp4::{be32, be_bytes};
use crate::text::{decimal, signed_decimal, signed_decimal_text};
use vstd::prelude::*;
use vstd::string::*;
use vstd::utf8::*;

verus! {

/// The type of the box.
pub const UUID: u32 = 0x75756964;

/// The identifier of the record.
pub const GAIN_UUID: [u8; 16] = [
    0x95, 0xa5, 0x87, 0x70, 0x4b, 0xa7, 0x42, 0xee, 0x9e, 0x88, 0x34, 0x0e, 0x58, 0xbf, 0x35, 0x80,
];

/// The text of the record.
pub open spec fn record_text(steps: int) -> Seq<char> {
    "m4againpy version=1 gain_steps="@ + signed_decimal(steps) + " gain_step_db=1.5"@
}

/// The bytes of the record: a box with the identifier and the text.
pub open spec fn record_box(steps: int) -> Seq<u8> {
    let payload = encode_utf8(record_text(steps));
    be_bytes(24 + payload.len() as int) + be_bytes(UUID as int) + GAIN_UUID@ + payload
}

/// A decimal number is made of digits, and is not longer than the number is
/// large.
proof fn lemma_decimal(n: nat)
    ensures
        is_ascii_chars(decimal(n)),
        decimal(n).len() <= 1 + n / 10,
    decreases n,
{
    if n >= 10 {
        lemma_decimal(n / 10);
    }
}

/// The text of the record is ASCII, so that its bytes are as many as its
/// characters.
proof fn lemma_record_text(steps: int)
    requires
        i32::MIN <= steps <= i32::MAX,
    ensures
        is_ascii_chars(record_text(steps)),
        record_text(steps).len() <= 0x1000_0000,
        encode_utf8(record_text(steps)).len() == record_text(steps).len(),
{
    reveal_strlit("m4againpy version=1 gain_steps=");
    reveal_strlit(" gain_step_db=1.5");
    let n = if steps < 0 {
        (-steps) as nat
    } else {
        steps as nat
    };
    lemma_decimal(n);
    is_ascii_chars_encode_utf8(record_text(steps));
}

/// The size in the head of the record is the number of its bytes.
pub proof fn lemma_record_box_size(steps: int)
    requires
        i32::MIN <= steps <= i32::MAX,
    ensures
        be32(record_box(steps), 0) == record_box(steps).len(),
        be32(record_box(steps), 4) == UUID,
{
    lemma_record_text(steps);
}

/// Appends a number in four bytes, the most significant one first.
fn push_be(bytes: &mut Vec<u8>, n: usize)
    ensures
        final(bytes)@ == old(bytes)@ + be_bytes(n as int),
{
    bytes.push((n / 0x100_0000 % 0x100) as u8);
    bytes.push((n / 0x1_0000 % 0x100) as u8);
    bytes.push((n / 0x100 % 0x100) as u8);
    bytes.push((n % 0x100) as u8);
    assert(bytes@ =~= old(bytes)@ + be_bytes(n as int));
}

/// Appends bytes.
fn push_all(bytes: &mut Vec<u8>, more: &[u8])
    ensures
        final(bytes)@ == old(bytes)@ + more@,
{
    let mut i: usize = 0;
    assert(bytes@ =~= old(bytes)@ + more@.subrange(0, 0));
    while i < more.len()
        invariant
            i <= more@.len(),
            bytes@ == old(bytes)@ + more@.subrange(0, i as int),
        decreases more@.len() - i,
    {
        bytes.push(more[i]);
        assert(bytes@ =~= old(bytes)@ + more@.subrange(0, i + 1));
        i = i + 1;
    }
    assert(more@.subrange(0, i as int) =~= more@);
}

/// The bytes of the record of a gain operation.
pub fn gain_metadata_box(gain_steps: i32) -> (bytes: Vec<u8>)
    ensures
        bytes@ == record_box(gain_steps as int),
{
    let mut payload: String = "m4againpy version=1 gain_steps=".to_string();
    payload.append(signed_decimal_text(gain_steps).as_str());
    payload.append(" gain_step_db=1.5");
    proof {
        lemma_record_text(gain_steps as int);
        assert(payload@ =~= record_text(gain_steps as int));
    }
    let text: &[u8] = payload.as_str().as_bytes();
    let mut bytes: Vec<u8> = Vec::new();
    push_be(&mut bytes, 24 + text.len());
    push_be(&mut bytes, UUID as usize);
    push_all(&mut bytes, &GAIN_UUID);
    push_all(&mut bytes, text);
    assert(bytes@ =~= record_box(gain_steps as int));
    bytes
}

} // verus!
