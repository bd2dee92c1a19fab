//! The sample rate of a track reads as it was written: in the description of
//! the samples, or in the configuration of the decoder, which goes before it.
use crate::audio_config::{
    audio_rate, config_rate, desc_length, descriptor, esds_rate, explicit_rate, rate_index,
    specific_config, SAMPLE_RATE_TABLE,
};
use crate::bit_reader::lemma_small_powers;
use crate::bits::{bits_value, lemma_bits_bound, lemma_bits_split, lemma_byte_value};
use crate::box_laws::{
    lemma_atom_stands, lemma_bytes_join, lemma_find_atom, lemma_find_no_atom, lemma_number_4,
    lemma_number_len, lemma_read_head,
};
use crate::box_model::{
    atoms_before, atoms_bytes, atoms_valid, bytes_at, first_of_kind, number, Atom,
};
use crate::channel_laws::{holds, lemma_holds_join, lemma_uint, lemma_uint_len};
use crate::error::FaultView;
use crate::frame_model::uint;
use crate::mp4::{be32, box_in_container, ESDS};
use vstd::arithmetic::power2::*;
use vstd::prelude::*;

verus! {

/// The first bits of a decoder configuration: the object type, and the number
/// of the sample rate.
pub open spec fn named_rate_bits(object: int, index: int) -> Seq<bool> {
    uint(object, 5) + uint(index, 4)
}

/// The first bits of a decoder configuration that writes its sample rate out
/// behind the number 15.
pub open spec fn written_rate_bits(object: int, rate: int) -> Seq<bool> {
    uint(object, 5) + uint(15, 4) + uint(rate, 24)
}

/// The number of the sample rate is in the four bits behind the first five.
proof fn lemma_rate_index(config: Seq<u8>)
    requires
        config.len() >= 2,
    ensures
        rate_index(config) == bits_value(config, 5, 4),
{
    lemma_small_powers();
    lemma_byte_value(config, 0);
    lemma_byte_value(config, 1);
    lemma_bits_split(config, 0, 5, 3);
    lemma_bits_split(config, 8, 1, 7);
    lemma_bits_split(config, 5, 3, 1);
    lemma_bits_bound(config, 5, 3);
    lemma_bits_bound(config, 9, 7);
}

/// A rate that is written out is in the 24 bits behind its number.
proof fn lemma_explicit_rate(config: Seq<u8>)
    requires
        config.len() >= 5,
    ensures
        explicit_rate(config) == bits_value(config, 9, 24),
{
    lemma_small_powers();
    lemma2_to64();
    lemma_byte_value(config, 1);
    lemma_byte_value(config, 2);
    lemma_byte_value(config, 3);
    lemma_byte_value(config, 4);
    lemma_bits_split(config, 8, 1, 7);
    lemma_bits_split(config, 32, 1, 7);
    lemma_bits_split(config, 9, 7, 8);
    lemma_bits_split(config, 9, 15, 8);
    lemma_bits_split(config, 9, 23, 1);
    lemma_bits_bound(config, 9, 7);
    lemma_bits_bound(config, 33, 7);
}

/// A decoder configuration that gives its sample rate by a number has that
/// rate; the numbers 13 and 14 stand for none.
pub proof fn lemma_read_named_rate(config: Seq<u8>, object: int, index: int)
    requires
        0 <= index < 15,
        holds(config, 0, named_rate_bits(object, index)),
    ensures
        index < 13 ==> config_rate(config) == Some(SAMPLE_RATE_TABLE[index]),
        index >= 13 ==> config_rate(config) is None,
{
    lemma_small_powers();
    lemma_uint_len(object, 5);
    lemma_uint_len(index, 4);
    lemma_holds_join(config, 0, uint(object, 5), uint(index, 4));
    lemma_uint(config, 5, index, 4);
    lemma_rate_index(config);
}

/// A decoder configuration that writes its sample rate out has that rate.
pub proof fn lemma_read_written_rate(config: Seq<u8>, object: int, rate: int)
    requires
        0 <= rate < 0x100_0000,
        holds(config, 0, written_rate_bits(object, rate)),
    ensures
        config_rate(config) == Some(rate as u32),
{
    lemma_small_powers();
    lemma2_to64();
    lemma_uint_len(object, 5);
    lemma_uint_len(15, 4);
    lemma_uint_len(rate, 24);
    lemma_holds_join(config, 0, uint(object, 5) + uint(15, 4), uint(rate, 24));
    lemma_holds_join(config, 0, uint(object, 5), uint(15, 4));
    lemma_uint(config, 5, 15, 4);
    lemma_uint(config, 9, rate, 24);
    lemma_rate_index(config);
    lemma_explicit_rate(config);
}

/// The bytes of a descriptor length that are not the last one: seven bits each,
/// with the top bit set.
pub open spec fn length_head(v: int, n: nat) -> Seq<u8>
    decreases n,
{
    if n == 0 {
        seq![]
    } else {
        length_head(v / 128, (n - 1) as nat).push((128 + v % 128) as u8)
    }
}

/// The length of a descriptor in `n` bytes.
pub open spec fn length_bytes(v: int, n: nat) -> Seq<u8> {
    length_head(v / 128, (n - 1) as nat).push((v % 128) as u8)
}

/// Whether a length can be written in `n` bytes.
pub open spec fn length_valid(v: int, n: nat) -> bool {
    ||| n == 1 && 0 <= v < 0x80
    ||| n == 2 && 0 <= v < 0x4000
    ||| n == 3 && 0 <= v < 0x20_0000
    ||| n == 4 && 0 <= v < 0x1000_0000
}

/// The length of a descriptor reads as it was written.
pub proof fn lemma_read_length(data: Seq<u8>, pos: int, end: int, v: int, n: nat)
    requires
        length_valid(v, n),
        bytes_at(data, pos, length_bytes(v, n)),
        pos + n <= end,
    ensures
        length_bytes(v, n).len() == n,
        desc_length(data, pos, end, 0, 0) == Ok::<_, FaultView>(Some((v, n as int))),
{
    reveal_with_fuel(desc_length, 5);
    reveal_with_fuel(length_head, 4);
    let b = length_bytes(v, n);
    assert(b[n - 1] == data[pos + (n - 1)]);
    assert(b[0] == data[pos + 0]);
    if n >= 2 {
        assert(b[1] == data[pos + 1]);
    }
    if n >= 3 {
        assert(b[2] == data[pos + 2]);
    }
}

/// A descriptor: its tag, the length of its content, and its content.
pub open spec fn descriptor_bytes(tag: u8, len: int, n: nat, content: Seq<u8>) -> Seq<u8> {
    seq![tag] + length_bytes(len, n) + content
}

/// A descriptor reads as it was written.
proof fn lemma_read_descriptor(
    data: Seq<u8>,
    pos: int,
    end: int,
    tag: u8,
    len: int,
    n: nat,
    content: Seq<u8>,
)
    requires
        length_valid(len, n),
        bytes_at(data, pos, descriptor_bytes(tag, len, n, content)),
        pos + 1 + n <= end,
    ensures
        descriptor(data, pos, end, tag) == Ok::<_, FaultView>(Some((pos + 1 + n, len))),
        bytes_at(data, pos + 1 + n, content),
        descriptor_bytes(tag, len, n, content).len() == 1 + n + content.len(),
{
    let a = seq![tag];
    let b = length_bytes(len, n);
    lemma_bytes_join(data, pos, a + b, content);
    lemma_bytes_join(data, pos, a, b);
    lemma_read_length(data, pos + 1, end, len, n);
    assert(a[0] == data[pos + 0]);
}

/// The lengths of the three descriptors of an elementary stream, and the number
/// of bytes that each length takes.
pub struct Lengths {
    pub stream: (int, nat),
    pub decoder: (int, nat),
    pub config: (int, nat),
}

/// The descriptors of an elementary stream: three bytes of its own before the
/// one of the decoder, which has thirteen bytes of its own before the decoder
/// configuration.
pub open spec fn stream_bytes(
    l: Lengths,
    three: Seq<u8>,
    thirteen: Seq<u8>,
    config: Seq<u8>,
) -> Seq<u8> {
    descriptor_bytes(
        3,
        l.stream.0,
        l.stream.1,
        three + descriptor_bytes(
            4,
            l.decoder.0,
            l.decoder.1,
            thirteen + descriptor_bytes(5, l.config.0, l.config.1, config),
        ),
    )
}

pub open spec fn stream_valid(
    l: Lengths,
    three: Seq<u8>,
    thirteen: Seq<u8>,
    config: Seq<u8>,
) -> bool {
    &&& length_valid(l.stream.0, l.stream.1)
    &&& length_valid(l.decoder.0, l.decoder.1)
    &&& length_valid(l.config.0, l.config.1)
    &&& three.len() == 3
    &&& thirteen.len() == 13
}

/// Whether the configuration has the length that is written before it, or
/// reaches up to the end of its box with a length that says more.
pub open spec fn ends_with_config(l: Lengths, config: Seq<u8>, stop: int, end: int) -> bool {
    ||| l.config.0 == config.len()
    ||| l.config.0 > config.len() && stop == end
}

/// The decoder configuration is found where it was written. It ends with its
/// length, or where the box ends, if its length says more than that.
#[verifier::rlimit(40)]
pub proof fn lemma_read_stream(
    data: Seq<u8>,
    pos: int,
    end: int,
    l: Lengths,
    three: Seq<u8>,
    thirteen: Seq<u8>,
    config: Seq<u8>,
)
    requires
        stream_valid(l, three, thirteen, config),
        bytes_at(data, pos, stream_bytes(l, three, thirteen, config)),
        pos + stream_bytes(l, three, thirteen, config).len() <= end,
        ends_with_config(l, config, pos + stream_bytes(l, three, thirteen, config).len(), end),
    ensures
        specific_config(data, pos, end) == Ok::<_, FaultView>(Some(config)),
{
    let c = descriptor_bytes(5, l.config.0, l.config.1, config);
    let d = descriptor_bytes(4, l.decoder.0, l.decoder.1, thirteen + c);
    lemma_length_len(l.stream.0, l.stream.1);
    lemma_length_len(l.decoder.0, l.decoder.1);
    lemma_length_len(l.config.0, l.config.1);
    lemma_read_descriptor(data, pos, end, 3, l.stream.0, l.stream.1, three + d);
    let p = pos + 1 + l.stream.1;
    lemma_bytes_join(data, p, three, d);
    lemma_read_descriptor(data, p + 3, end, 4, l.decoder.0, l.decoder.1, thirteen + c);
    let q = p + 3 + 1 + l.decoder.1;
    lemma_bytes_join(data, q, thirteen, c);
    lemma_read_descriptor(data, q + 13, end, 5, l.config.0, l.config.1, config);
    let r = q + 13 + 1 + l.config.1;
    assert(data.subrange(r, r + config.len()) =~= config) by {
        assert forall|i: int| 0 <= i < config.len() implies data[r + i] == config[i] by {}
    }
}

/// A length takes the bytes that it is written in.
proof fn lemma_length_len(v: int, n: nat)
    requires
        length_valid(v, n),
    ensures
        length_bytes(v, n).len() == n,
{
    reveal_with_fuel(length_head, 4);
}

/// The description of AAC samples: 24 bytes of its own, the sample rate in
/// steps of a 65536th, and boxes.
pub open spec fn description_content(own: Seq<u8>, rate: int, atoms: Seq<Atom>) -> Seq<u8> {
    own + number(rate, 4) + atoms_bytes(atoms, 0)
}

/// Whether a description of AAC samples was written so.
pub open spec fn description_written(
    entry: Atom,
    own: Seq<u8>,
    rate: int,
    atoms: Seq<Atom>,
) -> bool {
    &&& entry.valid()
    &&& !entry.wide
    &&& own.len() == 24
    &&& 0 <= rate < 0x1_0000_0000
    &&& atoms_valid(atoms)
    &&& entry.content == description_content(own, rate, atoms)
}

/// The parts of a description of AAC samples stand one behind the other.
proof fn lemma_description_parts(
    data: Seq<u8>,
    start: int,
    entry: Atom,
    own: Seq<u8>,
    rate: int,
    atoms: Seq<Atom>,
)
    requires
        description_written(entry, own, rate, atoms),
        bytes_at(data, start, entry.bytes()),
        data.len() + 8 <= usize::MAX,
    ensures
        be32(data, start) == entry.size(),
        be32(data, start + 32) == rate,
        bytes_at(data, start + 36, atoms_bytes(atoms, 0)),
        entry.size() == 36 + atoms_bytes(atoms, 0).len(),
{
    lemma_number_len(entry.size(), 4);
    lemma_number_len(entry.kind, 4);
    lemma_number_len(rate, 4);
    lemma_read_head_size(data, start, entry);
    let kids = atoms_bytes(atoms, 0);
    lemma_bytes_join(data, start + 8, own + number(rate, 4), kids);
    lemma_bytes_join(data, start + 8, own, number(rate, 4));
    lemma_number_4(data, start + 32, rate);
}

/// The size of a box is in its first four bytes.
proof fn lemma_read_head_size(data: Seq<u8>, pos: int, a: Atom)
    requires
        a.valid(),
        !a.wide,
        bytes_at(data, pos, a.bytes()),
    ensures
        be32(data, pos) == a.size(),
        be32(data, pos + 4) == a.kind,
        bytes_at(data, pos + 8, a.content),
{
    let x = number(a.size(), 4);
    let y = number(a.kind, 4);
    lemma_number_len(a.size(), 4);
    lemma_number_len(a.kind, 4);
    lemma_bytes_join(data, pos, x + y, a.content);
    lemma_bytes_join(data, pos, x, y);
    lemma_number_4(data, pos, a.size());
    lemma_number_4(data, pos + 4, a.kind);
}

/// A track has the sample rate of its decoder configuration, whatever rate its
/// description gives. Where the configuration gives none, it has the whole part
/// of the rate of the description.
#[verifier::rlimit(40)]
pub proof fn lemma_read_decoder_rate(
    data: Seq<u8>,
    stsd_pos: int,
    entry: Atom,
    own: Seq<u8>,
    rate: int,
    atoms: Seq<Atom>,
    e: int,
    flags: Seq<u8>,
    l: Lengths,
    three: Seq<u8>,
    thirteen: Seq<u8>,
    config: Seq<u8>,
)
    requires
        0 <= stsd_pos,
        description_written(entry, own, rate, atoms),
        bytes_at(data, stsd_pos + 16, entry.bytes()),
        data.len() + 8 <= usize::MAX,
        first_of_kind(atoms, 0, e, ESDS as int),
        flags.len() == 4,
        stream_valid(l, three, thirteen, config),
        atoms[e].content == flags + stream_bytes(l, three, thirteen, config),
        l.config.0 >= config.len(),
    ensures
        config_rate(config) matches Some(decoder_rate) ==> audio_rate(data, stsd_pos) == Ok::<
            _,
            FaultView,
        >(decoder_rate),
        config_rate(config) is None ==> audio_rate(data, stsd_pos) == Ok::<_, FaultView>(
            (rate / 0x1_0000) as u32,
        ),
{
    reveal(audio_rate);
    reveal(box_in_container);
    let start = stsd_pos + 16;
    lemma_description_parts(data, start, entry, own, rate, atoms);
    let end = start + 36 + atoms_bytes(atoms, 0).len();
    lemma_find_atom(data, start + 36, end, atoms, 0, e, ESDS);
    lemma_atom_stands(data, start + 36, atoms, 0, e);
    let pos = start + 36 + atoms_before(atoms, 0, e);
    assert(atoms[e].valid());
    lemma_read_head(data, pos, atoms[e]);
    let content = pos + atoms[e].head();
    lemma_bytes_join(data, content, flags, stream_bytes(l, three, thirteen, config));
    lemma_read_stream(data, content + 4, pos + atoms[e].size(), l, three, thirteen, config);
    assert(esds_rate(data, start + 36, end) == Ok::<_, FaultView>(config_rate(config)));
}

/// A track without a decoder configuration has the whole part of the sample
/// rate of its description.
pub proof fn lemma_read_description_rate(
    data: Seq<u8>,
    stsd_pos: int,
    entry: Atom,
    own: Seq<u8>,
    rate: int,
    atoms: Seq<Atom>,
)
    requires
        0 <= stsd_pos,
        description_written(entry, own, rate, atoms),
        bytes_at(data, stsd_pos + 16, entry.bytes()),
        data.len() + 8 <= usize::MAX,
        forall|i: int| 0 <= i < atoms.len() ==> (#[trigger] atoms[i]).kind != ESDS,
    ensures
        audio_rate(data, stsd_pos) == Ok::<_, FaultView>((rate / 0x1_0000) as u32),
{
    reveal(audio_rate);
    reveal(box_in_container);
    let start = stsd_pos + 16;
    lemma_description_parts(data, start, entry, own, rate, atoms);
    lemma_find_no_atom(data, start + 36, atoms, 0, ESDS);
}

/// A descriptor with another tag holds no configuration.
pub proof fn lemma_other_stream(data: Seq<u8>, pos: int, end: int)
    requires
        0 <= pos < end,
        pos < data.len(),
        data[pos] != 3,
    ensures
        specific_config(data, pos, end) == Ok::<_, FaultView>(None::<Seq<u8>>),
{
}

/// An elementary stream whose next descriptor is not the one of a decoder
/// holds no configuration.
pub proof fn lemma_other_decoder(
    data: Seq<u8>,
    pos: int,
    end: int,
    len: int,
    n: nat,
    three: Seq<u8>,
    tag: u8,
)
    requires
        length_valid(len, n),
        three.len() == 3,
        tag != 4,
        bytes_at(data, pos, descriptor_bytes(3, len, n, three + seq![tag])),
        pos + 1 + n + 4 <= end,
    ensures
        specific_config(data, pos, end) == Ok::<_, FaultView>(None::<Seq<u8>>),
{
    lemma_read_descriptor(data, pos, end, 3, len, n, three + seq![tag]);
    let p = pos + 1 + n;
    lemma_bytes_join(data, p, three, seq![tag]);
    assert(seq![tag][0] == data[p + 3 + 0]);
}

/// A configuration of fewer than two bytes gives no rate, and neither does one
/// of fewer than five that says that its rate is written out.
pub proof fn lemma_short_config(config: Seq<u8>, object: int)
    ensures
        config.len() < 2 ==> config_rate(config) is None,
        config.len() < 5 && holds(config, 0, named_rate_bits(object, 15)) ==> config_rate(
            config,
        ) is None,
{
    if config.len() < 5 && holds(config, 0, named_rate_bits(object, 15)) {
        lemma_small_powers();
        lemma_uint_len(object, 5);
        lemma_uint_len(15, 4);
        lemma_holds_join(config, 0, uint(object, 5), uint(15, 4));
        lemma_uint(config, 5, 15, 4);
        lemma_rate_index(config);
    }
}

} // verus!
