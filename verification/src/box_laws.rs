//! Boxes read as they were written: a search finds the first box of a type
//! that was written, whatever boxes stand before it.
use crate::box_model::{
    atoms_before, atoms_bytes, atoms_valid, bytes_at, first_of_kind, number, spelled, Atom,
};
use crate::error::FaultView;
use crate::mp4::{
    be32, be64, container_box, header_at, top_level_box, BoxHeader, TruncatedHeader, CO64, ESDS,
    FTYP, MDIA, MINF, MOOV, MP4A, STBL, STCO, STSC, STSD, STSZ, TRAK,
};
use vstd::arithmetic::power2::*;
use vstd::prelude::*;

verus! {

/// The types of the boxes are spelled with their letters.
pub proof fn lemma_box_types()
    ensures
        FTYP == spelled('f', 't', 'y', 'p'),
        MOOV == spelled('m', 'o', 'o', 'v'),
        TRAK == spelled('t', 'r', 'a', 'k'),
        MDIA == spelled('m', 'd', 'i', 'a'),
        MINF == spelled('m', 'i', 'n', 'f'),
        STBL == spelled('s', 't', 'b', 'l'),
        STSD == spelled('s', 't', 's', 'd'),
        STSZ == spelled('s', 't', 's', 'z'),
        STSC == spelled('s', 't', 's', 'c'),
        STCO == spelled('s', 't', 'c', 'o'),
        CO64 == spelled('c', 'o', '6', '4'),
        MP4A == spelled('m', 'p', '4', 'a'),
        ESDS == spelled('e', 's', 'd', 's'),
{
}

/// Bytes behind each other stand behind each other.
pub proof fn lemma_bytes_join(data: Seq<u8>, pos: int, a: Seq<u8>, b: Seq<u8>)
    requires
        bytes_at(data, pos, a + b),
    ensures
        bytes_at(data, pos, a),
        bytes_at(data, pos + a.len(), b),
{
    let all = a + b;
    assert forall|i: int| 0 <= i < a.len() implies #[trigger] a[i] == data[pos + i] by {
        assert(all[i] == a[i]);
    }
    assert forall|i: int| 0 <= i < b.len() implies #[trigger] b[i] == data[pos + a.len() + i] by {
        assert(all[a.len() + i] == b[i]);
    }
}

/// A number in `n` bytes has `n` bytes.
pub proof fn lemma_number_len(v: int, n: nat)
    ensures
        number(v, n).len() == n,
    decreases n,
{
    if n > 0 {
        lemma_number_len(v / 256, (n - 1) as nat);
    }
}

/// Four bytes hold the number that was written in them.
pub proof fn lemma_number_4(data: Seq<u8>, pos: int, v: int)
    requires
        bytes_at(data, pos, number(v, 4)),
        0 <= v < 0x1_0000_0000,
    ensures
        number(v, 4).len() == 4,
        be32(data, pos) == v,
{
    reveal_with_fuel(number, 5);
    let n = number(v, 4);
    assert(n[0] == data[pos + 0]);
    assert(n[1] == data[pos + 1]);
    assert(n[2] == data[pos + 2]);
    assert(n[3] == data[pos + 3]);
    assert(n[3] == v % 256);
    assert(n[2] == v / 256 % 256);
    assert(n[1] == v / 256 / 256 % 256);
    assert(n[0] == v / 256 / 256 / 256 % 256);
}

/// The last four bytes of a number in eight bytes, and the first four.
proof fn lemma_number_split(v: int)
    ensures
        number(v, 8) == number(v / 0x1_0000_0000, 4) + number(v, 4),
{
    reveal_with_fuel(number, 9);
    assert(v / 256 / 256 / 256 / 256 == v / 0x1_0000_0000);
    let a = number(v / 0x1_0000_0000, 4);
    let b = number(v, 4);
    assert(number(v, 8) =~= a + b);
}

/// Eight bytes hold the number that was written in them.
pub proof fn lemma_number_8(data: Seq<u8>, pos: int, v: int)
    requires
        bytes_at(data, pos, number(v, 8)),
        0 <= v <= u64::MAX,
    ensures
        number(v, 8).len() == 8,
        be64(data, pos) == v,
{
    lemma_number_len(v, 8);
    lemma_number_split(v);
    lemma_number_len(v / 0x1_0000_0000, 4);
    lemma_bytes_join(data, pos, number(v / 0x1_0000_0000, 4), number(v, 4));
    lemma_number_4(data, pos, v / 0x1_0000_0000);
    lemma_number_low(data, pos + 4, v);
}

/// Four bytes hold the last 32 bits of a number that was written in them.
proof fn lemma_number_low(data: Seq<u8>, pos: int, v: int)
    requires
        bytes_at(data, pos, number(v, 4)),
        0 <= v,
    ensures
        be32(data, pos) == v % 0x1_0000_0000,
{
    reveal_with_fuel(number, 5);
    let n = number(v, 4);
    assert(n[0] == data[pos + 0]);
    assert(n[1] == data[pos + 1]);
    assert(n[2] == data[pos + 2]);
    assert(n[3] == data[pos + 3]);
    let v1 = v / 256;
    let v2 = v1 / 256;
    let v3 = v2 / 256;
    let v4 = v3 / 256;
    assert(n[3] == v % 256);
    assert(n[2] == v1 % 256);
    assert(n[1] == v2 % 256);
    assert(n[0] == v3 % 256);
    assert(v == 0x1_0000_0000 * v4 + be32(data, pos));
}

/// The head of a box, as a reader knows it.
pub open spec fn head_of(a: Atom) -> BoxHeader {
    BoxHeader { size: a.size() as u64, box_type: a.kind as u32, header_size: a.head() as u8 }
}

/// The head of a box reads as it was written, and its content stands behind
/// it.
pub proof fn lemma_read_head(data: Seq<u8>, pos: int, a: Atom)
    requires
        a.valid(),
        a.size() <= u64::MAX,
        bytes_at(data, pos, a.bytes()),
    ensures
        header_at(data, pos) == Ok::<_, TruncatedHeader>(Some(head_of(a))),
        a.bytes().len() == a.size(),
        bytes_at(data, pos + a.head(), a.content),
{
    lemma_number_len(1, 4);
    lemma_number_len(a.kind, 4);
    lemma_number_len(a.size(), 4);
    lemma_number_len(a.size(), 8);
    if a.wide {
        let x = number(1, 4);
        let y = number(a.kind, 4);
        let z = number(a.size(), 8);
        lemma_bytes_join(data, pos, x + y + z, a.content);
        lemma_bytes_join(data, pos, x + y, z);
        lemma_bytes_join(data, pos, x, y);
        lemma_number_4(data, pos, 1);
        lemma_number_4(data, pos + 4, a.kind);
        lemma_number_8(data, pos + 8, a.size());
    } else {
        let x = number(a.size(), 4);
        let y = number(a.kind, 4);
        lemma_bytes_join(data, pos, x + y, a.content);
        lemma_bytes_join(data, pos, x, y);
        lemma_number_4(data, pos, a.size());
        lemma_number_4(data, pos + 4, a.kind);
    }
}

/// Boxes take as many bytes as their sizes add up to.
pub proof fn lemma_atoms_len(atoms: Seq<Atom>, k: int)
    requires
        0 <= k <= atoms.len(),
    ensures
        atoms_bytes(atoms, k).len() == atoms_before(atoms, k, atoms.len() as int),
    decreases atoms.len() - k,
{
    if k < atoms.len() {
        let a = atoms[k];
        lemma_number_len(1, 4);
        lemma_number_len(a.kind, 4);
        lemma_number_len(a.size(), 4);
        lemma_number_len(a.size(), 8);
        lemma_atoms_len(atoms, k + 1);
    }
}

/// A box among others stands behind those before it.
pub proof fn lemma_atom_stands(data: Seq<u8>, pos: int, atoms: Seq<Atom>, k: int, j: int)
    requires
        0 <= k <= j < atoms.len(),
        bytes_at(data, pos, atoms_bytes(atoms, k)),
    ensures
        bytes_at(data, pos + atoms_before(atoms, k, j), atoms[j].bytes()),
        0 <= atoms_before(atoms, k, j),
        atoms_before(atoms, k, j) + atoms[j].size() <= atoms_bytes(atoms, k).len(),
    decreases j - k,
{
    let a = atoms[k];
    lemma_number_len(1, 4);
    lemma_number_len(a.kind, 4);
    lemma_number_len(a.size(), 4);
    lemma_number_len(a.size(), 8);
    lemma_bytes_join(data, pos, a.bytes(), atoms_bytes(atoms, k + 1));
    if k < j {
        lemma_atom_stands(data, pos + a.size(), atoms, k + 1, j);
    }
}

/// A search in a container finds the first box of the type: where it was
/// written, with its size and type, behind any boxes of other types.
pub proof fn lemma_find_atom(
    data: Seq<u8>,
    pos: int,
    end: int,
    atoms: Seq<Atom>,
    k: int,
    j: int,
    kind: u32,
)
    requires
        0 <= k,
        atoms_valid(atoms),
        bytes_at(data, pos, atoms_bytes(atoms, k)),
        pos + atoms_bytes(atoms, k).len() <= end,
        data.len() + 8 <= usize::MAX,
        first_of_kind(atoms, k, j, kind as int),
    ensures
        container_box(data, pos, end, kind) == Ok::<_, FaultView>(
            Some((pos + atoms_before(atoms, k, j), head_of(atoms[j]))),
        ),
    decreases j - k,
{
    let a = atoms[k];
    lemma_bytes_join(data, pos, a.bytes(), atoms_bytes(atoms, k + 1));
    lemma_atom_stands(data, pos, atoms, k, k);
    assert(a.valid());
    lemma_read_head(data, pos, a);
    if k < j {
        assert(a.kind != kind);
        lemma_find_atom(data, pos + a.size(), end, atoms, k + 1, j, kind);
    }
}

/// A search in a container finds nothing where no box has the type.
pub proof fn lemma_find_no_atom(
    data: Seq<u8>,
    pos: int,
    atoms: Seq<Atom>,
    k: int,
    kind: u32,
)
    requires
        0 <= k <= atoms.len(),
        atoms_valid(atoms),
        bytes_at(data, pos, atoms_bytes(atoms, k)),
        data.len() + 8 <= usize::MAX,
        forall|i: int| k <= i < atoms.len() ==> (#[trigger] atoms[i]).kind != kind,
    ensures
        container_box(data, pos, pos + atoms_bytes(atoms, k).len(), kind) == Ok::<_, FaultView>(
            None::<(int, BoxHeader)>,
        ),
    decreases atoms.len() - k,
{
    if k < atoms.len() {
        let a = atoms[k];
        lemma_bytes_join(data, pos, a.bytes(), atoms_bytes(atoms, k + 1));
        lemma_atom_stands(data, pos, atoms, k, k);
        assert(a.valid());
        lemma_read_head(data, pos, a);
        lemma_find_no_atom(data, pos + a.size(), atoms, k + 1, kind);
    }
}

/// A search through the boxes of a file finds the first box of the type.
pub proof fn lemma_find_top_atom(
    data: Seq<u8>,
    pos: int,
    atoms: Seq<Atom>,
    k: int,
    j: int,
    kind: u32,
)
    requires
        0 <= k,
        atoms_valid(atoms),
        bytes_at(data, pos, atoms_bytes(atoms, k)),
        data.len() + 8 <= usize::MAX,
        first_of_kind(atoms, k, j, kind as int),
    ensures
        top_level_box(data, pos, kind) == Ok::<_, FaultView>(
            Some((pos + atoms_before(atoms, k, j), head_of(atoms[j]))),
        ),
    decreases j - k,
{
    let a = atoms[k];
    lemma_bytes_join(data, pos, a.bytes(), atoms_bytes(atoms, k + 1));
    lemma_atom_stands(data, pos, atoms, k, k);
    assert(a.valid());
    lemma_read_head(data, pos, a);
    if k < j {
        assert(a.kind != kind);
        lemma_atom_stands(data, pos, atoms, k, k + 1);
        lemma_find_top_atom(data, pos + a.size(), atoms, k + 1, j, kind);
    }
}

} // verus!
