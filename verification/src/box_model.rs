//! What the boxes of an MP4 file say, and how they are written.
use vstd::prelude::*;

verus! {

/// A number in `n` bytes, the most significant one first.
pub open spec fn number(v: int, n: nat) -> Seq<u8>
    decreases n,
{
    if n == 0 {
        seq![]
    } else {
        number(v / 256, (n - 1) as nat).push((v % 256) as u8)
    }
}

/// The number of a box type that is spelled with four letters.
pub open spec fn spelled(a: char, b: char, c: char, d: char) -> int {
    ((a as int * 256 + b as int) * 256 + c as int) * 256 + d as int
}

/// A box: its type, its content, and whether its size is written with eight
/// bytes in place of four.
pub struct Atom {
    pub kind: int,
    pub wide: bool,
    pub content: Seq<u8>,
}

impl Atom {
    /// The number of bytes before the content.
    pub open spec fn head(self) -> int {
        if self.wide {
            16
        } else {
            8
        }
    }

    /// The number of bytes of the whole box.
    pub open spec fn size(self) -> int {
        self.head() + self.content.len()
    }

    pub open spec fn valid(self) -> bool {
        &&& 0 <= self.kind < 0x1_0000_0000
        &&& !self.wide ==> self.size() < 0x1_0000_0000
    }

    /// The size of the whole box, its type, and its content. A size in eight
    /// bytes comes behind the type, and has a 1 in its place.
    pub open spec fn bytes(self) -> Seq<u8> {
        if self.wide {
            number(1, 4) + number(self.kind, 4) + number(self.size(), 8) + self.content
        } else {
            number(self.size(), 4) + number(self.kind, 4) + self.content
        }
    }
}

/// The boxes from number `k` on, one behind the other.
pub open spec fn atoms_bytes(atoms: Seq<Atom>, k: int) -> Seq<u8>
    decreases atoms.len() - k,
{
    if k >= atoms.len() {
        seq![]
    } else {
        atoms[k].bytes() + atoms_bytes(atoms, k + 1)
    }
}

/// Where the box number `j` starts, counted from the start of the box number
/// `k`.
pub open spec fn atoms_before(atoms: Seq<Atom>, k: int, j: int) -> int
    decreases j - k,
{
    if k >= j {
        0
    } else {
        atoms[k].size() + atoms_before(atoms, k + 1, j)
    }
}

pub open spec fn atoms_valid(atoms: Seq<Atom>) -> bool {
    forall|k: int| 0 <= k < atoms.len() ==> (#[trigger] atoms[k]).valid()
}

/// Whether the box number `j` is the first one of the type, from number `k` on.
pub open spec fn first_of_kind(atoms: Seq<Atom>, k: int, j: int, kind: int) -> bool {
    &&& k <= j < atoms.len()
    &&& atoms[j].kind == kind
    &&& forall|i: int| k <= i < j ==> (#[trigger] atoms[i]).kind != kind
}

/// Whether the bytes stand at `pos`.
pub open spec fn bytes_at(data: Seq<u8>, pos: int, bytes: Seq<u8>) -> bool {
    &&& 0 <= pos
    &&& pos + bytes.len() <= data.len()
    &&& forall|i: int| 0 <= i < bytes.len() ==> #[trigger] bytes[i] == data[pos + i]
}

} // verus!
