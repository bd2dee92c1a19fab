//! The part of the MP4 container format that leads to the sample table of an
//! AAC track.
use crate::error::{parse_error, Error, ErrorView, Fault, FaultView};
use vstd::prelude::*;
use vstd::slice::slice_subrange;

verus! {

pub const MOOV: u32 = 0x6d6f6f76;

pub const TRAK: u32 = 0x7472616b;

pub const MDIA: u32 = 0x6d646961;

pub const MINF: u32 = 0x6d696e66;

pub const STBL: u32 = 0x7374626c;

pub const STSD: u32 = 0x73747364;

pub const STSC: u32 = 0x73747363;

pub const STSZ: u32 = 0x7374737a;

pub const STCO: u32 = 0x7374636f;

pub const CO64: u32 = 0x636f3634;

pub const MP4A: u32 = 0x6d703461;

pub const ESDS: u32 = 0x65736473;

pub const FTYP: u32 = 0x66747970;

/// The big-endian number in the four bytes from `i` on.
pub open spec fn be32(data: Seq<u8>, i: int) -> int {
    0x100_0000 * data[i] + 0x1_0000 * data[i + 1] + 0x100 * data[i + 2] + data[i + 3]
}

/// The big-endian number in the eight bytes from `i` on.
pub open spec fn be64(data: Seq<u8>, i: int) -> int {
    0x1_0000_0000 * be32(data, i) + be32(data, i + 4)
}

/// The four bytes of a number, the most significant one first.
pub open spec fn be_bytes(n: int) -> Seq<u8> {
    seq![
        (n / 0x100_0000 % 0x100) as u8,
        (n / 0x1_0000 % 0x100) as u8,
        (n / 0x100 % 0x100) as u8,
        (n % 0x100) as u8,
    ]
}

/// Reads a big-endian 32-bit number.
pub fn read_u32_be(data: &[u8], offset: usize) -> (v: u32)
    requires
        offset + 4 <= data@.len(),
    ensures
        v == be32(data@, offset as int),
{
    data[offset] as u32 * 0x100_0000 + data[offset + 1] as u32 * 0x1_0000 + data[offset + 2] as u32
        * 0x100 + data[offset + 3] as u32
}

/// Reads a big-endian 64-bit number.
pub fn read_u64_be(data: &[u8], offset: usize) -> (v: u64)
    requires
        offset + 8 <= data@.len(),
    ensures
        v == be64(data@, offset as int),
{
    assert(data@.len() == data.len());
    read_u32_be(data, offset) as u64 * 0x1_0000_0000 + read_u32_be(data, offset + 4) as u64
}

/// The head of a box: its whole size, where 0 stands for "up to the end", its
/// type, and the number of bytes that the head itself takes.
#[derive(Debug, Clone, Copy, PartialEq, Eq)]
pub struct BoxHeader {
    pub size: u64,
    pub box_type: u32,
    pub header_size: u8,
}

/// The data ends within a head that announces an extended size.
#[derive(Debug, Clone, Copy, PartialEq, Eq)]
pub struct TruncatedHeader;

/// The head of the box at `pos`, if a head fits there.
pub open spec fn header_at(data: Seq<u8>, pos: int) -> Result<
    Option<BoxHeader>,
    TruncatedHeader,
> {
    if pos + 8 > data.len() {
        Ok(None)
    } else if be32(data, pos) != 1 {
        Ok(
            Some(
                BoxHeader {
                    size: be32(data, pos) as u64,
                    box_type: be32(data, pos + 4) as u32,
                    header_size: 8,
                },
            ),
        )
    } else if pos + 16 > data.len() {
        Err(TruncatedHeader)
    } else {
        Ok(
            Some(
                BoxHeader {
                    size: be64(data, pos + 8) as u64,
                    box_type: be32(data, pos + 4) as u32,
                    header_size: 16,
                },
            ),
        )
    }
}

impl BoxHeader {
    /// Whether the size of the box has room for its own head.
    pub open spec fn holds_header(self) -> bool {
        self.size == 0 || self.size >= self.header_size
    }

    /// The number of content bytes; none where the box goes up to the end.
    pub open spec fn content(self) -> int {
        if self.size == 0 {
            0
        } else {
            self.size - self.header_size
        }
    }

    /// Reads the head of the box at `pos`.
    pub fn read(data: &[u8], pos: usize) -> (r: Result<Option<BoxHeader>, TruncatedHeader>)
        requires
            pos <= data@.len(),
        ensures
            r == header_at(data@, pos as int),
    {
        if data.len() - pos < 8 {
            return Ok(None);
        }
        let size = read_u32_be(data, pos);
        let box_type = read_u32_be(data, pos + 4);
        if size == 1 {
            if data.len() - pos < 16 {
                return Err(TruncatedHeader);
            }
            let size = read_u64_be(data, pos + 8);
            Ok(Some(BoxHeader { size, box_type, header_size: 16 }))
        } else {
            Ok(Some(BoxHeader { size: size as u64, box_type, header_size: 8 }))
        }
    }

    /// The number of content bytes.
    pub fn content_size(&self) -> (n: u64)
        requires
            self.holds_header(),
        ensures
            n == self.content(),
    {
        if self.size == 0 {
            0
        } else {
            self.size - self.header_size as u64
        }
    }
}

/// The first box of the type from the top-level position `pos` on.
pub open spec fn top_level_box(data: Seq<u8>, pos: int, box_type: u32) -> Result<
    Option<(int, BoxHeader)>,
    FaultView,
>
    decreases data.len() - pos,
{
    match header_at(data, pos) {
        Ok(Some(header)) => if header.box_type == box_type {
            Ok(Some((pos, header)))
        } else if header.size == 0 {
            Ok(None)
        } else if pos + header.size > u64::MAX {
            Err(FaultView::OutOfRange)
        } else if pos + header.size >= data.len() {
            Ok(None)
        } else {
            top_level_box(data, pos + header.size, box_type)
        },
        _ => Ok(None),
    }
}

/// A box and its place, as found in a search.
pub open spec fn found_box(found: Option<(usize, BoxHeader)>) -> Option<(int, BoxHeader)> {
    match found {
        Some((pos, header)) => Some((pos as int, header)),
        None => None,
    }
}

/// Finds the first top-level box of a type.
pub fn find_box(data: &[u8], box_type: u32) -> (r: Result<Option<(usize, BoxHeader)>, Fault>)
    ensures
        match top_level_box(data@, 0, box_type) {
            Ok(found) => r is Ok && found_box(r->Ok_0) == found,
            Err(f) => r is Err && r->Err_0@ == f,
        },
{
    let mut pos: usize = 0;
    loop
        invariant
            pos <= data@.len(),
            top_level_box(data@, 0, box_type) == top_level_box(data@, pos as int, box_type),
        decreases data@.len() - pos,
    {
        let header = match BoxHeader::read(data, pos) {
            Ok(Some(header)) => header,
            _ => {
                return Ok(None);
            },
        };
        if header.box_type == box_type {
            return Ok(Some((pos, header)));
        }
        if header.size == 0 {
            return Ok(None);
        }
        if header.size > u64::MAX - pos as u64 {
            return Err(Fault::OutOfRange);
        }
        let next_pos: u64 = pos as u64 + header.size;
        if next_pos >= data.len() as u64 {
            return Ok(None);
        }
        pos = next_pos as usize;
    }
}

/// The number of bytes from `pos` up to `end`.
pub open spec fn room(pos: int, end: int) -> int {
    if pos < end {
        end - pos
    } else {
        0
    }
}

/// The first box of the type from `pos` on in a container that ends at `end`.
pub open spec fn container_box(data: Seq<u8>, pos: int, end: int, box_type: u32) -> Result<
    Option<(int, BoxHeader)>,
    FaultView,
>
    decreases room(pos, end),
{
    if pos + 8 > usize::MAX {
        Err(FaultView::OutOfRange)
    } else if pos + 8 > end {
        Ok(None)
    } else if pos > data.len() {
        Err(FaultView::OutOfRange)
    } else {
        match header_at(data, pos) {
            Ok(Some(header)) => if header.box_type == box_type {
                Ok(Some((pos, header)))
            } else if header.size == 0 {
                Ok(None)
            } else if pos + header.size > usize::MAX {
                Err(FaultView::OutOfRange)
            } else {
                container_box(data, pos + header.size, end, box_type)
            },
            _ => Ok(None),
        }
    }
}

/// The first box of the type in the container of `size` bytes at `start`.
#[verifier::opaque]
pub open spec fn box_in_container(data: Seq<u8>, start: int, size: int, box_type: u32) -> Result<
    Option<(int, BoxHeader)>,
    FaultView,
> {
    if start + size > usize::MAX {
        Err(FaultView::OutOfRange)
    } else {
        container_box(data, start, start + size, box_type)
    }
}

/// A box found in a container starts there, with a head of the type, within
/// the data.
proof fn lemma_container_box(data: Seq<u8>, pos: int, end: int, box_type: u32)
    requires
        0 <= pos,
    ensures
        container_box(data, pos, end, box_type) matches Ok(Some((p, header))) ==> {
            &&& pos <= p
            &&& p + 8 <= end
            &&& header.box_type == box_type
            &&& header_at(data, p) == Ok::<_, TruncatedHeader>(Some(header))
            &&& p + header.header_size <= data.len()
        },
    decreases room(pos, end),
{
    if pos + 8 <= usize::MAX && pos + 8 <= end && pos <= data.len() {
        if let Ok(Some(header)) = header_at(data, pos) {
            if header.box_type != box_type && header.size != 0 && pos + header.size
                <= usize::MAX {
                lemma_container_box(data, pos + header.size, end, box_type);
            }
        }
    }
}

/// A box found in a container starts there, with a head of the type, within
/// the data.
pub proof fn lemma_box_in_container(data: Seq<u8>, start: int, size: int, box_type: u32)
    requires
        0 <= start,
    ensures
        box_in_container(data, start, size, box_type) matches Ok(Some((p, header))) ==> {
            &&& start <= p
            &&& p + 8 <= start + size
            &&& header.box_type == box_type
            &&& header_at(data, p) == Ok::<_, TruncatedHeader>(Some(header))
            &&& p + header.header_size <= data.len()
        },
{
    reveal(box_in_container);
    lemma_container_box(data, start, start + size, box_type);
}

/// A box found at the top level starts there, with a head of the type, within
/// the data.
pub proof fn lemma_top_level_box(data: Seq<u8>, pos: int, box_type: u32)
    requires
        0 <= pos,
    ensures
        top_level_box(data, pos, box_type) matches Ok(Some((p, header))) ==> {
            &&& pos <= p
            &&& header.box_type == box_type
            &&& header_at(data, p) == Ok::<_, TruncatedHeader>(Some(header))
            &&& p + header.header_size <= data.len()
        },
    decreases data.len() - pos,
{
    if let Ok(Some(header)) = header_at(data, pos) {
        if header.box_type != box_type && header.size != 0 && pos + header.size < data.len() {
            lemma_top_level_box(data, pos + header.size, box_type);
        }
    }
}

/// Finds the first box of a type in a container.
pub fn find_box_in_container(
    data: &[u8],
    container_start: usize,
    container_size: usize,
    box_type: u32,
) -> (r: Result<Option<(usize, BoxHeader)>, Fault>)
    ensures
        match box_in_container(
            data@,
            container_start as int,
            container_size as int,
            box_type,
        ) {
            Ok(found) => r is Ok && found_box(r->Ok_0) == found,
            Err(f) => r is Err && r->Err_0@ == f,
        },
        r matches Ok(Some((pos, header))) ==> pos + header.header_size <= data@.len(),
{
    proof {
        reveal(box_in_container);
    }
    if container_size > usize::MAX - container_start {
        return Err(Fault::OutOfRange);
    }
    let container_end: usize = container_start + container_size;
    let mut pos: usize = container_start;
    loop
        invariant
            box_in_container(data@, container_start as int, container_size as int, box_type)
                == container_box(data@, pos as int, container_end as int, box_type),
        decreases room(pos as int, container_end as int),
    {
        if pos > usize::MAX - 8 {
            return Err(Fault::OutOfRange);
        }
        if pos + 8 > container_end {
            return Ok(None);
        }
        if pos > data.len() {
            return Err(Fault::OutOfRange);
        }
        let header = match BoxHeader::read(data, pos) {
            Ok(Some(header)) => header,
            _ => {
                return Ok(None);
            },
        };
        if header.box_type == box_type {
            return Ok(Some((pos, header)));
        }
        if header.size == 0 {
            return Ok(None);
        }
        if header.size > (usize::MAX - pos) as u64 {
            return Err(Fault::OutOfRange);
        }
        pos = pos + header.size as usize;
    }
}

/// The brands that are taken for MP4 or M4A files.
pub open spec fn accepted_brand(brand: Seq<u8>) -> bool {
    brand.len() == 4 && {
        let code = be32(brand, 0);
        ||| code == 0x4d344120  // M4A
        ||| code == 0x4d344220  // M4B
        ||| code == 0x4d345620  // M4V
        ||| code == 0x6d703431  // mp41
        ||| code == 0x6d703432  // mp42
        ||| code == 0x69736f6d  // isom
        ||| code == 0x69736f32  // iso2
    }
}

/// Whether a brand is one of those that are taken for MP4 or M4A files.
pub fn is_accepted_brand(brand: &[u8]) -> (b: bool)
    ensures
        b == accepted_brand(brand@),
{
    if brand.len() != 4 {
        return false;
    }
    let code = read_u32_be(brand, 0);
    code == 0x4d344120 || code == 0x4d344220 || code == 0x4d345620 || code == 0x6d703431 || code
        == 0x6d703432 || code == 0x69736f6d || code == 0x69736f32
}

/// The smaller of two numbers.
pub open spec fn least(a: int, b: int) -> int {
    if a <= b {
        a
    } else {
        b
    }
}

/// Whether a file type box can name a brand `i` bytes into the file: the major
/// brand, or one of the compatible brands behind the minor version.
pub open spec fn brand_offset(i: int) -> bool {
    i == 8 || (i >= 16 && i % 4 == 0)
}

/// Whether `data` starts with a file type box that names an accepted brand
/// within its first 128 bytes.
pub open spec fn looks_like_mp4(data: Seq<u8>) -> bool {
    &&& data.len() >= 12
    &&& be32(data, 4) == FTYP
    &&& be32(data, 0) >= 12
    &&& exists|i: int|
        {
            &&& #[trigger] brand_offset(i)
            &&& i + 4 <= least(be32(data, 0), least(data.len() as int, 128))
            &&& accepted_brand(data.subrange(i, i + 4))
        }
}

/// Whether a file looks like an MP4 or M4A file, by its file type box.
pub fn is_mp4(data: &[u8]) -> (b: bool)
    ensures
        b == looks_like_mp4(data@),
{
    let bytes_read: usize = if data.len() < 128 {
        data.len()
    } else {
        128
    };
    if bytes_read < 12 {
        return false;
    }
    let size = read_u32_be(data, 0) as usize;
    if read_u32_be(data, 4) != FTYP || size < 12 {
        return false;
    }
    let check_end: usize = if size < bytes_read {
        size
    } else {
        bytes_read
    };
    let mut offset: usize = 8;
    while offset + 4 <= check_end
        invariant
            brand_offset(offset as int),
            offset <= 132,
            check_end <= 128,
            check_end <= data@.len(),
            check_end == least(be32(data@, 0), least(data@.len() as int, 128)),
            data@.len() >= 12,
            be32(data@, 4) == FTYP,
            be32(data@, 0) >= 12,
            forall|i: int|
                #[trigger] brand_offset(i) && i < offset ==> !accepted_brand(
                    data@.subrange(i, i + 4),
                ),
        decreases 132 - offset,
    {
        if is_accepted_brand(slice_subrange(data, offset, offset + 4)) {
            assert(brand_offset(offset as int));
            return true;
        }
        offset = if offset == 8 {
            16
        } else {
            offset + 4
        };
    }
    false
}

/// The number of bytes that the box at `pos` of a file takes.
pub open spec fn effective_size(header: BoxHeader, pos: int, file_len: int) -> Result<
    int,
    ErrorView,
> {
    let size = if header.size != 0 {
        header.size as int
    } else if pos <= file_len {
        file_len - pos
    } else {
        0
    };
    if size < header.header_size {
        Err(parse_error("invalid MP4 box size"@))
    } else if pos + size > u64::MAX {
        Err(parse_error("MP4 box size overflow"@))
    } else if pos + size > file_len {
        Err(parse_error("MP4 box extends past end of file"@))
    } else {
        Ok(size)
    }
}

/// The number of bytes that the box at `pos` of a file takes.
pub fn effective_box_size(header: &BoxHeader, pos: u64, file_len: u64) -> (r: Result<u64, Error>)
    ensures
        match effective_size(*header, pos as int, file_len as int) {
            Ok(size) => r is Ok && r->Ok_0 == size,
            Err(e) => r is Err && r->Err_0@ == e,
        },
{
    let size: u64 = if header.size == 0 {
        file_len.saturating_sub(pos)
    } else {
        header.size
    };
    if size < header.header_size as u64 {
        return Err(Error::aac_parse("invalid MP4 box size"));
    }
    match pos.checked_add(size) {
        None => Err(Error::aac_parse("MP4 box size overflow")),
        Some(end) => if end > file_len {
            Err(Error::aac_parse("MP4 box extends past end of file"))
        } else {
            Ok(size)
        },
    }
}

} // verus!
