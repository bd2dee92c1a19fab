//! Where the samples of the AAC track lie in the file.
use crate::error::{parse_error, Error, ErrorView, Fault, FaultView};
use crate::mp4::{
    be32, be64, box_in_container, find_box, find_box_in_container, least, lemma_box_in_container,
    lemma_top_level_box, read_u32_be, read_u64_be, room, top_level_box, BoxHeader, CO64, MDIA, MINF,
    MOOV, MP4A, STBL, STCO, STSC, STSD, STSZ, TRAK,
};
use vstd::prelude::*;

verus! {

/// The bytes of one sample: a raw data block.
#[derive(Debug, Clone, Copy, PartialEq, Eq)]
pub struct SampleEntry {
    pub file_offset: u64,
    pub size: u32,
}

/// From the chunk `first_chunk` on, counted from 1, a chunk holds
/// `samples_per_chunk` samples.
#[derive(Debug, Clone, Copy, PartialEq, Eq)]
pub struct StscEntry {
    pub first_chunk: u32,
    pub samples_per_chunk: u32,
}

/// The sample table of the AAC track: where it starts, how long it is, and
/// where its sample descriptions are.
#[derive(Debug, Clone, Copy, PartialEq, Eq)]
pub struct AudioStbl {
    pub start: usize,
    pub size: usize,
    pub stsd_pos: usize,
}

/// Where the content of a box starts and how long it is.
pub open spec fn content_range(pos: int, header: BoxHeader) -> Result<(int, int), FaultView> {
    if header.holds_header() && header.content() <= usize::MAX {
        Ok((pos + header.header_size, header.content()))
    } else {
        Err(FaultView::OutOfRange)
    }
}

/// Where the content of a box starts and how long it is.
pub fn box_content(pos: usize, header: &BoxHeader) -> (r: Result<(usize, usize), Fault>)
    requires
        pos + header.header_size <= usize::MAX,
    ensures
        match content_range(pos as int, *header) {
            Ok((start, size)) => r is Ok && r->Ok_0.0 == start && r->Ok_0.1 == size,
            Err(f) => r is Err && r->Err_0@ == f,
        },
{
    if header.size != 0 && header.size < header.header_size as u64 {
        return Err(Fault::OutOfRange);
    }
    let size: u64 = header.content_size();
    if size > usize::MAX as u64 {
        return Err(Fault::OutOfRange);
    }
    Ok((pos + header.header_size as usize, size as usize))
}

/// The content of the first box of the type in a container, if there is one.
pub open spec fn content_in_container(
    data: Seq<u8>,
    start: int,
    size: int,
    box_type: u32,
) -> Result<Option<(int, int)>, FaultView> {
    match box_in_container(data, start, size, box_type) {
        Err(f) => Err(f),
        Ok(None) => Ok(None),
        Ok(Some((pos, header))) => match content_range(pos, header) {
            Err(f) => Err(f),
            Ok(range) => Ok(Some(range)),
        },
    }
}

/// Finds the content of the first box of a type in a container.
pub fn find_content(data: &[u8], start: usize, size: usize, box_type: u32) -> (r: Result<
    Option<(usize, usize)>,
    Fault,
>)
    ensures
        match content_in_container(data@, start as int, size as int, box_type) {
            Ok(None) => r is Ok && r->Ok_0 is None,
            Ok(Some((s, n))) => r matches Ok(Some(range)) && range.0 == s && range.1 == n
                && s <= data@.len(),
            Err(f) => r is Err && r->Err_0@ == f,
        },
{
    match find_box_in_container(data, start, size, box_type) {
        Err(f) => Err(f),
        Ok(None) => Ok(None),
        Ok(Some((pos, header))) => {
            assert(data@.len() == data.len());
            match box_content(pos, &header) {
                Err(f) => Err(f),
                Ok(range) => Ok(Some(range)),
            }
        },
    }
}

/// The sample table of the track at `pos`, if its first sample description is
/// one of AAC audio.
pub open spec fn aac_stbl_in_trak(data: Seq<u8>, header: BoxHeader, pos: int) -> Result<
    Option<(int, int, int)>,
    FaultView,
> {
    match content_range(pos, header) {
        Err(f) => Err(f),
        Ok((trak_start, trak_size)) => match content_in_container(
            data,
            trak_start,
            trak_size,
            MDIA,
        ) {
            Err(f) => Err(f),
            Ok(None) => Ok(None),
            Ok(Some((mdia_start, mdia_size))) => match content_in_container(
                data,
                mdia_start,
                mdia_size,
                MINF,
            ) {
                Err(f) => Err(f),
                Ok(None) => Ok(None),
                Ok(Some((minf_start, minf_size))) => match content_in_container(
                    data,
                    minf_start,
                    minf_size,
                    STBL,
                ) {
                    Err(f) => Err(f),
                    Ok(None) => Ok(None),
                    Ok(Some((stbl_start, stbl_size))) => match box_in_container(
                        data,
                        stbl_start,
                        stbl_size,
                        STSD,
                    ) {
                        Err(f) => Err(f),
                        Ok(None) => Ok(None),
                        Ok(Some((stsd_pos, stsd))) => if stsd_pos + stsd.header_size + 16
                            <= data.len() && be32(data, stsd_pos + stsd.header_size + 12) == MP4A {
                            Ok(Some((stbl_start, stbl_size, stsd_pos)))
                        } else {
                            Ok(None)
                        },
                    },
                },
            },
        },
    }
}

/// Finds the sample table of a track whose first sample description is one of
/// AAC audio.
pub fn find_aac_stbl_in_trak(data: &[u8], trak_header: &BoxHeader, trak_pos: usize) -> (r: Result<
    Option<AudioStbl>,
    Fault,
>)
    requires
        trak_pos + trak_header.header_size <= data@.len(),
    ensures
        match aac_stbl_in_trak(data@, *trak_header, trak_pos as int) {
            Ok(None) => r is Ok && r->Ok_0 is None,
            Ok(Some((start, size, stsd_pos))) => r matches Ok(Some(stbl)) && stbl.start == start
                && stbl.size == size && stbl.stsd_pos == stsd_pos && stsd_pos <= data@.len(),
            Err(f) => r is Err && r->Err_0@ == f,
        },
{
    assert(data@.len() == data.len());
    let (trak_start, trak_size) = match box_content(trak_pos, trak_header) {
        Err(f) => {
            return Err(f);
        },
        Ok(range) => range,
    };
    let (mdia_start, mdia_size) = match find_content(data, trak_start, trak_size, MDIA) {
        Err(f) => {
            return Err(f);
        },
        Ok(None) => {
            return Ok(None);
        },
        Ok(Some(range)) => range,
    };
    let (minf_start, minf_size) = match find_content(data, mdia_start, mdia_size, MINF) {
        Err(f) => {
            return Err(f);
        },
        Ok(None) => {
            return Ok(None);
        },
        Ok(Some(range)) => range,
    };
    let (stbl_start, stbl_size) = match find_content(data, minf_start, minf_size, STBL) {
        Err(f) => {
            return Err(f);
        },
        Ok(None) => {
            return Ok(None);
        },
        Ok(Some(range)) => range,
    };
    let (stsd_pos, stsd) = match find_box_in_container(data, stbl_start, stbl_size, STSD) {
        Err(f) => {
            return Err(f);
        },
        Ok(None) => {
            return Ok(None);
        },
        Ok(Some(found)) => found,
    };
    let content: usize = stsd_pos + stsd.header_size as usize;
    if data.len() - content < 16 {
        return Ok(None);
    }
    if read_u32_be(data, content + 12) == MP4A {
        Ok(Some(AudioStbl { start: stbl_start, size: stbl_size, stsd_pos }))
    } else {
        Ok(None)
    }
}

/// The sample table of the first AAC track from `search` on among the boxes
/// that end at `end`.
pub open spec fn audio_stbl(data: Seq<u8>, search: int, end: int) -> Result<
    (int, int, int),
    FaultView,
>
    decreases room(search, end),
    when 0 <= search
{
    if search >= end {
        Err(FaultView::Reject(ErrorView::NoAacTrack))
    } else {
        match box_in_container(data, search, end - search, TRAK) {
            Err(f) => Err(f),
            Ok(None) => Err(FaultView::Reject(ErrorView::NoAacTrack)),
            Ok(Some((pos, header))) => match aac_stbl_in_trak(data, header, pos) {
                Err(f) => Err(f),
                Ok(Some(found)) => Ok(found),
                Ok(None) => if header.size == 0 || pos + header.size > usize::MAX {
                    Err(FaultView::OutOfRange)
                } else {
                    proof {
                        lemma_box_in_container(data, search, end - search, TRAK);
                    }
                    audio_stbl(data, pos + header.size, end)
                },
            },
        }
    }
}

/// Finds the sample table of the first AAC track of a movie.
pub fn find_audio_stbl(data: &[u8], moov_start: usize, moov_size: usize) -> (r: Result<
    AudioStbl,
    Fault,
>)
    ensures
        moov_start + moov_size > usize::MAX ==> r is Err && r->Err_0@ == FaultView::OutOfRange,
        moov_start + moov_size <= usize::MAX ==> match audio_stbl(
            data@,
            moov_start as int,
            moov_start + moov_size,
        ) {
            Ok((start, size, stsd_pos)) => r is Ok && r->Ok_0.start == start && r->Ok_0.size == size
                && r->Ok_0.stsd_pos == stsd_pos && stsd_pos <= data@.len(),
            Err(f) => r is Err && r->Err_0@ == f,
        },
{
    if moov_size > usize::MAX - moov_start {
        return Err(Fault::OutOfRange);
    }
    let moov_end: usize = moov_start + moov_size;
    let mut search_pos: usize = moov_start;
    while search_pos < moov_end
        invariant
            moov_start + moov_size == moov_end,
            audio_stbl(data@, moov_start as int, moov_end as int) == audio_stbl(
                data@,
                search_pos as int,
                moov_end as int,
            ),
        decreases room(search_pos as int, moov_end as int),
    {
        proof {
            lemma_box_in_container(data@, search_pos as int, moov_end - search_pos, TRAK);
        }
        let (trak_pos, trak_header) = match find_box_in_container(
            data,
            search_pos,
            moov_end - search_pos,
            TRAK,
        ) {
            Err(f) => {
                return Err(f);
            },
            Ok(None) => {
                return Err(Fault::Reject(Error::NoAacTrack));
            },
            Ok(Some(found)) => found,
        };
        match find_aac_stbl_in_trak(data, &trak_header, trak_pos) {
            Err(f) => {
                return Err(f);
            },
            Ok(Some(found)) => {
                return Ok(found);
            },
            Ok(None) => {},
        }
        if trak_header.size == 0 || trak_header.size > (usize::MAX - trak_pos) as u64 {
            return Err(Fault::OutOfRange);
        }
        search_pos = trak_pos + trak_header.size as usize;
    }
    Err(Fault::Reject(Error::NoAacTrack))
}

/// The sizes of the samples, from the content of a sample size box.
pub open spec fn stsz_sizes(data: Seq<u8>, content: int) -> Result<Seq<u32>, FaultView> {
    if content + 12 > data.len() {
        Err(FaultView::OutOfRange)
    } else {
        let default_size = be32(data, content + 4);
        let count = be32(data, content + 8);
        if default_size != 0 {
            Ok(Seq::new(count as nat, |i: int| default_size as u32))
        } else if content + 12 + 4 * count > data.len() {
            Err(FaultView::OutOfRange)
        } else {
            Ok(Seq::new(count as nat, |i: int| be32(data, content + 12 + 4 * i) as u32))
        }
    }
}

/// Reads the sizes of the samples.
pub fn parse_sample_sizes(data: &[u8], content: usize) -> (r: Result<Vec<u32>, Fault>)
    requires
        content <= data@.len(),
    ensures
        match stsz_sizes(data@, content as int) {
            Ok(sizes) => r is Ok && r->Ok_0@ == sizes,
            Err(f) => r is Err && r->Err_0@ == f,
        },
{
    if data.len() - content < 12 {
        return Err(Fault::OutOfRange);
    }
    let default_size: u32 = read_u32_be(data, content + 4);
    let sample_count: usize = read_u32_be(data, content + 8) as usize;
    let sizes_start: usize = content + 12;
    let mut sample_sizes: Vec<u32> = Vec::new();
    if default_size != 0 {
        let mut i: usize = 0;
        while i < sample_count
            invariant
                i <= sample_count,
                sample_sizes@ == Seq::new(i as nat, |j: int| default_size),
            decreases sample_count - i,
        {
            sample_sizes.push(default_size);
            i = i + 1;
        }
    } else {
        if sample_count > (data.len() - sizes_start) / 4 {
            return Err(Fault::OutOfRange);
        }
        let mut i: usize = 0;
        while i < sample_count
            invariant
                i <= sample_count,
                sizes_start == content + 12,
                sizes_start + 4 * sample_count <= data@.len() <= usize::MAX,
                sample_sizes@ == Seq::new(
                    i as nat,
                    |j: int| be32(data@, content + 12 + 4 * j) as u32,
                ),
            decreases sample_count - i,
        {
            sample_sizes.push(read_u32_be(data, sizes_start + i * 4));
            i = i + 1;
        }
    }
    Ok(sample_sizes)
}

/// The entry `i` of a sample-to-chunk box.
pub open spec fn stsc_entry(data: Seq<u8>, content: int, i: int) -> StscEntry {
    StscEntry {
        first_chunk: be32(data, content + 8 + 12 * i) as u32,
        samples_per_chunk: be32(data, content + 12 + 12 * i) as u32,
    }
}

/// The runs of chunks, from the content of a sample-to-chunk box.
pub open spec fn stsc_runs(data: Seq<u8>, content: int) -> Result<Seq<StscEntry>, FaultView> {
    if content + 8 > data.len() {
        Err(FaultView::OutOfRange)
    } else {
        let count = be32(data, content + 4);
        if count > 0 && content + 4 + 12 * count > data.len() {
            Err(FaultView::OutOfRange)
        } else {
            Ok(Seq::new(count as nat, |i: int| stsc_entry(data, content, i)))
        }
    }
}

/// Reads the runs of chunks.
pub fn parse_stsc_entries(data: &[u8], content: usize) -> (r: Result<Vec<StscEntry>, Fault>)
    requires
        content <= data@.len(),
    ensures
        match stsc_runs(data@, content as int) {
            Ok(runs) => r is Ok && r->Ok_0@ == runs,
            Err(f) => r is Err && r->Err_0@ == f,
        },
{
    if data.len() - content < 8 {
        return Err(Fault::OutOfRange);
    }
    let stsc_count: usize = read_u32_be(data, content + 4) as usize;
    let entries_start: usize = content + 8;
    // The third field of the last entry may be missing.
    if stsc_count > 0 && stsc_count > (data.len() - content - 4) / 12 {
        return Err(Fault::OutOfRange);
    }
    let mut entries: Vec<StscEntry> = Vec::new();
    let mut i: usize = 0;
    while i < stsc_count
        invariant
            i <= stsc_count,
            entries_start == content + 8,
            stsc_count > 0 ==> content + 4 + 12 * stsc_count <= data@.len() <= usize::MAX,
            entries@ == Seq::new(i as nat, |j: int| stsc_entry(data@, content as int, j)),
        decreases stsc_count - i,
    {
        let off: usize = entries_start + i * 12;
        entries.push(
            StscEntry {
                first_chunk: read_u32_be(data, off),
                samples_per_chunk: read_u32_be(data, off + 4),
            },
        );
        i = i + 1;
    }
    Ok(entries)
}

/// The offsets of the chunks, from the content of a chunk offset box whose
/// entries are `width` bytes wide.
pub open spec fn offsets_at(data: Seq<u8>, content: int, width: int) -> Result<
    Seq<u64>,
    FaultView,
> {
    if content + 8 > data.len() {
        Err(FaultView::OutOfRange)
    } else {
        let count = be32(data, content + 4);
        if content + 8 + width * count > data.len() {
            Err(FaultView::OutOfRange)
        } else if width == 4 {
            Ok(Seq::new(count as nat, |i: int| be32(data, content + 8 + 4 * i) as u64))
        } else {
            Ok(Seq::new(count as nat, |i: int| be64(data, content + 8 + 8 * i) as u64))
        }
    }
}

/// The offsets of the chunks of a sample table.
pub open spec fn chunk_offsets(data: Seq<u8>, stbl_start: int, stbl_size: int) -> Result<
    Seq<u64>,
    FaultView,
> {
    match box_in_container(data, stbl_start, stbl_size, STCO) {
        Err(f) => Err(f),
        Ok(Some((pos, header))) => offsets_at(data, pos + header.header_size, 4),
        Ok(None) => match box_in_container(data, stbl_start, stbl_size, CO64) {
            Err(f) => Err(f),
            Ok(Some((pos, header))) => offsets_at(data, pos + header.header_size, 8),
            Ok(None) => Err(FaultView::Reject(parse_error("no stco or co64 box found"@))),
        },
    }
}

/// Reads the offsets of the chunks of a sample table.
pub fn parse_chunk_offsets(data: &[u8], stbl_start: usize, stbl_size: usize) -> (r: Result<
    Vec<u64>,
    Fault,
>)
    ensures
        match chunk_offsets(data@, stbl_start as int, stbl_size as int) {
            Ok(offsets) => r is Ok && r->Ok_0@ == offsets,
            Err(f) => r is Err && r->Err_0@ == f,
        },
{
    assert(data@.len() == data.len());
    match find_box_in_container(data, stbl_start, stbl_size, STCO) {
        Err(f) => {
            return Err(f);
        },
        Ok(Some((pos, header))) => {
            let content: usize = pos + header.header_size as usize;
            if data.len() - content < 8 {
                return Err(Fault::OutOfRange);
            }
            let count: usize = read_u32_be(data, content + 4) as usize;
            if count > (data.len() - content - 8) / 4 {
                return Err(Fault::OutOfRange);
            }
            let mut offsets: Vec<u64> = Vec::new();
            let mut i: usize = 0;
            while i < count
                invariant
                    i <= count,
                    content + 8 + 4 * count <= data@.len() <= usize::MAX,
                    offsets@ == Seq::new(
                        i as nat,
                        |j: int| be32(data@, content + 8 + 4 * j) as u64,
                    ),
                decreases count - i,
            {
                offsets.push(read_u32_be(data, content + 8 + i * 4) as u64);
                i = i + 1;
            }
            return Ok(offsets);
        },
        Ok(None) => {},
    }
    match find_box_in_container(data, stbl_start, stbl_size, CO64) {
        Err(f) => {
            return Err(f);
        },
        Ok(Some((pos, header))) => {
            let content: usize = pos + header.header_size as usize;
            if data.len() - content < 8 {
                return Err(Fault::OutOfRange);
            }
            let count: usize = read_u32_be(data, content + 4) as usize;
            if count > (data.len() - content - 8) / 8 {
                return Err(Fault::OutOfRange);
            }
            let mut offsets: Vec<u64> = Vec::new();
            let mut i: usize = 0;
            while i < count
                invariant
                    i <= count,
                    content + 8 + 8 * count <= data@.len() <= usize::MAX,
                    offsets@ == Seq::new(
                        i as nat,
                        |j: int| be64(data@, content + 8 + 8 * j) as u64,
                    ),
                decreases count - i,
            {
                offsets.push(read_u64_be(data, content + 8 + i * 8));
                i = i + 1;
            }
            return Ok(offsets);
        },
        Ok(None) => {},
    }
    Err(Fault::Reject(Error::aac_parse("no stco or co64 box found")))
}

/// The number of runs from `i` on that begin no later than the chunk `chunk`,
/// up to the first one that begins later.
pub open spec fn runs_begun(runs: Seq<StscEntry>, i: int, chunk: int) -> int
    decreases runs.len() - i,
{
    if 0 <= i < runs.len() && runs[i].first_chunk <= chunk {
        1 + runs_begun(runs, i + 1, chunk)
    } else {
        0
    }
}

/// The number of samples of a chunk, counted from 1: that of the last run that
/// has begun by then, or of the first run where none has.
pub open spec fn samples_of_chunk(runs: Seq<StscEntry>, chunk: int) -> int {
    let begun = runs_begun(runs, 0, chunk);
    if begun == 0 {
        runs[0].samples_per_chunk as int
    } else {
        runs[begun - 1].samples_per_chunk as int
    }
}

/// The number of samples of a chunk, counted from 1.
pub fn samples_in_chunk(runs: &[StscEntry], chunk: usize) -> (n: usize)
    requires
        runs@.len() > 0,
    ensures
        n == samples_of_chunk(runs@, chunk as int),
{
    let mut spc: u32 = runs[0].samples_per_chunk;
    let mut i: usize = 0;
    while i < runs.len() && runs[i].first_chunk as usize <= chunk
        invariant
            i <= runs@.len(),
            runs@.len() > 0,
            runs_begun(runs@, 0, chunk as int) == i + runs_begun(runs@, i as int, chunk as int),
            spc == runs@[if i == 0 {
                0
            } else {
                i - 1
            }].samples_per_chunk,
        decreases runs@.len() - i,
    {
        spc = runs[i].samples_per_chunk;
        i = i + 1;
    }
    spc as usize
}

/// The `n` samples from `s` on, one behind the other from `offset` on.
pub open spec fn chunk_samples(sizes: Seq<u32>, s: int, n: int, offset: int) -> Result<
    Seq<SampleEntry>,
    FaultView,
>
    decreases n,
{
    if n <= 0 {
        Ok(seq![])
    } else if offset > u64::MAX {
        Err(FaultView::OutOfRange)
    } else {
        joined(
            seq![SampleEntry { file_offset: offset as u64, size: sizes[s] }],
            chunk_samples(sizes, s + 1, n - 1, offset + sizes[s]),
        )
    }
}

/// The samples `first` and those of `rest` behind them.
pub open spec fn joined(
    first: Seq<SampleEntry>,
    rest: Result<Seq<SampleEntry>, FaultView>,
) -> Result<Seq<SampleEntry>, FaultView> {
    match rest {
        Ok(entries) => Ok(first + entries),
        Err(f) => Err(f),
    }
}

/// The number of samples of the chunk `c`, counted from 0, if the samples
/// before `s` lie in the chunks before it.
pub open spec fn chunk_fill(sizes: Seq<u32>, runs: Seq<StscEntry>, c: int, s: int) -> int {
    least(samples_of_chunk(runs, c + 1), sizes.len() - s)
}

/// The samples from `s` on, laid out in the chunks from `c` on.
pub open spec fn layout(
    sizes: Seq<u32>,
    runs: Seq<StscEntry>,
    offsets: Seq<u64>,
    c: int,
    s: int,
) -> Result<Seq<SampleEntry>, FaultView>
    decreases offsets.len() - c,
{
    if c >= offsets.len() {
        Ok(seq![])
    } else if runs.len() == 0 {
        Err(FaultView::OutOfRange)
    } else {
        let n = chunk_fill(sizes, runs, c, s);
        match chunk_samples(sizes, s, n, offsets[c] as int) {
            Err(f) => Err(f),
            Ok(entries) => joined(entries, layout(sizes, runs, offsets, c + 1, s + n)),
        }
    }
}

/// The samples of a chunk are the given number of samples, each with its size.
pub proof fn lemma_chunk_samples(sizes: Seq<u32>, s: int, n: int, offset: int)
    requires
        0 <= n,
    ensures
        chunk_samples(sizes, s, n, offset) matches Ok(entries) ==> entries.len() == n && forall|
            i: int,
        |
            0 <= i < n ==> (#[trigger] entries[i]).size == sizes[s + i],
    decreases n,
{
    if n > 0 && offset <= u64::MAX {
        lemma_chunk_samples(sizes, s + 1, n - 1, offset + sizes[s]);
    }
}

/// No sample is laid out twice, and each keeps its size.
pub proof fn lemma_layout(
    sizes: Seq<u32>,
    runs: Seq<StscEntry>,
    offsets: Seq<u64>,
    c: int,
    s: int,
)
    requires
        0 <= c,
        0 <= s <= sizes.len(),
    ensures
        layout(sizes, runs, offsets, c, s) matches Ok(entries) ==> s + entries.len() <= sizes.len()
            && forall|i: int|
            0 <= i < entries.len() ==> (#[trigger] entries[i]).size == sizes[s + i],
    decreases offsets.len() - c,
{
    if c < offsets.len() && runs.len() > 0 {
        let n = chunk_fill(sizes, runs, c, s);
        lemma_chunk_samples(sizes, s, n, offsets[c] as int);
        lemma_layout(sizes, runs, offsets, c + 1, s + n);
    }
}

/// Lays the samples out in the chunks.
pub fn lay_out_samples(sizes: &[u32], runs: &[StscEntry], offsets: &[u64]) -> (r: Result<
    Vec<SampleEntry>,
    Fault,
>)
    requires
        sizes@.len() <= u32::MAX,
    ensures
        match layout(sizes@, runs@, offsets@, 0, 0) {
            Ok(entries) => r is Ok && r->Ok_0@ == entries && entries.len() <= sizes@.len(),
            Err(f) => r is Err && r->Err_0@ == f,
        },
{
    let mut entries: Vec<SampleEntry> = Vec::new();
    let mut chunk_idx: usize = 0;
    assert(layout(sizes@, runs@, offsets@, 0, 0) == joined(
        entries@,
        layout(sizes@, runs@, offsets@, 0, 0),
    )) by {
        assert(forall|e: Seq<SampleEntry>| entries@ + e =~= e);
    }
    while chunk_idx < offsets.len()
        invariant
            sizes@.len() <= u32::MAX,
            chunk_idx <= offsets@.len(),
            entries@.len() <= sizes@.len(),
            layout(sizes@, runs@, offsets@, 0, 0) == joined(
                entries@,
                layout(sizes@, runs@, offsets@, chunk_idx as int, entries@.len() as int),
            ),
        decreases offsets@.len() - chunk_idx,
    {
        if runs.len() == 0 {
            return Err(Fault::OutOfRange);
        }
        let ghost base = entries@;
        let ghost first = entries@.len() as int;
        let chunk_offset: u64 = offsets[chunk_idx];
        let in_chunk: usize = samples_in_chunk(runs, chunk_idx + 1);
        let left: usize = sizes.len() - entries.len();
        let n: usize = if in_chunk <= left {
            in_chunk
        } else {
            left
        };
        let mut offset_in_chunk: u64 = 0;
        let mut i: usize = 0;
        let ghost mut placed: Seq<SampleEntry> = seq![];
        let ghost whole = chunk_samples(sizes@, first, n as int, chunk_offset as int);
        assert(whole == joined(placed, whole)) by {
            assert(forall|e: Seq<SampleEntry>| placed + e =~= e);
        }
        while i < n
            invariant
                i <= n,
                first + n <= sizes@.len() <= u32::MAX,
                chunk_idx < offsets@.len(),
                chunk_offset == offsets@[chunk_idx as int],
                runs@.len() > 0,
                n == chunk_fill(sizes@, runs@, chunk_idx as int, first),
                entries@ == base + placed,
                base.len() == first,
                placed.len() == i,
                offset_in_chunk <= i * 0xffff_ffff,
                layout(sizes@, runs@, offsets@, 0, 0) == joined(
                    base,
                    layout(sizes@, runs@, offsets@, chunk_idx as int, first),
                ),
                whole == chunk_samples(sizes@, first, n as int, chunk_offset as int),
                whole == joined(
                    placed,
                    chunk_samples(sizes@, first + i, n - i, chunk_offset + offset_in_chunk),
                ),
            decreases n - i,
        {
            let file_offset: u64 = match chunk_offset.checked_add(offset_in_chunk) {
                Some(file_offset) => file_offset,
                None => {
                    return Err(Fault::OutOfRange);
                },
            };
            let size: u32 = sizes[entries.len()];
            let entry = SampleEntry { file_offset, size };
            entries.push(entry);
            proof {
                let rest = chunk_samples(
                    sizes@,
                    first + i + 1,
                    n - i - 1,
                    chunk_offset + offset_in_chunk + size,
                );
                if let Ok(e) = rest {
                    assert(placed + (seq![entry] + e) =~= placed.push(entry) + e);
                }
                placed = placed.push(entry);
                assert(entries@ =~= base + placed);
            }
            offset_in_chunk = offset_in_chunk + size as u64;
            i = i + 1;
        }
        proof {
            assert(placed + seq![] =~= placed);
            let rest = layout(sizes@, runs@, offsets@, chunk_idx + 1, first + n);
            if let Ok(e) = rest {
                assert(base + (placed + e) =~= (base + placed) + e);
            }
        }
        chunk_idx = chunk_idx + 1;
    }
    assert(entries@ + Seq::<SampleEntry>::empty() =~= entries@);
    Ok(entries)
}

/// The samples of the AAC track of a file, and where its sample descriptions
/// are.
#[verifier::opaque]
pub open spec fn sample_table(data: Seq<u8>) -> Result<(Seq<SampleEntry>, int), FaultView> {
    match movie_stbl(data) {
        Err(f) => Err(f),
        Ok((start, size, stsd_pos)) => match stbl_samples(data, start, size) {
            Err(f) => Err(f),
            Ok(entries) => Ok((entries, stsd_pos)),
        },
    }
}

/// The sample table of the first AAC track of a file.
#[verifier::opaque]
pub open spec fn movie_stbl(data: Seq<u8>) -> Result<(int, int, int), FaultView> {
    match top_level_box(data, 0, MOOV) {
        Err(f) => Err(f),
        Ok(None) => Err(FaultView::Reject(ErrorView::NoMoovBox)),
        Ok(Some((pos, header))) => match content_range(pos, header) {
            Err(f) => Err(f),
            Ok((start, size)) => if start + size > usize::MAX {
                Err(FaultView::OutOfRange)
            } else {
                audio_stbl(data, start, start + size)
            },
        },
    }
}

/// The sample table of an AAC track and its sample descriptions do not start
/// before the search for them.
proof fn lemma_audio_stbl(data: Seq<u8>, search: int, end: int)
    requires
        0 <= search,
    ensures
        audio_stbl(data, search, end) matches Ok((start, _, stsd_pos)) ==> search <= start
            && search <= stsd_pos,
    decreases room(search, end),
{
    if search < end {
        lemma_box_in_container(data, search, end - search, TRAK);
        if let Ok(Some((pos, header))) = box_in_container(data, search, end - search, TRAK) {
            if let Ok((s, n)) = content_range(pos, header) {
                lemma_box_in_container(data, s, n, MDIA);
                if let Ok(Some((s, n))) = content_in_container(data, s, n, MDIA) {
                    lemma_box_in_container(data, s, n, MINF);
                    if let Ok(Some((s, n))) = content_in_container(data, s, n, MINF) {
                        lemma_box_in_container(data, s, n, STBL);
                        if let Ok(Some((s, n))) = content_in_container(data, s, n, STBL) {
                            lemma_box_in_container(data, s, n, STSD);
                        }
                    }
                }
            }
            if header.size != 0 {
                lemma_audio_stbl(data, pos + header.size, end);
            }
        }
    }
}

/// The sample table of a file and its sample descriptions lie behind its
/// start.
pub proof fn lemma_movie_stbl(data: Seq<u8>)
    ensures
        movie_stbl(data) matches Ok((start, _, stsd_pos)) ==> 0 <= start && 0 <= stsd_pos,
{
    reveal(movie_stbl);
    lemma_top_level_box(data, 0, MOOV);
    if let Ok(Some((pos, header))) = top_level_box(data, 0, MOOV) {
        if let Ok((start, size)) = content_range(pos, header) {
            lemma_audio_stbl(data, start, start + size);
        }
    }
}

/// Where the content of a box starts that a sample table must hold.
pub open spec fn required_box(
    data: Seq<u8>,
    start: int,
    size: int,
    box_type: u32,
    missing: Seq<char>,
) -> Result<int, FaultView> {
    match box_in_container(data, start, size, box_type) {
        Err(f) => Err(f),
        Ok(None) => Err(FaultView::Reject(parse_error(missing))),
        Ok(Some((pos, header))) => Ok(pos + header.header_size),
    }
}

/// The samples that a sample table describes.
#[verifier::opaque]
pub open spec fn stbl_samples(data: Seq<u8>, start: int, size: int) -> Result<
    Seq<SampleEntry>,
    FaultView,
> {
    match required_box(data, start, size, STSZ, "no stsz box"@) {
        Err(f) => Err(f),
        Ok(stsz) => match stsz_sizes(data, stsz) {
            Err(f) => Err(f),
            Ok(sizes) => match required_box(data, start, size, STSC, "no stsc box"@) {
                Err(f) => Err(f),
                Ok(stsc) => match stsc_runs(data, stsc) {
                    Err(f) => Err(f),
                    Ok(runs) => match chunk_offsets(data, start, size) {
                        Err(f) => Err(f),
                        Ok(offsets) => layout(sizes, runs, offsets, 0, 0),
                    },
                },
            },
        },
    }
}

/// Finds where the content of a box starts that a sample table must hold.
pub fn find_required_box(
    data: &[u8],
    start: usize,
    size: usize,
    box_type: u32,
    missing: &str,
) -> (r: Result<usize, Fault>)
    ensures
        match required_box(data@, start as int, size as int, box_type, missing@) {
            Ok(content) => r is Ok && r->Ok_0 == content && content <= data@.len(),
            Err(f) => r is Err && r->Err_0@ == f,
        },
{
    match find_box_in_container(data, start, size, box_type) {
        Err(f) => Err(f),
        Ok(None) => Err(Fault::Reject(Error::aac_parse(missing))),
        Ok(Some((pos, header))) => {
            assert(data@.len() == data.len());
            Ok(pos + header.header_size as usize)
        },
    }
}

/// Finds the samples of the AAC track of a file, and where its sample
/// descriptions are.
pub fn build_sample_table(data: &[u8]) -> (r: Result<(Vec<SampleEntry>, usize), Fault>)
    ensures
        match sample_table(data@) {
            Ok((entries, stsd_pos)) => r matches Ok(found) && found.0@ == entries && found.1
                == stsd_pos && stsd_pos <= data@.len() && entries.len() <= u32::MAX,
            Err(f) => r is Err && r->Err_0@ == f,
        },
{
    proof {
        reveal(sample_table);
        reveal(movie_stbl);
        reveal(stbl_samples);
        lemma_top_level_box(data@, 0, MOOV);
        assert(data@.len() == data.len());
    }
    let (moov_pos, moov_header) = match find_box(data, MOOV) {
        Err(f) => {
            return Err(f);
        },
        Ok(None) => {
            return Err(Fault::Reject(Error::NoMoovBox));
        },
        Ok(Some(found)) => found,
    };
    let (moov_start, moov_size) = match box_content(moov_pos, &moov_header) {
        Err(f) => {
            return Err(f);
        },
        Ok(range) => range,
    };
    let stbl = match find_audio_stbl(data, moov_start, moov_size) {
        Err(f) => {
            return Err(f);
        },
        Ok(stbl) => stbl,
    };
    let stsz_content: usize = match find_required_box(
        data,
        stbl.start,
        stbl.size,
        STSZ,
        "no stsz box",
    ) {
        Err(f) => {
            return Err(f);
        },
        Ok(content) => content,
    };
    let sample_sizes: Vec<u32> = match parse_sample_sizes(data, stsz_content) {
        Err(f) => {
            return Err(f);
        },
        Ok(sizes) => sizes,
    };
    let stsc_content: usize = match find_required_box(
        data,
        stbl.start,
        stbl.size,
        STSC,
        "no stsc box",
    ) {
        Err(f) => {
            return Err(f);
        },
        Ok(content) => content,
    };
    let stsc_entries: Vec<StscEntry> = match parse_stsc_entries(data, stsc_content) {
        Err(f) => {
            return Err(f);
        },
        Ok(entries) => entries,
    };
    let offsets: Vec<u64> = match parse_chunk_offsets(data, stbl.start, stbl.size) {
        Err(f) => {
            return Err(f);
        },
        Ok(offsets) => offsets,
    };
    match lay_out_samples(&sample_sizes, &stsc_entries, &offsets) {
        Err(f) => Err(f),
        Ok(entries) => Ok((entries, stbl.stsd_pos)),
    }
}

} // verus!
