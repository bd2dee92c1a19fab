//! The search for all `global_gain` fields of a file of which only parts are
//! held in memory. The search says which bytes it needs, and goes on when it
//! is given them.
use crate::aac_codebooks::{standard_books, HuffmanTables};
use crate::analysis::{
    entry_gains, locate_gains, nothing_found, survey_from, surveyed, verdict, Survey, SurveyView,
};
use crate::audio_config::{audio_rate, parse_audio_config};
use crate::error::{parse_error, Error, ErrorView, Fault, FaultView};
use crate::location::AacGainLocation;
use crate::mp4::{
    be32, be_bytes, effective_box_size, effective_size, header_at, is_mp4, least, looks_like_mp4,
    BoxHeader, TruncatedHeader, MOOV,
};
use crate::sample_table::{build_sample_table, sample_table, SampleEntry};
use vstd::prelude::*;

verus! {

/// Why the gains of a file could not be found.
#[derive(Debug, PartialEq, Eq)]
pub enum FileFault {
    /// The file is turned down.
    Reject(Error),
    /// An offset, a size or a table of the movie box points outside of its
    /// bytes, or does not fit the integers that hold positions; or a track has
    /// no size.
    OutOfRange,
    /// The file ends within the head of a box.
    Truncated,
}

/// The mathematical value of a [`FileFault`].
pub enum FileFaultView {
    Reject(ErrorView),
    OutOfRange,
    Truncated,
}

impl View for FileFault {
    type V = FileFaultView;

    open spec fn view(&self) -> FileFaultView {
        match *self {
            FileFault::Reject(error) => FileFaultView::Reject(error@),
            FileFault::OutOfRange => FileFaultView::OutOfRange,
            FileFault::Truncated => FileFaultView::Truncated,
        }
    }
}

/// A fault of the boxes as a fault of the file.
pub open spec fn file_fault(fault: FaultView) -> FileFaultView {
    match fault {
        FaultView::Reject(error) => FileFaultView::Reject(error),
        FaultView::OutOfRange => FileFaultView::OutOfRange,
    }
}

impl FileFault {
    /// A fault of the boxes as a fault of the file.
    pub fn from_fault(fault: Fault) -> (r: FileFault)
        ensures
            r@ == file_fault(fault@),
    {
        match fault {
            Fault::Reject(error) => FileFault::Reject(error),
            Fault::OutOfRange => FileFault::OutOfRange,
        }
    }
}

/// What to do with the top-level box that a head belongs to.
#[derive(Debug, Clone, Copy, PartialEq, Eq)]
pub enum ScanStep {
    /// There is no box any more.
    Stop,
    /// The file ends within the head.
    Truncated,
    /// Go on with the box at `next`.
    Skip { next: u64 },
    /// Read the whole box, and write its size into its head where the head
    /// leaves it open.
    Read { size: usize, normalize: bool },
}

/// What to do with the box at `pos`, of which `head` holds the first bytes,
/// when a box of a type is looked for.
pub open spec fn scan_step(head: Seq<u8>, pos: int, file_len: int, box_type: u32) -> Result<
    ScanStep,
    ErrorView,
> {
    if file_len - pos < 8 {
        Ok(ScanStep::Stop)
    } else {
        match header_at(head, 0) {
            Err(_) => Ok(ScanStep::Truncated),
            Ok(None) => Ok(ScanStep::Stop),
            Ok(Some(header)) => match effective_size(header, pos, file_len) {
                Err(e) => Err(e),
                Ok(size) => if header.box_type != box_type {
                    Ok(ScanStep::Skip { next: (pos + size) as u64 })
                } else if size > usize::MAX {
                    Err(parse_error("MP4 box too large to read"@))
                } else {
                    Ok(ScanStep::Read { size: size as usize, normalize: header.size == 0 })
                },
            },
        }
    }
}

/// Decides what to do with the box at `pos`, of which `head` holds the first
/// bytes, when a box of a type is looked for.
pub fn scan_top_level(head: &[u8], pos: u64, file_len: u64, box_type: u32) -> (r: Result<
    ScanStep,
    Error,
>)
    requires
        pos <= file_len,
    ensures
        match scan_step(head@, pos as int, file_len as int, box_type) {
            Ok(step) => r is Ok && r->Ok_0 == step,
            Err(e) => r is Err && r->Err_0@ == e,
        },
{
    if file_len - pos < 8 {
        return Ok(ScanStep::Stop);
    }
    let header = match BoxHeader::read(head, 0) {
        Err(_) => {
            return Ok(ScanStep::Truncated);
        },
        Ok(None) => {
            return Ok(ScanStep::Stop);
        },
        Ok(Some(header)) => header,
    };
    let size: u64 = match effective_box_size(&header, pos, file_len) {
        Err(e) => {
            return Err(e);
        },
        Ok(size) => size,
    };
    if header.box_type != box_type {
        return Ok(ScanStep::Skip { next: pos + size });
    }
    if size > usize::MAX as u64 {
        return Err(Error::aac_parse("MP4 box too large to read"));
    }
    Ok(ScanStep::Read { size: size as usize, normalize: header.size == 0 })
}

/// A box with its size written into its head, if that is asked for.
pub open spec fn sized_box(bytes: Seq<u8>, normalize: bool) -> Result<Seq<u8>, ErrorView> {
    if !normalize {
        Ok(bytes)
    } else if bytes.len() > u32::MAX {
        Err(parse_error("size-0 MP4 box too large to normalize"@))
    } else {
        Ok(be_bytes(bytes.len() as int) + bytes.subrange(4, bytes.len() as int))
    }
}

/// A box with its size written into its head says how long it is, and is the
/// same otherwise.
pub proof fn lemma_sized_box(bytes: Seq<u8>)
    requires
        8 <= bytes.len() <= u32::MAX,
    ensures
        sized_box(bytes, true) matches Ok(sized) && sized.len() == bytes.len() && sized.subrange(
            4,
            bytes.len() as int,
        ) == bytes.subrange(4, bytes.len() as int) && header_at(sized, 0) == Ok::<
            _,
            TruncatedHeader,
        >(
            Some(
                BoxHeader {
                    size: bytes.len() as u64,
                    box_type: be32(bytes, 4) as u32,
                    header_size: 8,
                },
            ),
        ),
{
    let sized = be_bytes(bytes.len() as int) + bytes.subrange(4, bytes.len() as int);
    assert(be32(sized, 0) == bytes.len());
    assert(be32(sized, 4) == be32(bytes, 4));
    assert(sized.subrange(4, bytes.len() as int) =~= bytes.subrange(4, bytes.len() as int));
}

/// Writes the size of a box into its head.
pub fn normalize_box_size(bytes: &mut Vec<u8>) -> (r: Result<(), Error>)
    requires
        old(bytes)@.len() >= 8,
    ensures
        match sized_box(old(bytes)@, true) {
            Ok(sized) => r is Ok && final(bytes)@ == sized,
            Err(e) => r is Err && r->Err_0@ == e && final(bytes)@ == old(bytes)@,
        },
{
    let n: usize = bytes.len();
    if n as u64 > u32::MAX as u64 {
        return Err(Error::aac_parse("size-0 MP4 box too large to normalize"));
    }
    bytes.set(0, (n / 0x100_0000 % 0x100) as u8);
    bytes.set(1, (n / 0x1_0000 % 0x100) as u8);
    bytes.set(2, (n / 0x100 % 0x100) as u8);
    bytes.set(3, (n % 0x100) as u8);
    assert(bytes@ =~= be_bytes(n as int) + old(bytes)@.subrange(4, n as int));
    Ok(())
}

/// The first bytes of the box at `pos`: as many as a head can have.
pub open spec fn head_of(file: Seq<u8>, pos: int) -> Seq<u8> {
    file.subrange(pos, pos + least(16, file.len() - pos))
}

/// The bytes of the first top-level box of a type from `pos` on.
pub open spec fn box_in_file(file: Seq<u8>, pos: int, box_type: u32) -> Result<
    Option<Seq<u8>>,
    FileFaultView,
>
    decreases file.len() - pos,
    when 0 <= pos <= file.len() && file.len() <= u64::MAX
{
    match scan_step(head_of(file, pos), pos, file.len() as int, box_type) {
        Err(e) => Err(FileFaultView::Reject(e)),
        Ok(ScanStep::Stop) => Ok(None),
        Ok(ScanStep::Truncated) => Err(FileFaultView::Truncated),
        Ok(ScanStep::Skip { next }) => box_in_file(file, next as int, box_type),
        Ok(ScanStep::Read { size, normalize }) => match sized_box(
            file.subrange(pos, pos + size),
            normalize,
        ) {
            Err(e) => Err(FileFaultView::Reject(e)),
            Ok(bytes) => Ok(Some(bytes)),
        },
    }
}

/// The first bytes of a file: as many as its file type is looked for in.
pub open spec fn prefix_of(file: Seq<u8>) -> Seq<u8> {
    file.subrange(0, least(128, file.len() as int))
}

/// All gains of a file.
pub open spec fn file_gains(file: Seq<u8>) -> Result<Seq<AacGainLocation>, FileFaultView> {
    if !looks_like_mp4(prefix_of(file)) {
        Err(FileFaultView::Reject(ErrorView::NotMp4))
    } else {
        gains_from_scan(file, 0)
    }
}

/// All gains of a file whose movie box is looked for from `pos` on.
pub open spec fn gains_from_scan(file: Seq<u8>, pos: int) -> Result<
    Seq<AacGainLocation>,
    FileFaultView,
> {
    match box_in_file(file, pos, MOOV) {
        Err(f) => Err(f),
        Ok(None) => Err(FileFaultView::Reject(ErrorView::NoMoovBox)),
        Ok(Some(movie)) => gains_from_movie(file, movie),
    }
}

/// All gains of a file with the given movie box.
pub open spec fn gains_from_movie(file: Seq<u8>, movie: Seq<u8>) -> Result<
    Seq<AacGainLocation>,
    FileFaultView,
> {
    match sample_table(movie) {
        Err(f) => Err(file_fault(f)),
        Ok((entries, stsd_pos)) => match audio_rate(movie, stsd_pos) {
            Err(f) => Err(file_fault(f)),
            Ok(rate) => gains_from_samples(file, entries, 0, rate, nothing_found()),
        },
    }
}

/// All gains of a file, when `survey` was found in the samples before `index`.
#[verifier::opaque]
pub open spec fn gains_from_samples(
    file: Seq<u8>,
    entries: Seq<SampleEntry>,
    index: int,
    rate: u32,
    survey: SurveyView,
) -> Result<Seq<AacGainLocation>, FileFaultView> {
    match survey_from(false, file, entries, index, rate, survey) {
        Err(f) => Err(file_fault(f)),
        Ok(found) => match verdict(found) {
            Err(e) => Err(FileFaultView::Reject(e)),
            Ok(locs) => Ok(locs),
        },
    }
}

/// How far a search has come.
pub enum Stage {
    /// The first bytes of the file are needed.
    Prefix,
    /// The head of the top-level box at `pos` is needed.
    Scan { pos: u64 },
    /// The bytes of the movie box are needed.
    Movie { pos: u64, size: usize, normalize: bool },
    /// The bytes of the sample number `index` are needed.
    Samples { entries: Vec<SampleEntry>, rate: u32, index: usize, survey: Survey },
    /// The search is over.
    Done { outcome: Result<Vec<AacGainLocation>, FileFault> },
}

/// The value of an outcome.
pub open spec fn outcome_view(outcome: Result<Vec<AacGainLocation>, FileFault>) -> Result<
    Seq<AacGainLocation>,
    FileFaultView,
> {
    match outcome {
        Ok(locs) => Ok(locs@),
        Err(f) => Err(f@),
    }
}

impl Stage {
    /// What a search that has come so far still finds in a file.
    pub open spec fn pending(self, file: Seq<u8>) -> Result<Seq<AacGainLocation>, FileFaultView> {
        match self {
            Stage::Prefix => file_gains(file),
            Stage::Scan { pos } => gains_from_scan(file, pos as int),
            Stage::Movie { pos, size, normalize } => match sized_box(
                file.subrange(pos as int, pos + size),
                normalize,
            ) {
                Err(e) => Err(FileFaultView::Reject(e)),
                Ok(movie) => gains_from_movie(file, movie),
            },
            Stage::Samples { entries, rate, index, survey } => gains_from_samples(
                file,
                entries@,
                index as int,
                rate,
                survey@,
            ),
            Stage::Done { outcome } => outcome_view(outcome),
        }
    }

    /// Whether all that is asked for lies in a file of the given length.
    pub open spec fn wf(self, file_len: int) -> bool {
        match self {
            Stage::Prefix => true,
            Stage::Scan { pos } => pos <= file_len,
            Stage::Movie { pos, size, normalize } => pos + size <= file_len && size >= 8,
            Stage::Samples { entries, rate, index, survey } => {
                &&& index < entries@.len() <= u32::MAX
                &&& entries@[index as int].file_offset + entries@[index as int].size <= file_len
                &&& survey.warnings <= index
            },
            Stage::Done { outcome } => true,
        }
    }

    /// The number of kinds of bytes that may still be needed.
    pub open spec fn phase(self) -> int {
        match self {
            Stage::Prefix => 4,
            Stage::Scan { .. } => 3,
            Stage::Movie { .. } => 2,
            Stage::Samples { .. } => 1,
            Stage::Done { .. } => 0,
        }
    }

    /// A bound on the number of requests of the present kind that are left.
    pub open spec fn left(self, file_len: int) -> int {
        match self {
            Stage::Scan { pos } => file_len - pos,
            Stage::Samples { entries, rate, index, survey } => entries@.len() - index,
            _ => 0,
        }
    }
}

/// A search for the gains of a file.
pub struct FileAnalysis {
    pub file_len: u64,
    pub stage: Stage,
    pub tables: HuffmanTables,
}

/// Bytes of the file that a search needs.
#[derive(Debug, Clone, Copy, PartialEq, Eq)]
pub struct ReadRequest {
    pub offset: u64,
    pub len: usize,
}

impl FileAnalysis {
    /// All that is asked for lies in the file, and the tables are those of the
    /// codebooks of AAC.
    pub open spec fn wf(self) -> bool {
        &&& self.tables.wf()
        &&& self.tables@ == standard_books()
        &&& self.stage.wf(self.file_len as int)
    }

    /// The bytes that the search needs next.
    pub open spec fn wanted(self) -> Option<ReadRequest> {
        match self.stage {
            Stage::Prefix => Some(
                ReadRequest { offset: 0, len: least(128, self.file_len as int) as usize },
            ),
            Stage::Scan { pos } => Some(
                ReadRequest { offset: pos, len: least(16, self.file_len - pos) as usize },
            ),
            Stage::Movie { pos, size, normalize } => Some(ReadRequest { offset: pos, len: size }),
            Stage::Samples { entries, rate, index, survey } => Some(
                ReadRequest {
                    offset: entries@[index as int].file_offset,
                    len: entries@[index as int].size as usize,
                },
            ),
            Stage::Done { outcome } => None,
        }
    }

    /// Starts a search in a file of the given length.
    pub fn new(file_len: u64) -> (search: FileAnalysis)
        ensures
            search.wf(),
            search.file_len == file_len,
            search.stage == Stage::Prefix,
            forall|file: Seq<u8>| #[trigger] search.stage.pending(file) == file_gains(file),
    {
        FileAnalysis { file_len, stage: Stage::Prefix, tables: HuffmanTables::standard() }
    }

    /// The bytes that the search needs next; none where it is over.
    pub fn request(&self) -> (r: Option<ReadRequest>)
        requires
            self.wf(),
        ensures
            r == self.wanted(),
            r is None <==> self.stage is Done,
            r matches Some(request) ==> request.offset + request.len <= self.file_len,
    {
        match &self.stage {
            Stage::Prefix => {
                let len: usize = if self.file_len < 128 {
                    self.file_len as usize
                } else {
                    128
                };
                Some(ReadRequest { offset: 0, len })
            },
            Stage::Scan { pos } => {
                let left: u64 = self.file_len - *pos;
                let len: usize = if left < 16 {
                    left as usize
                } else {
                    16
                };
                Some(ReadRequest { offset: *pos, len })
            },
            Stage::Movie { pos, size, normalize } => Some(
                ReadRequest { offset: *pos, len: *size },
            ),
            Stage::Samples { entries, rate, index, survey } => {
                let entry = entries[*index];
                Some(ReadRequest { offset: entry.file_offset, len: entry.size as usize })
            },
            Stage::Done { outcome } => None,
        }
    }

    /// Gives the search the bytes that it needs. If they are those of a file,
    /// what the search finds in that file stays the same, and the search comes
    /// closer to its end.
    pub fn supply(self, bytes: Vec<u8>) -> (next: FileAnalysis)
        requires
            self.wf(),
            self.wanted() matches Some(request) && bytes@.len() == request.len,
        ensures
            next.wf(),
            next.file_len == self.file_len,
            next.stage.phase() < self.stage.phase() || (next.stage.phase() == self.stage.phase()
                && 0 <= next.stage.left(self.file_len as int) < self.stage.left(
                self.file_len as int,
            )),
            forall|file: Seq<u8>|
                file.len() == self.file_len && bytes@ == file.subrange(
                    self.wanted()->0.offset as int,
                    self.wanted()->0.offset + self.wanted()->0.len,
                ) ==> #[trigger] next.stage.pending(file) == self.stage.pending(file),
    {
        proof {
            reveal(gains_from_samples);
        }
        let FileAnalysis { file_len, stage, tables } = self;
        let next = match stage {
            Stage::Prefix => if is_mp4(&bytes) {
                Stage::Scan { pos: 0 }
            } else {
                reject(Error::NotMp4)
            },
            Stage::Scan { pos } => match scan_top_level(&bytes, pos, file_len, MOOV) {
                Err(e) => reject(e),
                Ok(ScanStep::Stop) => reject(Error::NoMoovBox),
                Ok(ScanStep::Truncated) => Stage::Done { outcome: Err(FileFault::Truncated) },
                Ok(ScanStep::Skip { next }) => Stage::Scan { pos: next },
                Ok(ScanStep::Read { size, normalize }) => Stage::Movie { pos, size, normalize },
            },
            Stage::Movie { pos, size, normalize } => read_movie(bytes, normalize, file_len),
            Stage::Samples { entries, rate, index, survey } => {
                let ghost entry = entries@[index as int];
                let file_offset: u64 = entries[index].file_offset;
                let mut survey = survey;
                match locate_gains(&bytes, rate, index as u32, file_offset, &tables) {
                    Err(f) => Stage::Done { outcome: Err(FileFault::from_fault(f)) },
                    Ok(gains) => {
                        survey.record(gains);
                        next_sample(entries, rate, index + 1, survey, file_len)
                    },
                }
            },
            Stage::Done { outcome } => Stage::Done { outcome },
        };
        FileAnalysis { file_len, stage: next, tables }
    }

    /// What the search has found, if it is over.
    pub fn into_outcome(self) -> (r: Option<Result<Vec<AacGainLocation>, FileFault>>)
        ensures
            match self.stage {
                Stage::Done { outcome } => r == Some(outcome),
                _ => r is None,
            },
    {
        match self.stage {
            Stage::Done { outcome } => Some(outcome),
            _ => None,
        }
    }
}

/// The end of a search in a file that is turned down.
fn reject(error: Error) -> (stage: Stage)
    ensures
        stage is Done,
        stage->outcome is Err,
        stage->outcome->Err_0@ == FileFaultView::Reject(error@),
{
    Stage::Done { outcome: Err(FileFault::Reject(error)) }
}

/// Goes on with the samples that the movie box describes.
fn read_movie(bytes: Vec<u8>, normalize: bool, file_len: u64) -> (stage: Stage)
    requires
        bytes@.len() >= 8,
    ensures
        stage.wf(file_len as int),
        stage.phase() < 2,
        forall|file: Seq<u8>|
            file.len() == file_len ==> #[trigger] stage.pending(file) == match sized_box(
                bytes@,
                normalize,
            ) {
                Err(e) => Err(FileFaultView::Reject(e)),
                Ok(movie) => gains_from_movie(file, movie),
            },
{
    let mut movie = bytes;
    if normalize {
        match normalize_box_size(&mut movie) {
            Err(e) => {
                return reject(e);
            },
            Ok(()) => {},
        }
    }
    let (entries, stsd_pos) = match build_sample_table(&movie) {
        Err(f) => {
            return Stage::Done { outcome: Err(FileFault::from_fault(f)) };
        },
        Ok(found) => found,
    };
    let rate: u32 = match parse_audio_config(&movie, stsd_pos) {
        Err(f) => {
            return Stage::Done { outcome: Err(FileFault::from_fault(f)) };
        },
        Ok(rate) => rate,
    };
    next_sample(entries, rate, 0, Survey::new(), file_len)
}

/// A sample that does not lie in the file only counts as a warning.
proof fn lemma_skip_sample(
    file: Seq<u8>,
    entries: Seq<SampleEntry>,
    index: int,
    rate: u32,
    survey: SurveyView,
)
    requires
        0 <= index < entries.len(),
        entries[index].file_offset + entries[index].size > file.len(),
    ensures
        gains_from_samples(file, entries, index, rate, survey) == gains_from_samples(
            file,
            entries,
            index + 1,
            rate,
            surveyed(survey, None),
        ),
{
    reveal(gains_from_samples);
    assert(entry_gains(false, file, entries[index], index, rate) == Ok::<
        Option<Seq<AacGainLocation>>,
        FaultView,
    >(None));
}

/// Whether a sample lies in a file of the given length.
fn lies_in_file(entry: &SampleEntry, file_len: u64) -> (b: bool)
    ensures
        b == (entry.file_offset + entry.size <= file_len),
{
    entry.file_offset <= file_len && entry.size as u64 <= file_len - entry.file_offset
}

/// Goes on with the first sample from `index` on that lies in the file.
fn next_sample(
    entries: Vec<SampleEntry>,
    rate: u32,
    index: usize,
    survey: Survey,
    file_len: u64,
) -> (stage: Stage)
    requires
        index <= entries@.len() <= u32::MAX,
        survey.warnings <= index,
    ensures
        stage.wf(file_len as int),
        stage.phase() <= 1,
        stage.phase() == 1 ==> 0 <= stage.left(file_len as int) <= entries@.len() - index,
        forall|file: Seq<u8>|
            file.len() == file_len ==> #[trigger] stage.pending(file) == gains_from_samples(
                file,
                entries@,
                index as int,
                rate,
                survey@,
            ),
{
    let ghost before = survey@;
    let mut found = survey;
    let mut i: usize = index;
    while i < entries.len() && !lies_in_file(&entries[i], file_len)
        invariant
            index <= i <= entries@.len() <= u32::MAX,
            found.warnings <= i,
            forall|file: Seq<u8>|
                file.len() == file_len ==> #[trigger] gains_from_samples(
                    file,
                    entries@,
                    index as int,
                    rate,
                    before,
                ) == gains_from_samples(file, entries@, i as int, rate, found@),
        decreases entries@.len() - i,
    {
        let ghost skipped = found@;
        found.record(None);
        proof {
            assert forall|file: Seq<u8>| file.len() == file_len implies #[trigger]
            gains_from_samples(file, entries@, index as int, rate, before) == gains_from_samples(
                file,
                entries@,
                i + 1,
                rate,
                found@,
            ) by {
                lemma_skip_sample(file, entries@, i as int, rate, skipped);
            }
        }
        i = i + 1;
    }
    if i < entries.len() {
        return Stage::Samples { entries, rate, index: i, survey: found };
    }
    proof {
        reveal(gains_from_samples);
    }
    match found.finish() {
        Err(e) => reject(e),
        Ok(locations) => Stage::Done { outcome: Ok(locations) },
    }
}

} // verus!
