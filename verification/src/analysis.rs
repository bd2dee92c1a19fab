//! The search for all `global_gain` fields of a file.
use crate::aac_codebooks::{lemma_standard_books_valid, standard_books, HuffmanTables};
use crate::audio_config::{audio_rate, parse_audio_config};
use crate::bit_reader::{readable_len, BitReader};
use crate::bits::{bit, bit_len, bits_value, lemma_bits_agree};
use crate::error::{Error, ErrorView, Fault, FaultView};
use crate::location::AacGainLocation;
use crate::mp4::{is_mp4, looks_like_mp4, STSC, STSZ};
use crate::raw_block::parse_raw_data_block;
use crate::raw_syntax::{gains_within, lemma_raw_data_block, raw_data_block};
use crate::sample_table::{
    build_sample_table, chunk_offsets, lemma_layout, movie_stbl, required_box, sample_table,
    stbl_samples, stsc_runs, stsz_sizes, SampleEntry,
};
use vstd::prelude::*;
use vstd::slice::slice_subrange;

verus! {

/// A gain of the sample number `index`, which starts at `file_offset`.
pub open spec fn in_file(loc: AacGainLocation, index: int, file_offset: u64) -> AacGainLocation {
    AacGainLocation {
        sample_index: index as u32,
        file_offset: (file_offset + loc.sample_byte_offset) as u64,
        ..loc
    }
}

/// The gains of the sample number `index`, which starts at `file_offset`, if
/// it can be parsed.
pub open spec fn sample_gains(
    sample: Seq<u8>,
    rate: u32,
    index: int,
    file_offset: u64,
) -> Option<Seq<AacGainLocation>> {
    match raw_data_block(sample, 0, standard_books(), rate, Seq::empty()) {
        Ok((locs, _)) => Some(
            Seq::new(locs.len(), |k: int| in_file(locs[k], index, file_offset)),
        ),
        Err(_) => None,
    }
}

/// What holds of the gains of a sample: they lie in it, one behind the other,
/// and each was found with the value that the bits spell.
pub open spec fn gains_in_sample(
    sample: Seq<u8>,
    index: int,
    file_offset: u64,
    locs: Seq<AacGainLocation>,
) -> bool {
    &&& forall|k: int|
        0 <= k < locs.len() ==> {
            &&& 8 * file_offset <= (#[trigger] locs[k]).file_bit()
            &&& locs[k].file_bit() + 8 <= 8 * file_offset + bit_len(sample)
            &&& locs[k].bit_offset < 8
            &&& locs[k].sample_index == index
            &&& locs[k].file_offset == file_offset + locs[k].sample_byte_offset
            &&& locs[k].original_gain == bits_value(sample, locs[k].sample_bit(), 8)
        }
    &&& forall|j: int, k: int|
        0 <= j < k < locs.len() ==> (#[trigger] locs[j]).file_bit() + 8 <= (
        #[trigger] locs[k]).file_bit()
}

/// The gains of a sample lie in it, one behind the other, and each was found
/// with the value that the bits spell.
pub proof fn lemma_sample_gains(sample: Seq<u8>, rate: u32, index: int, file_offset: u64)
    requires
        sample.len() <= u32::MAX,
        file_offset + sample.len() <= u64::MAX,
        0 <= index <= u32::MAX,
    ensures
        sample_gains(sample, rate, index, file_offset) matches Some(locs) ==> gains_in_sample(
            sample,
            index,
            file_offset,
            locs,
        ),
{
    lemma_standard_books_valid();
    lemma_raw_data_block(sample, 0, standard_books(), rate, Seq::empty());
    if let Ok((found, q)) = raw_data_block(sample, 0, standard_books(), rate, Seq::empty()) {
        assert(gains_within(sample, found, 0, 0, q));
        let locs = Seq::new(found.len(), |k: int| in_file(found[k], index, file_offset));
        assert forall|k: int| 0 <= k < locs.len() implies {
            &&& 8 * file_offset <= (#[trigger] locs[k]).file_bit()
            &&& locs[k].file_bit() + 8 <= 8 * file_offset + bit_len(sample)
            &&& locs[k].bit_offset < 8
            &&& locs[k].sample_index == index
            &&& locs[k].file_offset == file_offset + locs[k].sample_byte_offset
            &&& locs[k].original_gain == bits_value(sample, locs[k].sample_bit(), 8)
        } by {
            assert(0 <= found[k].sample_bit());
        }
        assert forall|j: int, k: int| 0 <= j < k < locs.len() implies (
        #[trigger] locs[j]).file_bit() + 8 <= (#[trigger] locs[k]).file_bit() by {
            assert(found[j].sample_bit() + 8 <= found[k].sample_bit());
        }
    }
}

/// Finds the gains of the sample number `index`, which starts at `file_offset`.
/// There are none to give where the sample cannot be parsed.
pub fn locate_gains(
    sample: &[u8],
    rate: u32,
    index: u32,
    file_offset: u64,
    tables: &HuffmanTables,
) -> (r: Result<Option<Vec<AacGainLocation>>, Fault>)
    requires
        tables.wf(),
        tables@ == standard_books(),
        sample@.len() <= u32::MAX,
        file_offset + sample@.len() <= u64::MAX,
    ensures
        readable_len(sample@.len() as int) ==> match sample_gains(
            sample@,
            rate,
            index as int,
            file_offset,
        ) {
            Some(locs) => r matches Ok(Some(found)) && found@ == locs,
            None => r is Ok && r->Ok_0 is None,
        },
        !readable_len(sample@.len() as int) ==> r is Err && r->Err_0@ == FaultView::OutOfRange,
{
    if sample.len() > (usize::MAX - 0x2000) / 8 {
        return Err(Fault::OutOfRange);
    }
    let mut reader = BitReader::new(sample);
    let found = match parse_raw_data_block(&mut reader, rate, tables) {
        Err(_) => {
            return Ok(None);
        },
        Ok(found) => found,
    };
    proof {
        lemma_raw_data_block(sample@, 0, standard_books(), rate, Seq::empty());
    }
    let ghost q = reader.pos();
    let mut locations: Vec<AacGainLocation> = Vec::new();
    let mut i: usize = 0;
    while i < found.len()
        invariant
            i <= found@.len(),
            gains_within(sample@, found@, 0, 0, q),
            q <= bit_len(sample@),
            file_offset + sample@.len() <= u64::MAX,
            locations@ == Seq::new(
                i as nat,
                |k: int| in_file(found@[k], index as int, file_offset),
            ),
        decreases found@.len() - i,
    {
        let loc = found[i];
        assert(found@[i as int].sample_bit() + 8 <= q);
        locations.push(
            AacGainLocation {
                sample_index: index,
                file_offset: file_offset + loc.sample_byte_offset as u64,
                sample_byte_offset: loc.sample_byte_offset,
                bit_offset: loc.bit_offset,
                channel: loc.channel,
                original_gain: loc.original_gain,
            },
        );
        i = i + 1;
    }
    Ok(Some(locations))
}

/// What a search through samples has found: the gains, and the number of
/// samples that could not be read or parsed.
pub ghost struct SurveyView {
    pub locations: Seq<AacGainLocation>,
    pub warnings: int,
}

/// What a search has found once another sample was looked at.
pub open spec fn surveyed(
    before: SurveyView,
    gains: Option<Seq<AacGainLocation>>,
) -> SurveyView {
    match gains {
        Some(locs) => SurveyView { locations: before.locations + locs, ..before },
        None => SurveyView { warnings: before.warnings + 1, ..before },
    }
}

/// The outcome of a search: the gains, unless there are none because of
/// samples that could not be read or parsed.
pub open spec fn verdict(survey: SurveyView) -> Result<Seq<AacGainLocation>, ErrorView> {
    if survey.locations.len() == 0 && survey.warnings > 0 {
        Err(ErrorView::AacParseFailure { warnings: survey.warnings as u32 })
    } else {
        Ok(survey.locations)
    }
}

/// A search through samples.
pub struct Survey {
    pub locations: Vec<AacGainLocation>,
    pub warnings: u32,
}

impl View for Survey {
    type V = SurveyView;

    open spec fn view(&self) -> SurveyView {
        SurveyView { locations: self.locations@, warnings: self.warnings as int }
    }
}

impl Survey {
    /// A search that has not looked at any sample yet.
    pub fn new() -> (survey: Survey)
        ensures
            survey@ == nothing_found(),
    {
        Survey { locations: Vec::new(), warnings: 0 }
    }

    /// Takes in what was found in another sample.
    pub fn record(&mut self, gains: Option<Vec<AacGainLocation>>)
        requires
            old(self).warnings < u32::MAX,
        ensures
            final(self)@ == surveyed(
                old(self)@,
                match gains {
                    Some(locs) => Some(locs@),
                    None => None,
                },
            ),
    {
        match gains {
            Some(mut locs) => {
                self.locations.append(&mut locs);
            },
            None => {
                self.warnings = self.warnings + 1;
            },
        }
    }

    /// Ends the search.
    pub fn finish(self) -> (r: Result<Vec<AacGainLocation>, Error>)
        ensures
            match verdict(self@) {
                Ok(locs) => r is Ok && r->Ok_0@ == locs,
                Err(e) => r is Err && r->Err_0@ == e,
            },
    {
        if self.locations.len() == 0 && self.warnings > 0 {
            Err(Error::AacParseFailure { warnings: self.warnings })
        } else {
            Ok(self.locations)
        }
    }
}

/// The gains of the sample number `index` of a file, if the sample lies in the
/// file and can be parsed. In memory, a position that cannot be held is a
/// fault.
pub open spec fn entry_gains(
    in_memory: bool,
    data: Seq<u8>,
    entry: SampleEntry,
    index: int,
    rate: u32,
) -> Result<Option<Seq<AacGainLocation>>, FaultView> {
    let end = entry.file_offset + entry.size;
    if in_memory && end > usize::MAX {
        Err(FaultView::OutOfRange)
    } else if end > data.len() {
        Ok(None)
    } else if !readable_len(entry.size as int) {
        Err(FaultView::OutOfRange)
    } else {
        Ok(
            sample_gains(
                data.subrange(entry.file_offset as int, end),
                rate,
                index,
                entry.file_offset,
            ),
        )
    }
}

/// What a search through the samples of a file has found at its end, when it
/// has found `survey` in the samples before `index`.
pub open spec fn survey_from(
    in_memory: bool,
    data: Seq<u8>,
    entries: Seq<SampleEntry>,
    index: int,
    rate: u32,
    survey: SurveyView,
) -> Result<SurveyView, FaultView>
    decreases entries.len() - index,
{
    if index >= entries.len() {
        Ok(survey)
    } else {
        match entry_gains(in_memory, data, entries[index], index, rate) {
            Err(f) => Err(f),
            Ok(gains) => survey_from(
                in_memory,
                data,
                entries,
                index + 1,
                rate,
                surveyed(survey, gains),
            ),
        }
    }
}

/// What a search has found that has not looked at any sample yet.
pub open spec fn nothing_found() -> SurveyView {
    SurveyView { locations: Seq::empty(), warnings: 0 }
}

/// All gains of a file held in memory.
pub open spec fn gains_of(data: Seq<u8>) -> Result<Seq<AacGainLocation>, FaultView> {
    if !looks_like_mp4(data) {
        Err(FaultView::Reject(ErrorView::NotMp4))
    } else {
        match sample_table(data) {
            Err(f) => Err(f),
            Ok((entries, stsd_pos)) => match audio_rate(data, stsd_pos) {
                Err(f) => Err(f),
                Ok(rate) => match survey_from(true, data, entries, 0, rate, nothing_found()) {
                    Err(f) => Err(f),
                    Ok(survey) => match verdict(survey) {
                        Err(e) => Err(FaultView::Reject(e)),
                        Ok(locs) => Ok(locs),
                    },
                },
            },
        }
    }
}

/// Whether every gain lies in the data, and was found with the value that the
/// bits spell.
pub open spec fn gains_read(data: Seq<u8>, locs: Seq<AacGainLocation>) -> bool {
    forall|k: int|
        0 <= k < locs.len() ==> {
            &&& (#[trigger] locs[k]).bit_offset < 8
            &&& locs[k].file_bit() + 8 <= bit_len(data)
            &&& locs[k].original_gain == bits_value(data, locs[k].file_bit(), 8)
        }
}

/// The bits of a sample are bits of the file.
pub proof fn lemma_sample_bits(data: Seq<u8>, start: int, end: int, pos: int, n: nat)
    requires
        0 <= start <= end <= data.len(),
        0 <= pos,
        pos + n <= 8 * (end - start),
    ensures
        bits_value(data.subrange(start, end), pos, n) == bits_value(data, 8 * start + pos, n),
{
    let sample = data.subrange(start, end);
    assert forall|i: int| 0 <= i < n implies #[trigger] bit(sample, pos + i) == bit(
        data,
        8 * start + pos + i,
    ) by {
        assert((8 * start + pos + i) / 8 == start + (pos + i) / 8);
        assert((8 * start + pos + i) % 8 == (pos + i) % 8);
    }
    lemma_bits_agree(sample, pos, data, 8 * start + pos, n);
}

/// The gains that a search finds lie in the data, and each was found with the
/// value that the bits spell.
pub proof fn lemma_survey_read(
    in_memory: bool,
    data: Seq<u8>,
    entries: Seq<SampleEntry>,
    index: int,
    rate: u32,
    survey: SurveyView,
)
    requires
        0 <= index,
        entries.len() <= u32::MAX,
        in_memory || data.len() <= u64::MAX,
        gains_read(data, survey.locations),
    ensures
        survey_from(in_memory, data, entries, index, rate, survey) matches Ok(found) ==> gains_read(
            data,
            found.locations,
        ),
    decreases entries.len() - index,
{
    if index < entries.len() {
        let entry = entries[index];
        if let Ok(gains) = entry_gains(in_memory, data, entry, index, rate) {
            if let Some(locs) = gains {
                let start = entry.file_offset as int;
                let end = entry.file_offset + entry.size;
                let sample = data.subrange(start, end);
                lemma_sample_gains(sample, rate, index, entry.file_offset);
                assert forall|k: int| 0 <= k < locs.len() implies {
                    &&& (#[trigger] locs[k]).bit_offset < 8
                    &&& locs[k].file_bit() + 8 <= bit_len(data)
                    &&& locs[k].original_gain == bits_value(data, locs[k].file_bit(), 8)
                } by {
                    lemma_sample_bits(data, start, end, locs[k].sample_bit(), 8);
                }
            }
            lemma_survey_read(
                in_memory,
                data,
                entries,
                index + 1,
                rate,
                surveyed(survey, gains),
            );
        }
    }
}

/// There are no more samples than the 32-bit number of sizes says.
pub proof fn lemma_sample_count(data: Seq<u8>)
    ensures
        sample_table(data) matches Ok((entries, _)) ==> entries.len() <= u32::MAX,
{
    reveal(sample_table);
    reveal(stbl_samples);
    if let Ok((start, size, stsd_pos)) = movie_stbl(data) {
        if let Ok(stsz) = required_box(data, start, size, STSZ, "no stsz box"@) {
            if let Ok(sizes) = stsz_sizes(data, stsz) {
                if let Ok(stsc) = required_box(data, start, size, STSC, "no stsc box"@) {
                    if let Ok(runs) = stsc_runs(data, stsc) {
                        if let Ok(offsets) = chunk_offsets(data, start, size) {
                            lemma_layout(sizes, runs, offsets, 0, 0);
                        }
                    }
                }
            }
        }
    }
}

/// The gains of a file lie in it, and each was found with the value that the
/// bits spell.
pub proof fn lemma_gains_read(data: Seq<u8>)
    ensures
        gains_of(data) matches Ok(locs) ==> gains_read(data, locs),
{
    lemma_sample_count(data);
    if let Ok((entries, stsd_pos)) = sample_table(data) {
        if let Ok(rate) = audio_rate(data, stsd_pos) {
            lemma_survey_read(true, data, entries, 0, rate, nothing_found());
        }
    }
}

/// Finds all gains of a file held in memory.
pub fn analyze_locations(data: &[u8]) -> (r: Result<Vec<AacGainLocation>, Fault>)
    ensures
        match gains_of(data@) {
            Ok(locs) => r is Ok && r->Ok_0@ == locs,
            Err(f) => r is Err && r->Err_0@ == f,
        },
{
    if !is_mp4(data) {
        return Err(Fault::Reject(Error::NotMp4));
    }
    let (entries, stsd_pos) = match build_sample_table(data) {
        Err(f) => {
            return Err(f);
        },
        Ok(found) => found,
    };
    let rate: u32 = match parse_audio_config(data, stsd_pos) {
        Err(f) => {
            return Err(f);
        },
        Ok(rate) => rate,
    };
    let tables = HuffmanTables::standard();
    let mut survey = Survey::new();
    let mut idx: usize = 0;
    while idx < entries.len()
        invariant
            idx <= entries@.len() <= u32::MAX,
            tables.wf(),
            tables@ == standard_books(),
            survey@.warnings <= idx,
            survey_from(true, data@, entries@, 0, rate, nothing_found()) == survey_from(
                true,
                data@,
                entries@,
                idx as int,
                rate,
                survey@,
            ),
            looks_like_mp4(data@),
            sample_table(data@) == Ok::<_, FaultView>((entries@, stsd_pos as int)),
            audio_rate(data@, stsd_pos as int) == Ok::<_, FaultView>(rate),
        decreases entries@.len() - idx,
    {
        let entry = entries[idx];
        if entry.file_offset > usize::MAX as u64 || entry.size as usize > usize::MAX
            - entry.file_offset as usize {
            return Err(Fault::OutOfRange);
        }
        let sample_start: usize = entry.file_offset as usize;
        let sample_end: usize = sample_start + entry.size as usize;
        if sample_end > data.len() {
            survey.record(None);
        } else {
            let sample = slice_subrange(data, sample_start, sample_end);
            match locate_gains(sample, rate, idx as u32, entry.file_offset, &tables) {
                Err(f) => {
                    return Err(f);
                },
                Ok(gains) => {
                    survey.record(gains);
                },
            }
        }
        idx = idx + 1;
    }
    match survey.finish() {
        Err(e) => Err(Fault::Reject(e)),
        Ok(locations) => Ok(locations),
    }
}

} // verus!
