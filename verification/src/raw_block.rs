//! Reading a raw data block.
use crate::aac_codebooks::HuffmanTables;
use crate::bit_reader::{lemma_small_powers, skipped, BitReader};
use crate::bits::bit_len;
use crate::error::Error;
use crate::ics::{parse_ics, parse_ics_info, IcsInfo};
use crate::ics_syntax::ics;
use crate::location::AacGainLocation;
use crate::raw_syntax::{
    cpe, dse, element, fil, lemma_element, optional, pce, pce_counts, pce_lists, pce_mixdown,
    raw_data_block, sce, shared_layout, ID_CCE, ID_CPE, ID_DSE, ID_END, ID_FIL, ID_LFE, ID_PCE,
    ID_SCE,
};
use vstd::prelude::*;

verus! {

/// Reads a single channel element and returns its gain.
pub fn parse_sce(reader: &mut BitReader, sample_rate: u32, tables: &HuffmanTables) -> (r: Result<
    Vec<AacGainLocation>,
    Error,
>)
    requires
        old(reader).ready(),
        tables.wf(),
    ensures
        final(reader).wf(),
        r is Ok ==> final(reader).ready(),
        final(reader).data == old(reader).data,
        match sce(old(reader).data@, old(reader).pos(), tables@, sample_rate) {
            Ok((locs, p)) => r is Ok && r->Ok_0@ == locs && final(reader).pos() == p,
            Err((e, p)) => r is Err && r->Err_0@ == e && final(reader).pos() == p,
        },
{
    proof {
        reveal(sce);
    }
    reader.read_bits(4)?;
    let (loc, _) = parse_ics(reader, 0, false, None, sample_rate, tables)?;
    let mut locs: Vec<AacGainLocation> = Vec::new();
    locs.push(loc);
    assert(locs@ =~= seq![loc]);
    Ok(locs)
}

/// Reads the window layout that the channels of a pair share, where they
/// share one, and the stereo mask behind it.
fn parse_shared_info(reader: &mut BitReader) -> (r: Result<Option<IcsInfo>, Error>)
    requires
        old(reader).ready(),
    ensures
        final(reader).wf(),
        r is Ok ==> final(reader).ready(),
        final(reader).data == old(reader).data,
        match shared_layout(old(reader).data@, old(reader).pos()) {
            Ok((Some(info), p)) => r is Ok && r->Ok_0 is Some && r->Ok_0->Some_0.wf()
                && r->Ok_0->Some_0@ == info && final(reader).pos() == p,
            Ok((None, p)) => r is Ok && r->Ok_0 is None && final(reader).pos() == p,
            Err((e, p)) => r is Err && r->Err_0@ == e && final(reader).pos() == p,
        },
{
    proof {
        reveal(shared_layout);
        lemma_small_powers();
    }
    let common_window = reader.read_bit()?;
    if !common_window {
        return Ok(None);
    }
    let info = parse_ics_info(reader)?;
    let ms_mask_present = reader.read_bits(2)?;
    if ms_mask_present == 1 {
        assert(info.window_groups * info.max_sfb <= 8 * 64) by (nonlinear_arith)
            requires
                info.window_groups <= 8,
                info.max_sfb <= 64,
        ;
        reader.drop_fields(1, info.window_groups * info.max_sfb)?;
    }
    Ok(Some(info))
}

/// Reads a channel pair element and returns its two gains.
pub fn parse_cpe(reader: &mut BitReader, sample_rate: u32, tables: &HuffmanTables) -> (r: Result<
    Vec<AacGainLocation>,
    Error,
>)
    requires
        old(reader).ready(),
        tables.wf(),
    ensures
        final(reader).wf(),
        r is Ok ==> final(reader).ready(),
        final(reader).data == old(reader).data,
        match cpe(old(reader).data@, old(reader).pos(), tables@, sample_rate) {
            Ok((locs, p)) => r is Ok && r->Ok_0@ == locs && final(reader).pos() == p,
            Err((e, p)) => r is Err && r->Err_0@ == e && final(reader).pos() == p,
        },
{
    proof {
        reveal(cpe);
    }
    reader.read_bits(4)?;
    let shared_info = parse_shared_info(reader)?;
    let common_window = shared_info.is_some();
    let shared = shared_info.as_ref();
    let (loc1, _) = parse_ics(reader, 0, common_window, shared, sample_rate, tables)?;
    let (loc2, _) = parse_ics(reader, 1, common_window, shared, sample_rate, tables)?;
    let mut locs: Vec<AacGainLocation> = Vec::new();
    locs.push(loc1);
    locs.push(loc2);
    assert(locs@ =~= seq![loc1, loc2]);
    Ok(locs)
}

/// Skips a data stream element.
pub fn skip_dse(reader: &mut BitReader) -> (r: Result<(), Error>)
    requires
        old(reader).ready(),
    ensures
        final(reader).wf(),
        r is Ok ==> final(reader).ready(),
        final(reader).data == old(reader).data,
        match dse(old(reader).data@, old(reader).pos()) {
            Ok((_, p)) => r is Ok && final(reader).pos() == p,
            Err((e, p)) => r is Err && r->Err_0@ == e && final(reader).pos() == p,
        },
{
    proof {
        reveal(dse);
        lemma_small_powers();
    }
    reader.read_bits(4)?;
    let align = reader.read_bit()?;
    let mut count = reader.read_bits(8)? as usize;
    if count == 255 {
        count = count + reader.read_bits(8)? as usize;
    }
    if align {
        reader.byte_align();
    }
    reader.skip_bits(count * 8)?;
    Ok(())
}

/// Skips a fill element.
pub fn skip_fil(reader: &mut BitReader) -> (r: Result<(), Error>)
    requires
        old(reader).ready(),
    ensures
        final(reader).wf(),
        r is Ok ==> final(reader).ready(),
        final(reader).data == old(reader).data,
        match fil(old(reader).data@, old(reader).pos()) {
            Ok((_, p)) => r is Ok && final(reader).pos() == p,
            Err((e, p)) => r is Err && r->Err_0@ == e && final(reader).pos() == p,
        },
{
    proof {
        reveal(fil);
        lemma_small_powers();
    }
    let mut count = reader.read_bits(4)? as usize;
    if count == 15 {
        count = 14 + reader.read_bits(8)? as usize;
    }
    reader.skip_bits(count * 8)?;
    Ok(())
}

/// Reads a bit and, where it is set, a field of `n` bits.
fn skip_optional(reader: &mut BitReader, n: u8) -> (r: Result<(), Error>)
    requires
        old(reader).ready(),
        n < 64,
    ensures
        final(reader).wf(),
        r is Ok ==> final(reader).ready(),
        final(reader).data == old(reader).data,
        match optional(old(reader).data@, old(reader).pos(), n as nat) {
            Ok((_, p)) => r is Ok && final(reader).pos() == p,
            Err((e, p)) => r is Err && r->Err_0@ == e && final(reader).pos() == p,
        },
{
    if reader.read_bit()? {
        reader.read_bits(n)?;
    }
    Ok(())
}

/// Skips a program config element.
pub fn skip_pce(reader: &mut BitReader) -> (r: Result<(), Error>)
    requires
        old(reader).ready(),
    ensures
        final(reader).wf(),
        r is Ok ==> final(reader).ready(),
        final(reader).data == old(reader).data,
        match pce(old(reader).data@, old(reader).pos()) {
            Ok((_, p)) => r is Ok && final(reader).pos() == p,
            Err((e, p)) => r is Err && r->Err_0@ == e && final(reader).pos() == p,
        },
{
    proof {
        reveal(pce);
        reveal(pce_counts);
        reveal(pce_mixdown);
        reveal(pce_lists);
        lemma_small_powers();
    }
    reader.read_bits(4)?;
    reader.read_bits(2)?;
    reader.read_bits(4)?;
    let num_front = reader.read_bits(4)? as usize;
    let num_side = reader.read_bits(4)? as usize;
    let num_back = reader.read_bits(4)? as usize;
    let num_lfe = reader.read_bits(2)? as usize;
    let num_assoc_data = reader.read_bits(3)? as usize;
    let num_valid_cc = reader.read_bits(4)? as usize;
    skip_optional(reader, 4)?;
    skip_optional(reader, 4)?;
    skip_optional(reader, 3)?;
    reader.drop_fields(5, num_front)?;
    reader.drop_fields(5, num_side)?;
    reader.drop_fields(5, num_back)?;
    reader.drop_fields(4, num_lfe)?;
    reader.drop_fields(4, num_assoc_data)?;
    reader.drop_fields(5, num_valid_cc)?;
    reader.byte_align();
    let comment_len = reader.read_bits(8)? as usize;
    reader.skip_bits(comment_len * 8)?;
    Ok(())
}

/// Reads a raw data block and returns its gains in order.
pub fn parse_raw_data_block(
    reader: &mut BitReader,
    sample_rate: u32,
    tables: &HuffmanTables,
) -> (r: Result<Vec<AacGainLocation>, Error>)
    requires
        old(reader).ready(),
        tables.wf(),
    ensures
        final(reader).wf(),
        r is Ok ==> final(reader).ready(),
        final(reader).data == old(reader).data,
        match raw_data_block(
            old(reader).data@,
            old(reader).pos(),
            tables@,
            sample_rate,
            Seq::empty(),
        ) {
            Ok((locs, p)) => r is Ok && r->Ok_0@ == locs && final(reader).pos() == p,
            Err((e, p)) => r is Err && r->Err_0@ == e && final(reader).pos() == p,
        },
{
    let mut locations: Vec<AacGainLocation> = Vec::new();
    loop
        invariant
            tables.wf(),
            reader.ready(),
            reader.data == old(reader).data,
            raw_data_block(
                old(reader).data@,
                old(reader).pos(),
                tables@,
                sample_rate,
                Seq::empty(),
            ) == raw_data_block(
                reader.data@,
                reader.pos(),
                tables@,
                sample_rate,
                locations@,
            ),
        decreases bit_len(reader.data@) - reader.pos(),
    {
        proof {
            lemma_small_powers();
        }
        if reader.bits_remaining() < 3 {
            return Ok(locations);
        }
        let id = reader.read_bits(3)?;
        if id == ID_END {
            return Ok(locations);
        }
        let ghost before = locations@;
        proof {
            reveal(element);
            lemma_element(
                reader.data@,
                reader.data@,
                reader.pos(),
                tables@,
                sample_rate,
                id as int,
            );
        }
        if id == ID_SCE || id == ID_LFE {
            let mut locs = parse_sce(reader, sample_rate, tables)?;
            locations.append(&mut locs);
        } else if id == ID_CPE {
            let mut locs = parse_cpe(reader, sample_rate, tables)?;
            locations.append(&mut locs);
        } else if id == ID_CCE {
            return Err(Error::aac_parse("CCE element found - sample skipped"));
        } else if id == ID_DSE {
            skip_dse(reader)?;
            assert(before + Seq::<AacGainLocation>::empty() =~= before);
        } else if id == ID_PCE {
            skip_pce(reader)?;
            assert(before + Seq::<AacGainLocation>::empty() =~= before);
        } else {
            assert(id == ID_FIL);
            skip_fil(reader)?;
            assert(before + Seq::<AacGainLocation>::empty() =~= before);
        }
    }
}

} // verus!
