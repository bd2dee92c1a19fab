//! A movie box whose boxes and tables all lie in it, and what such a box leads
//! to wherever it lies in a file.
use crate::audio_config::{audio_rate, desc_length, descriptor, specific_config};
use crate::error::FaultView;
use crate::mp4::{
    be32, box_in_container, container_box, header_at, least, lemma_box_in_container, room,
    top_level_box, BoxHeader, CO64, ESDS, MDIA, MINF, MOOV, STBL, STCO, STSC, STSD, STSZ, TRAK,
};
use crate::relocation::{moved, stbl_moved};
use crate::sample_table::{
    aac_stbl_in_trak, audio_stbl, chunk_offsets, content_in_container, content_range,
    movie_stbl, offsets_at, required_box, sample_table, stbl_samples, stsc_runs,
    stsz_sizes, SampleEntry,
};
use vstd::prelude::*;

verus! {

/// Whether every box that a search from `pos` up to `end` meets lies in `m`.
pub open spec fn boxes_inside(m: Seq<u8>, pos: int, end: int, box_type: u32) -> bool
    decreases room(pos, end),
{
    pos + 8 > end || match header_at(m, pos) {
        Ok(Some(header)) => pos + header.size <= m.len() && (header.box_type == box_type
            || header.size == 0 || boxes_inside(m, pos + header.size, end, box_type)),
        _ => false,
    }
}

/// Whether a container, and every box that a search in it meets, lie in `m`.
pub open spec fn search_inside(m: Seq<u8>, start: int, size: int, box_type: u32) -> bool {
    start + size <= m.len() && boxes_inside(m, start, start + size, box_type)
}

/// Whether every box on the way to the sample table of a track lies in `m`.
pub open spec fn trak_inside(m: Seq<u8>, header: BoxHeader, pos: int) -> bool {
    match content_range(pos, header) {
        Err(_) => true,
        Ok((s, n)) => search_inside(m, s, n, MDIA) && match content_in_container(m, s, n, MDIA) {
            Ok(Some((s, n))) => search_inside(m, s, n, MINF) && match content_in_container(
                m,
                s,
                n,
                MINF,
            ) {
                Ok(Some((s, n))) => search_inside(m, s, n, STBL) && match content_in_container(
                    m,
                    s,
                    n,
                    STBL,
                ) {
                    Ok(Some((s, n))) => search_inside(m, s, n, STSD) && match box_in_container(
                        m,
                        s,
                        n,
                        STSD,
                    ) {
                        Ok(Some((pos, stsd))) => pos + stsd.header_size + 16 <= m.len(),
                        _ => true,
                    },
                    _ => true,
                },
                _ => true,
            },
            _ => true,
        },
    }
}

/// Whether every track from `search` on, up to the one of AAC audio, lies in
/// `m` with the boxes on the way to its sample table.
pub open spec fn tracks_inside(m: Seq<u8>, search: int, end: int) -> bool
    decreases room(search, end),
    when 0 <= search
{
    search >= end || search_inside(m, search, end - search, TRAK) && match box_in_container(
        m,
        search,
        end - search,
        TRAK,
    ) {
        Ok(Some((pos, header))) => {
            proof {
                lemma_box_in_container(m, search, end - search, TRAK);
            }
            trak_inside(m, header, pos) && (aac_stbl_in_trak(m, header, pos) matches Ok(None)
                ==> header.size == 0 || tracks_inside(m, pos + header.size, end))
        },
        _ => true,
    }
}

/// Whether the sample sizes lie in `m`.
pub open spec fn sizes_inside(m: Seq<u8>, content: int) -> bool {
    &&& content + 12 <= m.len()
    &&& be32(m, content + 4) == 0 ==> content + 12 + 4 * be32(m, content + 8) <= m.len()
}

/// Whether the runs of chunks lie in `m`.
pub open spec fn runs_inside(m: Seq<u8>, content: int) -> bool {
    &&& content + 8 <= m.len()
    &&& be32(m, content + 4) > 0 ==> content + 4 + 12 * be32(m, content + 4) <= m.len()
}

/// Whether chunk offsets of `width` bytes lie in `m`.
pub open spec fn offsets_inside(m: Seq<u8>, content: int, width: int) -> bool {
    &&& content + 8 <= m.len()
    &&& content + 8 + width * be32(m, content + 4) <= m.len()
}

/// Whether the chunk offsets of a sample table, and the boxes on the way to
/// them, lie in `m`.
pub open spec fn chunks_inside(m: Seq<u8>, start: int, size: int) -> bool {
    search_inside(m, start, size, STCO) && match box_in_container(m, start, size, STCO) {
        Ok(Some((pos, header))) => offsets_inside(m, pos + header.header_size, 4),
        _ => search_inside(m, start, size, CO64) && match box_in_container(
            m,
            start,
            size,
            CO64,
        ) {
            Ok(Some((pos, header))) => offsets_inside(m, pos + header.header_size, 8),
            _ => true,
        },
    }
}

/// Whether all tables of a sample table, and the boxes on the way to them, lie
/// in `m`.
#[verifier::opaque]
pub open spec fn tables_inside(m: Seq<u8>, start: int, size: int) -> bool {
    search_inside(m, start, size, STSZ) && match required_box(
        m,
        start,
        size,
        STSZ,
        "no stsz box"@,
    ) {
        Ok(content) => sizes_inside(m, content) && search_inside(m, start, size, STSC)
            && match required_box(m, start, size, STSC, "no stsc box"@) {
            Ok(content) => runs_inside(m, content) && chunks_inside(m, start, size),
            Err(_) => true,
        },
        Err(_) => true,
    }
}

/// Whether the sample description, and the boxes on the way to its sample
/// rate, lie in `m`.
#[verifier::opaque]
pub open spec fn rate_inside(m: Seq<u8>, stsd_pos: int) -> bool {
    let start = stsd_pos + 16;
    let end = start + be32(m, start);
    start + 36 <= m.len() && (start + 36 < end ==> search_inside(
        m,
        start + 36,
        end - (start + 36),
        ESDS,
    ))
}

/// Whether every box and every table that the movie box `m` leads to lies in
/// it.
pub open spec fn movie_inside(m: Seq<u8>) -> bool {
    match header_at(m, 0) {
        Ok(Some(header)) => header.box_type == MOOV && match content_range(0, header) {
            Ok((s, n)) => s + n <= m.len() && tracks_inside(m, s, s + n) && match audio_stbl(
                m,
                s,
                s + n,
            ) {
                Ok((start, size, stsd_pos)) => tables_inside(m, start, size) && (stbl_samples(
                    m,
                    start,
                    size,
                ) is Ok ==> rate_inside(m, stsd_pos)),
                Err(_) => true,
            },
            Err(_) => true,
        },
        _ => false,
    }
}

/// Whether the bytes of `m` stand at `p` in a file that fits in memory.
pub open spec fn stands_at(file: Seq<u8>, p: int, m: Seq<u8>) -> bool {
    &&& 0 <= p
    &&& p + m.len() <= file.len()
    &&& file.len() + 8 <= usize::MAX
    &&& forall|i: int| 0 <= i < m.len() ==> #[trigger] m[i] == file[p + i]
}

/// The head of a box reads the same where the bytes stand in a file.
proof fn lemma_head_at(m: Seq<u8>, file: Seq<u8>, p: int, pos: int)
    requires
        stands_at(file, p, m),
        0 <= pos,
        header_at(m, pos) matches Ok(Some(_)),
    ensures
        header_at(file, p + pos) == header_at(m, pos),
{
}

/// A search meets the same boxes where the bytes stand in a file.
proof fn lemma_boxes_at(m: Seq<u8>, file: Seq<u8>, p: int, pos: int, end: int, box_type: u32)
    requires
        stands_at(file, p, m),
        0 <= pos <= m.len(),
        end <= m.len(),
        boxes_inside(m, pos, end, box_type),
    ensures
        container_box(file, p + pos, p + end, box_type) == moved(
            container_box(m, pos, end, box_type),
            p,
        ),
        container_box(m, pos, end, box_type) is Ok,
        container_box(m, pos, end, box_type) matches Ok(Some((q, header))) ==> 0 <= q && q
            + header.size <= m.len(),
    decreases room(pos, end),
{
    if pos + 8 <= end {
        lemma_head_at(m, file, p, pos);
        if let Ok(Some(header)) = header_at(m, pos) {
            if header.box_type != box_type && header.size != 0 {
                lemma_boxes_at(m, file, p, pos + header.size, end, box_type);
            }
        }
    }
}

/// A search in a container finds the same box where the bytes stand in a file.
proof fn lemma_search_at(m: Seq<u8>, file: Seq<u8>, p: int, start: int, size: int, box_type: u32)
    requires
        stands_at(file, p, m),
        0 <= start <= m.len(),
        search_inside(m, start, size, box_type),
    ensures
        box_in_container(file, p + start, size, box_type) == moved(
            box_in_container(m, start, size, box_type),
            p,
        ),
        box_in_container(m, start, size, box_type) is Ok,
        box_in_container(m, start, size, box_type) matches Ok(Some((q, header))) ==> start <= q
            && q + header.size <= m.len() && q + header.header_size <= m.len(),
{
    reveal(box_in_container);
    lemma_boxes_at(m, file, p, start, start + size, box_type);
    lemma_box_in_container(m, start, size, box_type);
}

/// The content of a box is the same where the bytes stand in a file.
proof fn lemma_content_at(m: Seq<u8>, file: Seq<u8>, p: int, start: int, size: int, box_type: u32)
    requires
        stands_at(file, p, m),
        0 <= start <= m.len(),
        search_inside(m, start, size, box_type),
    ensures
        content_in_container(file, p + start, size, box_type) == moved(
            content_in_container(m, start, size, box_type),
            p,
        ),
        content_in_container(m, start, size, box_type) matches Ok(Some((s, n))) ==> start <= s
            <= m.len(),
{
    lemma_search_at(m, file, p, start, size, box_type);
}

/// The sample table of a track is the same where the bytes stand in a file.
proof fn lemma_trak_at(m: Seq<u8>, file: Seq<u8>, p: int, header: BoxHeader, pos: int)
    requires
        stands_at(file, p, m),
        0 <= pos,
        pos + header.header_size <= m.len(),
        trak_inside(m, header, pos),
    ensures
        match aac_stbl_in_trak(m, header, pos) {
            Ok(Some(found)) => aac_stbl_in_trak(file, header, p + pos) == Ok::<_, FaultView>(
                Some(stbl_moved(found, p)),
            ) && 0 <= found.0 <= m.len() && 0 <= found.2,
            other => aac_stbl_in_trak(file, header, p + pos) == other,
        },
{
    if let Ok((s, n)) = content_range(pos, header) {
        lemma_content_at(m, file, p, s, n, MDIA);
        if let Ok(Some((s, n))) = content_in_container(m, s, n, MDIA) {
            lemma_content_at(m, file, p, s, n, MINF);
            if let Ok(Some((s, n))) = content_in_container(m, s, n, MINF) {
                lemma_content_at(m, file, p, s, n, STBL);
                if let Ok(Some((s, n))) = content_in_container(m, s, n, STBL) {
                    lemma_search_at(m, file, p, s, n, STSD);
                }
            }
        }
    }
}

/// The sample table of the AAC track is the same where the bytes stand in a
/// file.
proof fn lemma_tracks_at(m: Seq<u8>, file: Seq<u8>, p: int, search: int, end: int)
    requires
        stands_at(file, p, m),
        0 <= search,
        end <= m.len(),
        tracks_inside(m, search, end),
    ensures
        match audio_stbl(m, search, end) {
            Ok(found) => audio_stbl(file, p + search, p + end) == Ok::<_, FaultView>(
                stbl_moved(found, p),
            ) && 0 <= found.0 <= m.len() && 0 <= found.2,
            other => audio_stbl(file, p + search, p + end) == other,
        },
    decreases room(search, end),
{
    if search < end {
        lemma_search_at(m, file, p, search, end - search, TRAK);
        if let Ok(Some((pos, header))) = box_in_container(m, search, end - search, TRAK) {
            lemma_box_in_container(m, search, end - search, TRAK);
            lemma_trak_at(m, file, p, header, pos);
            if aac_stbl_in_trak(m, header, pos) == Ok::<_, FaultView>(None::<(int, int, int)>)
                && header.size != 0 {
                lemma_tracks_at(m, file, p, pos + header.size, end);
            }
        }
    }
}

/// Sample sizes are the same where the bytes stand in a file.
proof fn lemma_sizes_at(m: Seq<u8>, file: Seq<u8>, p: int, content: int)
    requires
        stands_at(file, p, m),
        0 <= content,
        sizes_inside(m, content),
    ensures
        stsz_sizes(file, p + content) == stsz_sizes(m, content),
        stsz_sizes(m, content) is Ok,
{
    if let Ok(a) = stsz_sizes(file, p + content) {
        if let Ok(b) = stsz_sizes(m, content) {
            assert(a =~= b);
        }
    }
}

/// Runs of chunks are the same where the bytes stand in a file.
proof fn lemma_runs_at(m: Seq<u8>, file: Seq<u8>, p: int, content: int)
    requires
        stands_at(file, p, m),
        0 <= content,
        runs_inside(m, content),
    ensures
        stsc_runs(file, p + content) == stsc_runs(m, content),
        stsc_runs(m, content) is Ok,
{
    if let Ok(a) = stsc_runs(file, p + content) {
        if let Ok(b) = stsc_runs(m, content) {
            assert(a =~= b);
        }
    }
}

/// Chunk offsets are the same where the bytes stand in a file.
proof fn lemma_offsets_at(m: Seq<u8>, file: Seq<u8>, p: int, content: int, width: int)
    requires
        stands_at(file, p, m),
        0 <= content,
        width == 4 || width == 8,
        offsets_inside(m, content, width),
    ensures
        offsets_at(file, p + content, width) == offsets_at(m, content, width),
{
    if let Ok(a) = offsets_at(file, p + content, width) {
        if let Ok(b) = offsets_at(m, content, width) {
            assert(a =~= b);
        }
    }
}

/// The chunk offsets of a sample table are the same where the bytes stand in a
/// file.
proof fn lemma_chunks_at(m: Seq<u8>, file: Seq<u8>, p: int, start: int, size: int)
    requires
        stands_at(file, p, m),
        0 <= start <= m.len(),
        chunks_inside(m, start, size),
    ensures
        chunk_offsets(file, p + start, size) == chunk_offsets(m, start, size),
{
    lemma_search_at(m, file, p, start, size, STCO);
    match box_in_container(m, start, size, STCO) {
        Ok(Some((pos, header))) => {
            lemma_offsets_at(m, file, p, pos + header.header_size, 4);
        },
        _ => {
            lemma_search_at(m, file, p, start, size, CO64);
            if let Ok(Some((pos, header))) = box_in_container(m, start, size, CO64) {
                lemma_offsets_at(m, file, p, pos + header.header_size, 8);
            }
        },
    }
}

/// A box that a sample table must hold is the same where the bytes stand in a
/// file.
proof fn lemma_required_at(
    m: Seq<u8>,
    file: Seq<u8>,
    p: int,
    start: int,
    size: int,
    box_type: u32,
    missing: Seq<char>,
)
    requires
        stands_at(file, p, m),
        0 <= start <= m.len(),
        search_inside(m, start, size, box_type),
    ensures
        match required_box(m, start, size, box_type, missing) {
            Ok(content) => required_box(file, p + start, size, box_type, missing) == Ok::<
                _,
                FaultView,
            >(p + content) && 0 <= content,
            Err(f) => required_box(file, p + start, size, box_type, missing) == Err::<int, _>(f),
        },
{
    lemma_search_at(m, file, p, start, size, box_type);
}

/// A sample table describes the same samples where the bytes stand in a file.
proof fn lemma_tables_at(m: Seq<u8>, file: Seq<u8>, p: int, start: int, size: int)
    requires
        stands_at(file, p, m),
        0 <= start <= m.len(),
        tables_inside(m, start, size),
    ensures
        stbl_samples(file, p + start, size) == stbl_samples(m, start, size),
{
    reveal(tables_inside);
    reveal(stbl_samples);
    lemma_required_at(m, file, p, start, size, STSZ, "no stsz box"@);
    if let Ok(content) = required_box(m, start, size, STSZ, "no stsz box"@) {
        lemma_sizes_at(m, file, p, content);
        lemma_required_at(m, file, p, start, size, STSC, "no stsc box"@);
        if let Ok(content) = required_box(m, start, size, STSC, "no stsc box"@) {
            lemma_runs_at(m, file, p, content);
            lemma_chunks_at(m, file, p, start, size);
        }
    }
}

/// The length of a descriptor is the same where the bytes stand in a file.
proof fn lemma_desc_length_at(
    m: Seq<u8>,
    file: Seq<u8>,
    p: int,
    pos: int,
    end: int,
    len: int,
    consumed: int,
)
    requires
        stands_at(file, p, m),
        0 <= pos,
        end <= m.len(),
        0 <= len,
    ensures
        desc_length(file, p + pos, p + end, len, consumed) == desc_length(
            m,
            pos,
            end,
            len,
            consumed,
        ),
        desc_length(m, pos, end, len, consumed) matches Ok(Some((k, n))) ==> consumed < n && pos
            + n - consumed <= end && 0 <= k,
    decreases 4 - consumed,
{
    if pos < end && !(m[pos] < 128 || consumed + 1 >= 4) {
        lemma_desc_length_at(m, file, p, pos + 1, end, 128 * len + m[pos] % 128, consumed + 1);
    }
}

/// A descriptor is the same where the bytes stand in a file.
proof fn lemma_descriptor_at(m: Seq<u8>, file: Seq<u8>, p: int, pos: int, end: int, tag: u8)
    requires
        stands_at(file, p, m),
        0 <= pos,
        end <= m.len(),
    ensures
        descriptor(file, p + pos, p + end, tag) == moved(descriptor(m, pos, end, tag), p),
        descriptor(m, pos, end, tag) matches Ok(Some((q, n))) ==> pos < q <= end && 0 <= n,
{
    lemma_desc_length_at(m, file, p, pos + 1, end, 0, 0);
}

/// The AudioSpecificConfig is the same where the bytes stand in a file.
proof fn lemma_config_at(m: Seq<u8>, file: Seq<u8>, p: int, start: int, end: int)
    requires
        stands_at(file, p, m),
        0 <= start,
        end <= m.len(),
    ensures
        specific_config(file, p + start, p + end) == specific_config(m, start, end),
{
    lemma_descriptor_at(m, file, p, start, end, 3);
    if let Ok(Some((stream, _))) = descriptor(m, start, end, 3) {
        lemma_descriptor_at(m, file, p, stream + 3, end, 4);
        if let Ok(Some((decoder, _))) = descriptor(m, stream + 3, end, 4) {
            lemma_descriptor_at(m, file, p, decoder + 13, end, 5);
            if let Ok(Some((pos, len))) = descriptor(m, decoder + 13, end, 5) {
                assert(least(p + pos + len, p + end) == p + least(pos + len, end));
                assert(file.subrange(p + pos, p + least(pos + len, end)) =~= m.subrange(
                    pos,
                    least(pos + len, end),
                ));
            }
        }
    }
}

/// The sample rate is the same where the bytes stand in a file.
proof fn lemma_rate_at(m: Seq<u8>, file: Seq<u8>, p: int, stsd_pos: int)
    requires
        stands_at(file, p, m),
        0 <= stsd_pos,
        rate_inside(m, stsd_pos),
    ensures
        audio_rate(file, p + stsd_pos) == audio_rate(m, stsd_pos),
{
    reveal(audio_rate);
    reveal(rate_inside);
    let start = stsd_pos + 16;
    let end = start + be32(m, start);
    assert(be32(file, p + start) == be32(m, start));
    assert(be32(file, p + start + 32) == be32(m, start + 32));
    if start + 36 < end {
        lemma_search_at(m, file, p, start + 36, end - (start + 36), ESDS);
        if let Ok(Some((pos, header))) = box_in_container(
            m,
            start + 36,
            end - (start + 36),
            ESDS,
        ) {
            lemma_config_at(m, file, p, pos + header.header_size + 4, pos + header.size);
        }
    }
}

/// A movie box leads to the same sample table wherever it is the first movie
/// box of a file.
proof fn lemma_movie_stbl_at(m: Seq<u8>, file: Seq<u8>, p: int, header: BoxHeader)
    requires
        stands_at(file, p, m),
        movie_inside(m),
        top_level_box(file, 0, MOOV) == Ok::<_, FaultView>(Some((p, header))),
        header_at(m, 0) == header_at(file, p),
        header_at(file, p) matches Ok(Some(at)) && at == header,
    ensures
        match movie_stbl(m) {
            Ok((start, size, stsd_pos)) => {
                &&& movie_stbl(file) == Ok::<_, FaultView>(
                    stbl_moved((start, size, stsd_pos), p),
                )
                &&& 0 <= start <= m.len()
                &&& 0 <= stsd_pos
                &&& tables_inside(m, start, size)
                &&& stbl_samples(m, start, size) is Ok ==> rate_inside(m, stsd_pos)
            },
            Err(f) => movie_stbl(file) == Err::<(int, int, int), _>(f),
        },
{
    reveal(movie_stbl);
    assert(top_level_box(m, 0, MOOV) == Ok::<_, FaultView>(Some((0int, header))));
    if let Ok((s, n)) = content_range(0, header) {
        lemma_tracks_at(m, file, p, s, s + n);
    }
}

/// A movie box whose boxes and tables all lie in it leads to the same samples
/// and the same rate wherever it is the first movie box of a file.
pub proof fn lemma_movie_at(m: Seq<u8>, file: Seq<u8>, p: int, header: BoxHeader)
    requires
        stands_at(file, p, m),
        movie_inside(m),
        top_level_box(file, 0, MOOV) == Ok::<_, FaultView>(Some((p, header))),
        header_at(m, 0) == header_at(file, p),
        header_at(file, p) matches Ok(Some(at)) && at == header,
    ensures
        match sample_table(m) {
            Ok((entries, stsd_pos)) => sample_table(file) == Ok::<_, FaultView>(
                (entries, p + stsd_pos),
            ) && audio_rate(file, p + stsd_pos) == audio_rate(m, stsd_pos) && 0 <= stsd_pos,
            Err(f) => sample_table(file) == Err::<(Seq<SampleEntry>, int), _>(f),
        },
{
    reveal(sample_table);
    lemma_movie_stbl_at(m, file, p, header);
    if let Ok((start, size, stsd_pos)) = movie_stbl(m) {
        lemma_tables_at(m, file, p, start, size);
        if stbl_samples(m, start, size) is Ok {
            lemma_rate_at(m, file, p, stsd_pos);
        }
    }
}

} // verus!
