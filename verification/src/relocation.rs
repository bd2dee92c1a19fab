//! The boxes of a file read the same wherever they lie: what is found in the
//! bytes from some position on is found in the whole file, as much further on,
//! unless a position there no longer fits the integers that hold positions.
use crate::audio_config::{audio_rate, desc_length, descriptor, specific_config};
use crate::error::FaultView;
use crate::mp4::{
    be32, box_in_container, container_box, header_at, least, lemma_box_in_container, room,
    BoxHeader, CO64, ESDS, MDIA, MINF, STBL, STCO, STSC, STSD, STSZ, TRAK,
};
use crate::sample_table::{
    aac_stbl_in_trak, audio_stbl, chunk_offsets, content_in_container, content_range, offsets_at,
    required_box, stbl_samples, stsc_runs, stsz_sizes,
};
use vstd::prelude::*;

verus! {

/// The bytes of a file from `p` on.
pub open spec fn tail(file: Seq<u8>, p: int) -> Seq<u8> {
    file.subrange(p, file.len() as int)
}

/// A position and something found there, or a size, moved by `p`.
pub open spec fn moved<T>(found: Result<Option<(int, T)>, FaultView>, p: int) -> Result<
    Option<(int, T)>,
    FaultView,
> {
    match found {
        Ok(Some((pos, t))) => Ok(Some((pos + p, t))),
        other => other,
    }
}

/// The fault of a position that does not fit.
pub open spec fn out_of_range<T>(r: Result<T, FaultView>) -> bool {
    r matches Err(FaultView::OutOfRange)
}

/// A box in a container is found as much further on in the whole file.
pub proof fn lemma_container_box_moved(file: Seq<u8>, p: int, pos: int, end: int, box_type: u32)
    requires
        0 <= p <= file.len(),
        0 <= pos,
    ensures
        ({
            let whole = container_box(file, p + pos, p + end, box_type);
            out_of_range(whole) || whole == moved(
                container_box(tail(file, p), pos, end, box_type),
                p,
            )
        }),
    decreases room(pos, end),
{
    if pos + 8 <= end && pos <= tail(file, p).len() {
        assert(header_at(tail(file, p), pos) == header_at(file, p + pos));
        if let Ok(Some(header)) = header_at(file, p + pos) {
            if header.box_type != box_type && header.size != 0 {
                lemma_container_box_moved(file, p, pos + header.size, end, box_type);
            }
        }
    }
}

/// A box in a container is found as much further on in the whole file.
proof fn lemma_box_moved(file: Seq<u8>, p: int, start: int, size: int, box_type: u32)
    requires
        0 <= p <= file.len(),
        0 <= start,
    ensures
        ({
            let whole = box_in_container(file, p + start, size, box_type);
            out_of_range(whole) || whole == moved(
                box_in_container(tail(file, p), start, size, box_type),
                p,
            )
        }),
{
    reveal(box_in_container);
    lemma_container_box_moved(file, p, start, start + size, box_type);
}

/// The content of a box is found as much further on in the whole file.
proof fn lemma_content_moved(file: Seq<u8>, p: int, start: int, size: int, box_type: u32)
    requires
        0 <= p <= file.len(),
        0 <= start,
    ensures
        ({
            let whole = content_in_container(file, p + start, size, box_type);
            out_of_range(whole) || whole == moved(
                content_in_container(tail(file, p), start, size, box_type),
                p,
            )
        }),
        content_in_container(tail(file, p), start, size, box_type) matches Ok(Some((s, _)))
            ==> 0 <= s,
{
    lemma_box_moved(file, p, start, size, box_type);
    lemma_box_in_container(tail(file, p), start, size, box_type);
}

/// The sample table of a track, with all its positions moved by `p`.
pub open spec fn stbl_moved(found: (int, int, int), p: int) -> (int, int, int) {
    (found.0 + p, found.1, found.2 + p)
}

/// The sample table of a track is found as much further on in the whole file.
proof fn lemma_trak_moved(file: Seq<u8>, p: int, header: BoxHeader, pos: int)
    requires
        0 <= p <= file.len(),
        0 <= pos,
    ensures
        ({
            let whole = aac_stbl_in_trak(file, header, p + pos);
            let part = aac_stbl_in_trak(tail(file, p), header, pos);
            out_of_range(whole) || match part {
                Ok(Some(found)) => whole == Ok::<_, FaultView>(Some(stbl_moved(found, p))),
                other => whole == other,
            }
        }),
{
    let part = tail(file, p);
    if let Ok((s, n)) = content_range(pos, header) {
        lemma_content_moved(file, p, s, n, MDIA);
        if let Ok(Some((s, n))) = content_in_container(part, s, n, MDIA) {
            lemma_content_moved(file, p, s, n, MINF);
            if let Ok(Some((s, n))) = content_in_container(part, s, n, MINF) {
                lemma_content_moved(file, p, s, n, STBL);
                if let Ok(Some((s, n))) = content_in_container(part, s, n, STBL) {
                    lemma_box_moved(file, p, s, n, STSD);
                    lemma_box_in_container(part, s, n, STSD);
                }
            }
        }
    }
}

/// The sample table of the AAC track is found as much further on in the whole
/// file.
pub proof fn lemma_audio_stbl_moved(file: Seq<u8>, p: int, search: int, end: int)
    requires
        0 <= p <= file.len(),
        0 <= search,
    ensures
        ({
            let whole = audio_stbl(file, p + search, p + end);
            out_of_range(whole) || match audio_stbl(tail(file, p), search, end) {
                Ok(found) => whole == Ok::<_, FaultView>(stbl_moved(found, p)),
                other => whole == other,
            }
        }),
    decreases room(search, end),
{
    if search < end {
        let part = tail(file, p);
        lemma_box_moved(file, p, search, end - search, TRAK);
        if let Ok(Some((pos, header))) = box_in_container(
            part,
            search,
            end - search,
            TRAK,
        ) {
            lemma_box_in_container(part, search, end - search, TRAK);
            lemma_trak_moved(file, p, header, pos);
            if header.size != 0 {
                lemma_audio_stbl_moved(file, p, pos + header.size, end);
            }
        }
    }
}

/// Tables of numbers read the same as much further on in the whole file.
proof fn lemma_tables_moved(file: Seq<u8>, p: int, content: int)
    requires
        0 <= p <= file.len(),
        0 <= content,
    ensures
        stsz_sizes(file, p + content) == stsz_sizes(tail(file, p), content),
        stsc_runs(file, p + content) == stsc_runs(tail(file, p), content),
        offsets_at(file, p + content, 4) == offsets_at(tail(file, p), content, 4),
        offsets_at(file, p + content, 8) == offsets_at(tail(file, p), content, 8),
{
    let part = tail(file, p);
    if let Ok(a) = stsz_sizes(file, p + content) {
        if let Ok(b) = stsz_sizes(part, content) {
            assert(a =~= b);
        }
    }
    if let Ok(a) = stsc_runs(file, p + content) {
        if let Ok(b) = stsc_runs(part, content) {
            assert(a =~= b);
        }
    }
    if let Ok(a) = offsets_at(file, p + content, 4) {
        if let Ok(b) = offsets_at(part, content, 4) {
            assert(a =~= b);
        }
    }
    if let Ok(a) = offsets_at(file, p + content, 8) {
        if let Ok(b) = offsets_at(part, content, 8) {
            assert(a =~= b);
        }
    }
}

/// A box that a sample table must hold is found as much further on in the
/// whole file.
proof fn lemma_required_moved(
    file: Seq<u8>,
    p: int,
    start: int,
    size: int,
    box_type: u32,
    missing: Seq<char>,
)
    requires
        0 <= p <= file.len(),
        0 <= start,
    ensures
        ({
            let whole = required_box(file, p + start, size, box_type, missing);
            out_of_range(whole) || match required_box(
                tail(file, p),
                start,
                size,
                box_type,
                missing,
            ) {
                Ok(content) => whole == Ok::<_, FaultView>(p + content) && 0 <= content,
                Err(f) => whole == Err::<int, _>(f),
            }
        }),
{
    lemma_box_moved(file, p, start, size, box_type);
    lemma_box_in_container(tail(file, p), start, size, box_type);
}

/// Chunk offsets read the same as much further on in the whole file.
proof fn lemma_chunk_offsets_moved(file: Seq<u8>, p: int, start: int, size: int)
    requires
        0 <= p <= file.len(),
        0 <= start,
    ensures
        ({
            let whole = chunk_offsets(file, p + start, size);
            out_of_range(whole) || whole == chunk_offsets(tail(file, p), start, size)
        }),
{
    let part = tail(file, p);
    lemma_box_moved(file, p, start, size, STCO);
    lemma_box_moved(file, p, start, size, CO64);
    lemma_box_in_container(part, start, size, STCO);
    lemma_box_in_container(part, start, size, CO64);
    if let Ok(Some((pos, header))) = box_in_container(part, start, size, STCO) {
        lemma_tables_moved(file, p, pos + header.header_size);
    }
    if let Ok(Some((pos, header))) = box_in_container(part, start, size, CO64) {
        lemma_tables_moved(file, p, pos + header.header_size);
    }
}

/// A sample table describes the same samples as much further on in the whole
/// file.
pub proof fn lemma_stbl_samples_moved(file: Seq<u8>, p: int, start: int, size: int)
    requires
        0 <= p <= file.len(),
        0 <= start,
    ensures
        ({
            let whole = stbl_samples(file, p + start, size);
            out_of_range(whole) || whole == stbl_samples(tail(file, p), start, size)
        }),
{
    let part = tail(file, p);
    lemma_required_moved(file, p, start, size, STSZ, "no stsz box"@);
    lemma_required_moved(file, p, start, size, STSC, "no stsc box"@);
    lemma_chunk_offsets_moved(file, p, start, size);
    if let Ok(content) = required_box(part, start, size, STSZ, "no stsz box"@) {
        lemma_box_in_container(part, start, size, STSZ);
        lemma_tables_moved(file, p, content);
    }
    if let Ok(content) = required_box(part, start, size, STSC, "no stsc box"@) {
        lemma_box_in_container(part, start, size, STSC);
        lemma_tables_moved(file, p, content);
    }
    lemma_samples_of_tables(file, p, start, size);
}

/// The samples depend on nothing but the three tables.
proof fn lemma_samples_of_tables(file: Seq<u8>, p: int, start: int, size: int)
    requires
        ({
            let part = tail(file, p);
            let stsz = required_box(file, p + start, size, STSZ, "no stsz box"@);
            let stsc = required_box(file, p + start, size, STSC, "no stsc box"@);
            let offsets = chunk_offsets(file, p + start, size);
            let stsz2 = required_box(part, start, size, STSZ, "no stsz box"@);
            let stsc2 = required_box(part, start, size, STSC, "no stsc box"@);
            &&& out_of_range(stsz) || match stsz2 {
                Ok(content) => stsz == Ok::<_, FaultView>(p + content) && stsz_sizes(
                    file,
                    p + content,
                ) == stsz_sizes(part, content),
                Err(f) => stsz == Err::<int, _>(f),
            }
            &&& out_of_range(stsc) || match stsc2 {
                Ok(content) => stsc == Ok::<_, FaultView>(p + content) && stsc_runs(
                    file,
                    p + content,
                ) == stsc_runs(part, content),
                Err(f) => stsc == Err::<int, _>(f),
            }
            &&& out_of_range(offsets) || offsets == chunk_offsets(part, start, size)
        }),
    ensures
        ({
            let whole = stbl_samples(file, p + start, size);
            out_of_range(whole) || whole == stbl_samples(tail(file, p), start, size)
        }),
{
    reveal(stbl_samples);
}

/// The length of a descriptor reads the same as much further on in the whole
/// file.
proof fn lemma_desc_length_moved(
    file: Seq<u8>,
    p: int,
    pos: int,
    end: int,
    len: int,
    consumed: int,
)
    requires
        0 <= p <= file.len(),
        0 <= pos,
        0 <= len,
    ensures
        desc_length(file, p + pos, p + end, len, consumed) == desc_length(
            tail(file, p),
            pos,
            end,
            len,
            consumed,
        ),
        desc_length(tail(file, p), pos, end, len, consumed) matches Ok(Some((m, n))) ==> consumed
            < n && pos + n - consumed <= end && 0 <= m,
    decreases 4 - consumed,
{
    if pos < end && pos < tail(file, p).len() && !(tail(file, p)[pos] < 128 || consumed + 1 >= 4) {
        lemma_desc_length_moved(
            file,
            p,
            pos + 1,
            end,
            128 * len + tail(file, p)[pos] % 128,
            consumed + 1,
        );
    }
}

/// A descriptor is found as much further on in the whole file.
proof fn lemma_descriptor_moved(file: Seq<u8>, p: int, pos: int, end: int, tag: u8)
    requires
        0 <= p <= file.len(),
        0 <= pos,
    ensures
        descriptor(file, p + pos, p + end, tag) == moved(
            descriptor(tail(file, p), pos, end, tag),
            p,
        ),
        descriptor(tail(file, p), pos, end, tag) matches Ok(Some((q, n))) ==> pos < q <= end && 0
            <= n,
{
    lemma_desc_length_moved(file, p, pos + 1, end, 0, 0);
}

/// The AudioSpecificConfig is the same as much further on in the whole file.
proof fn lemma_specific_config_moved(file: Seq<u8>, p: int, start: int, end: int)
    requires
        0 <= p <= file.len(),
        0 <= start,
    ensures
        specific_config(file, p + start, p + end) == specific_config(tail(file, p), start, end),
{
    let part = tail(file, p);
    lemma_descriptor_moved(file, p, start, end, 3);
    if let Ok(Some((stream, _))) = descriptor(part, start, end, 3) {
        lemma_descriptor_moved(file, p, stream + 3, end, 4);
        if let Ok(Some((decoder, _))) = descriptor(part, stream + 3, end, 4) {
            lemma_descriptor_moved(file, p, decoder + 13, end, 5);
            if let Ok(Some((pos, len))) = descriptor(part, decoder + 13, end, 5) {
                assert(least(p + pos + len, p + end) == p + least(pos + len, end));
                if least(pos + len, end) <= part.len() {
                    assert(file.subrange(p + pos, p + least(pos + len, end)) =~= part.subrange(
                        pos,
                        least(pos + len, end),
                    ));
                }
            }
        }
    }
}

/// The sample rate is the same as much further on in the whole file.
pub proof fn lemma_audio_rate_moved(file: Seq<u8>, p: int, stsd_pos: int)
    requires
        0 <= p <= file.len(),
        0 <= stsd_pos,
    ensures
        ({
            let whole = audio_rate(file, p + stsd_pos);
            out_of_range(whole) || whole == audio_rate(tail(file, p), stsd_pos)
        }),
{
    reveal(audio_rate);
    let part = tail(file, p);
    let start = stsd_pos + 16;
    if start + 36 <= part.len() {
        let end = start + be32(part, start);
        lemma_box_moved(file, p, start + 36, end - (start + 36), ESDS);
        if let Ok(Some((pos, header))) = box_in_container(
            part,
            start + 36,
            end - (start + 36),
            ESDS,
        ) {
            lemma_box_in_container(part, start + 36, end - (start + 36), ESDS);
            lemma_specific_config_moved(
                file,
                p,
                pos + header.header_size + 4,
                pos + header.size,
            );
        }
    }
}

} // verus!
