//! A search through a file, of which only the bytes that are asked for are
//! read, finds the boxes that were written, and the gains of their frames.
use crate::analysis::nothing_found;
use crate::audio_config::SAMPLE_RATE_TABLE;
use crate::block_model::Element;
use crate::box_laws::{
    head_of, lemma_atom_stands, lemma_bytes_join, lemma_number_4, lemma_number_len,
    lemma_read_head,
};
use crate::box_model::{atoms_bytes, atoms_valid, bytes_at, first_of_kind, number, Atom};
use crate::error::ErrorView;
use crate::file_analysis::{
    box_in_file, file_gains, gains_from_movie, gains_from_samples, prefix_of, FileFaultView,
};
use crate::frame_laws::{
    frames_channels, frames_in_samples, gains_of_frames, lemma_survey_frames,
};
use crate::location::AacGainLocation;
use crate::movie_laws::{
    lemma_brands, lemma_file_type, lemma_read_rate, lemma_read_samples, letters, Movie, RateInfo,
};
use crate::mp4::{be32, header_at, looks_like_mp4, TruncatedHeader, FTYP, MOOV};
use crate::table_laws::tables_written;
use crate::table_model::{samples_of_chunks, Chunk, Run};
use crate::text_laws::lemma_be_bytes;
use vstd::prelude::*;

verus! {

/// The first bytes of a box are enough for its head.
proof fn lemma_scan_head(file: Seq<u8>, pos: int, a: Atom)
    requires
        a.valid(),
        bytes_at(file, pos, a.bytes()),
        file.len() + 8 <= usize::MAX,
    ensures
        header_at(crate::file_analysis::head_of(file, pos), 0) == Ok::<_, TruncatedHeader>(
            Some(head_of(a)),
        ),
        a.size() <= file.len() - pos,
        a.bytes().len() == a.size(),
{
    lemma_number_len(1, 4);
    lemma_number_len(a.kind, 4);
    lemma_number_len(a.size(), 4);
    lemma_number_len(a.size(), 8);
    lemma_read_head(file, pos, a);
    let head = crate::file_analysis::head_of(file, pos);
    assert(be32(head, 0) == be32(file, pos));
    assert(be32(head, 4) == be32(file, pos + 4));
    if a.wide {
        assert(be32(head, 8) == be32(file, pos + 8));
        assert(be32(head, 12) == be32(file, pos + 12));
    }
}

/// A search through a file finds the first box of the type, byte for byte,
/// behind any boxes of other types.
pub proof fn lemma_scan_finds(
    file: Seq<u8>,
    pos: int,
    atoms: Seq<Atom>,
    k: int,
    j: int,
    kind: u32,
)
    requires
        0 <= k,
        atoms_valid(atoms),
        bytes_at(file, pos, atoms_bytes(atoms, k)),
        file.len() + 8 <= usize::MAX,
        first_of_kind(atoms, k, j, kind as int),
    ensures
        box_in_file(file, pos, kind) == Ok::<_, FileFaultView>(Some(atoms[j].bytes())),
    decreases j - k,
{
    let a = atoms[k];
    lemma_bytes_join(file, pos, a.bytes(), atoms_bytes(atoms, k + 1));
    assert(a.valid());
    lemma_scan_head(file, pos, a);
    if k < j {
        assert(a.kind != kind);
        lemma_scan_finds(file, pos + a.size(), atoms, k + 1, j, kind);
    } else {
        assert(file.subrange(pos, pos + a.size()) =~= a.bytes()) by {
            assert forall|i: int| 0 <= i < a.size() implies file[pos + i] == a.bytes()[i] by {}
        }
    }
}

/// A search through a file finds nothing where no box has the type.
pub proof fn lemma_scan_finds_nothing(
    file: Seq<u8>,
    pos: int,
    atoms: Seq<Atom>,
    k: int,
    kind: u32,
)
    requires
        0 <= k <= atoms.len(),
        atoms_valid(atoms),
        bytes_at(file, pos, atoms_bytes(atoms, k)),
        pos + atoms_bytes(atoms, k).len() == file.len(),
        file.len() + 8 <= usize::MAX,
        forall|i: int| k <= i < atoms.len() ==> (#[trigger] atoms[i]).kind != kind,
    ensures
        box_in_file(file, pos, kind) == Ok::<_, FileFaultView>(None::<Seq<u8>>),
    decreases atoms.len() - k,
{
    if k < atoms.len() {
        let a = atoms[k];
        lemma_bytes_join(file, pos, a.bytes(), atoms_bytes(atoms, k + 1));
        assert(a.valid());
        lemma_scan_head(file, pos, a);
        lemma_scan_finds_nothing(file, pos + a.size(), atoms, k + 1, kind);
    }
}

/// A box that goes up to the end of the file is found as if its size had been
/// written in its head.
pub proof fn lemma_scan_finds_open_box(file: Seq<u8>, pos: int, kind: u32, content: Seq<u8>)
    requires
        bytes_at(file, pos, number(0, 4) + number(kind as int, 4) + content),
        pos + 8 + content.len() == file.len(),
        8 + content.len() <= u32::MAX,
        file.len() + 8 <= usize::MAX,
    ensures
        box_in_file(file, pos, kind) == Ok::<_, FileFaultView>(
            Some((Atom { kind: kind as int, wide: false, content }).bytes()),
        ),
{
    let x = number(0, 4);
    let y = number(kind as int, 4);
    lemma_number_len(0, 4);
    lemma_number_len(kind as int, 4);
    lemma_bytes_join(file, pos, x + y, content);
    lemma_bytes_join(file, pos, x, y);
    lemma_number_4(file, pos, 0);
    lemma_number_4(file, pos + 4, kind as int);
    let head = crate::file_analysis::head_of(file, pos);
    assert(be32(head, 0) == be32(file, pos));
    assert(be32(head, 4) == be32(file, pos + 4));
    let size = 8 + content.len() as int;
    let bytes = file.subrange(pos, pos + size);
    lemma_be_bytes(size);
    lemma_number_len(size, 4);
    let atom = Atom { kind: kind as int, wide: false, content };
    assert(bytes.subrange(4, size) =~= y + content) by {
        assert forall|i: int| 0 <= i < (y + content).len() implies (y + content)[i] == file[pos + 4
            + i] by {
            if i < 4 {
                assert(y[i] == file[pos + 4 + i]);
            } else {
                assert(content[i - 4] == file[pos + 8 + (i - 4)]);
            }
        }
    }
    assert(number(size, 4) + (y + content) =~= atom.bytes());
}

/// A box that the file cuts off is refused, whatever type is looked for.
pub proof fn lemma_scan_refuses_cut_box(file: Seq<u8>, pos: int, size: int, own: int, kind: u32)
    requires
        8 <= size < 0x1_0000_0000,
        0 <= own < 0x1_0000_0000,
        bytes_at(file, pos, number(size, 4) + number(own, 4)),
        pos + size > file.len(),
        file.len() + 8 <= usize::MAX,
    ensures
        box_in_file(file, pos, kind) matches Err(FileFaultView::Reject(_)),
{
    lemma_number_len(size, 4);
    lemma_number_len(own, 4);
    lemma_bytes_join(file, pos, number(size, 4), number(own, 4));
    lemma_number_4(file, pos, size);
    lemma_number_4(file, pos + 4, own);
    let head = crate::file_analysis::head_of(file, pos);
    assert(be32(head, 0) == be32(file, pos));
    assert(be32(head, 4) == be32(file, pos + 4));
}

/// A box whose size has no room for its own head is refused.
pub proof fn lemma_scan_refuses_small_box(file: Seq<u8>, pos: int, size: int, own: int, kind: u32)
    requires
        2 <= size < 8,
        0 <= own < 0x1_0000_0000,
        bytes_at(file, pos, number(size, 4) + number(own, 4)),
        file.len() + 8 <= usize::MAX,
    ensures
        box_in_file(file, pos, kind) matches Err(FileFaultView::Reject(_)),
{
    lemma_number_len(size, 4);
    lemma_number_len(own, 4);
    lemma_bytes_join(file, pos, number(size, 4), number(own, 4));
    lemma_number_4(file, pos, size);
    lemma_number_4(file, pos + 4, own);
    let head = crate::file_analysis::head_of(file, pos);
    assert(be32(head, 0) == be32(file, pos));
    assert(be32(head, 4) == be32(file, pos + 4));
}

/// A file that ends within the head of a box is refused where the head is one
/// with the size in eight bytes, and has no further box where fewer than eight
/// bytes are left.
pub proof fn lemma_scan_cut_head(file: Seq<u8>, pos: int, own: int, kind: u32)
    requires
        0 <= pos <= file.len(),
        0 <= own < 0x1_0000_0000,
        file.len() + 8 <= usize::MAX,
    ensures
        file.len() - pos < 8 ==> box_in_file(file, pos, kind) == Ok::<_, FileFaultView>(
            None::<Seq<u8>>,
        ),
        bytes_at(file, pos, number(1, 4) + number(own, 4)) && file.len() - pos < 16 ==> box_in_file(
            file,
            pos,
            kind,
        ) == Err::<Option<Seq<u8>>, _>(FileFaultView::Truncated),
{
    if bytes_at(file, pos, number(1, 4) + number(own, 4)) {
        lemma_number_len(1, 4);
        lemma_number_len(own, 4);
        lemma_bytes_join(file, pos, number(1, 4), number(own, 4));
        lemma_number_4(file, pos, 1);
        let head = crate::file_analysis::head_of(file, pos);
        assert(be32(head, 0) == be32(file, pos));
    }
}

/// A file without a movie box is refused.
pub proof fn lemma_file_without_movie(file: Seq<u8>, atoms: Seq<Atom>)
    requires
        looks_like_mp4(prefix_of(file)),
        atoms_valid(atoms),
        bytes_at(file, 0, atoms_bytes(atoms, 0)),
        atoms_bytes(atoms, 0).len() == file.len(),
        file.len() + 8 <= usize::MAX,
        forall|i: int| 0 <= i < atoms.len() ==> (#[trigger] atoms[i]).kind != MOOV,
    ensures
        file_gains(file) == Err::<Seq<AacGainLocation>, _>(
            FileFaultView::Reject(ErrorView::NoMoovBox),
        ),
{
    lemma_scan_finds_nothing(file, 0, atoms, 0, MOOV);
}

/// A file that is not taken for an MP4 file by its first 128 bytes is refused.
pub proof fn lemma_file_of_other_type(file: Seq<u8>)
    requires
        !looks_like_mp4(file.subrange(0, if file.len() < 128 {
            file.len() as int
        } else {
            128
        })),
    ensures
        file_gains(file) == Err::<Seq<AacGainLocation>, _>(
            FileFaultView::Reject(ErrorView::NotMp4),
        ),
{
}

/// The movie box of a movie as a file of its own.
spec fn alone(m: Movie) -> Movie {
    Movie { file: seq![m.file[m.moov_at]], moov_at: 0, ..m }
}

/// A movie box by itself is a movie.
proof fn lemma_alone(m: Movie)
    requires
        m.written(),
    ensures
        alone(m).written(),
        atoms_bytes(alone(m).file, 0) == m.file[m.moov_at].bytes(),
{
    let one = alone(m);
    assert(m.file[m.moov_at].valid());
    assert(atoms_valid(one.file)) by {
        assert forall|k: int| 0 <= k < one.file.len() implies (
        #[trigger] one.file[k]).valid() by {}
    }
    reveal_with_fuel(atoms_bytes, 2);
    assert(atoms_bytes(one.file, 0) =~= one.file[0].bytes());
}

/// A search through a file finds the gains of all frames, one for each channel,
/// once it has found the movie box.
#[verifier::rlimit(40)]
pub proof fn lemma_movie_search(
    file: Seq<u8>,
    m: Movie,
    rate: RateInfo,
    flags: Seq<u8>,
    runs: Seq<Run>,
    chunks: Seq<Chunk>,
    at: (int, int, int),
    frames: Seq<Seq<Element>>,
)
    requires
        file.len() <= usize::MAX,
        m.file[m.moov_at].size() + 8 <= usize::MAX,
        m.written(),
        tables_written(m.track.stbl, flags, runs, chunks, at),
        !m.track.stbl[m.track.stsd_at].wide,
        rate.written(m.track.entry),
        frames_in_samples(
            file,
            samples_of_chunks(chunks, 0),
            frames,
            SAMPLE_RATE_TABLE[rate.index],
        ),
    ensures
        gains_from_movie(file, m.file[m.moov_at].bytes()) == Ok::<_, FileFaultView>(
            gains_of_frames(samples_of_chunks(chunks, 0), frames, 0),
        ),
        gains_of_frames(samples_of_chunks(chunks, 0), frames, 0).len() == frames_channels(
            frames,
            0,
        ),
{
    reveal(gains_from_samples);
    let movie = m.file[m.moov_at].bytes();
    let one = alone(m);
    lemma_alone(m);
    let a = m.file[m.moov_at];
    lemma_number_len(1, 4);
    lemma_number_len(a.kind, 4);
    lemma_number_len(a.size(), 4);
    lemma_number_len(a.size(), 8);
    assert(bytes_at(movie, 0, atoms_bytes(one.file, 0)));
    lemma_read_samples(movie, one, flags, runs, chunks, at);
    lemma_read_rate(movie, one, rate);
    let entries = samples_of_chunks(chunks, 0);
    let sample_rate = SAMPLE_RATE_TABLE[rate.index];
    lemma_survey_frames(false, file, entries, frames, 0, sample_rate, nothing_found());
    let found = gains_of_frames(entries, frames, 0);
    assert(nothing_found().locations + found =~= found);
}

/// A search through a whole file, from its file type to its frames, finds one
/// gain for each channel of each frame in the chunks of its AAC track.
#[verifier::rlimit(40)]
pub proof fn lemma_file_search(
    file: Seq<u8>,
    m: Movie,
    rate: RateInfo,
    flags: Seq<u8>,
    runs: Seq<Run>,
    chunks: Seq<Chunk>,
    at: (int, int, int),
    frames: Seq<Seq<Element>>,
)
    requires
        file.len() + 8 <= usize::MAX,
        bytes_at(file, 0, atoms_bytes(m.file, 0)),
        m.written(),
        m.file[0].kind == FTYP,
        !m.file[0].wide,
        m.file[0].size() <= 128,
        m.file[0].content.len() >= 4,
        m.file[0].content.subrange(0, 4) == letters('M', '4', 'A', ' '),
        tables_written(m.track.stbl, flags, runs, chunks, at),
        !m.track.stbl[m.track.stsd_at].wide,
        rate.written(m.track.entry),
        frames_in_samples(
            file,
            samples_of_chunks(chunks, 0),
            frames,
            SAMPLE_RATE_TABLE[rate.index],
        ),
    ensures
        file_gains(file) == Ok::<_, FileFaultView>(
            gains_of_frames(samples_of_chunks(chunks, 0), frames, 0),
        ),
{
    let first = m.file[0];
    lemma_atom_stands(file, 0, m.file, 0, 0);
    assert(first.valid());
    lemma_scan_head(file, 0, first);
    let prefix = prefix_of(file);
    assert(bytes_at(prefix, 0, first.bytes())) by {
        assert forall|i: int| 0 <= i < first.bytes().len() implies #[trigger] first.bytes()[i]
            == prefix[0 + i] by {
            assert(first.bytes()[i] == file[0 + i]);
        }
    }
    lemma_brands(first.content.subrange(0, 4));
    lemma_file_type(prefix, first);
    lemma_scan_finds(file, 0, m.file, 0, m.moov_at, MOOV);
    lemma_atom_stands(file, 0, m.file, 0, m.moov_at);
    lemma_movie_search(file, m, rate, flags, runs, chunks, at, frames);
}

} // verus!
