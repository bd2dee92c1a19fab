//! A movie reads as it was written: the search leads through its boxes to the
//! first AAC track, to its samples and to its sample rate.
use crate::audio_config::{audio_rate, SAMPLE_RATE_TABLE};
use crate::block_model::Element;
use crate::box_laws::{
    head_of, lemma_atom_stands, lemma_bytes_join, lemma_find_atom, lemma_find_top_atom,
    lemma_number_4, lemma_number_len, lemma_read_head,
};
use crate::box_model::{
    atoms_before, atoms_bytes, atoms_valid, bytes_at, first_of_kind, number, Atom,
};
use crate::channel_laws::holds;
use crate::config_laws::{
    description_written, lemma_read_decoder_rate, lemma_read_named_rate, named_rate_bits,
    stream_bytes, stream_valid, Lengths,
};
use crate::error::FaultView;
use crate::frame_laws::{channels_moved, frames_in_samples, lemma_every_channel_moves};
use crate::gain::gain_applied;
use crate::mp4::{
    accepted_brand, be32, box_in_container, brand_offset, least, looks_like_mp4, ESDS, FTYP, MDIA,
    MINF, MOOV, MP4A, STBL, STSD, TRAK,
};
use crate::reanalysis::samples_apart;
use crate::sample_table::{
    aac_stbl_in_trak, audio_stbl, content_in_container, movie_stbl, sample_table,
};
use crate::table_laws::{lemma_read_tables, tables_written};
use crate::table_model::{samples_of_chunks, Chunk, Run};
use vstd::prelude::*;

verus! {

/// Four letters as bytes.
pub open spec fn letters(a: char, b: char, c: char, d: char) -> Seq<u8> {
    seq![a as u8, b as u8, c as u8, d as u8]
}

/// The brands of MP4 and M4A files are seven, and no others are taken.
pub proof fn lemma_brands(brand: Seq<u8>)
    ensures
        accepted_brand(brand) <==> {
            ||| brand == letters('M', '4', 'A', ' ')
            ||| brand == letters('M', '4', 'B', ' ')
            ||| brand == letters('M', '4', 'V', ' ')
            ||| brand == letters('m', 'p', '4', '1')
            ||| brand == letters('m', 'p', '4', '2')
            ||| brand == letters('i', 's', 'o', 'm')
            ||| brand == letters('i', 's', 'o', '2')
        },
{
    if accepted_brand(brand) {
        assert(brand =~= seq![brand[0], brand[1], brand[2], brand[3]]);
    }
}

/// The compatible brand number `i` in the content of a file type box, behind
/// the major brand and its version.
pub open spec fn compatible_brand(content: Seq<u8>, i: int) -> Seq<u8> {
    content.subrange(8 + 4 * i, 12 + 4 * i)
}

/// A file that starts with a file type box is taken for an MP4 file just where
/// its major brand or a compatible brand in its first 128 bytes is one of
/// those that are.
#[verifier::rlimit(40)]
pub proof fn lemma_file_type(data: Seq<u8>, a: Atom)
    requires
        a.valid(),
        !a.wide,
        a.kind == FTYP,
        a.content.len() >= 4,
        bytes_at(data, 0, a.bytes()),
    ensures
        looks_like_mp4(data) <==> {
            ||| accepted_brand(a.content.subrange(0, 4))
            ||| exists|i: int|
                0 <= i && 12 + 4 * i <= a.content.len() && 20 + 4 * i <= 128 && accepted_brand(
                    #[trigger] compatible_brand(a.content, i),
                )
        },
{
    lemma_number_len(a.size(), 4);
    lemma_number_len(a.kind, 4);
    let x = number(a.size(), 4);
    let y = number(a.kind, 4);
    lemma_bytes_join(data, 0, x + y, a.content);
    lemma_bytes_join(data, 0, x, y);
    lemma_number_4(data, 0, a.size());
    lemma_number_4(data, 4, a.kind);
    assert forall|i: int| 8 <= i && i + 4 <= a.size() implies #[trigger] data.subrange(i, i + 4)
        == a.content.subrange(i - 8, i - 4) by {
        assert forall|k: int| 0 <= k < 4 implies #[trigger] data[i + k] == a.content[i - 8 + k] by {
            assert(a.content[i - 8 + k] == data[8 + (i - 8 + k)]);
        }
        assert(data.subrange(i, i + 4) =~= a.content.subrange(i - 8, i - 4));
    }
    if looks_like_mp4(data) {
        let i = choose|i: int|
            {
                &&& #[trigger] brand_offset(i)
                &&& i + 4 <= least(be32(data, 0), least(data.len() as int, 128))
                &&& accepted_brand(data.subrange(i, i + 4))
            };
        assert(data.subrange(i, i + 4) == a.content.subrange(i - 8, i - 4));
        if i != 8 {
            let k = (i - 16) / 4;
            assert(i == 16 + 4 * k);
            assert(compatible_brand(a.content, k) == a.content.subrange(i - 8, i - 4));
        }
    }
    if accepted_brand(a.content.subrange(0, 4)) {
        let i: int = 8;
        assert(brand_offset(i));
        assert(data.subrange(i, i + 4) == a.content.subrange(i - 8, i - 4));
    }
    if exists|i: int|
        0 <= i && 12 + 4 * i <= a.content.len() && 20 + 4 * i <= 128 && accepted_brand(
            #[trigger] compatible_brand(a.content, i),
        ) {
        let k = choose|i: int|
            0 <= i && 12 + 4 * i <= a.content.len() && 20 + 4 * i <= 128 && accepted_brand(
                #[trigger] compatible_brand(a.content, i),
            );
        let i = 16 + 4 * k;
        assert(brand_offset(i));
        assert(data.subrange(i, i + 4) == a.content.subrange(i - 8, i - 4));
    }
}

/// A track: the boxes at each level, the number of the one that leads on, and
/// the first of its sample descriptions.
pub struct Track {
    pub trak: Seq<Atom>,
    pub mdia_at: int,
    pub mdia: Seq<Atom>,
    pub minf_at: int,
    pub minf: Seq<Atom>,
    pub stbl_at: int,
    pub stbl: Seq<Atom>,
    pub stsd_at: int,
    pub flags: Seq<u8>,
    pub count: int,
    pub entry: Atom,
    pub rest: Seq<u8>,
}

/// Whether the first box of a kind in a container has other boxes as content.
pub open spec fn leads_to(atoms: Seq<Atom>, j: int, kind: u32, content: Seq<u8>) -> bool {
    &&& atoms_valid(atoms)
    &&& first_of_kind(atoms, 0, j, kind as int)
    &&& atoms[j].content == content
}

impl Track {
    /// The content of the sample description box: four bytes of version and
    /// flags, the number of descriptions, and the descriptions.
    pub open spec fn descriptions(self) -> Seq<u8> {
        self.flags + number(self.count, 4) + self.entry.bytes() + self.rest
    }

    /// Whether a box was written for the track.
    pub open spec fn written(self, a: Atom) -> bool {
        &&& a.valid()
        &&& a.kind == TRAK
        &&& a.content == atoms_bytes(self.trak, 0)
        &&& leads_to(self.trak, self.mdia_at, MDIA, atoms_bytes(self.mdia, 0))
        &&& leads_to(self.mdia, self.minf_at, MINF, atoms_bytes(self.minf, 0))
        &&& leads_to(self.minf, self.stbl_at, STBL, atoms_bytes(self.stbl, 0))
        &&& leads_to(self.stbl, self.stsd_at, STSD, self.descriptions())
        &&& self.flags.len() == 4
        &&& self.entry.valid()
        &&& !self.entry.wide
    }

    /// Whether the track is one of AAC audio.
    pub open spec fn is_audio(self) -> bool {
        self.entry.kind == MP4A
    }

    /// Where the content of the sample table starts in a track whose content
    /// starts at `start`.
    pub open spec fn tables_start(self, start: int) -> int {
        let mdia = content_start(self.trak, self.mdia_at, start);
        let minf = content_start(self.mdia, self.minf_at, mdia);
        content_start(self.minf, self.stbl_at, minf)
    }

    /// Where the sample description box starts.
    pub open spec fn descriptions_pos(self, start: int) -> int {
        self.tables_start(start) + atoms_before(self.stbl, 0, self.stsd_at)
    }
}

/// Where the content of the box number `j` of a container starts.
pub open spec fn content_start(atoms: Seq<Atom>, j: int, start: int) -> int {
    start + atoms_before(atoms, 0, j) + atoms[j].head()
}

/// A search in a container leads to the content of the box that was written.
proof fn lemma_lead(
    data: Seq<u8>,
    start: int,
    atoms: Seq<Atom>,
    j: int,
    kind: u32,
    content: Seq<u8>,
)
    requires
        leads_to(atoms, j, kind, content),
        bytes_at(data, start, atoms_bytes(atoms, 0)),
        data.len() + 8 <= usize::MAX,
    ensures
        ({
            let size = atoms_bytes(atoms, 0).len() as int;
            let found = content_start(atoms, j, start);
            &&& box_in_container(data, start, size, kind) == Ok::<_, FaultView>(
                Some((start + atoms_before(atoms, 0, j), head_of(atoms[j]))),
            )
            &&& content_in_container(data, start, size, kind) == Ok::<_, FaultView>(
                Some((found, content.len() as int)),
            )
            &&& bytes_at(data, found, content)
            &&& head_of(atoms[j]).header_size == atoms[j].head()
        }),
{
    reveal(box_in_container);
    lemma_find_atom(data, start, start + atoms_bytes(atoms, 0).len(), atoms, 0, j, kind);
    lemma_atom_stands(data, start, atoms, 0, j);
    assert(atoms[j].valid());
    lemma_read_head(data, start + atoms_before(atoms, 0, j), atoms[j]);
}

/// The sample descriptions of a track say what kind of track it is.
proof fn lemma_read_descriptions(data: Seq<u8>, pos: int, t: Track)
    requires
        bytes_at(data, pos, t.descriptions()),
        t.flags.len() == 4,
        t.entry.valid(),
        !t.entry.wide,
    ensures
        be32(data, pos + 12) == t.entry.kind,
        pos + 16 <= data.len(),
        bytes_at(data, pos + 8, t.entry.bytes()),
{
    let c = number(t.count, 4);
    let e = t.entry.bytes();
    lemma_number_len(t.count, 4);
    lemma_bytes_join(data, pos, t.flags + c + e, t.rest);
    lemma_bytes_join(data, pos, t.flags + c, e);
    lemma_number_len(t.entry.size(), 4);
    lemma_number_len(t.entry.kind, 4);
    let x = number(t.entry.size(), 4);
    let y = number(t.entry.kind, 4);
    lemma_bytes_join(data, pos + 8, x + y, t.entry.content);
    lemma_bytes_join(data, pos + 8, x, y);
    lemma_number_4(data, pos + 12, t.entry.kind);
}

/// A track of AAC audio leads to its sample table, and any other to none.
#[verifier::rlimit(40)]
pub proof fn lemma_read_track(data: Seq<u8>, pos: int, a: Atom, t: Track)
    requires
        t.written(a),
        bytes_at(data, pos, a.bytes()),
        data.len() + 8 <= usize::MAX,
    ensures
        ({
            let start = pos + a.head();
            let found = aac_stbl_in_trak(data, head_of(a), pos);
            &&& t.is_audio() ==> found == Ok::<_, FaultView>(
                Some(
                    (
                        t.tables_start(start),
                        atoms_bytes(t.stbl, 0).len() as int,
                        t.descriptions_pos(start),
                    ),
                ),
            )
            &&& !t.is_audio() ==> found == Ok::<_, FaultView>(None::<(int, int, int)>)
            &&& bytes_at(data, t.tables_start(start), atoms_bytes(t.stbl, 0))
            &&& !t.stbl[t.stsd_at].wide ==> bytes_at(
                data,
                t.descriptions_pos(start) + 16,
                t.entry.bytes(),
            )
        }),
{
    let start = pos + a.head();
    assert(a.size() <= data.len()) by {
        lemma_number_len(1, 4);
        lemma_number_len(a.kind, 4);
        lemma_number_len(a.size(), 4);
        lemma_number_len(a.size(), 8);
    }
    lemma_read_head(data, pos, a);
    lemma_lead(data, start, t.trak, t.mdia_at, MDIA, atoms_bytes(t.mdia, 0));
    let mdia = content_start(t.trak, t.mdia_at, start);
    lemma_lead(data, mdia, t.mdia, t.minf_at, MINF, atoms_bytes(t.minf, 0));
    let minf = content_start(t.mdia, t.minf_at, mdia);
    lemma_lead(data, minf, t.minf, t.stbl_at, STBL, atoms_bytes(t.stbl, 0));
    let stbl = content_start(t.minf, t.stbl_at, minf);
    lemma_lead(data, stbl, t.stbl, t.stsd_at, STSD, t.descriptions());
    lemma_read_descriptions(data, content_start(t.stbl, t.stsd_at, stbl), t);
}

/// A movie: the boxes of the file, the boxes of the movie box, and its track of
/// AAC audio.
pub struct Movie {
    pub file: Seq<Atom>,
    pub moov_at: int,
    pub moov: Seq<Atom>,
    pub track_at: int,
    pub track: Track,
}

impl Movie {
    /// Whether the boxes were written for the movie. Tracks that come before
    /// the one of AAC audio are of other kinds.
    pub open spec fn written(self) -> bool {
        &&& leads_to(self.file, self.moov_at, MOOV, atoms_bytes(self.moov, 0))
        &&& atoms_valid(self.moov)
        &&& 0 <= self.track_at < self.moov.len()
        &&& self.track.written(self.moov[self.track_at])
        &&& self.track.is_audio()
        &&& forall|k: int|
            0 <= k < self.track_at && (#[trigger] self.moov[k]).kind == TRAK ==> exists|t: Track|
                t.written(self.moov[k]) && !t.is_audio()
    }

    /// Where the content of the movie box starts.
    pub open spec fn moov_start(self) -> int {
        content_start(self.file, self.moov_at, 0)
    }

    /// Where the content of the track starts.
    pub open spec fn track_start(self) -> int {
        content_start(self.moov, self.track_at, self.moov_start())
    }
}

/// The search for the AAC track goes on where a box ends that is not it.
#[verifier::rlimit(40)]
proof fn lemma_read_tracks(data: Seq<u8>, m: Movie, pos: int, k: int)
    requires
        m.written(),
        0 <= k <= m.track_at,
        0 <= pos,
        bytes_at(data, pos, atoms_bytes(m.moov, k)),
        data.len() + 8 <= usize::MAX,
    ensures
        ({
            let start = pos + atoms_before(m.moov, k, m.track_at) + m.moov[m.track_at].head();
            let t = m.track;
            &&& audio_stbl(data, pos, pos + atoms_bytes(m.moov, k).len()) == Ok::<_, FaultView>(
                (
                    t.tables_start(start),
                    atoms_bytes(t.stbl, 0).len() as int,
                    t.descriptions_pos(start),
                ),
            )
            &&& bytes_at(data, t.tables_start(start), atoms_bytes(t.stbl, 0))
            &&& !t.stbl[t.stsd_at].wide ==> bytes_at(
                data,
                t.descriptions_pos(start) + 16,
                t.entry.bytes(),
            )
        }),
    decreases m.track_at - k,
{
    let a = m.moov[k];
    let end = pos + atoms_bytes(m.moov, k).len();
    lemma_bytes_join(data, pos, a.bytes(), atoms_bytes(m.moov, k + 1));
    lemma_atom_stands(data, pos, m.moov, k, k);
    assert(a.valid());
    lemma_read_head(data, pos, a);
    if a.kind == TRAK {
        assert(first_of_kind(m.moov, k, k, TRAK as int));
        assert(box_in_container(data, pos, end - pos, TRAK) == Ok::<_, FaultView>(
            Some((pos, head_of(a))),
        )) by {
            reveal(box_in_container);
            lemma_find_atom(data, pos, end, m.moov, k, k, TRAK);
        }
        if k == m.track_at {
            lemma_read_track(data, pos, a, m.track);
        } else {
            let t = choose|t: Track| t.written(a) && !t.is_audio();
            lemma_read_track(data, pos, a, t);
            lemma_read_tracks(data, m, pos + a.size(), k + 1);
        }
    } else {
        lemma_read_tracks(data, m, pos + a.size(), k + 1);
        let next = pos + a.size();
        assert(next < end) by {
            lemma_atom_stands(data, next, m.moov, k + 1, k + 1);
        }
        assert(box_in_container(data, pos, end - pos, TRAK) == box_in_container(
            data,
            next,
            end - next,
            TRAK,
        )) by {
            reveal(box_in_container);
        }
    }
}

/// A movie leads to the sample table of its AAC track, behind any other boxes
/// and any other tracks.
pub proof fn lemma_read_movie(data: Seq<u8>, m: Movie)
    requires
        m.written(),
        bytes_at(data, 0, atoms_bytes(m.file, 0)),
        data.len() + 8 <= usize::MAX,
    ensures
        ({
            let start = m.track_start();
            let t = m.track;
            &&& movie_stbl(data) == Ok::<_, FaultView>(
                (
                    t.tables_start(start),
                    atoms_bytes(t.stbl, 0).len() as int,
                    t.descriptions_pos(start),
                ),
            )
            &&& bytes_at(data, t.tables_start(start), atoms_bytes(t.stbl, 0))
            &&& !t.stbl[t.stsd_at].wide ==> bytes_at(
                data,
                t.descriptions_pos(start) + 16,
                t.entry.bytes(),
            )
        }),
{
    reveal(movie_stbl);
    lemma_find_top_atom(data, 0, m.file, 0, m.moov_at, MOOV);
    lemma_atom_stands(data, 0, m.file, 0, m.moov_at);
    let a = m.file[m.moov_at];
    let pos = atoms_before(m.file, 0, m.moov_at);
    assert(a.valid());
    lemma_read_head(data, pos, a);
    lemma_read_tracks(data, m, m.moov_start(), 0);
}

/// A movie gives the samples of the chunks that its tables were written for.
pub proof fn lemma_read_samples(
    data: Seq<u8>,
    m: Movie,
    flags: Seq<u8>,
    runs: Seq<Run>,
    chunks: Seq<Chunk>,
    at: (int, int, int),
)
    requires
        m.written(),
        bytes_at(data, 0, atoms_bytes(m.file, 0)),
        data.len() + 8 <= usize::MAX,
        tables_written(m.track.stbl, flags, runs, chunks, at),
    ensures
        sample_table(data) == Ok::<_, FaultView>(
            (samples_of_chunks(chunks, 0), m.track.descriptions_pos(m.track_start())),
        ),
{
    reveal(sample_table);
    lemma_read_movie(data, m);
    let start = m.track.tables_start(m.track_start());
    lemma_read_tables(data, start, m.track.stbl, flags, runs, chunks, at);
}

/// How the sample rate of a track was written: its description, and in it the
/// configuration of the decoder.
pub struct RateInfo {
    pub own: Seq<u8>,
    pub own_rate: int,
    pub atoms: Seq<Atom>,
    pub esds_at: int,
    pub flags: Seq<u8>,
    pub lengths: Lengths,
    pub three: Seq<u8>,
    pub thirteen: Seq<u8>,
    pub config: Seq<u8>,
    pub object: int,
    pub index: int,
}

impl RateInfo {
    /// Whether a description was written for the sample rate.
    pub open spec fn written(self, entry: Atom) -> bool {
        &&& description_written(entry, self.own, self.own_rate, self.atoms)
        &&& first_of_kind(self.atoms, 0, self.esds_at, ESDS as int)
        &&& self.flags.len() == 4
        &&& stream_valid(self.lengths, self.three, self.thirteen, self.config)
        &&& self.lengths.config.0 == self.config.len()
        &&& self.atoms[self.esds_at].content == self.flags + stream_bytes(
            self.lengths,
            self.three,
            self.thirteen,
            self.config,
        )
        &&& 0 <= self.index < 13
        &&& holds(self.config, 0, named_rate_bits(self.object, self.index))
    }
}

/// A movie whose first box is a file type box of an M4A file is taken for an
/// MP4 file.
proof fn lemma_read_file_type(data: Seq<u8>, m: Movie)
    requires
        bytes_at(data, 0, atoms_bytes(m.file, 0)),
        m.written(),
        m.file[0].kind == FTYP,
        !m.file[0].wide,
        m.file[0].content.len() >= 4,
        m.file[0].content.subrange(0, 4) == letters('M', '4', 'A', ' '),
    ensures
        looks_like_mp4(data),
{
    let first = m.file[0];
    lemma_atom_stands(data, 0, m.file, 0, 0);
    assert(first.valid());
    assert(atoms_before(m.file, 0, 0) == 0);
    lemma_brands(first.content.subrange(0, 4));
    lemma_file_type(data, first);
}

/// A movie has the sample rate that its decoder configuration names.
pub proof fn lemma_read_rate(data: Seq<u8>, m: Movie, rate: RateInfo)
    requires
        data.len() + 8 <= usize::MAX,
        bytes_at(data, 0, atoms_bytes(m.file, 0)),
        m.written(),
        !m.track.stbl[m.track.stsd_at].wide,
        rate.written(m.track.entry),
    ensures
        audio_rate(data, m.track.descriptions_pos(m.track_start())) == Ok::<_, FaultView>(
            SAMPLE_RATE_TABLE[rate.index],
        ),
{
    lemma_read_movie(data, m);
    let pos = m.track.descriptions_pos(m.track_start());
    assert(0 <= pos) by {
        lemma_descriptions_pos(data, m);
    }
    assert(bytes_at(data, pos + 16, m.track.entry.bytes()));
    lemma_read_named_rate(rate.config, rate.object, rate.index);
    lemma_read_decoder_rate(
        data,
        pos,
        m.track.entry,
        rate.own,
        rate.own_rate,
        rate.atoms,
        rate.esds_at,
        rate.flags,
        rate.lengths,
        rate.three,
        rate.thirteen,
        rate.config,
    );
}

/// The sample descriptions do not stand before the start of the file.
proof fn lemma_descriptions_pos(data: Seq<u8>, m: Movie)
    requires
        data.len() + 8 <= usize::MAX,
        bytes_at(data, 0, atoms_bytes(m.file, 0)),
        m.written(),
    ensures
        0 <= m.track.descriptions_pos(m.track_start()),
{
    lemma_read_movie(data, m);
    let start = m.track.tables_start(m.track_start());
    lemma_atom_stands(data, start, m.track.stbl, 0, m.track.stsd_at);
}

/// A gain applied to a whole file, from its file type to its frames: every
/// channel of every frame in the chunks of its AAC track moves, and nothing
/// else changes.
#[verifier::rlimit(40)]
pub proof fn lemma_whole_file_moves(
    data: Seq<u8>,
    m: Movie,
    rate: RateInfo,
    flags: Seq<u8>,
    runs: Seq<Run>,
    chunks: Seq<Chunk>,
    at: (int, int, int),
    frames: Seq<Seq<Element>>,
    steps: int,
)
    requires
        data.len() + 8 <= usize::MAX,
        bytes_at(data, 0, atoms_bytes(m.file, 0)),
        m.written(),
        m.file[0].kind == FTYP,
        !m.file[0].wide,
        m.file[0].content.len() >= 4,
        m.file[0].content.subrange(0, 4) == letters('M', '4', 'A', ' '),
        tables_written(m.track.stbl, flags, runs, chunks, at),
        !m.track.stbl[m.track.stsd_at].wide,
        rate.written(m.track.entry),
        frames_in_samples(
            data,
            samples_of_chunks(chunks, 0),
            frames,
            SAMPLE_RATE_TABLE[rate.index],
        ),
        samples_apart(samples_of_chunks(chunks, 0)),
        steps != 0,
    ensures
        gain_applied(data, steps) matches Ok(out) && channels_moved(
            data,
            out,
            samples_of_chunks(chunks, 0),
            frames,
            steps,
        ),
{
    let pos = m.track.descriptions_pos(m.track_start());
    lemma_read_file_type(data, m);
    lemma_read_samples(data, m, flags, runs, chunks, at);
    lemma_read_rate(data, m, rate);
    lemma_every_channel_moves(
        data,
        samples_of_chunks(chunks, 0),
        pos,
        SAMPLE_RATE_TABLE[rate.index],
        frames,
        steps,
    );
}

} // verus!
