//! The tables of a track read as they were written, and give each sample its
//! place.
use crate::box_laws::{
    head_of, lemma_atom_stands, lemma_bytes_join, lemma_find_atom, lemma_find_no_atom,
    lemma_number_4, lemma_number_8, lemma_number_len, lemma_read_head,
};
use crate::box_model::{
    atoms_before, atoms_bytes, atoms_valid, bytes_at, first_of_kind, number, Atom,
};
use crate::error::FaultView;
use crate::mp4::{be32, box_in_container, BoxHeader, CO64, STCO, STSC, STSZ};
use crate::sample_table::{
    chunk_fill, chunk_offsets, chunk_samples, layout, offsets_at, runs_begun, samples_of_chunk,
    stbl_samples, stsc_entry, stsc_runs, stsz_sizes, StscEntry,
};
use crate::table_model::{
    all_up_to, fills, offsets_content, offsets_of_chunks, run_covers, run_valid, runs_bytes,
    runs_content, runs_fit, runs_in_order, same_sizes_content, samples_of_chunks, sizes_content,
    sizes_of_chunks, sum_between, words, Chunk, Run,
};
use vstd::prelude::*;

verus! {

/// A number among others stands behind those before it.
proof fn lemma_words_at(data: Seq<u8>, pos: int, list: Seq<int>, width: nat, k: int, i: int)
    requires
        0 <= k <= i < list.len(),
        bytes_at(data, pos, words(list, width, k)),
    ensures
        bytes_at(data, pos + width * (i - k), number(list[i], width)),
    decreases i - k,
{
    lemma_number_len(list[k], width);
    lemma_bytes_join(data, pos, number(list[k], width), words(list, width, k + 1));
    if k < i {
        lemma_words_at(data, pos + width, list, width, k + 1, i);
        let n = i - k;
        assert(width * n == width + width * (n - 1)) by (nonlinear_arith);
    } else {
        assert(width * (i - k) == 0) by (nonlinear_arith)
            requires
                i == k,
        ;
    }
}

/// Numbers take their width each.
proof fn lemma_words_len(list: Seq<int>, width: nat, k: int)
    requires
        0 <= k <= list.len(),
    ensures
        words(list, width, k).len() == width * (list.len() - k),
    decreases list.len() - k,
{
    let n = list.len() - k;
    if n > 0 {
        lemma_number_len(list[k], width);
        lemma_words_len(list, width, k + 1);
        assert(width * n == width + width * (n - 1)) by (nonlinear_arith);
    } else {
        assert(width * n == 0) by (nonlinear_arith)
            requires
                n == 0,
        ;
    }
}

/// Sample sizes read as they were written.
pub proof fn lemma_read_sizes(data: Seq<u8>, pos: int, flags: Seq<u8>, sizes: Seq<int>)
    requires
        flags.len() == 4,
        sizes.len() <= u32::MAX,
        all_up_to(sizes, u32::MAX as int),
        bytes_at(data, pos, sizes_content(flags, sizes)),
    ensures
        stsz_sizes(data, pos) matches Ok(found) && found.len() == sizes.len() && forall|i: int|
            0 <= i < sizes.len() ==> #[trigger] found[i] == sizes[i],
{
    let n = sizes.len() as int;
    lemma_number_len(0, 4);
    lemma_number_len(n, 4);
    lemma_words_len(sizes, 4, 0);
    lemma_bytes_join(data, pos, flags + number(0, 4) + number(n, 4), words(sizes, 4, 0));
    lemma_bytes_join(data, pos, flags + number(0, 4), number(n, 4));
    lemma_bytes_join(data, pos, flags, number(0, 4));
    lemma_number_4(data, pos + 4, 0);
    lemma_number_4(data, pos + 8, n);
    let found = stsz_sizes(data, pos)->Ok_0;
    assert forall|i: int| 0 <= i < sizes.len() implies #[trigger] found[i] == sizes[i] by {
        lemma_words_at(data, pos + 12, sizes, 4, 0, i);
        assert(pos + 12 + 4 * (i - 0) == pos + 12 + 4 * i);
        lemma_number_4(data, pos + 12 + 4 * i, sizes[i]);
    }
}

/// Samples that have all the same size, which is not zero, have that size.
pub proof fn lemma_read_same_sizes(
    data: Seq<u8>,
    pos: int,
    flags: Seq<u8>,
    size: int,
    count: int,
)
    requires
        flags.len() == 4,
        0 < size <= u32::MAX,
        0 <= count <= u32::MAX,
        bytes_at(data, pos, same_sizes_content(flags, size, count)),
    ensures
        stsz_sizes(data, pos) matches Ok(found) && found.len() == count && forall|i: int|
            0 <= i < count ==> #[trigger] found[i] == size,
{
    lemma_number_len(size, 4);
    lemma_number_len(count, 4);
    lemma_bytes_join(data, pos, flags + number(size, 4), number(count, 4));
    lemma_bytes_join(data, pos, flags, number(size, 4));
    lemma_number_4(data, pos + 4, size);
    lemma_number_4(data, pos + 8, count);
}

/// A run among others stands behind those before it.
proof fn lemma_run_at(data: Seq<u8>, pos: int, runs: Seq<Run>, k: int, i: int)
    requires
        0 <= k <= i < runs.len(),
        bytes_at(data, pos, runs_bytes(runs, k)),
    ensures
        bytes_at(data, pos + 12 * (i - k), number(runs[i].first_chunk, 4)),
        bytes_at(data, pos + 12 * (i - k) + 4, number(runs[i].samples, 4)),
        runs_bytes(runs, k).len() >= 12 * (i - k) + 12,
    decreases i - k,
{
    let r = runs[k];
    let a = number(r.first_chunk, 4);
    let b = number(r.samples, 4);
    let c = number(r.description, 4);
    lemma_number_len(r.first_chunk, 4);
    lemma_number_len(r.samples, 4);
    lemma_number_len(r.description, 4);
    lemma_bytes_join(data, pos, a + b + c, runs_bytes(runs, k + 1));
    lemma_bytes_join(data, pos, a + b, c);
    lemma_bytes_join(data, pos, a, b);
    if k < i {
        lemma_run_at(data, pos + 12, runs, k + 1, i);
    }
}

/// The runs of chunks read as they were written.
pub proof fn lemma_read_runs(data: Seq<u8>, pos: int, flags: Seq<u8>, runs: Seq<Run>)
    requires
        flags.len() == 4,
        runs.len() <= u32::MAX,
        forall|i: int| 0 <= i < runs.len() ==> run_valid(#[trigger] runs[i]),
        bytes_at(data, pos, runs_content(flags, runs)),
    ensures
        stsc_runs(data, pos) matches Ok(found) && same_runs(found, runs),
{
    let n = runs.len() as int;
    lemma_number_len(n, 4);
    lemma_bytes_join(data, pos, flags + number(n, 4), runs_bytes(runs, 0));
    lemma_bytes_join(data, pos, flags, number(n, 4));
    lemma_number_4(data, pos + 4, n);
    if n > 0 {
        lemma_run_at(data, pos + 8, runs, 0, n - 1);
    }
    let found = stsc_runs(data, pos)->Ok_0;
    assert forall|i: int| 0 <= i < runs.len() implies (#[trigger] found[i]).first_chunk
        == runs[i].first_chunk && found[i].samples_per_chunk == runs[i].samples by {
        assert(run_valid(runs[i]));
        lemma_run_at(data, pos + 8, runs, 0, i);
        lemma_number_4(data, pos + 8 + 12 * i, runs[i].first_chunk);
        lemma_number_4(data, pos + 8 + 12 * i + 4, runs[i].samples);
        assert(found[i] == stsc_entry(data, pos, i));
    }
}

/// The number of the description of the last run is not looked at, and may be
/// missing where the file ends.
pub proof fn lemma_read_runs_cut(
    data: Seq<u8>,
    pos: int,
    flags: Seq<u8>,
    runs: Seq<Run>,
    cut: Seq<u8>,
)
    requires
        flags.len() == 4,
        0 < runs.len() <= u32::MAX,
        forall|i: int| 0 <= i < runs.len() ==> run_valid(#[trigger] runs[i]),
        bytes_at(data, pos, cut),
        cut + number(runs[runs.len() - 1].description, 4) == runs_content(flags, runs),
    ensures
        stsc_runs(data, pos) matches Ok(found) && same_runs(found, runs),
{
    let last = number(runs[runs.len() - 1].description, 4);
    let n = runs.len() as int;
    lemma_number_len(runs[n - 1].description, 4);
    let whole = data.subrange(0, pos + cut.len()) + last;
    assert forall|i: int| 0 <= i < (cut + last).len() implies #[trigger] (cut + last)[i]
        == whole[pos + i] by {
        if i < cut.len() {
            assert(cut[i] == data[pos + i]);
        }
    }
    lemma_read_runs(whole, pos, flags, runs);
    let found = stsc_runs(whole, pos)->Ok_0;
    lemma_runs_len(runs, 0);
    lemma_number_len(n, 4);
    assert(cut.len() == 4 + 12 * n);
    assert forall|i: int| 0 <= i < n implies stsc_entry(data, pos, i) == #[trigger] found[i] by {
        assert(found[i] == stsc_entry(whole, pos, i));
    }
    assert(be32(whole, pos + 4) == be32(data, pos + 4));
    lemma_bytes_join(whole, pos, flags + number(n, 4), runs_bytes(runs, 0));
    lemma_bytes_join(whole, pos, flags, number(n, 4));
    lemma_number_4(whole, pos + 4, n);
    assert(stsc_runs(data, pos)->Ok_0 =~= found);
}

/// A run takes twelve bytes.
proof fn lemma_runs_len(runs: Seq<Run>, k: int)
    requires
        0 <= k <= runs.len(),
    ensures
        runs_bytes(runs, k).len() == 12 * (runs.len() - k),
    decreases runs.len() - k,
{
    if k < runs.len() {
        lemma_number_len(runs[k].first_chunk, 4);
        lemma_number_len(runs[k].samples, 4);
        lemma_number_len(runs[k].description, 4);
        lemma_runs_len(runs, k + 1);
    }
}

/// Whether runs were found as they were written.
pub open spec fn same_runs(found: Seq<StscEntry>, runs: Seq<Run>) -> bool {
    &&& found.len() == runs.len()
    &&& forall|i: int|
        0 <= i < runs.len() ==> (#[trigger] found[i]).first_chunk == runs[i].first_chunk
            && found[i].samples_per_chunk == runs[i].samples
}

/// Chunk offsets, in four or in eight bytes, read as they were written.
pub proof fn lemma_read_offsets(
    data: Seq<u8>,
    pos: int,
    flags: Seq<u8>,
    offsets: Seq<int>,
    width: nat,
)
    requires
        flags.len() == 4,
        offsets.len() <= u32::MAX,
        width == 4 && all_up_to(offsets, u32::MAX as int) || width == 8 && all_up_to(
            offsets,
            u64::MAX as int,
        ),
        bytes_at(data, pos, offsets_content(flags, offsets, width)),
    ensures
        offsets_at(data, pos, width as int) matches Ok(found) && found.len() == offsets.len()
            && forall|i: int| 0 <= i < offsets.len() ==> #[trigger] found[i] == offsets[i],
{
    let n = offsets.len() as int;
    lemma_number_len(n, 4);
    lemma_words_len(offsets, width, 0);
    lemma_bytes_join(data, pos, flags + number(n, 4), words(offsets, width, 0));
    lemma_bytes_join(data, pos, flags, number(n, 4));
    lemma_number_4(data, pos + 4, n);
    assert(width * (offsets.len() - 0) == width as int * n);
    let found = offsets_at(data, pos, width as int)->Ok_0;
    assert forall|i: int| 0 <= i < offsets.len() implies #[trigger] found[i] == offsets[i] by {
        lemma_words_at(data, pos + 8, offsets, width, 0, i);
        if width == 4 {
            assert(pos + 8 + width * (i - 0) == pos + 8 + 4 * i);
            lemma_number_4(data, pos + 8 + 4 * i, offsets[i]);
        } else {
            assert(pos + 8 + width * (i - 0) == pos + 8 + 8 * i);
            lemma_number_8(data, pos + 8 + 8 * i, offsets[i]);
        }
    }
}

/// The runs that begin no later than a chunk are those up to its own.
proof fn lemma_runs_begun(found: Seq<StscEntry>, runs: Seq<Run>, k: int, i: int, chunk: int)
    requires
        same_runs(found, runs),
        runs_in_order(runs),
        0 <= k <= i,
        run_covers(runs, i, chunk),
    ensures
        runs_begun(found, k, chunk) == i + 1 - k,
    decreases i - k,
{
    assert(found[k].first_chunk == runs[k].first_chunk);
    if k < i {
        assert(runs[k].first_chunk < runs[i].first_chunk);
        lemma_runs_begun(found, runs, k + 1, i, chunk);
    } else {
        assert(runs_begun(found, i + 1, chunk) == 0) by {
            if i + 1 < runs.len() {
                assert(found[i + 1].first_chunk == runs[i + 1].first_chunk);
            }
        }
    }
}

/// A chunk has as many samples as the run says that it belongs to.
pub proof fn lemma_chunk_has_samples_of_run(
    found: Seq<StscEntry>,
    runs: Seq<Run>,
    i: int,
    chunk: int,
)
    requires
        same_runs(found, runs),
        runs_in_order(runs),
        run_covers(runs, i, chunk),
    ensures
        samples_of_chunk(found, chunk) == runs[i].samples,
{
    lemma_runs_begun(found, runs, 0, i, chunk);
    assert(found[i].samples_per_chunk == runs[i].samples);
}

/// A chunk that no run has begun for has as many samples as the first run says.
pub proof fn lemma_chunk_before_runs(found: Seq<StscEntry>, runs: Seq<Run>, chunk: int)
    requires
        same_runs(found, runs),
        runs.len() > 0,
        chunk < runs[0].first_chunk,
    ensures
        samples_of_chunk(found, chunk) == runs[0].samples,
{
    assert(found[0].first_chunk == runs[0].first_chunk);
}

/// Chunks without any run are not laid out.
pub proof fn lemma_chunks_without_runs(sizes: Seq<u32>, offsets: Seq<u64>)
    requires
        offsets.len() > 0,
    ensures
        layout(sizes, seq![], offsets, 0, 0) is Err,
{
}

/// The sum of the first numbers is the sum of all but the last of them and the
/// last.
proof fn lemma_sum_step(s: Seq<int>, a: int, b: int)
    requires
        a <= b,
    ensures
        sum_between(s, a, b + 1) == sum_between(s, a, b) + s[b],
    decreases b - a,
{
    if a < b {
        lemma_sum_step(s, a + 1, b);
    } else {
        reveal_with_fuel(sum_between, 2);
    }
}

/// A sum of numbers that are not negative does not fall.
proof fn lemma_sum_grows(s: Seq<int>, b: int, c: int)
    requires
        0 <= b <= c <= s.len(),
        all_up_to(s, u32::MAX as int),
    ensures
        0 <= sum_between(s, 0, b) <= sum_between(s, 0, c),
    decreases c,
{
    if b < c {
        lemma_sum_grows(s, b, c - 1);
        lemma_sum_step(s, 0, c - 1);
        assert(0 <= s[c - 1]);
    } else if b > 0 {
        lemma_sum_grows(s, b - 1, b - 1);
        lemma_sum_step(s, 0, b - 1);
        assert(0 <= s[b - 1]);
    }
}

/// The samples of a chunk from number `j` on, one behind the other.
proof fn lemma_place_chunk(sizes: Seq<u32>, s: int, chunk: Chunk, j: int)
    requires
        0 <= s,
        s + chunk.sizes.len() <= sizes.len(),
        forall|i: int|
            0 <= i < chunk.sizes.len() ==> sizes[s + i] == #[trigger] chunk.sizes[i],
        chunk.valid(),
        0 <= j <= chunk.sizes.len(),
    ensures
        chunk_samples(
            sizes,
            s + j,
            chunk.sizes.len() - j,
            chunk.offset + sum_between(chunk.sizes, 0, j),
        ) == Ok::<_, FaultView>(
            chunk.samples().subrange(j, chunk.sizes.len() as int),
        ),
    decreases chunk.sizes.len() - j,
{
    let n = chunk.sizes.len() as int;
    if j < n {
        lemma_sum_step(chunk.sizes, 0, j);
        lemma_sum_grows(chunk.sizes, j, n);
        lemma_place_chunk(sizes, s, chunk, j + 1);
        assert(sizes[s + j] == chunk.sizes[j]);
        assert(chunk.samples().subrange(j, n) =~= seq![chunk.samples()[j]]
            + chunk.samples().subrange(j + 1, n));
    } else {
        assert(chunk.samples().subrange(n, n) =~= seq![]);
    }
}

/// Whether the sizes from number `s` on are those of the chunks from number `c`
/// on.
spec fn sizes_match(sizes: Seq<u32>, s: int, chunks: Seq<Chunk>, c: int) -> bool {
    let own = sizes_of_chunks(chunks, c);
    &&& 0 <= s
    &&& sizes.len() == s + own.len()
    &&& forall|i: int| 0 <= i < own.len() ==> sizes[s + i] == #[trigger] own[i]
}

/// The samples of the chunks from number `c` on get the places that the chunks
/// give them.
#[verifier::rlimit(40)]
proof fn lemma_place_chunks(
    sizes: Seq<u32>,
    found: Seq<StscEntry>,
    offsets: Seq<u64>,
    runs: Seq<Run>,
    chunks: Seq<Chunk>,
    c: int,
    s: int,
)
    requires
        0 <= c <= chunks.len(),
        sizes_match(sizes, s, chunks, c),
        same_runs(found, runs),
        runs_fit(runs, chunks),
        offsets.len() == chunks.len(),
        forall|i: int| 0 <= i < chunks.len() ==> offsets[i] == (#[trigger] chunks[i]).offset,
        forall|i: int| 0 <= i < chunks.len() ==> (#[trigger] chunks[i]).valid(),
    ensures
        layout(sizes, found, offsets, c, s) == Ok::<_, FaultView>(samples_of_chunks(chunks, c)),
    decreases chunks.len() - c,
{
    if c < chunks.len() {
        let chunk = chunks[c];
        let n = chunk.sizes.len() as int;
        let own = sizes_of_chunks(chunks, c);
        let rest = sizes_of_chunks(chunks, c + 1);
        assert(own =~= chunk.sizes + rest);
        let i = choose|i: int| #[trigger]
            run_covers(runs, i, c + 1) && fills(runs[i], chunk, chunks, c);
        assert(run_covers(runs, i, c + 1) && fills(runs[i], chunk, chunks, c));
        lemma_chunk_has_samples_of_run(found, runs, i, c + 1);
        assert(chunk_fill(sizes, found, c, s) == n);
        assert forall|i: int| 0 <= i < n implies sizes[s + i] == #[trigger] chunk.sizes[i] by {
            assert(own[i] == chunk.sizes[i]);
        }
        assert(chunk.valid());
        lemma_place_chunk(sizes, s, chunk, 0);
        assert(sum_between(chunk.sizes, 0, 0) == 0);
        assert(chunk.samples().subrange(0, n) =~= chunk.samples());
        assert forall|i: int| 0 <= i < rest.len() implies sizes[s + n + i]
            == #[trigger] rest[i] by {
            assert(own[n + i] == rest[i]);
            assert(sizes[s + (n + i)] == own[n + i]);
        }
        lemma_place_chunks(sizes, found, offsets, runs, chunks, c + 1, s + n);
    }
}

/// A track whose tables were written for its chunks has the samples of the
/// chunks: each sample starts where the one before it in its chunk ends, and
/// the first one where its chunk starts.
pub proof fn lemma_place_samples(
    sizes: Seq<u32>,
    found: Seq<StscEntry>,
    offsets: Seq<u64>,
    runs: Seq<Run>,
    chunks: Seq<Chunk>,
)
    requires
        sizes.len() == sizes_of_chunks(chunks, 0).len(),
        forall|i: int|
            0 <= i < sizes.len() ==> sizes[i] == #[trigger] sizes_of_chunks(chunks, 0)[i],
        same_runs(found, runs),
        runs_fit(runs, chunks),
        offsets.len() == chunks.len(),
        forall|i: int| 0 <= i < chunks.len() ==> offsets[i] == (#[trigger] chunks[i]).offset,
        forall|i: int| 0 <= i < chunks.len() ==> (#[trigger] chunks[i]).valid(),
    ensures
        layout(sizes, found, offsets, 0, 0) == Ok::<_, FaultView>(samples_of_chunks(chunks, 0)),
{
    let own = sizes_of_chunks(chunks, 0);
    assert forall|i: int| 0 <= i < own.len() implies sizes[0 + i] == #[trigger] own[i] by {
        assert(sizes[i] == own[i]);
    }
    lemma_place_chunks(sizes, found, offsets, runs, chunks, 0, 0);
}

/// Whether the boxes of a sample table were written for chunks: the first box
/// of each kind is the one that counts, and eight-byte offsets count only where
/// there are no four-byte ones.
pub open spec fn tables_written(
    atoms: Seq<Atom>,
    flags: Seq<u8>,
    runs: Seq<Run>,
    chunks: Seq<Chunk>,
    at: (int, int, int),
) -> bool {
    let (z, c, o) = at;
    &&& flags.len() == 4
    &&& atoms_valid(atoms)
    &&& first_of_kind(atoms, 0, z, STSZ as int)
    &&& atoms[z].content == sizes_content(flags, sizes_of_chunks(chunks, 0))
    &&& sizes_of_chunks(chunks, 0).len() <= u32::MAX
    &&& all_up_to(sizes_of_chunks(chunks, 0), u32::MAX as int)
    &&& first_of_kind(atoms, 0, c, STSC as int)
    &&& atoms[c].content == runs_content(flags, runs)
    &&& runs.len() <= u32::MAX
    &&& runs_fit(runs, chunks)
    &&& chunks.len() <= u32::MAX
    &&& forall|i: int| 0 <= i < chunks.len() ==> (#[trigger] chunks[i]).valid()
    &&& {
        ||| {
            &&& first_of_kind(atoms, 0, o, STCO as int)
            &&& atoms[o].content == offsets_content(flags, offsets_of_chunks(chunks), 4)
            &&& all_up_to(offsets_of_chunks(chunks), u32::MAX as int)
        }
        ||| {
            &&& forall|i: int| 0 <= i < atoms.len() ==> (#[trigger] atoms[i]).kind != STCO
            &&& first_of_kind(atoms, 0, o, CO64 as int)
            &&& atoms[o].content == offsets_content(flags, offsets_of_chunks(chunks), 8)
            &&& all_up_to(offsets_of_chunks(chunks), u64::MAX as int)
        }
    }
}

/// The content of a table stands where the search for it leads.
proof fn lemma_table_found(
    data: Seq<u8>,
    start: int,
    atoms: Seq<Atom>,
    j: int,
    kind: u32,
)
    requires
        atoms_valid(atoms),
        bytes_at(data, start, atoms_bytes(atoms, 0)),
        data.len() + 8 <= usize::MAX,
        first_of_kind(atoms, 0, j, kind as int),
    ensures
        ({
            let pos = start + atoms_before(atoms, 0, j);
            &&& box_in_container(data, start, atoms_bytes(atoms, 0).len() as int, kind) == Ok::<
                _,
                FaultView,
            >(Some((pos, head_of(atoms[j]))))
            &&& bytes_at(data, pos + head_of(atoms[j]).header_size, atoms[j].content)
        }),
{
    reveal(box_in_container);
    lemma_find_atom(data, start, start + atoms_bytes(atoms, 0).len(), atoms, 0, j, kind);
    lemma_atom_stands(data, start, atoms, 0, j);
    assert(atoms[j].valid());
    lemma_read_head(data, start + atoms_before(atoms, 0, j), atoms[j]);
}

/// A sample table reads as it was written: it gives the samples of the chunks.
#[verifier::rlimit(40)]
pub proof fn lemma_read_tables(
    data: Seq<u8>,
    start: int,
    atoms: Seq<Atom>,
    flags: Seq<u8>,
    runs: Seq<Run>,
    chunks: Seq<Chunk>,
    at: (int, int, int),
)
    requires
        tables_written(atoms, flags, runs, chunks, at),
        bytes_at(data, start, atoms_bytes(atoms, 0)),
        data.len() + 8 <= usize::MAX,
    ensures
        stbl_samples(data, start, atoms_bytes(atoms, 0).len() as int) == Ok::<_, FaultView>(
            samples_of_chunks(chunks, 0),
        ),
{
    reveal(stbl_samples);
    let size = atoms_bytes(atoms, 0).len() as int;
    let (z, c, o) = at;
    lemma_table_found(data, start, atoms, z, STSZ);
    lemma_table_found(data, start, atoms, c, STSC);
    let zpos = start + atoms_before(atoms, 0, z) + head_of(atoms[z]).header_size;
    let cpos = start + atoms_before(atoms, 0, c) + head_of(atoms[c]).header_size;
    let opos = start + atoms_before(atoms, 0, o) + head_of(atoms[o]).header_size;
    let own = sizes_of_chunks(chunks, 0);
    let places = offsets_of_chunks(chunks);
    lemma_read_sizes(data, zpos, flags, own);
    lemma_read_runs(data, cpos, flags, runs);
    if first_of_kind(atoms, 0, o, STCO as int) {
        lemma_table_found(data, start, atoms, o, STCO);
        lemma_read_offsets(data, opos, flags, places, 4);
    } else {
        assert(box_in_container(data, start, size, STCO) == Ok::<_, FaultView>(
            None::<(int, BoxHeader)>,
        )) by {
            reveal(box_in_container);
            lemma_find_no_atom(data, start, atoms, 0, STCO);
        }
        lemma_table_found(data, start, atoms, o, CO64);
        lemma_read_offsets(data, opos, flags, places, 8);
    }
    let sizes = stsz_sizes(data, zpos)->Ok_0;
    let found = stsc_runs(data, cpos)->Ok_0;
    let offsets = chunk_offsets(data, start, size)->Ok_0;
    assert(offsets.len() == chunks.len());
    assert forall|i: int| 0 <= i < chunks.len() implies offsets[i] == (
    #[trigger] chunks[i]).offset by {
        assert(offsets[i] == places[i]);
    }
    assert forall|i: int| 0 <= i < sizes.len() implies sizes[i] == #[trigger] own[i] by {}
    lemma_place_samples(sizes, found, offsets, runs, chunks);
}

} // verus!
