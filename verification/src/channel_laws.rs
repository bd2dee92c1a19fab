//! A channel of AAC reads as it was written: for every channel that can be
//! written, reading goes past its last bit and no further, and finds its gain
//! and its windows.
use crate::aac_codebooks::{
    lemma_scf_book_shape, lemma_spectrum_book_shapes, lemma_standard_books_valid, quad, scf_book,
    spectrum_book, standard_books, swb_bands,
};
use crate::bit_reader::{field, fields, flag, lemma_small_powers, Parsed};
use crate::bits::{
    bit, bit_len, bits_value, byte_bit, lemma_bits_bound, lemma_bits_split, lemma_byte_value,
};
use crate::codebook_order::lemma_standard_books_prefix_free;
use crate::frame_model::{
    band_bits, code_bits, coefficient_width, coefficients_bits, factors_bits, filtered_bands,
    filters_bits, group_sections_bits, group_starts, halvings, has_coefficients, held_size,
    numbers_bits, ones, pulse_list_bits, section_bands, section_len_bits, sections_bits,
    sections_valid, signs_bits, size_of_value, sum_from, tns_bits, uint, value_escape_bits,
    word_bits, word_count, word_symbol, word_tail_bits, word_valid, words_bits, Channel, Filter,
    Pulse, Section, TnsWindow, Window,
};
use crate::gain_laws::lemma_bits_equal;
use crate::huffman::Codebook;
use crate::ics_syntax::{
    escape, gain_at, group_books, ics, ics_body, ics_info, ics_rest, pulse_part, pulses,
    scale_factors, section_books, section_len, sign_bit, spectrum, symbol_tail, symbols,
    tns_coefficients, tns_filters, tns_part, tns_window, tns_windows, window_groups,
    window_symbols, IcsView,
};
use vstd::arithmetic::power2::*;
use vstd::prelude::*;

verus! {

/// Whether the bits stand at `pos`.
pub open spec fn holds(data: Seq<u8>, pos: int, bits: Seq<bool>) -> bool {
    &&& 0 <= pos
    &&& pos + bits.len() <= bit_len(data)
    &&& forall|i: int| 0 <= i < bits.len() ==> #[trigger] bits[i] == bit(data, pos + i)
}

/// What a read comes to that ends well.
pub open spec fn read_ok<T>(v: T, p: int) -> Parsed<T> {
    Ok((v, p))
}

/// Bits behind each other stand behind each other.
pub proof fn lemma_holds_join(data: Seq<u8>, pos: int, a: Seq<bool>, b: Seq<bool>)
    requires
        holds(data, pos, a + b),
    ensures
        holds(data, pos, a),
        holds(data, pos + a.len(), b),
{
    let all = a + b;
    assert forall|i: int| 0 <= i < a.len() implies #[trigger] a[i] == bit(data, pos + i) by {
        assert(all[i] == a[i]);
    }
    assert forall|i: int| 0 <= i < b.len() implies #[trigger] b[i] == bit(
        data,
        pos + a.len() + i,
    ) by {
        assert(all[a.len() + i] == b[i]);
    }
}

/// A number in `n` bits has `n` bits, and spells itself.
pub proof fn lemma_uint(data: Seq<u8>, pos: int, v: int, n: nat)
    requires
        holds(data, pos, uint(v, n)),
        0 <= v,
    ensures
        uint(v, n).len() == n,
        bits_value(data, pos, n) == v % (pow2(n) as int),
    decreases n,
{
    lemma_uint_len(v, n);
    if n == 0 {
        lemma2_to64();
    } else {
        let m = (n - 1) as nat;
        let head = uint(v / 2, m);
        assert(uint(v, n) =~= head + seq![v % 2 == 1]);
        lemma_holds_join(data, pos, head, seq![v % 2 == 1]);
        lemma_uint(data, pos, v / 2, m);
        assert(seq![v % 2 == 1][0] == bit(data, pos + m + 0));
        lemma_pow2_unfold(n);
        lemma_pow2_pos(m);
        let p = pow2(m) as int;
        let h = v / 2;
        let q = h / p;
        let r = 2 * (h % p) + v % 2;
        vstd::arithmetic::div_mod::lemma_fundamental_div_mod(h, p);
        vstd::arithmetic::div_mod::lemma_mod_bound(h, p);
        assert(q * (2 * p) == 2 * (p * q)) by (nonlinear_arith);
        vstd::arithmetic::div_mod::lemma_fundamental_div_mod_converse(v, 2 * p, q, r);
    }
}

/// A number in `n` bits has `n` bits.
pub proof fn lemma_uint_len(v: int, n: nat)
    ensures
        uint(v, n).len() == n,
    decreases n,
{
    if n > 0 {
        lemma_uint_len(v / 2, (n - 1) as nat);
    }
}

/// A field holds the number that was written in it.
pub proof fn lemma_read_uint(data: Seq<u8>, pos: int, v: int, n: nat)
    requires
        holds(data, pos, uint(v, n)),
        0 <= v < pow2(n),
        n <= 32,
    ensures
        uint(v, n).len() == n,
        field(data, pos, n) == read_ok(v, pos + n),
{
    lemma_uint(data, pos, v, n);
    lemma2_to64();
    vstd::arithmetic::div_mod::lemma_small_mod(v as nat, pow2(n));
    if n < 32 {
        lemma_pow2_strictly_increases(n, 32);
    }
    vstd::arithmetic::div_mod::lemma_small_mod(v as nat, 0x1_0000_0000);
}

/// A field is there where as many bits are.
pub proof fn lemma_read_any(data: Seq<u8>, pos: int, n: nat)
    requires
        0 <= pos,
        pos + n <= bit_len(data),
    ensures
        field(data, pos, n) matches Ok((_, p)) && p == pos + n,
{
}

/// A bit reads as it was written.
pub proof fn lemma_read_flag(data: Seq<u8>, pos: int, b: bool)
    requires
        holds(data, pos, seq![b]),
    ensures
        flag(data, pos) == read_ok(b, pos + 1),
{
    assert(seq![b][0] == bit(data, pos + 0));
}

/// A bit is a field of one bit.
pub proof fn lemma_read_bit_field(data: Seq<u8>, pos: int, b: bool)
    requires
        holds(data, pos, seq![b]),
    ensures
        field(data, pos, 1) == read_ok(
            if b {
                1int
            } else {
                0
            },
            pos + 1,
        ),
{
    assert(seq![b][0] == bit(data, pos + 0));
    reveal_with_fuel(bits_value, 2);
}

/// As many fields are passed over as bits are there.
pub proof fn lemma_read_fields(data: Seq<u8>, pos: int, width: nat, n: nat)
    requires
        0 <= pos,
        pos + width * n <= bit_len(data),
    ensures
        fields(data, pos, width, n) == read_ok((), pos + width * n),
    decreases n,
{
    if n > 0 {
        assert(width * n == width + width * (n - 1)) by (nonlinear_arith);
        assert(width * (n - 1) >= 0) by (nonlinear_arith)
            requires
                n >= 1,
        ;
        lemma_read_fields(data, pos + width, width, (n - 1) as nat);
    } else {
        assert(width * n == 0) by (nonlinear_arith)
            requires
                n == 0,
        ;
    }
}

/// A code reads as the symbol that was written.
pub proof fn lemma_read_code(data: Seq<u8>, pos: int, book: Codebook, s: int)
    requires
        book.valid(),
        book.prefix_free(),
        book.all_used(),
        0 <= s < book.size(),
        holds(data, pos, code_bits(book, s)),
    ensures
        code_bits(book, s).len() == book.lens[s],
        book.decode(data, pos) == read_ok(s, pos + book.lens[s]),
{
    let n = book.lens[s] as nat;
    assert(book.lens[s] != 0);
    assert(book.codes[s] < pow2(n));
    lemma_uint(data, pos, book.codes[s] as int, n);
    vstd::arithmetic::div_mod::lemma_small_mod(book.codes[s] as nat, pow2(n));
    assert(book.code_at(data, pos, s));
    book.lemma_decode_code(data, pos);
}

/// The groups of the first `n` windows from the start of the group number `g`
/// on.
spec fn cut(groups: Seq<int>, g: int, n: int) -> Seq<int>
    decreases groups.len() - g,
{
    if g >= groups.len() || n <= groups[g] {
        seq![n]
    } else {
        seq![groups[g]] + cut(groups, g + 1, n - groups[g])
    }
}

/// One window more either joins the last group or starts one.
proof fn lemma_cut_step(groups: Seq<int>, g: int, n: int)
    requires
        0 <= g < groups.len(),
        forall|k: int| 0 <= k < groups.len() ==> #[trigger] groups[k] >= 1,
        1 <= n,
        n + 1 <= sum_from(groups, g),
    ensures
        cut(groups, g, n).len() >= 1,
        cut(groups, g, n + 1) == if group_starts(groups, g, n) {
            cut(groups, g, n).push(1)
        } else {
            cut(groups, g, n).update(
                cut(groups, g, n).len() - 1,
                cut(groups, g, n).last() + 1,
            )
        },
    decreases groups.len() - g,
{
    reveal_with_fuel(sum_from, 2);
    reveal_with_fuel(cut, 2);
    if n < groups[g] {
        assert(cut(groups, g, n + 1) =~= seq![n].update(0, n + 1));
    } else if n == groups[g] {
        assert(g + 1 < groups.len());
        assert(cut(groups, g + 1, 1) =~= seq![1int]);
        assert(cut(groups, g, n + 1) =~= seq![n].push(1));
    } else {
        assert(g + 1 < groups.len());
        lemma_cut_step(groups, g + 1, n - groups[g]);
        let rest = cut(groups, g + 1, n - groups[g]);
        let all = seq![groups[g]] + rest;
        if group_starts(groups, g, n) {
            assert(seq![groups[g]] + rest.push(1) =~= all.push(1));
        } else {
            assert(seq![groups[g]] + rest.update(rest.len() - 1, rest.last() + 1) =~= all.update(
                all.len() - 1,
                all.last() + 1,
            ));
        }
    }
}

/// All windows are in all groups.
proof fn lemma_cut_all(groups: Seq<int>, g: int)
    requires
        0 <= g < groups.len(),
        forall|k: int| 0 <= k < groups.len() ==> #[trigger] groups[k] >= 1,
    ensures
        cut(groups, g, sum_from(groups, g)) == groups.subrange(g, groups.len() as int),
        sum_from(groups, g) >= 1,
    decreases groups.len() - g,
{
    reveal_with_fuel(sum_from, 2);
    if g + 1 < groups.len() {
        lemma_cut_all(groups, g + 1);
        assert(seq![groups[g]] + groups.subrange(g + 1, groups.len() as int) =~= groups.subrange(
            g,
            groups.len() as int,
        ));
    } else {
        assert(seq![groups[g]] =~= groups.subrange(g, groups.len() as int));
    }
}

/// Seven bits that say which windows join the group before them give the
/// groups.
proof fn lemma_read_groups(groups: Seq<int>, grouping: u8, i: nat)
    requires
        groups.len() > 0,
        sum_from(groups, 0) == 8,
        forall|k: int| 0 <= k < groups.len() ==> #[trigger] groups[k] >= 1,
        i <= 7,
        forall|w: int|
            0 <= w < 7 ==> byte_bit(grouping, (w + 1) as u8) == !#[trigger] group_starts(
                groups,
                0,
                w + 1,
            ),
    ensures
        window_groups(grouping, i) == cut(groups, 0, i as int + 1),
    decreases i,
{
    if i > 0 {
        lemma_read_groups(groups, grouping, (i - 1) as nat);
        lemma_cut_step(groups, 0, i as int);
        assert(byte_bit(grouping, ((i - 1) + 1) as u8) == !group_starts(groups, 0, (i - 1) + 1));
    } else {
        assert(cut(groups, 0, 1) =~= seq![1int]);
    }
}

/// The bits of a seven-bit field are the last seven of the byte that holds its
/// value.
proof fn lemma_seven_bits(data: Seq<u8>, pos: int, v: u8, w: int)
    requires
        bits_value(data, pos, 7) == v,
        0 <= w < 7,
    ensures
        byte_bit(v, (w + 1) as u8) == bit(data, pos + w),
{
    let one = seq![v];
    lemma_byte_value(one, 0);
    lemma_bits_split(one, 0, 1, 7);
    lemma_bits_bound(data, pos, 7);
    lemma_bits_bound(one, 1, 7);
    lemma2_to64();
    reveal_with_fuel(bits_value, 2);
    lemma_bits_equal(data, pos, one, 1, 7);
    assert(bit(data, pos + w) == bit(one, 1 + w));
    assert((1 + w) / 8 == 0);
    assert((1 + w) % 8 == 1 + w);
}

/// The windows that were written, as a reader knows them.
pub open spec fn window_view(w: Window) -> IcsView {
    IcsView {
        window_sequence: match w {
            Window::Long { sequence, .. } => sequence,
            Window::Short { .. } => 2,
        },
        max_sfb: w.max_sfb(),
        groups: w.group_lens(),
    }
}

/// The windows of a channel read as they were written.
#[verifier::rlimit(40)]
pub proof fn lemma_read_window(data: Seq<u8>, pos: int, w: Window, reserved: bool, shape: bool)
    requires
        w.valid(),
        holds(data, pos, w.bits(reserved, shape)),
    ensures
        ics_info(data, pos) == read_ok(window_view(w), pos + w.bits(reserved, shape).len()),
{
    reveal(ics_info);
    lemma_small_powers();
    match w {
        Window::Long { sequence, max_sfb } => {
            let a = seq![reserved];
            let b = uint(sequence, 2);
            let c = seq![shape];
            let d = uint(max_sfb, 6);
            let e = seq![false];
            lemma_uint_len(sequence, 2);
            lemma_uint_len(max_sfb, 6);
            lemma_holds_join(data, pos, a + b + c + d, e);
            lemma_holds_join(data, pos, a + b + c, d);
            lemma_holds_join(data, pos, a + b, c);
            lemma_holds_join(data, pos, a, b);
            lemma_read_bit_field(data, pos, reserved);
            lemma_read_uint(data, pos + 1, sequence, 2);
            lemma_read_bit_field(data, pos + 3, shape);
            lemma_read_uint(data, pos + 4, max_sfb, 6);
            lemma_read_flag(data, pos + 10, false);
        },
        Window::Short { max_sfb, groups } => {
            let a = seq![reserved];
            let b = uint(2, 2);
            let c = seq![shape];
            let d = uint(max_sfb, 4);
            let e = Seq::new(7, |w: int| !group_starts(groups, 0, w + 1));
            lemma_uint_len(2, 2);
            lemma_uint_len(max_sfb, 4);
            lemma_holds_join(data, pos, a + b + c + d, e);
            lemma_holds_join(data, pos, a + b + c, d);
            lemma_holds_join(data, pos, a + b, c);
            lemma_holds_join(data, pos, a, b);
            lemma_read_bit_field(data, pos, reserved);
            lemma_read_uint(data, pos + 1, 2, 2);
            lemma_read_bit_field(data, pos + 3, shape);
            lemma_read_uint(data, pos + 4, max_sfb, 4);
            let p = pos + 8;
            lemma_bits_bound(data, p, 7);
            let v = bits_value(data, p, 7) as u8;
            assert forall|w: int| 0 <= w < 7 implies byte_bit(v, (w + 1) as u8)
                == !#[trigger] group_starts(groups, 0, w + 1) by {
                lemma_seven_bits(data, p, v, w);
                assert(e[w] == bit(data, p + w));
            }
            assert(groups.len() > 0);
            lemma_read_groups(groups, v, 7);
            lemma_cut_all(groups, 0);
            assert(groups.subrange(0, groups.len() as int) =~= groups);
        },
    }
}

/// The length of a section reads as it was written.
pub proof fn lemma_read_section_len(data: Seq<u8>, pos: int, len: int, long: bool)
    requires
        0 <= len,
        holds(data, pos, section_len_bits(len, long)),
    ensures
        section_len(data, pos, long) == read_ok(len, pos + section_len_bits(len, long).len()),
    decreases len,
{
    lemma_small_powers();
    let (esc, n): (int, nat) = if long {
        (31, 5)
    } else {
        (7, 3)
    };
    if len < esc {
        lemma_read_uint(data, pos, len, n);
    } else {
        lemma_uint_len(esc, n);
        lemma_holds_join(data, pos, uint(esc, n), section_len_bits(len - esc, long));
        lemma_read_uint(data, pos, esc, n);
        lemma_read_section_len(data, pos + n, len - esc, long);
    }
}

/// The sections of a group read as they were written.
#[verifier::rlimit(40)]
proof fn lemma_read_sections(
    data: Seq<u8>,
    pos: int,
    sections: Seq<Section>,
    long: bool,
    max_sfb: int,
    k: int,
    known: Seq<u8>,
)
    requires
        0 <= k <= sections.len(),
        forall|k: int|
            0 <= k < sections.len() ==> {
                &&& (#[trigger] sections[k]).len >= 1
                &&& 0 <= sections[k].book <= 15
                &&& sections[k].book != 12
            },
        known.len() + section_bands(sections, k).len() == max_sfb,
        holds(data, pos, sections_bits(sections, long, k)),
    ensures
        group_books(data, pos, long, max_sfb, known) == read_ok(
            known + section_bands(sections, k),
            pos + sections_bits(sections, long, k).len(),
        ),
    decreases sections.len() - k,
{
    if k < sections.len() {
        let s = sections[k];
        let a = uint(s.book, 4);
        let b = section_len_bits(s.len, long);
        let rest = sections_bits(sections, long, k + 1);
        lemma_uint_len(s.book, 4);
        lemma_small_powers();
        lemma_holds_join(data, pos, a + b, rest);
        lemma_holds_join(data, pos, a, b);
        lemma_read_uint(data, pos, s.book, 4);
        lemma_read_section_len(data, pos + 4, s.len, long);
        let run = Seq::new(s.len as nat, |i: int| s.book as u8);
        assert(run + section_bands(sections, k + 1) =~= section_bands(sections, k));
        lemma_read_sections(
            data,
            pos + 4 + b.len(),
            sections,
            long,
            max_sfb,
            k + 1,
            known + run,
        );
        assert(known + run + section_bands(sections, k + 1) =~= known + section_bands(
            sections,
            k,
        ));
    } else {
        assert(known + section_bands(sections, k) =~= known);
    }
}

/// The sections of all groups read as they were written.
pub proof fn lemma_read_groups_of_sections(
    data: Seq<u8>,
    pos: int,
    c: Channel,
    w: Window,
    g: int,
    known: Seq<Seq<u8>>,
)
    requires
        0 <= g <= c.sections.len(),
        c.sections.len() == w.group_lens().len(),
        forall|g: int|
            0 <= g < c.sections.len() ==> sections_valid(#[trigger] c.sections[g], w.max_sfb()),
        known == c.books().subrange(0, g),
        holds(data, pos, group_sections_bits(c.sections, w.is_long(), g)),
        window_view(w).long_win() == w.is_long(),
    ensures
        section_books(data, pos, window_view(w), known) == read_ok(
            c.books(),
            pos + group_sections_bits(c.sections, w.is_long(), g).len(),
        ),
    decreases c.sections.len() - g,
{
    let long = w.is_long();
    if g < c.sections.len() {
        let a = sections_bits(c.sections[g], long, 0);
        lemma_holds_join(data, pos, a, group_sections_bits(c.sections, long, g + 1));
        assert(sections_valid(c.sections[g], w.max_sfb()));
        lemma_read_sections(data, pos, c.sections[g], long, w.max_sfb(), 0, Seq::empty());
        assert(Seq::<u8>::empty() + section_bands(c.sections[g], 0) =~= section_bands(
            c.sections[g],
            0,
        ));
        assert(known.push(c.books()[g]) =~= c.books().subrange(0, g + 1));
        lemma_read_groups_of_sections(data, pos + a.len(), c, w, g + 1, known.push(c.books()[g]));
    } else {
        assert(known =~= c.books());
    }
}

/// The codebooks of AAC can be written with.
pub proof fn lemma_books_usable(book: int)
    ensures
        standard_books().scf == scf_book(),
        scf_book().valid(),
        scf_book().prefix_free(),
        scf_book().all_used(),
        1 <= book <= 11 ==> {
            &&& standard_books().spectrum[book - 1] == spectrum_book(book)
            &&& spectrum_book(book).book.valid()
            &&& spectrum_book(book).book.prefix_free()
            &&& spectrum_book(book).book.all_used()
        },
{
    lemma_standard_books_valid();
    lemma_standard_books_prefix_free();
    assert(standard_books().scf == scf_book()) by {
        reveal(standard_books);
    }
    if 1 <= book <= 11 {
        assert(standard_books().spectrum[book - 1] == spectrum_book(book)) by {
            reveal(standard_books);
        }
        assert(standard_books().spectrum[book - 1].valid());
    }
}

/// The scale factors are passed over up to their last bit.
pub proof fn lemma_read_factors(
    data: Seq<u8>,
    pos: int,
    books: Seq<Seq<u8>>,
    factors: Seq<Seq<int>>,
    noise: int,
    g: int,
    i: int,
    noise_seen: bool,
)
    requires
        holds(data, pos, factors_bits(books, factors, noise, g, i, noise_seen)),
        forall|g: int, i: int|
            0 <= g < books.len() && 0 <= i < books[g].len() ==> 0 <= #[trigger] factors[g][i]
                <= 120,
    ensures
        scale_factors(data, pos, scf_book(), books, g, i, !noise_seen) == read_ok(
            (),
            pos + factors_bits(books, factors, noise, g, i, noise_seen).len(),
        ),
    decreases books.len() - g, books[g].len() - i,
{
    if g < 0 || i < 0 || g >= books.len() {
    } else if i >= books[g].len() {
        lemma_read_factors(data, pos, books, factors, noise, g + 1, 0, noise_seen);
    } else if books[g][i] == 0 {
        lemma_read_factors(data, pos, books, factors, noise, g, i + 1, noise_seen);
    } else if books[g][i] == 13 && !noise_seen {
        lemma_uint_len(noise, 9);
        lemma_holds_join(
            data,
            pos,
            uint(noise, 9),
            factors_bits(books, factors, noise, g, i + 1, true),
        );
        lemma_read_any(data, pos, 9);
        lemma_read_factors(data, pos + 9, books, factors, noise, g, i + 1, true);
    } else {
        let a = code_bits(scf_book(), factors[g][i]);
        lemma_holds_join(
            data,
            pos,
            a,
            factors_bits(books, factors, noise, g, i + 1, noise_seen),
        );
        lemma_books_usable(0);
        lemma_scf_book_shape();
        lemma_read_code(data, pos, scf_book(), factors[g][i]);
        lemma_read_factors(data, pos + a.len(), books, factors, noise, g, i + 1, noise_seen);
    }
}

/// The pulses are passed over up to their last bit.
proof fn lemma_read_pulse_list(data: Seq<u8>, pos: int, list: Seq<Pulse>, k: int)
    requires
        0 <= k <= list.len(),
        holds(data, pos, pulse_list_bits(list, k)),
    ensures
        pulses(data, pos, (list.len() - k) as nat) == read_ok(
            (),
            pos + pulse_list_bits(list, k).len(),
        ),
    decreases list.len() - k,
{
    if k < list.len() {
        let a = uint(list[k].offset, 5);
        let b = uint(list[k].amplitude, 4);
        lemma_uint_len(list[k].offset, 5);
        lemma_uint_len(list[k].amplitude, 4);
        lemma_holds_join(data, pos, a + b, pulse_list_bits(list, k + 1));
        lemma_read_any(data, pos, 5);
        lemma_read_any(data, pos + 5, 4);
        lemma_read_pulse_list(data, pos + 9, list, k + 1);
    }
}

/// The pulses of a channel are passed over up to their last bit.
pub proof fn lemma_read_pulses(data: Seq<u8>, pos: int, c: Channel, w: Window)
    requires
        holds(data, pos, c.pulses_bits()),
        c.pulses matches Some(part) ==> w.is_long() && part.valid(),
        window_view(w).long_win() == w.is_long(),
    ensures
        pulse_part(data, pos, window_view(w)) == read_ok((), pos + c.pulses_bits().len()),
{
    match c.pulses {
        Some(part) => {
            let a = uint(part.pulses.len() - 1, 2);
            let b = uint(part.start, 6);
            lemma_uint_len(part.pulses.len() - 1, 2);
            lemma_uint_len(part.start, 6);
            lemma_small_powers();
            lemma_holds_join(data, pos, seq![true], part.bits());
            lemma_read_flag(data, pos, true);
            lemma_holds_join(data, pos + 1, a + b, pulse_list_bits(part.pulses, 0));
            lemma_holds_join(data, pos + 1, a, b);
            lemma_read_uint(data, pos + 1, part.pulses.len() - 1, 2);
            lemma_read_any(data, pos + 3, 6);
            lemma_read_pulse_list(data, pos + 9, part.pulses, 0);
        },
        None => {
            lemma_read_flag(data, pos, false);
        },
    }
}

/// Numbers of one width take that width each.
pub proof fn lemma_numbers_len(numbers: Seq<int>, width: nat, k: int)
    requires
        0 <= k <= numbers.len(),
    ensures
        numbers_bits(numbers, width, k).len() == width * (numbers.len() - k),
    decreases numbers.len() - k,
{
    let n = numbers.len() - k;
    if n > 0 {
        lemma_uint_len(numbers[k], width);
        lemma_numbers_len(numbers, width, k + 1);
        assert(width * n == width + width * (n - 1)) by (nonlinear_arith);
    } else {
        assert(width * n == 0) by (nonlinear_arith)
            requires
                n == 0,
        ;
    }
}

/// Filters cover no fewer bands than one of them does.
proof fn lemma_filtered_bands(filters: Seq<Filter>, long: bool, k: int)
    requires
        0 <= k <= filters.len(),
        forall|k: int| 0 <= k < filters.len() ==> (#[trigger] filters[k]).valid(long),
    ensures
        filtered_bands(filters, k) >= 0,
    decreases filters.len() - k,
{
    if k < filters.len() {
        assert(filters[k].valid(long));
        lemma_filtered_bands(filters, long, k + 1);
    }
}

/// A filter's coefficients are passed over up to their last bit.
proof fn lemma_read_filter_tail(data: Seq<u8>, pos: int, f: Filter, fine: bool)
    requires
        f.coefficients.len() > 0,
        holds(
            data,
            pos,
            seq![f.direction] + seq![f.compressed] + numbers_bits(
                f.coefficients,
                coefficient_width(fine, f.compressed),
                0,
            ),
        ),
    ensures
        tns_coefficients(
            data,
            pos,
            if fine {
                1
            } else {
                0
            },
            f.coefficients.len() as int,
        ) == read_ok(
            (),
            pos + 2 + numbers_bits(
                f.coefficients,
                coefficient_width(fine, f.compressed),
                0,
            ).len(),
        ),
{
    let width = coefficient_width(fine, f.compressed);
    let n = f.coefficients.len();
    lemma_numbers_len(f.coefficients, width, 0);
    lemma_holds_join(
        data,
        pos,
        seq![f.direction] + seq![f.compressed],
        numbers_bits(f.coefficients, width, 0),
    );
    lemma_holds_join(data, pos, seq![f.direction], seq![f.compressed]);
    lemma_read_bit_field(data, pos, f.direction);
    lemma_read_bit_field(data, pos + 1, f.compressed);
    assert(width * (n - 0) == width * n);
    lemma_read_fields(data, pos + 2, width, n);
}

/// The widths of the length and the order of a filter.
spec fn filter_widths(long: bool) -> (nat, nat) {
    if long {
        (6, 5)
    } else {
        (4, 3)
    }
}

/// A bit as a number.
spec fn one_if(b: bool) -> int {
    if b {
        1
    } else {
        0
    }
}

/// The head of a filter reads as it was written, and what follows it is passed
/// over up to its last bit.
#[verifier::rlimit(40)]
proof fn lemma_read_filter(data: Seq<u8>, pos: int, f: Filter, long: bool, fine: bool)
    requires
        f.valid(long),
        f.length < if long {
            64int
        } else {
            16
        },
        holds(data, pos, f.bits(long, fine)),
    ensures
        ({
            let (x, y) = filter_widths(long);
            let n = f.coefficients.len() as int;
            &&& field(data, pos, x) == read_ok(f.length, pos + x)
            &&& field(data, pos + x, y) == read_ok(n, pos + x + y)
            &&& tns_coefficients(data, pos + x + y, one_if(fine), n) == read_ok(
                (),
                pos + f.bits(long, fine).len(),
            )
        }),
{
    lemma_small_powers();
    let (x, y) = filter_widths(long);
    let n = f.coefficients.len() as int;
    let head = uint(f.length, x) + uint(n, y);
    lemma_uint_len(f.length, x);
    lemma_uint_len(n, y);
    if n == 0 {
        assert(f.bits(long, fine) == head);
        lemma_holds_join(data, pos, uint(f.length, x), uint(n, y));
    } else {
        let tail = seq![f.direction] + seq![f.compressed] + numbers_bits(
            f.coefficients,
            coefficient_width(fine, f.compressed),
            0,
        );
        assert(f.bits(long, fine) == head + tail);
        lemma_holds_join(data, pos, head, tail);
        lemma_holds_join(data, pos, uint(f.length, x), uint(n, y));
        lemma_read_filter_tail(data, pos + x + y, f, fine);
    }
    lemma_read_uint(data, pos, f.length, x);
    lemma_read_uint(data, pos + x, n, y);
}

/// Reading filters is reading the first one and then the others.
proof fn lemma_filters_step(
    data: Seq<u8>,
    pos: int,
    long: bool,
    bands: int,
    res: int,
    n: nat,
    length: int,
    order: int,
    p: int,
)
    requires
        n > 0,
        length <= bands,
        ({
            let (x, y) = filter_widths(long);
            &&& field(data, pos, x) == read_ok(length, pos + x)
            &&& field(data, pos + x, y) == read_ok(order, pos + x + y)
            &&& tns_coefficients(data, pos + x + y, res, order) == read_ok((), p)
        }),
    ensures
        tns_filters(data, pos, long, bands, res, n) == tns_filters(
            data,
            p,
            long,
            bands - length,
            res,
            (n - 1) as nat,
        ),
{
}

/// The first of several filters is passed over up to its last bit.
proof fn lemma_read_first_filter(
    data: Seq<u8>,
    pos: int,
    f: Filter,
    long: bool,
    fine: bool,
    bands: int,
    n: nat,
)
    requires
        n > 0,
        f.valid(long),
        f.length <= bands < if long {
            64int
        } else {
            16
        },
        holds(data, pos, f.bits(long, fine)),
    ensures
        tns_filters(data, pos, long, bands, one_if(fine), n) == tns_filters(
            data,
            pos + f.bits(long, fine).len(),
            long,
            bands - f.length,
            one_if(fine),
            (n - 1) as nat,
        ),
{
    lemma_read_filter(data, pos, f, long, fine);
    lemma_filters_step(
        data,
        pos,
        long,
        bands,
        one_if(fine),
        n,
        f.length,
        f.coefficients.len() as int,
        pos + f.bits(long, fine).len(),
    );
}

/// The filters of a window are passed over up to their last bit.
proof fn lemma_read_filters(
    data: Seq<u8>,
    pos: int,
    filters: Seq<Filter>,
    long: bool,
    fine: bool,
    max_sfb: int,
    k: int,
)
    requires
        0 <= k <= filters.len(),
        forall|k: int| 0 <= k < filters.len() ==> (#[trigger] filters[k]).valid(long),
        filtered_bands(filters, k) <= max_sfb,
        max_sfb < if long {
            64int
        } else {
            16
        },
        holds(data, pos, filters_bits(filters, long, fine, k)),
    ensures
        tns_filters(data, pos, long, max_sfb, one_if(fine), (filters.len() - k) as nat) == read_ok(
            (),
            pos + filters_bits(filters, long, fine, k).len(),
        ),
    decreases filters.len() - k,
{
    if k < filters.len() {
        let f = filters[k];
        let a = f.bits(long, fine);
        let rest = filters_bits(filters, long, fine, k + 1);
        let n = (filters.len() - k) as nat;
        assert(f.valid(long));
        lemma_filtered_bands(filters, long, k + 1);
        assert(filtered_bands(filters, k) == f.length + filtered_bands(filters, k + 1));
        assert(filters_bits(filters, long, fine, k) == a + rest);
        lemma_holds_join(data, pos, a, rest);
        lemma_read_first_filter(data, pos, f, long, fine, max_sfb, n);
        lemma_read_filters(data, pos + a.len(), filters, long, fine, max_sfb - f.length, k + 1);
        assert((filters.len() - (k + 1)) as nat == (n - 1) as nat);
    } else {
        assert(filters_bits(filters, long, fine, k).len() == 0);
    }
}

/// The filters of one window are passed over up to their last bit.
proof fn lemma_read_tns_window(data: Seq<u8>, pos: int, t: TnsWindow, long: bool, max_sfb: int)
    requires
        t.valid(long, max_sfb),
        max_sfb < if long {
            64int
        } else {
            16
        },
        holds(data, pos, t.bits(long)),
    ensures
        ({
            let width: nat = if long {
                2
            } else {
                1
            };
            let n = t.filters.len() as int;
            &&& field(data, pos, width) == read_ok(n, pos + width)
            &&& tns_window(data, pos + width, long, max_sfb, n) == read_ok(
                (),
                pos + t.bits(long).len(),
            )
        }),
{
    let width: nat = if long {
        2
    } else {
        1
    };
    let n = t.filters.len() as int;
    let head = uint(n, width);
    lemma_uint_len(n, width);
    lemma_small_powers();
    if n > 0 {
        let list = filters_bits(t.filters, long, t.fine, 0);
        assert(t.bits(long) == head + (seq![t.fine] + list));
        lemma_holds_join(data, pos, head, seq![t.fine] + list);
        lemma_holds_join(data, pos + width, seq![t.fine], list);
        lemma_read_bit_field(data, pos + width, t.fine);
        lemma_read_filters(data, pos + width + 1, t.filters, long, t.fine, max_sfb, 0);
    } else {
        assert(t.bits(long) == head);
    }
    lemma_read_uint(data, pos, n, width);
}

/// The noise shaping data is passed over up to its last bit.
proof fn lemma_read_tns(
    data: Seq<u8>,
    pos: int,
    windows: Seq<TnsWindow>,
    long: bool,
    max_sfb: int,
    k: int,
)
    requires
        0 <= k <= windows.len(),
        forall|k: int| 0 <= k < windows.len() ==> (#[trigger] windows[k]).valid(long, max_sfb),
        max_sfb < if long {
            64int
        } else {
            16
        },
        holds(data, pos, tns_bits(windows, long, k)),
    ensures
        tns_windows(data, pos, long, max_sfb, (windows.len() - k) as nat) == read_ok(
            (),
            pos + tns_bits(windows, long, k).len(),
        ),
    decreases windows.len() - k,
{
    if k < windows.len() {
        let a = windows[k].bits(long);
        lemma_holds_join(data, pos, a, tns_bits(windows, long, k + 1));
        lemma_read_tns_window(data, pos, windows[k], long, max_sfb);
        lemma_read_tns(data, pos + a.len(), windows, long, max_sfb, k + 1);
    }
}

/// The noise shaping part of a channel is passed over up to its last bit.
pub proof fn lemma_read_shaping(
    data: Seq<u8>,
    pos: int,
    c: Channel,
    w: Window,
    bands: Seq<usize>,
)
    requires
        c.valid(w, bands),
        holds(data, pos, c.shaping_bits(w)),
    ensures
        tns_part(data, pos, window_view(w)) == read_ok((), pos + c.shaping_bits(w).len()),
{
    match c.tns {
        Some(windows) => {
            lemma_holds_join(data, pos, seq![true], tns_bits(windows, w.is_long(), 0));
            lemma_read_flag(data, pos, true);
            lemma_read_tns(data, pos + 1, windows, w.is_long(), w.max_sfb(), 0);
        },
        None => {
            lemma_read_flag(data, pos, false);
        },
    }
}

/// An escape sequence with `n` of its set bits read is passed over up to its
/// last bit.
proof fn lemma_read_escape(data: Seq<u8>, pos: int, n: nat, m: nat)
    requires
        n <= m <= 8,
        0 <= pos,
        forall|i: int| 0 <= i < m - n ==> #[trigger] bit(data, pos + i),
        !bit(data, pos + (m - n)),
        pos + (m - n) + 1 + (m + 4) <= bit_len(data),
    ensures
        escape(data, pos, n as int) == read_ok((), pos + (m - n) + 1 + (m + 4)),
    decreases m - n,
{
    if n < m {
        assert(bit(data, pos + 0));
        assert forall|i: int| 0 <= i < m - (n + 1) implies #[trigger] bit(data, pos + 1 + i) by {
            assert(bit(data, pos + (1 + i)));
        }
        lemma_read_escape(data, pos + 1, n + 1, m);
    }
}

/// A size below `16 * 2^(n + 1)` is halved at most `n` times.
proof fn lemma_halvings(size: int, n: nat)
    requires
        16 <= size < 32 * pow2(n),
    ensures
        halvings(size) <= n,
    decreases n,
{
    lemma2_to64();
    if size >= 32 {
        assert(n > 0);
        lemma_pow2_unfold(n);
        lemma_halvings(size / 2, (n - 1) as nat);
    }
}

/// The escape sequence of a coefficient is passed over up to its last bit.
proof fn lemma_read_value_escape(data: Seq<u8>, pos: int, v: int)
    requires
        16 <= size_of_value(v) <= 8191,
        holds(data, pos, value_escape_bits(v)),
    ensures
        escape(data, pos, 0) == read_ok((), pos + value_escape_bits(v).len()),
{
    let size = size_of_value(v);
    let m = halvings(size);
    assert(pow2(8) == 256) by {
        lemma2_to64();
    }
    lemma_halvings(size, 8);
    lemma_uint_len(size, m + 4);
    let a = ones(m);
    lemma_holds_join(data, pos, a + seq![false], uint(size, m + 4));
    lemma_holds_join(data, pos, a, seq![false]);
    assert(seq![false][0] == bit(data, pos + m + 0));
    assert forall|i: int| 0 <= i < m implies #[trigger] bit(data, pos + i) by {
        assert(a[i] == bit(data, pos + i));
    }
    lemma_read_escape(data, pos, 0, m);
}

/// There is one sign for each coefficient that is not zero.
proof fn lemma_signs_len(values: Seq<int>)
    ensures
        values.len() == 2 ==> signs_bits(values, 0).len() == sign_bit(values[0]) + sign_bit(
            values[1],
        ),
        values.len() == 4 ==> signs_bits(values, 0).len() == sign_bit(values[0]) + sign_bit(
            values[1],
        ) + sign_bit(values[2]) + sign_bit(values[3]),
{
    reveal_with_fuel(signs_bits, 5);
}

/// A codebook has a symbol for all coefficients that it can hold, from which
/// the sizes can be had again.
#[verifier::rlimit(40)]
proof fn lemma_word_symbol(book: int, v: Seq<int>)
    requires
        word_valid(book, v),
    ensures
        1 <= book <= 11,
        0 <= word_symbol(book, v) < spectrum_book(book).book.size(),
        3 <= book <= 4 ==> quad(word_symbol(book, v)) == (
            size_of_value(v[0]),
            size_of_value(v[1]),
            size_of_value(v[2]),
            size_of_value(v[3]),
        ),
        7 <= book <= 8 ==> word_symbol(book, v) / 8 == size_of_value(v[0]) && word_symbol(book, v)
            % 8 == size_of_value(v[1]),
        9 <= book <= 10 ==> word_symbol(book, v) / 13 == size_of_value(v[0]) && word_symbol(book, v)
            % 13 == size_of_value(v[1]),
        book == 11 ==> word_symbol(book, v) / 17 == held_size(v[0]) && word_symbol(book, v) % 17
            == held_size(v[1]),
{
    lemma_spectrum_book_shapes(book);
    if book <= 4 {
        let (a, b, c, d) = (v[0], v[1], v[2], v[3]);
        assert(-2 <= a <= 2 && -2 <= b <= 2 && -2 <= c <= 2 && -2 <= d <= 2);
    } else {
        let (a, b) = (v[0], v[1]);
        assert(-8191 <= a <= 8191 && -8191 <= b <= 8191);
    }
}

/// What follows a symbol of a codebook is passed over up to its last bit: the
/// sign of each coefficient that is not zero, unless the codebook holds the
/// signs, and, of codebook 11 only, the escape sequence of each coefficient of
/// 16 or more.
#[verifier::rlimit(40)]
pub proof fn lemma_read_word_tail(data: Seq<u8>, pos: int, book: int, v: Seq<int>)
    requires
        word_valid(book, v),
        holds(data, pos, word_tail_bits(book, v)),
    ensures
        symbol_tail(data, pos, spectrum_book(book), book == 11, word_symbol(book, v)) == read_ok(
            (),
            pos + word_tail_bits(book, v).len(),
        ),
{
    lemma_spectrum_book_shapes(book);
    lemma_word_symbol(book, v);
    lemma_signs_len(v);
    let signs = signs_bits(v, 0);
    if book <= 2 || book == 5 || book == 6 {
    } else if book < 11 {
        lemma_read_fields(data, pos, 1, signs.len());
    } else {
        let e0 = value_escape_bits(v[0]);
        let e1 = value_escape_bits(v[1]);
        lemma_holds_join(data, pos, signs + e0, e1);
        lemma_holds_join(data, pos, signs, e0);
        lemma_read_fields(data, pos, 1, signs.len());
        if size_of_value(v[0]) >= 16 {
            lemma_read_value_escape(data, pos + signs.len(), v[0]);
        }
        if size_of_value(v[1]) >= 16 {
            lemma_read_value_escape(data, pos + signs.len() + e0.len(), v[1]);
        }
    }
}

/// The coefficients of a band of a window are passed over up to their last
/// bit.
proof fn lemma_read_words(data: Seq<u8>, pos: int, book: int, words: Seq<Seq<int>>, k: int)
    requires
        1 <= book <= 11,
        0 <= k <= words.len(),
        forall|k: int| 0 <= k < words.len() ==> word_valid(book, #[trigger] words[k]),
        holds(data, pos, words_bits(book, words, k)),
    ensures
        symbols(data, pos, spectrum_book(book), book == 11, (words.len() - k) as nat) == read_ok(
            (),
            pos + words_bits(book, words, k).len(),
        ),
    decreases words.len() - k,
{
    if k < words.len() {
        let v = words[k];
        let s = word_symbol(book, v);
        let code = code_bits(spectrum_book(book).book, s);
        lemma_holds_join(data, pos, word_bits(book, v), words_bits(book, words, k + 1));
        lemma_holds_join(data, pos, code, word_tail_bits(book, v));
        lemma_books_usable(book);
        lemma_word_symbol(book, v);
        lemma_read_code(data, pos, spectrum_book(book).book, s);
        lemma_read_word_tail(data, pos + code.len(), book, v);
        lemma_read_words(data, pos + word_bits(book, v).len(), book, words, k + 1);
    }
}

/// The coefficients of a band are passed over up to their last bit.
proof fn lemma_read_band(
    data: Seq<u8>,
    pos: int,
    book: int,
    windows: Seq<Seq<Seq<int>>>,
    n: nat,
    w: int,
)
    requires
        1 <= book <= 11,
        0 <= w <= windows.len(),
        forall|w: int|
            0 <= w < windows.len() ==> (#[trigger] windows[w]).len() == n && forall|k: int|
                0 <= k < windows[w].len() ==> word_valid(book, #[trigger] windows[w][k]),
        holds(data, pos, band_bits(book, windows, w)),
    ensures
        window_symbols(
            data,
            pos,
            spectrum_book(book),
            book == 11,
            n,
            (windows.len() - w) as nat,
        ) == read_ok((), pos + band_bits(book, windows, w).len()),
    decreases windows.len() - w,
{
    if w < windows.len() {
        let a = words_bits(book, windows[w], 0);
        lemma_holds_join(data, pos, a, band_bits(book, windows, w + 1));
        lemma_read_words(data, pos, book, windows[w], 0);
        lemma_read_band(data, pos + a.len(), book, windows, n, w + 1);
    }
}

/// The coefficients of a channel are passed over up to their last bit.
#[verifier::rlimit(40)]
proof fn lemma_read_coefficients(
    data: Seq<u8>,
    pos: int,
    c: Channel,
    w: Window,
    bands: Seq<usize>,
    g: int,
    i: int,
)
    requires
        c.valid(w, bands),
        holds(data, pos, coefficients_bits(c.books(), c.coefficients, g, i)),
    ensures
        spectrum(data, pos, standard_books(), window_view(w), c.books(), bands, g, i) == read_ok(
            (),
            pos + coefficients_bits(c.books(), c.coefficients, g, i).len(),
        ),
    decreases c.books().len() - g, c.books()[g].len() - i,
{
    let books = c.books();
    if g < 0 || i < 0 || g >= books.len() {
    } else if i >= books[g].len() {
        lemma_read_coefficients(data, pos, c, w, bands, g + 1, 0);
    } else {
        assert(sections_valid(c.sections[g], w.max_sfb()));
        lemma_section_bands(c.sections[g], 0, i);
        assert(c.band_valid(w, bands, g, i));
        let book = books[g][i] as int;
        if !has_coefficients(books[g][i]) {
            lemma_read_coefficients(data, pos, c, w, bands, g, i + 1);
        } else {
            let a = band_bits(book, c.coefficients[g][i], 0);
            lemma_holds_join(
                data,
                pos,
                a,
                coefficients_bits(books, c.coefficients, g, i + 1),
            );
            lemma_books_usable(book);
            lemma_spectrum_book_shapes(book);
            let n = word_count(book, bands[i + 1] - bands[i]);
            let windows = c.coefficients[g][i];
            assert(w.group_lens()[g] >= 1);
            assert(windows[0].len() == n);
            lemma_read_band(data, pos, book, windows, n as nat, 0);
            lemma_read_coefficients(data, pos + a.len(), c, w, bands, g, i + 1);
        }
    }
}

/// The bands of sections have the codebooks that a section can have.
proof fn lemma_section_bands(sections: Seq<Section>, k: int, i: int)
    requires
        0 <= k <= sections.len(),
        forall|k: int|
            0 <= k < sections.len() ==> {
                &&& (#[trigger] sections[k]).len >= 1
                &&& 0 <= sections[k].book <= 15
                &&& sections[k].book != 12
            },
        0 <= i < section_bands(sections, k).len(),
    ensures
        section_bands(sections, k)[i] <= 15,
        section_bands(sections, k)[i] != 12,
    decreases sections.len() - k,
{
    assert(k < sections.len());
    if i >= sections[k].len {
        lemma_section_bands(sections, k + 1, i - sections[k].len);
    }
}

/// The parts of what follows the windows of a channel, one behind the other.
proof fn lemma_body_parts(data: Seq<u8>, pos: int, c: Channel, w: Window)
    requires
        holds(data, pos, c.body_bits(w)),
    ensures
        ({
            let a = group_sections_bits(c.sections, w.is_long(), 0);
            let b = factors_bits(c.books(), c.factors, c.noise, 0, 0, false);
            let d = c.pulses_bits();
            let e = c.shaping_bits(w);
            let h = coefficients_bits(c.books(), c.coefficients, 0, 0);
            &&& holds(data, pos, a)
            &&& holds(data, pos + a.len(), b)
            &&& holds(data, pos + a.len() + b.len(), d)
            &&& holds(data, pos + a.len() + b.len() + d.len(), e)
            &&& holds(data, pos + a.len() + b.len() + d.len() + e.len(), seq![false])
            &&& holds(data, pos + a.len() + b.len() + d.len() + e.len() + 1, h)
            &&& c.body_bits(w).len() == a.len() + b.len() + d.len() + e.len() + 1 + h.len()
        }),
{
    let a = group_sections_bits(c.sections, w.is_long(), 0);
    let b = factors_bits(c.books(), c.factors, c.noise, 0, 0, false);
    let d = c.pulses_bits();
    let e = c.shaping_bits(w);
    let f = seq![false];
    let h = coefficients_bits(c.books(), c.coefficients, 0, 0);
    lemma_holds_join(data, pos, a + b + d + e + f, h);
    lemma_holds_join(data, pos, a + b + d + e, f);
    lemma_holds_join(data, pos, a + b + d, e);
    lemma_holds_join(data, pos, a + b, d);
    lemma_holds_join(data, pos, a, b);
}

/// Reading what follows the windows of a channel is reading its parts.
proof fn lemma_body_reads(
    data: Seq<u8>,
    pos: int,
    info: IcsView,
    bands: Seq<usize>,
    books: Seq<Seq<u8>>,
    p: Seq<int>,
)
    requires
        info.max_sfb < bands.len(),
        section_books(data, pos, info, Seq::empty()) == read_ok(books, p[0]),
        scale_factors(data, p[0], standard_books().scf, books, 0, 0, true) == read_ok((), p[1]),
        pulse_part(data, p[1], info) == read_ok((), p[2]),
        tns_part(data, p[2], info) == read_ok((), p[3]),
        flag(data, p[3]) == read_ok(false, p[3] + 1),
        spectrum(data, p[3] + 1, standard_books(), info, books, bands, 0, 0) == read_ok((), p[4]),
    ensures
        ics_body(data, pos, standard_books(), info, bands) == read_ok((), p[4]),
{
    reveal(ics_body);
}

/// What follows the windows of a channel is passed over up to its last bit.
#[verifier::rlimit(40)]
proof fn lemma_read_body(data: Seq<u8>, pos: int, c: Channel, w: Window, bands: Seq<usize>)
    requires
        c.valid(w, bands),
        holds(data, pos, c.body_bits(w)),
    ensures
        ics_body(data, pos, standard_books(), window_view(w), bands) == read_ok(
            (),
            pos + c.body_bits(w).len(),
        ),
{
    let p0 = pos + group_sections_bits(c.sections, w.is_long(), 0).len();
    let p1 = p0 + factors_bits(c.books(), c.factors, c.noise, 0, 0, false).len();
    let p2 = p1 + c.pulses_bits().len();
    let p3 = p2 + c.shaping_bits(w).len();
    let p4 = p3 + 1 + coefficients_bits(c.books(), c.coefficients, 0, 0).len();
    lemma_body_parts(data, pos, c, w);
    assert(Seq::<Seq<u8>>::empty() =~= c.books().subrange(0, 0));
    lemma_read_groups_of_sections(data, pos, c, w, 0, Seq::empty());
    assert forall|g: int, i: int| 0 <= g < c.books().len() && 0 <= i < c.books()[g].len() implies 0
        <= #[trigger] c.factors[g][i] <= 120 by {
        assert(sections_valid(c.sections[g], w.max_sfb()));
    }
    lemma_books_usable(0);
    lemma_read_factors(data, p0, c.books(), c.factors, c.noise, 0, 0, false);
    lemma_read_pulses(data, p1, c, w);
    lemma_read_shaping(data, p2, c, w, bands);
    lemma_read_flag(data, p3, false);
    lemma_read_coefficients(data, p3 + 1, c, w, bands, 0, 0);
    lemma_body_reads(data, pos, window_view(w), bands, c.books(), seq![p0, p1, p2, p3, p4]);
}

/// The band offsets that windows have at a sample rate.
pub open spec fn window_bands(w: Window, sample_rate: u32) -> Seq<usize> {
    let (long, short) = swb_bands(sample_rate);
    if w.is_long() {
        long
    } else {
        short
    }
}

/// A channel with windows of its own reads as it was written: its gain stands
/// in the eight bits at its start, and it ends with its last coefficient.
pub proof fn lemma_read_own_channel(
    data: Seq<u8>,
    pos: int,
    c: Channel,
    channel: u8,
    sample_rate: u32,
)
    requires
        c.valid(c.window, window_bands(c.window, sample_rate)),
        holds(data, pos, c.own_bits()),
    ensures
        ics(data, pos, standard_books(), channel, None, sample_rate) == read_ok(
            (gain_at(pos, channel, c.gain), window_view(c.window)),
            pos + c.own_bits().len(),
        ),
{
    reveal(ics);
    reveal(ics_rest);
    let head = c.window.bits(c.reserved, c.shape);
    let body = c.body_bits(c.window);
    lemma_uint_len(c.gain, 8);
    lemma_small_powers();
    lemma_holds_join(data, pos, uint(c.gain, 8), head + body);
    lemma_holds_join(data, pos + 8, head, body);
    lemma_read_uint(data, pos, c.gain, 8);
    lemma_read_window(data, pos + 8, c.window, c.reserved, c.shape);
    lemma_read_body(
        data,
        pos + 8 + head.len(),
        c,
        c.window,
        window_bands(c.window, sample_rate),
    );
}

/// A channel that shares its windows reads as it was written.
pub proof fn lemma_read_shared_channel(
    data: Seq<u8>,
    pos: int,
    c: Channel,
    w: Window,
    channel: u8,
    sample_rate: u32,
)
    requires
        c.valid(w, window_bands(w, sample_rate)),
        holds(data, pos, c.shared_bits(w)),
    ensures
        ics(data, pos, standard_books(), channel, Some(window_view(w)), sample_rate) == read_ok(
            (gain_at(pos, channel, c.gain), window_view(w)),
            pos + c.shared_bits(w).len(),
        ),
{
    reveal(ics);
    reveal(ics_rest);
    lemma_uint_len(c.gain, 8);
    lemma_small_powers();
    lemma_holds_join(data, pos, uint(c.gain, 8), c.body_bits(w));
    lemma_read_uint(data, pos, c.gain, 8);
    lemma_read_body(data, pos + 8, c, w, window_bands(w, sample_rate));
}

} // verus!
