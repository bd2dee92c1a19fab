//! Huffman codebooks and their decoding through a lookup table.
use crate::bit_reader::{flag, BitReader, Parsed};
use crate::bits::{bit, bit_len, bits_value, lemma_bits_bound, lemma_bits_split};
use crate::error::{parse_error, Error, ErrorView};
use vstd::arithmetic::power2::*;
use vstd::bits::*;
use vstd::prelude::*;

verus! {

/// What the lookup table holds for one word of the longest code length: the
/// symbol whose code the word starts with and the length of that code, which
/// is zero where no code fits.
#[derive(Debug, Clone, Copy, PartialEq, Eq)]
pub struct HuffmanEntry {
    pub symbol: u16,
    pub len: u8,
}

/// A codebook: symbol `s` is written as the `lens[s]` low bits of `codes[s]`,
/// and is not used where `lens[s]` is zero.
pub struct Codebook {
    pub lens: Seq<u8>,
    pub codes: Seq<u32>,
    pub max_len: nat,
}

/// The error of bits that start no code.
pub open spec fn invalid_code() -> ErrorView {
    parse_error("invalid Huffman code"@)
}

impl Codebook {
    /// The number of symbols.
    pub open spec fn size(self) -> int {
        if self.lens.len() <= self.codes.len() {
            self.lens.len() as int
        } else {
            self.codes.len() as int
        }
    }

    /// No code is longer than `max_len`, and tables of all words of that
    /// length, with 16-bit symbols, can be built.
    pub open spec fn valid(self) -> bool {
        &&& self.max_len <= 31
        &&& self.size() <= 0x1_0000
        &&& forall|s: int| 0 <= s < self.size() ==> #[trigger] self.lens[s] <= self.max_len
    }

    /// How many words of `max_len` bits start with the code of `s`.
    pub open spec fn span(self, s: int) -> int {
        pow2((self.max_len - self.lens[s]) as nat) as int
    }

    /// Whether the word `w` of `max_len` bits starts with the code of `s`.
    pub open spec fn covers(self, s: int, w: int) -> bool {
        &&& self.lens[s] != 0
        &&& self.codes[s] * self.span(s) <= w < (self.codes[s] + 1) * self.span(s)
    }

    /// The last of the first `n` symbols whose code `w` starts with.
    pub open spec fn last_cover(self, n: int, w: int) -> Option<int>
        decreases n,
    {
        if n <= 0 {
            None
        } else if self.covers(n - 1, w) {
            Some(n - 1)
        } else {
            self.last_cover(n - 1, w)
        }
    }

    /// The table entry of `w` when the first `n` symbols have been entered.
    pub open spec fn entry(self, n: int, w: int) -> HuffmanEntry {
        match self.last_cover(n, w) {
            Some(s) => HuffmanEntry { symbol: s as u16, len: self.lens[s] },
            None => HuffmanEntry { symbol: 0, len: 0 },
        }
    }

    /// The first symbol from `i` on that is written as the `len` bits `code`.
    pub open spec fn first_match(self, len: nat, code: int, i: int) -> Option<int>
        decreases self.size() - i,
    {
        if i >= self.size() {
            None
        } else if self.lens[i] == len && self.codes[i] == code {
            Some(i)
        } else {
            self.first_match(len, code, i + 1)
        }
    }

    /// The symbol found by trying ever longer codes, when the first `k` bits
    /// at `pos` have been tried.
    pub open spec fn search(self, data: Seq<u8>, pos: int, k: nat) -> Parsed<int>
        decreases self.max_len - k,
    {
        if k >= self.max_len {
            Err((invalid_code(), pos + k))
        } else {
            match flag(data, pos + k) {
                Err(f) => Err(f),
                Ok(_) => match self.first_match(
                    k + 1,
                    bits_value(data, pos, k + 1) as int,
                    0,
                ) {
                    Some(s) => Ok((s, pos + k + 1)),
                    None => self.search(data, pos, k + 1),
                },
            }
        }
    }

    /// The symbol at `pos`: looked up where a whole word is left and the word
    /// starts with a code, searched for otherwise.
    pub open spec fn decode(self, data: Seq<u8>, pos: int) -> Parsed<int> {
        let entry = self.entry(self.size(), bits_value(data, pos, self.max_len) as int);
        if pos + self.max_len <= bit_len(data) && entry.len != 0 {
            Ok((entry.symbol as int, pos + entry.len))
        } else {
            self.search(data, pos, 0)
        }
    }

    /// No word starts with the codes of two symbols, and no code has more bits
    /// than its length.
    pub open spec fn prefix_free(self) -> bool {
        &&& forall|s: int|
            0 <= s < self.size() && self.lens[s] != 0 ==> #[trigger] self.codes[s] < pow2(
                self.lens[s] as nat,
            )
        &&& forall|s: int, t: int, w: int|
            0 <= s < self.size() && 0 <= t < self.size() && #[trigger] self.covers(s, w)
                && #[trigger] self.covers(t, w) ==> s == t
    }

    /// Every symbol has a code.
    pub open spec fn all_used(self) -> bool {
        forall|s: int| 0 <= s < self.size() ==> #[trigger] self.lens[s] != 0
    }

    /// Words that start with a shorter code come before those that start with a
    /// longer one.
    #[verifier::opaque]
    pub open spec fn shorter_first(self) -> bool {
        forall|s: int, t: int|
            0 <= s < self.size() && 0 <= t < self.size() && #[trigger] self.lens[s]
                < #[trigger] self.lens[t] ==> (self.codes[s] + 1) * pow2(
                (self.lens[t] - self.lens[s]) as nat,
            ) <= self.codes[t]
    }

    /// Whether a word of `max_len` bits starts with a code.
    pub open spec fn covered(self, w: int) -> bool {
        exists|s: int| 0 <= s < self.size() && #[trigger] self.covers(s, w)
    }

    /// Every word of `max_len` bits starts with a code.
    #[verifier::opaque]
    pub open spec fn complete(self) -> bool {
        forall|w: int| 0 <= w < pow2(self.max_len) ==> #[trigger] self.covered(w)
    }

    /// With a codebook in which every word starts with a code, any bits read as
    /// a symbol where a whole word of them is left.
    pub proof fn lemma_complete_decodes(self, data: Seq<u8>, pos: int)
        requires
            self.valid(),
            self.complete(),
            0 <= pos,
            pos + self.max_len <= bit_len(data),
        ensures
            self.decode(data, pos) is Ok,
    {
        reveal(Codebook::complete);
        let w = bits_value(data, pos, self.max_len) as int;
        lemma_bits_bound(data, pos, self.max_len);
        self.lemma_last_cover(self.size(), w);
        assert(self.covered(w));
        let s = choose|s: int| 0 <= s < self.size() && #[trigger] self.covers(s, w);
        assert(self.covers(s, w));
    }

    /// Whether the code of `s` stands at `pos`.
    pub open spec fn code_at(self, data: Seq<u8>, pos: int, s: int) -> bool {
        &&& self.lens[s] != 0
        &&& pos + self.lens[s] <= bit_len(data)
        &&& bits_value(data, pos, self.lens[s] as nat) == self.codes[s]
    }

    /// `last_cover` names a symbol below `n` that covers the word, and finds
    /// one wherever there is one.
    pub proof fn lemma_last_cover(self, n: int, w: int)
        requires
            0 <= n <= self.size(),
        ensures
            match self.last_cover(n, w) {
                Some(s) => 0 <= s < n && self.covers(s, w),
                None => forall|s: int| 0 <= s < n ==> !#[trigger] self.covers(s, w),
            },
        decreases n,
    {
        if n > 0 && !self.covers(n - 1, w) {
            self.lemma_last_cover(n - 1, w);
        }
    }

    /// `first_match` names the first symbol with the code, and finds one
    /// wherever there is one.
    pub proof fn lemma_first_match(self, len: nat, code: int, i: int)
        requires
            0 <= i,
        ensures
            match self.first_match(len, code, i) {
                Some(s) => i <= s < self.size() && self.lens[s] == len && self.codes[s] == code,
                None => forall|s: int|
                    i <= s < self.size() ==> !(#[trigger] self.lens[s] == len && self.codes[s]
                        == code),
            },
        decreases self.size() - i,
    {
        if i < self.size() && !(self.lens[i] == len && self.codes[i] == code) {
            self.lemma_first_match(len, code, i + 1);
        }
    }

    /// Searching ends within the data, with a symbol of the codebook whose
    /// code stands at `pos`.
    proof fn lemma_search(self, data: Seq<u8>, pos: int, k: nat)
        requires
            0 <= pos,
        ensures
            self.search(data, pos, k) matches Ok((s, p)) ==> 0 <= s < self.size() && p == pos
                + self.lens[s] && self.code_at(data, pos, s),
        decreases self.max_len - k,
    {
        if k < self.max_len && pos + k < bit_len(data) {
            self.lemma_first_match(k + 1, bits_value(data, pos, k + 1) as int, 0);
            self.lemma_search(data, pos, k + 1);
        }
    }

    /// Where a whole word is left, it starts with the code of `s` just where
    /// that code stands at `pos`.
    proof fn lemma_covers_code(self, data: Seq<u8>, pos: int, s: int)
        requires
            self.valid(),
            0 <= s < self.size(),
            self.lens[s] != 0,
        ensures
            self.covers(s, bits_value(data, pos, self.max_len) as int) <==> bits_value(
                data,
                pos,
                self.lens[s] as nat,
            ) == self.codes[s],
    {
        let a = self.lens[s] as nat;
        let b = (self.max_len - a) as nat;
        let h = bits_value(data, pos, a) as int;
        let c = self.codes[s] as int;
        let lo = bits_value(data, pos + a, b) as int;
        let d = pow2(b) as int;
        lemma_bits_split(data, pos, a, b);
        lemma_bits_bound(data, pos + a, b);
        if h < c {
            assert(h * d + d <= c * d) by (nonlinear_arith)
                requires
                    h + 1 <= c,
                    d >= 0,
            ;
        } else if h > c {
            assert((c + 1) * d <= h * d) by (nonlinear_arith)
                requires
                    c + 1 <= h,
                    d >= 0,
            ;
        } else {
            assert((c + 1) * d == c * d + d) by (nonlinear_arith);
        }
    }

    /// Decoding ends within the data, with a symbol of the codebook.
    pub proof fn lemma_decode_bounds(self, data: Seq<u8>, pos: int)
        requires
            self.valid(),
            0 <= pos,
        ensures
            self.decode(data, pos) matches Ok((s, p)) ==> 0 <= s < self.size() && pos < p
                <= bit_len(data),
    {
        self.lemma_last_cover(self.size(), bits_value(data, pos, self.max_len) as int);
        self.lemma_search(data, pos, 0);
    }

    /// A word covered by both of two codes one of which starts the other.
    proof fn lemma_shorter_covers(self, data: Seq<u8>, pos: int, s: int, t: int)
        requires
            self.valid(),
            0 <= s < self.size(),
            0 <= t < self.size(),
            0 < self.lens[t] <= self.lens[s],
            bits_value(data, pos, self.lens[s] as nat) == self.codes[s],
            bits_value(data, pos, self.lens[t] as nat) == self.codes[t],
        ensures
            self.covers(s, self.codes[s] * self.span(s)),
            self.covers(t, self.codes[s] * self.span(s)),
    {
        let a = self.lens[t] as nat;
        let b = (self.lens[s] - self.lens[t]) as nat;
        let e = (self.max_len - self.lens[s]) as nat;
        lemma_bits_split(data, pos, a, b);
        lemma_bits_bound(data, pos + a, b);
        lemma_pow2_adds(b, e);
        lemma_pow2_pos(e);
        let c = self.codes[t] as int;
        let lo = bits_value(data, pos + a, b) as int;
        let db = pow2(b) as int;
        let de = pow2(e) as int;
        assert(self.span(t) == db * de);
        assert(c * (db * de) <= (c * db + lo) * de < (c + 1) * (db * de)) by (nonlinear_arith)
            requires
                0 <= lo < db,
                0 < de,
                0 <= c,
        ;
        assert((self.codes[s] + 1) * de == self.codes[s] * de + de) by (nonlinear_arith);
    }

    /// Searching a prefix-free codebook finds the code that stands at `pos`.
    proof fn lemma_search_finds(self, data: Seq<u8>, pos: int, k: nat, s: int)
        requires
            self.valid(),
            self.prefix_free(),
            0 <= pos,
            0 <= s < self.size(),
            self.code_at(data, pos, s),
            k < self.lens[s],
        ensures
            self.search(data, pos, k) == Ok::<(int, int), (ErrorView, int)>(
                (s, pos + self.lens[s]),
            ),
        decreases self.lens[s] - k,
    {
        self.lemma_first_match(k + 1, bits_value(data, pos, k + 1) as int, 0);
        match self.first_match(k + 1, bits_value(data, pos, k + 1) as int, 0) {
            Some(t) => {
                self.lemma_shorter_covers(data, pos, s, t);
            },
            None => {
                self.lemma_search_finds(data, pos, k + 1, s);
            },
        }
    }

    /// Decoding with a prefix-free codebook gives a symbol just where the code
    /// of that symbol stands, and moves past that code: looking a word up and
    /// searching bit by bit never differ.
    pub proof fn lemma_decode_code(self, data: Seq<u8>, pos: int)
        requires
            self.valid(),
            self.prefix_free(),
            0 <= pos,
        ensures
            forall|s: int|
                0 <= s < self.size() && #[trigger] self.code_at(data, pos, s) ==> self.decode(
                    data,
                    pos,
                ) == Ok::<(int, int), (ErrorView, int)>((s, pos + self.lens[s])) && self.search(
                    data,
                    pos,
                    0,
                ) == Ok::<(int, int), (ErrorView, int)>((s, pos + self.lens[s])),
            self.decode(data, pos) matches Ok((s, p)) ==> 0 <= s < self.size() && self.code_at(
                data,
                pos,
                s,
            ) && p == pos + self.lens[s],
    {
        let w = bits_value(data, pos, self.max_len) as int;
        self.lemma_last_cover(self.size(), w);
        self.lemma_search(data, pos, 0);
        if let Some(t) = self.last_cover(self.size(), w) {
            self.lemma_covers_code(data, pos, t);
        }
        assert forall|s: int|
            0 <= s < self.size() && #[trigger] self.code_at(data, pos, s) implies self.decode(
            data,
            pos,
        ) == Ok::<(int, int), (ErrorView, int)>((s, pos + self.lens[s])) && self.search(
            data,
            pos,
            0,
        ) == Ok::<(int, int), (ErrorView, int)>((s, pos + self.lens[s])) by {
            self.lemma_covers_code(data, pos, s);
            self.lemma_search_finds(data, pos, 0, s);
        }
    }

    /// What a prefix-free codebook decodes depends on the bits of the code
    /// alone, not on those that follow it.
    pub proof fn lemma_decode_local(self, d1: Seq<u8>, d2: Seq<u8>, pos: int)
        requires
            self.valid(),
            self.prefix_free(),
            0 <= pos,
            d1.len() == d2.len(),
            self.decode(d1, pos) is Ok,
            forall|i: int|
                pos <= i < self.decode(d1, pos)->Ok_0.1 ==> #[trigger] bit(d1, i) == bit(d2, i),
        ensures
            self.decode(d2, pos) == self.decode(d1, pos),
    {
        self.lemma_decode_code(d1, pos);
        self.lemma_decode_code(d2, pos);
        let (s, p) = self.decode(d1, pos)->Ok_0;
        assert forall|i: int| 0 <= i < self.lens[s] implies #[trigger] bit(d1, pos + i) == bit(
            d2,
            pos + i,
        ) by {}
        crate::bits::lemma_bits_agree(d1, pos, d2, pos, self.lens[s] as nat);
        assert(self.code_at(d2, pos, s));
    }
}

/// A codebook together with its lookup table.
pub struct HuffmanTable {
    pub lens: &'static [u8],
    pub codes: &'static [u32],
    pub max_len: u8,
    pub entries: Vec<HuffmanEntry>,
}

impl HuffmanTable {
    /// The codebook of the table.
    pub open spec fn book(self) -> Codebook {
        Codebook { lens: self.lens@, codes: self.codes@, max_len: self.max_len as nat }
    }

    /// The codebook is valid, and every word has its entry.
    pub open spec fn wf(self) -> bool {
        &&& self.book().valid()
        &&& self.entries@.len() == pow2(self.max_len as nat)
        &&& forall|w: int|
            0 <= w < self.entries@.len() ==> #[trigger] self.entries@[w] == self.book().entry(
                self.book().size(),
                w,
            )
    }

    /// Builds the lookup table of a codebook.
    pub fn new(lens: &'static [u8], codes: &'static [u32], max_len: u8) -> (table: Self)
        requires
            (Codebook { lens: lens@, codes: codes@, max_len: max_len as nat }).valid(),
        ensures
            table.wf(),
            table.lens@ == lens@,
            table.codes@ == codes@,
            table.max_len == max_len,
    {
        let ghost book = Codebook { lens: lens@, codes: codes@, max_len: max_len as nat };
        proof {
            lemma2_to64();
            if max_len < 31 {
                lemma_pow2_strictly_increases(max_len as nat, 31);
            }
            lemma_usize_shl_is_mul(1, max_len as usize);
        }
        let size: usize = 1usize << max_len;
        let mut entries = vec![HuffmanEntry { symbol: 0, len: 0 }; size];
        let n: usize = if lens.len() <= codes.len() {
            lens.len()
        } else {
            codes.len()
        };
        let mut symbol: usize = 0;
        while symbol < n
            invariant
                book == (Codebook { lens: lens@, codes: codes@, max_len: max_len as nat }),
                book.valid(),
                n == book.size(),
                symbol <= n,
                size == pow2(max_len as nat),
                entries@.len() == size,
                forall|w: int|
                    0 <= w < size ==> #[trigger] entries@[w] == book.entry(symbol as int, w),
            decreases n - symbol,
        {
            let len = lens[symbol];
            if len != 0 {
                let rest: u8 = max_len - len;
                let code = codes[symbol];
                proof {
                    lemma2_to64();
                    if rest < 31 {
                        lemma_pow2_strictly_increases(rest as nat, 31);
                    }
                    let d = pow2(rest as nat) as int;
                    assert(code * d <= 0xffff_ffff * 0x8000_0000 && (code + 1) * d == code * d + d)
                        by (nonlinear_arith)
                        requires
                            0 <= code <= 0xffff_ffff,
                            0 <= d <= 0x8000_0000,
                    ;
                    lemma_u64_shl_is_mul(code as u64, rest as u64);
                    lemma_u64_shl_is_mul(1, rest as u64);
                }
                let prefix: u64 = (code as u64) << rest;
                let fill: u64 = 1u64 << rest;
                let mut w: u64 = prefix;
                while w < prefix + fill && w < size as u64
                    invariant
                        book == (Codebook { lens: lens@, codes: codes@, max_len: max_len as nat }),
                        0 <= symbol < book.size(),
                        book.size() <= 0x1_0000,
                        len == lens@[symbol as int],
                        len != 0,
                        prefix <= w <= prefix + fill,
                        prefix + fill <= u64::MAX,
                        prefix == codes@[symbol as int] * book.span(symbol as int),
                        prefix + fill == (codes@[symbol as int] + 1) * book.span(symbol as int),
                        entries@.len() == size,
                        forall|x: int|
                            0 <= x < size ==> #[trigger] entries@[x] == (if prefix <= x < w {
                                book.entry(symbol + 1, x)
                            } else {
                                book.entry(symbol as int, x)
                            }),
                    decreases prefix + fill - w,
                {
                    assert(book.covers(symbol as int, w as int));
                    entries[w as usize] = HuffmanEntry { symbol: symbol as u16, len };
                    w = w + 1;
                }
            }
            symbol = symbol + 1;
        }
        HuffmanTable { lens, codes, max_len, entries }
    }
}

/// Reads one symbol.
pub fn decode_huffman(reader: &mut BitReader, table: &HuffmanTable) -> (r: Result<usize, Error>)
    requires
        old(reader).ready(),
        table.wf(),
    ensures
        final(reader).ready(),
        final(reader).data == old(reader).data,
        match table.book().decode(old(reader).data@, old(reader).pos()) {
            Ok((s, p)) => r is Ok && r->Ok_0 == s && s < table.book().size() && final(reader).pos()
                == p && old(reader).pos() < p,
            Err((e, p)) => r is Err && r->Err_0@ == e && final(reader).pos() == p,
        },
{
    let ghost book = table.book();
    let ghost data = reader.data@;
    let ghost pos = reader.pos();
    proof {
        book.lemma_decode_bounds(data, pos);
        book.lemma_last_cover(book.size(), bits_value(data, pos, book.max_len) as int);
        lemma_bits_bound(data, pos, book.max_len);
        lemma2_to64();
        if book.max_len < 31 {
            lemma_pow2_strictly_increases(book.max_len, 31);
        }
    }
    if reader.bits_remaining() >= table.max_len as usize {
        let bits = reader.peek_bits(table.max_len)? as usize;
        assert(bits == bits_value(data, pos, book.max_len));
        let entry = table.entries[bits];
        if entry.len != 0 {
            reader.advance_bits(entry.len as usize);
            return Ok(entry.symbol as usize);
        }
    }
    decode_huffman_slow(reader, table.lens, table.codes, table.max_len)
}

/// Reads one symbol by trying ever longer codes.
pub fn decode_huffman_slow(reader: &mut BitReader, lens: &[u8], codes: &[u32], max_len: u8) -> (r:
    Result<usize, Error>)
    requires
        old(reader).ready(),
        max_len <= 31,
    ensures
        final(reader).ready(),
        final(reader).data == old(reader).data,
        match (Codebook { lens: lens@, codes: codes@, max_len: max_len as nat }).search(
            old(reader).data@,
            old(reader).pos(),
            0,
        ) {
            Ok((s, p)) => r is Ok && r->Ok_0 == s && final(reader).pos() == p,
            Err((e, p)) => r is Err && r->Err_0@ == e && final(reader).pos() == p,
        },
{
    let ghost book = Codebook { lens: lens@, codes: codes@, max_len: max_len as nat };
    let ghost data = reader.data@;
    let ghost pos = reader.pos();
    let n: usize = if lens.len() <= codes.len() {
        lens.len()
    } else {
        codes.len()
    };
    let mut code: u32 = 0;
    let mut bits_read: u8 = 0;
    while bits_read < max_len
        invariant
            max_len <= 31,
            book == (Codebook { lens: lens@, codes: codes@, max_len: max_len as nat }),
            n == book.size(),
            reader.ready(),
            reader.data@ == data,
            reader.data == old(reader).data,
            pos == old(reader).pos(),
            reader.pos() == pos + bits_read,
            bits_read <= max_len,
            code == bits_value(data, pos, bits_read as nat),
            book.search(data, pos, 0) == book.search(data, pos, bits_read as nat),
        decreases max_len - bits_read,
    {
        let bit = reader.read_bit()?;
        proof {
            lemma_bits_bound(data, pos, bits_read as nat);
            lemma2_to64();
            lemma_pow2_strictly_increases(bits_read as nat, 31);
            let b: u32 = if bit {
                1
            } else {
                0
            };
            assert((code << 1) | b == 2 * code + b) by (bit_vector)
                requires
                    b <= 1,
                    code < 0x8000_0000,
            ;
        }
        code = (code << 1) | (if bit {
            1
        } else {
            0
        });
        bits_read = bits_read + 1;
        assert(code == bits_value(data, pos, bits_read as nat));
        let mut i: usize = 0;
        while i < n
            invariant
                i <= n,
                n == book.size(),
                book == (Codebook { lens: lens@, codes: codes@, max_len: max_len as nat }),
                book.first_match(bits_read as nat, code as int, 0) == book.first_match(
                    bits_read as nat,
                    code as int,
                    i as int,
                ),
                0 < bits_read <= max_len,
                reader.ready(),
                reader.data@ == data,
                reader.data == old(reader).data,
                pos == old(reader).pos(),
                reader.pos() == pos + bits_read,
                code == bits_value(data, pos, bits_read as nat),
                pos + bits_read <= bit_len(data),
                book.search(data, pos, 0) == book.search(data, pos, (bits_read - 1) as nat),
            decreases n - i,
        {
            if lens[i] == bits_read && codes[i] == code {
                return Ok(i);
            }
            i = i + 1;
        }
    }
    Err(Error::aac_parse("invalid Huffman code"))
}

} // verus!
