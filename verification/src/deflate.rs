//! DEFLATE (RFC 1951) inflate inside a zlib wrapper (RFC 1950): fixed and
//! dynamic Huffman blocks, stored blocks, LZ77 window, adler32 trailer.
//!
//! Past the end of the data the bit reader gives zeros. A stream that runs
//! past its end is rejected, as its trailer is missing.

use crate::bytes::{be32, be32_bytes, get_be32, get_le16, le16, le16_bytes};
use vstd::prelude::*;
use vstd::slice::slice_subrange;

verus! {

pub open spec fn pw(n: nat) -> nat
    decreases n,
{
    if n == 0 {
        1
    } else {
        2 * pw((n - 1) as nat)
    }
}

/// The bit at `pos`, least significant bit of each byte first.
pub open spec fn bit_at(d: Seq<u8>, pos: int) -> int {
    if 0 <= pos / 8 < d.len() {
        ((d[pos / 8] >> ((pos % 8) as u8)) & 1u8) as int
    } else {
        0
    }
}

/// The `n` bits from `pos` on as a number, least significant first.
pub open spec fn bits_at(d: Seq<u8>, pos: int, n: nat) -> int
    decreases n,
{
    if n == 0 {
        0
    } else {
        bits_at(d, pos, (n - 1) as nat) + bit_at(d, pos + n - 1) * pw((n - 1) as nat)
    }
}

/// The `n` bits from `pos` on as a code, most significant first.
pub open spec fn code_at(d: Seq<u8>, pos: int, n: nat) -> int
    decreases n,
{
    if n == 0 {
        0
    } else {
        code_at(d, pos, (n - 1) as nat) * 2 + bit_at(d, pos + n - 1)
    }
}

proof fn lemma_bit_bound(d: Seq<u8>, pos: int)
    ensures
        0 <= bit_at(d, pos) <= 1,
{
    if 0 <= pos / 8 < d.len() {
        let b = d[pos / 8];
        let k = (pos % 8) as u8;
        assert((b >> k) & 1u8 <= 1) by (bit_vector);
    }
}

proof fn lemma_bits_bound(d: Seq<u8>, pos: int, n: nat)
    ensures
        0 <= bits_at(d, pos, n) < pw(n),
        0 <= code_at(d, pos, n) < pw(n),
    decreases n,
{
    if n > 0 {
        lemma_bits_bound(d, pos, (n - 1) as nat);
        lemma_bit_bound(d, pos + n - 1);
        let w = pw((n - 1) as nat) as int;
        let b = bit_at(d, pos + n - 1);
        assert(b * w == if b == 0 { 0 } else { w }) by (nonlinear_arith)
            requires
                b == 0 || b == 1,
        ;
    }
}

proof fn lemma_pw_small()
    ensures
        pw(0) == 1, pw(1) == 2, pw(2) == 4, pw(3) == 8, pw(4) == 16, pw(5) == 32, pw(6) == 64,
        pw(7) == 128, pw(8) == 256, pw(9) == 512, pw(10) == 1024, pw(11) == 2048,
        pw(12) == 4096, pw(13) == 8192, pw(14) == 16384, pw(15) == 32768, pw(16) == 65536,
{
    reveal_with_fuel(pw, 17);
}

proof fn lemma_pw_monotone(a: nat, b: nat)
    requires
        a <= b,
    ensures
        0 < pw(a) <= pw(b),
    decreases b,
{
    if a < b {
        lemma_pw_monotone(a, (b - 1) as nat);
    } else if b > 0 {
        lemma_pw_monotone((a - 1) as nat, (b - 1) as nat);
    }
}

/// How many bit positions are left from `pos` on.
pub open spec fn left(d: Seq<u8>, pos: int) -> nat {
    if pos > 8 * d.len() {
        0
    } else {
        (8 * d.len() + 1 - pos) as nat
    }
}

/// How many entries are missing to make up `total`.
pub open spec fn missing(acc: Seq<u8>, total: nat) -> nat {
    if acc.len() >= total {
        0
    } else {
        (total - acc.len()) as nat
    }
}

/// The symbols below `n` whose code has `len` bits, in order.
pub open spec fn symbols_of(t: Seq<u8>, len: nat, n: nat) -> Seq<u16>
    decreases n,
{
    if n == 0 {
        Seq::empty()
    } else {
        let before = symbols_of(t, len, (n - 1) as nat);
        if t[n - 1] == len {
            before.push((n - 1) as u16)
        } else {
            before
        }
    }
}

/// How many codes have `len` bits.
pub open spec fn count_of(t: Seq<u8>, len: nat) -> nat {
    symbols_of(t, len, t.len()).len()
}

/// The first canonical code of `len` bits.
pub open spec fn first_code(t: Seq<u8>, len: nat) -> nat
    decreases len,
{
    if len <= 1 {
        0
    } else {
        (first_code(t, (len - 1) as nat) + count_of(t, (len - 1) as nat)) * 2
    }
}

/// Code lengths that make up a table: none over 15 bits, at least one
/// code, and no more codes of a length than there is room for.
pub open spec fn valid_table(t: Seq<u8>) -> bool {
    &&& forall|i: int| 0 <= i < t.len() ==> #[trigger] t[i] <= 15
    &&& exists|i: int| 0 <= i < t.len() && #[trigger] t[i] > 0
    &&& forall|len: nat|
        1 <= len <= 15 ==> #[trigger] first_code(t, len) + count_of(t, len) <= pw(len)
}

/// The symbol whose code stands at `pos`, of `len` bits or more, and the
/// position behind it.
pub open spec fn symbol_at(t: Seq<u8>, d: Seq<u8>, pos: int, len: nat) -> Option<(u16, int)>
    decreases 16 - len,
{
    if len > 15 {
        None
    } else {
        let code = code_at(d, pos, len);
        let k = code - first_code(t, len);
        if 0 <= k < count_of(t, len) {
            Some((symbols_of(t, len, t.len())[k], pos + len))
        } else {
            symbol_at(t, d, pos, len + 1)
        }
    }
}

/// All symbols of codes up to `n` bits, ordered by length, then by symbol.
spec fn all_symbols(t: Seq<u8>, n: nat) -> Seq<u16>
    decreases n,
{
    if n == 0 {
        Seq::empty()
    } else {
        all_symbols(t, (n - 1) as nat) + symbols_of(t, n, t.len())
    }
}

proof fn lemma_all_symbols_prefix(t: Seq<u8>, len: nat, m: nat)
    requires
        len <= m,
    ensures
        all_symbols(t, len).len() <= all_symbols(t, m).len(),
        forall|i: int|
            0 <= i < all_symbols(t, len).len() ==> all_symbols(t, m)[i] == #[trigger] all_symbols(
                t,
                len,
            )[i],
    decreases m,
{
    if len < m {
        lemma_all_symbols_prefix(t, len, (m - 1) as nat);
    }
}

proof fn lemma_symbols_count(t: Seq<u8>, len: nat, n: nat)
    requires
        n <= t.len(),
    ensures
        symbols_of(t, len, n).len() <= n,
    decreases n,
{
    if n > 0 {
        lemma_symbols_count(t, len, (n - 1) as nat);
    }
}

proof fn lemma_symbol_advances(t: Seq<u8>, d: Seq<u8>, pos: int, len: nat)
    requires
        1 <= len,
    ensures
        symbol_at(t, d, pos, len) matches Some((s, p)) ==> pos + len <= p <= pos + 15,
    decreases 16 - len,
{
    if len <= 15 {
        lemma_symbol_advances(t, d, pos, len + 1);
    }
}

/// Bit reader over a byte slice, LSB-first.
struct BitReader<'a> {
    data: &'a [u8],
    bitpos: u64,
}

impl<'a> BitReader<'a> {
    spec fn wf(&self) -> bool {
        self.data@.len() < 0x1000_0000_0000_0000
    }

    fn new(data: &'a [u8]) -> (r: Self)
        ensures
            r.data == data,
            r.bitpos == 0,
    {
        BitReader { data, bitpos: 0 }
    }

    /// Reads one bit, LSB-first. Past the end of the buffer it gives zeros.
    fn read_bit(&mut self) -> (r: u8)
        requires
            old(self).bitpos < u64::MAX,
        ensures
            r == bit_at(old(self).data@, old(self).bitpos as int),
            r <= 1,
            final(self).data == old(self).data,
            final(self).bitpos == old(self).bitpos + 1,
    {
        proof {
            lemma_bit_bound(self.data@, self.bitpos as int);
        }
        let off = self.bitpos / 8;
        let bit = if off < self.data.len() as u64 {
            (self.data[off as usize] >> ((self.bitpos % 8) as u8)) & 1u8
        } else {
            0
        };
        self.bitpos = self.bitpos + 1;
        bit
    }

    /// Reads `n` bits, least significant first (extra bits, counts).
    fn read_bits_lsb(&mut self, n: u32) -> (r: u32)
        requires
            n <= 13,
            old(self).bitpos + n <= u64::MAX,
        ensures
            r == bits_at(old(self).data@, old(self).bitpos as int, n as nat),
            r < pw(n as nat) <= 8192,
            final(self).data == old(self).data,
            final(self).bitpos == old(self).bitpos + n,
    {
        let mut v: u32 = 0;
        let mut weight: u32 = 1;
        let mut i: u32 = 0;
        proof {
            lemma_pw_small();
            lemma_pw_monotone(n as nat, 13);
        }
        while i < n
            invariant
                i <= n <= 13,
                self.data == old(self).data,
                self.bitpos == old(self).bitpos + i,
                old(self).bitpos + n <= u64::MAX,
                weight == pw(i as nat),
                weight <= 8192,
                v == bits_at(old(self).data@, old(self).bitpos as int, i as nat),
                v < weight,
            decreases n - i,
        {
            let bit = self.read_bit();
            proof {
                lemma_pw_small();
                lemma_pw_monotone((i + 1) as nat, 13);
                lemma_bits_bound(old(self).data@, old(self).bitpos as int, (i + 1) as nat);
                let (b, w) = (bit as int, weight as int);
                assert(b * w == if b == 0 { 0 } else { w }) by (nonlinear_arith)
                    requires
                        b == 0 || b == 1,
                ;
            }
            if bit != 0 {
                v = v + weight;
            }
            weight = weight * 2;
            i += 1;
        }
        v
    }

    fn align_byte(&mut self)
        requires
            old(self).bitpos + 7 <= u64::MAX,
        ensures
            final(self).data == old(self).data,
            final(self).bitpos == (old(self).bitpos + 7) / 8 * 8,
    {
        self.bitpos = (self.bitpos + 7) / 8 * 8;
    }
}

/// Canonical Huffman decoder for the code lengths of each symbol.
struct Huff {
    counts: Vec<u32>,
    first: Vec<u32>,
    symbols: Vec<u16>,
    lengths: Ghost<Seq<u8>>,
}

impl Huff {
    spec fn wf(&self) -> bool {
        let t = self.lengths@;
        &&& valid_table(t)
        &&& t.len() <= 320
        &&& self.counts@.len() == 16
        &&& self.first@.len() == 16
        &&& forall|l: int| 1 <= l < 16 ==> #[trigger] self.counts@[l] == count_of(t, l as nat)
        &&& forall|l: int| 1 <= l < 16 ==> #[trigger] self.first@[l] == first_code(t, l as nat)
        &&& self.symbols@ == all_symbols(t, 15)
    }

    fn decode(&self, r: &mut BitReader) -> (s: Option<u16>)
        requires
            self.wf(),
            old(r).bitpos + 15 <= u64::MAX,
        ensures
            final(r).data == old(r).data,
            match symbol_at(self.lengths@, old(r).data@, old(r).bitpos as int, 1) {
                None => s is None,
                Some((sym, p)) => s == Some(sym) && final(r).bitpos == p && old(r).bitpos < p
                    <= old(r).bitpos + 15,
            },
    {
        let ghost t = self.lengths@;
        let ghost d = r.data@;
        let ghost pos = r.bitpos as int;
        let mut code: u32 = 0;
        let mut index: usize = 0;
        let mut len: usize = 1;
        while len < 16
            invariant
                1 <= len <= 16,
                self.wf(),
                t == self.lengths@,
                r.data == old(r).data,
                d == r.data@,
                pos == old(r).bitpos,
                pos + 15 <= u64::MAX,
                r.bitpos == pos + len - 1,
                code == code_at(d, pos, (len - 1) as nat),
                code < pw((len - 1) as nat),
                index == all_symbols(t, (len - 1) as nat).len(),
                symbol_at(t, d, pos, 1) == symbol_at(t, d, pos, len as nat),
            decreases 16 - len,
        {
            let bit = r.read_bit();
            proof {
                lemma_pw_small();
                lemma_pw_monotone((len - 1) as nat, 14);
                lemma_bits_bound(d, pos, len as nat);
                lemma_all_symbols_prefix(t, len as nat, 15);
                lemma_symbols_count(t, len as nat, t.len());
                assert(self.symbols@.len() == self.symbols.len());
            }
            code = code * 2 + bit as u32;
            let count = self.counts[len];
            let f = self.first[len];
            assert(f == first_code(t, len as nat) && count == count_of(t, len as nat));
            if count > 0 && code >= f && code - f < count {
                let at = index + (code - f) as usize;
                assert(all_symbols(t, len as nat)[at as int] == symbols_of(
                    t,
                    len as nat,
                    t.len(),
                )[code - f]);
                return Some(self.symbols[at]);
            }
            index = index + count as usize;
            len += 1;
        }
        None
    }
}

proof fn lemma_first_code_bound(t: Seq<u8>, len: nat)
    requires
        t.len() <= 320,
    ensures
        first_code(t, len) + 640 <= 640 * pw(len),
    decreases len,
{
    if len > 1 {
        lemma_first_code_bound(t, (len - 1) as nat);
        lemma_symbols_count(t, (len - 1) as nat, t.len());
    } else {
        lemma_pw_monotone(0, len);
    }
}

/// Builds the decoder for the given code lengths.
fn build_huff(lengths: &[u8]) -> (r: Option<Huff>)
    requires
        lengths.len() <= 320,
    ensures
        r is Some <==> valid_table(lengths@),
        r matches Some(h) ==> h.wf() && h.lengths@ == lengths@,
{
    let ghost t = lengths@;
    let mut counts: Vec<u32> = Vec::new();
    counts.resize(16, 0);
    let mut any = false;
    let mut i: usize = 0;
    while i < lengths.len()
        invariant
            t == lengths@,
            i <= lengths.len() <= 320,
            counts@.len() == 16,
            forall|k: int| 0 <= k < i ==> #[trigger] t[k] <= 15,
            any <==> exists|k: int| 0 <= k < i && #[trigger] t[k] > 0,
            forall|l: int|
                1 <= l < 16 ==> #[trigger] counts@[l] == symbols_of(t, l as nat, i as nat).len(),
            forall|l: int| 1 <= l < 16 ==> #[trigger] counts@[l] <= i,
        decreases lengths.len() - i,
    {
        let l = lengths[i];
        if l > 15 {
            assert(t[i as int] > 15);
            return None;
        }
        if l > 0 {
            any = true;
            assert(t[i as int] > 0);
            let c = counts[l as usize];
            counts.set(l as usize, c + 1);
        }
        i += 1;
    }
    if !any {
        return None;
    }
    let mut first: Vec<u32> = Vec::new();
    first.push(0);
    first.push(0);
    let mut len: usize = 2;
    while len < 16
        invariant
            t == lengths@,
            t.len() <= 320,
            2 <= len <= 16,
            counts@.len() == 16,
            forall|l: int| 1 <= l < 16 ==> #[trigger] counts@[l] == count_of(t, l as nat),
            forall|l: int| 1 <= l < 16 ==> #[trigger] counts@[l] <= 320,
            first@.len() == len,
            forall|l: int| 1 <= l < len ==> #[trigger] first@[l] == first_code(t, l as nat),
        decreases 16 - len,
    {
        proof {
            lemma_first_code_bound(t, len as nat);
            lemma_pw_small();
            lemma_pw_monotone(len as nat, 15);
            assert(first@[len - 1] == first_code(t, (len - 1) as nat));
            assert(counts@[len - 1] == count_of(t, (len - 1) as nat));
        }
        let code = (first[len - 1] + counts[len - 1]) * 2;
        first.push(code);
        len += 1;
    }
    let mut symbols: Vec<u16> = Vec::new();
    let mut len: usize = 1;
    while len < 16
        invariant
            t == lengths@,
            t.len() <= 320,
            1 <= len <= 16,
            symbols@ == all_symbols(t, (len - 1) as nat),
        decreases 16 - len,
    {
        let mut sym: usize = 0;
        let ghost before = symbols@;
        assert(symbols@ =~= before + symbols_of(t, len as nat, 0));
        while sym < lengths.len()
            invariant
                t == lengths@,
                t.len() <= 320,
                1 <= len < 16,
                sym <= t.len(),
                symbols@ == before + symbols_of(t, len as nat, sym as nat),
            decreases t.len() - sym,
        {
            if lengths[sym] as usize == len {
                symbols.push(sym as u16);
            }
            sym += 1;
            assert(symbols@ =~= before + symbols_of(t, len as nat, sym as nat));
        }
        len += 1;
    }
    proof {
        lemma_pw_small();
    }
    let mut len: usize = 1;
    let mut room: u32 = 2;
    while len < 16
        invariant
            t == lengths@,
            t.len() <= 320,
            1 <= len <= 16,
            counts@.len() == 16,
            first@.len() == 16,
            room == pw(len as nat),
            forall|l: int| 1 <= l < 16 ==> #[trigger] counts@[l] == count_of(t, l as nat),
            forall|l: int| 1 <= l < 16 ==> #[trigger] counts@[l] <= 320,
            forall|l: int| 1 <= l < 16 ==> #[trigger] first@[l] == first_code(t, l as nat),
            forall|l: nat|
                1 <= l < len ==> #[trigger] first_code(t, l) + count_of(t, l) <= pw(l),
        decreases 16 - len,
    {
        proof {
            lemma_first_code_bound(t, len as nat);
            lemma_pw_small();
            lemma_pw_monotone(len as nat, 15);
            assert(first@[len as int] == first_code(t, len as nat));
            assert(counts@[len as int] == count_of(t, len as nat));
        }
        if first[len] + counts[len] > room {
            return None;
        }
        room = room * 2;
        len += 1;
    }
    Some(Huff { counts, first, symbols, lengths: Ghost(t) })
}

pub const LENGTH_BASE: [u16; 29] = [
    3, 4, 5, 6, 7, 8, 9, 10, 11, 13, 15, 17, 19, 23, 27, 31, 35, 43, 51, 59, 67, 83, 99, 115, 131,
    163, 195, 227, 258,
];

pub const LENGTH_EXTRA: [u8; 29] = [
    0, 0, 0, 0, 0, 0, 0, 0, 1, 1, 1, 1, 2, 2, 2, 2, 3, 3, 3, 3, 4, 4, 4, 4, 5, 5, 5, 5, 0,
];

pub const DIST_BASE: [u16; 30] = [
    1, 2, 3, 4, 5, 7, 9, 13, 17, 25, 33, 49, 65, 97, 129, 193, 257, 385, 513, 769, 1025, 1537,
    2049, 3073, 4097, 6145, 8193, 12289, 16385, 24577,
];

pub const DIST_EXTRA: [u8; 30] = [
    0, 0, 0, 0, 1, 1, 2, 2, 3, 3, 4, 4, 5, 5, 6, 6, 7, 7, 8, 8, 9, 9, 10, 10, 11, 11, 12, 12,
    13, 13,
];

/// The order in which a dynamic block gives the lengths of its code-length
/// codes.
pub const ORDER: [u8; 19] = [16, 17, 18, 0, 8, 7, 9, 6, 10, 5, 11, 4, 12, 3, 13, 2, 14, 1, 15];

pub open spec fn adler_a(s: Seq<u8>) -> nat
    decreases s.len(),
{
    if s.len() == 0 {
        1
    } else {
        (adler_a(s.drop_last()) + s.last() as nat) % 65521
    }
}

pub open spec fn adler_b(s: Seq<u8>) -> nat
    decreases s.len(),
{
    if s.len() == 0 {
        0
    } else {
        (adler_b(s.drop_last()) + adler_a(s)) % 65521
    }
}

/// The adler32 checksum: both running sums in one word.
pub open spec fn adler(s: Seq<u8>) -> u32 {
    (adler_b(s) * 65536 + adler_a(s)) as u32
}

fn adler32(data: &[u8]) -> (r: u32)
    ensures
        r == adler(data@),
{
    let mut a: u32 = 1;
    let mut b: u32 = 0;
    let mut i: usize = 0;
    while i < data.len()
        invariant
            i <= data@.len(),
            a < 65521,
            b < 65521,
            a == adler_a(data@.take(i as int)),
            b == adler_b(data@.take(i as int)),
        decreases data@.len() - i,
    {
        proof {
            let next = data@.take(i + 1);
            assert(next.drop_last() =~= data@.take(i as int));
            assert(next.last() == data@[i as int]);
        }
        a = (a + data[i] as u32) % 65521;
        b = (b + a) % 65521;
        i += 1;
    }
    assert(data@.take(data@.len() as int) =~= data@);
    b * 65536 + a
}

/// The code lengths of the fixed literal table (RFC 1951 3.2.6).
pub open spec fn fixed_lit_lengths() -> Seq<u8> {
    Seq::new(
        288,
        |i: int|
            if i <= 143 {
                8u8
            } else if i <= 255 {
                9u8
            } else if i <= 279 {
                7u8
            } else {
                8u8
            },
    )
}

/// The code lengths of the fixed distance table.
pub open spec fn fixed_dist_lengths() -> Seq<u8> {
    Seq::new(32, |i: int| 5u8)
}

pub(crate) proof fn lemma_fixed_lit_counts(l: nat, n: nat)
    requires
        n <= 288,
    ensures
        symbols_of(fixed_lit_lengths(), l, n).len() == if l == 7 {
            if n <= 256 { 0 } else if n <= 280 { (n - 256) as nat } else { 24 }
        } else if l == 8 {
            if n <= 144 { n } else if n <= 280 { 144 } else { (n - 136) as nat }
        } else if l == 9 {
            if n <= 144 { 0 } else if n <= 256 { (n - 144) as nat } else { 112 }
        } else {
            0
        },
    decreases n,
{
    if n > 0 {
        lemma_fixed_lit_counts(l, (n - 1) as nat);
    }
}

pub(crate) proof fn lemma_fixed_dist_counts(l: nat, n: nat)
    requires
        n <= 32,
    ensures
        symbols_of(fixed_dist_lengths(), l, n).len() == if l == 5 {
            n
        } else {
            0
        },
    decreases n,
{
    if n > 0 {
        lemma_fixed_dist_counts(l, (n - 1) as nat);
    }
}

proof fn lemma_fixed_tables_valid()
    ensures
        valid_table(fixed_lit_lengths()),
        valid_table(fixed_dist_lengths()),
{
    lemma_pw_small();
    reveal_with_fuel(first_code, 16);
    let t = fixed_lit_lengths();
    assert(t[0] > 0);
    assert forall|l: nat| #[trigger] count_of(t, l) == if l == 7 {
        24nat
    } else if l == 8 {
        152
    } else if l == 9 {
        112
    } else {
        0
    } by {
        lemma_fixed_lit_counts(l, 288);
    }
    assert(first_code(t, 7) == 0);
    assert(first_code(t, 8) == 48);
    assert(first_code(t, 9) == 400);
    assert(first_code(t, 10) == 1024);
    assert forall|len: nat| 1 <= len <= 15 implies #[trigger] first_code(t, len) + count_of(
        t,
        len,
    ) <= pw(len) by {}
    let t = fixed_dist_lengths();
    assert(t[0] > 0);
    assert forall|l: nat| #[trigger] count_of(t, l) == if l == 5 {
        32nat
    } else {
        0
    } by {
        lemma_fixed_dist_counts(l, 32);
    }
    assert(first_code(t, 5) == 0);
    assert(first_code(t, 6) == 64);
    assert forall|len: nat| 1 <= len <= 15 implies #[trigger] first_code(t, len) + count_of(
        t,
        len,
    ) <= pw(len) by {}
}

fn fixed_lit() -> (r: Huff)
    ensures
        r.wf(),
        r.lengths@ == fixed_lit_lengths(),
{
    let mut lengths: Vec<u8> = Vec::new();
    let mut i: usize = 0;
    while i < 288
        invariant
            i <= 288,
            lengths@ =~= fixed_lit_lengths().take(i as int),
        decreases 288 - i,
    {
        lengths.push(if i <= 143 { 8 } else if i <= 255 { 9 } else if i <= 279 { 7 } else { 8 });
        i += 1;
    }
    assert(lengths@ =~= fixed_lit_lengths());
    proof {
        lemma_fixed_tables_valid();
    }
    build_huff(lengths.as_slice()).unwrap()
}

fn fixed_dist() -> (r: Huff)
    ensures
        r.wf(),
        r.lengths@ == fixed_dist_lengths(),
{
    let mut lengths: Vec<u8> = Vec::new();
    lengths.resize(32, 5);
    assert(lengths@ =~= fixed_dist_lengths());
    proof {
        lemma_fixed_tables_valid();
    }
    build_huff(lengths.as_slice()).unwrap()
}

/// The output with `n` bytes appended, each a copy of the byte `d` back.
pub open spec fn repeated(out: Seq<u8>, d: int, n: nat) -> Seq<u8>
    decreases n,
{
    if n == 0 {
        out
    } else {
        let before = repeated(out, d, (n - 1) as nat);
        before.push(before[before.len() - d])
    }
}

/// Position and output after the symbols of one compressed block up to its
/// end mark, from `pos` on.
pub open spec fn block(
    lit: Seq<u8>,
    dist: Seq<u8>,
    d: Seq<u8>,
    pos: int,
    out: Seq<u8>,
) -> Option<(int, Seq<u8>)>
    decreases left(d, pos),
    via block_decreases
{
    if pos > 8 * d.len() {
        None
    } else {
        match symbol_at(lit, d, pos, 1) {
            None => None,
            Some((sym, p1)) => if sym < 256 {
                block(lit, dist, d, p1, out.push(sym as u8))
            } else if sym == 256 {
                Some((p1, out))
            } else if sym - 257 >= 29 {
                None
            } else {
                let li = sym - 257;
                let len = LENGTH_BASE@[li] + bits_at(d, p1, LENGTH_EXTRA@[li] as nat);
                let p2 = p1 + LENGTH_EXTRA@[li];
                match symbol_at(dist, d, p2, 1) {
                    None => None,
                    Some((ds, p3)) => if ds >= 30 {
                        None
                    } else {
                        let back = DIST_BASE@[ds as int] + bits_at(
                            d,
                            p3,
                            DIST_EXTRA@[ds as int] as nat,
                        );
                        if back > out.len() {
                            None
                        } else {
                            block(
                                lit,
                                dist,
                                d,
                                p3 + DIST_EXTRA@[ds as int],
                                repeated(out, back, len as nat),
                            )
                        }
                    },
                }
            },
        }
    }
}

#[via_fn]
proof fn block_decreases(lit: Seq<u8>, dist: Seq<u8>, d: Seq<u8>, pos: int, out: Seq<u8>) {
    lemma_symbol_advances(lit, d, pos, 1);
    if let Some((sym, p1)) = symbol_at(lit, d, pos, 1) {
        if 257 <= sym < 257 + 29 {
            let p2 = p1 + LENGTH_EXTRA@[sym - 257];
            lemma_symbol_advances(dist, d, p2, 1);
        }
    }
}

proof fn lemma_repeated_len(out: Seq<u8>, d: int, n: nat)
    ensures
        repeated(out, d, n).len() == out.len() + n,
    decreases n,
{
    if n > 0 {
        lemma_repeated_len(out, d, (n - 1) as nat);
    }
}

proof fn lemma_tables_small(li: int, ds: int)
    requires
        0 <= li < 29,
        0 <= ds < 30,
    ensures
        LENGTH_EXTRA@[li] <= 5,
        LENGTH_BASE@[li] <= 258,
        DIST_EXTRA@[ds] <= 13,
        1 <= DIST_BASE@[ds] <= 24577,
{
}

/// Decodes one compressed block using the `lit`/`dist` tables, emitting
/// into `out`.
fn decode_blocks(r: &mut BitReader, lit: &Huff, dist: &Huff, out: &mut Vec<u8>) -> (ok: Option<()>)
    requires
        old(r).wf(),
        lit.wf(),
        dist.wf(),
    ensures
        final(r).data == old(r).data,
        match block(
            lit.lengths@,
            dist.lengths@,
            old(r).data@,
            old(r).bitpos as int,
            old(out)@,
        ) {
            None => ok is None,
            Some((p, o)) => ok is Some && final(r).bitpos == p && final(out)@ == o && p <= 8
                * old(r).data@.len() + 64,
        },
{
    let ghost d = r.data@;
    let ghost lt = lit.lengths@;
    let ghost dt = dist.lengths@;
    let ghost all = block(lt, dt, d, r.bitpos as int, out@);
    loop
        invariant
            r.data == old(r).data,
            r.wf(),
            lit.wf(),
            dist.wf(),
            d == r.data@,
            lt == lit.lengths@,
            dt == dist.lengths@,
            all == block(
                lit.lengths@,
                dist.lengths@,
                old(r).data@,
                old(r).bitpos as int,
                old(out)@,
            ),
            all == block(lt, dt, d, r.bitpos as int, out@),
        decreases left(d, r.bitpos as int),
    {
        let ghost pos = r.bitpos as int;
        let ghost o = out@;
        if r.bitpos > 8 * r.data.len() as u64 {
            return None;
        }
        let sym = match lit.decode(r) {
            Some(s) => s,
            None => {
                return None;
            },
        };
        if sym < 256 {
            out.push(sym as u8);
        } else if sym == 256 {
            return Some(());
        } else {
            let li = (sym - 257) as usize;
            if li >= 29 {
                return None;
            }
            proof {
                lemma_tables_small(li as int, 0);
            }
            let extra = r.read_bits_lsb(LENGTH_EXTRA[li] as u32);
            let len = LENGTH_BASE[li] as usize + extra as usize;
            let dsym = match dist.decode(r) {
                Some(s) => s as usize,
                None => {
                    return None;
                },
            };
            if dsym >= 30 {
                return None;
            }
            proof {
                lemma_tables_small(li as int, dsym as int);
            }
            let back = DIST_BASE[dsym] as usize + r.read_bits_lsb(DIST_EXTRA[dsym] as u32) as usize;
            if back > out.len() {
                return None;
            }
            let mut i: usize = 0;
            while i < len
                invariant
                    i <= len,
                    1 <= back <= o.len(),
                    out@ == repeated(o, back as int, i as nat),
                    out@.len() == o.len() + i,
                decreases len - i,
            {
                assert(out.len() == out@.len());
                let b = out[out.len() - back];
                out.push(b);
                i += 1;
            }
        }
    }
}

/// The lengths of the code-length codes, of which the first `n` in
/// transmission order are given from `pos` on.
pub open spec fn code_length_codes(d: Seq<u8>, pos: int, n: nat) -> Seq<u8>
    decreases n,
{
    if n == 0 {
        Seq::new(19, |i: int| 0u8)
    } else {
        code_length_codes(d, pos, (n - 1) as nat).update(
            ORDER@[n - 1] as int,
            bits_at(d, pos + 3 * (n - 1), 3) as u8,
        )
    }
}

/// A value appended `n` times.
pub open spec fn padded(s: Seq<u8>, v: u8, n: nat) -> Seq<u8> {
    s + Seq::new(n, |i: int| v)
}

/// The code lengths of a dynamic block and the position behind them; `acc`
/// holds those already decoded.
pub open spec fn code_lengths(
    cl: Seq<u8>,
    d: Seq<u8>,
    pos: int,
    acc: Seq<u8>,
    total: nat,
) -> Option<(int, Seq<u8>)>
    decreases missing(acc, total),
    via code_lengths_decreases
{
    if acc.len() >= total {
        if acc.len() == total {
            Some((pos, acc))
        } else {
            None
        }
    } else {
        match symbol_at(cl, d, pos, 1) {
            None => None,
            Some((sym, p)) => if sym <= 15 {
                code_lengths(cl, d, p, acc.push(sym as u8), total)
            } else if sym == 16 {
                if acc.len() == 0 {
                    None
                } else {
                    code_lengths(
                        cl,
                        d,
                        p + 2,
                        padded(acc, acc.last(), (3 + bits_at(d, p, 2)) as nat),
                        total,
                    )
                }
            } else if sym == 17 {
                code_lengths(cl, d, p + 3, padded(acc, 0, (3 + bits_at(d, p, 3)) as nat), total)
            } else if sym == 18 {
                code_lengths(cl, d, p + 7, padded(acc, 0, (11 + bits_at(d, p, 7)) as nat), total)
            } else {
                None
            },
        }
    }
}

#[via_fn]
proof fn code_lengths_decreases(
    cl: Seq<u8>,
    d: Seq<u8>,
    pos: int,
    acc: Seq<u8>,
    total: nat,
) {
    if let Some((sym, p)) = symbol_at(cl, d, pos, 1) {
        lemma_bits_bound(d, p, 2);
        lemma_bits_bound(d, p, 3);
        lemma_bits_bound(d, p, 7);
    }
}

/// Position and output after a stored block whose header starts at the
/// next byte boundary from `pos` on.
pub open spec fn stored_block(d: Seq<u8>, pos: int, out: Seq<u8>) -> Option<(int, Seq<u8>)> {
    let p = (pos + 7) / 8;
    if p + 4 > d.len() {
        None
    } else {
        let len = le16(d, p) as int;
        if le16(d, p + 2) != 0xFFFF - len || p + 4 + len > d.len() {
            None
        } else {
            Some(((p + 4 + len) * 8, out + d.subrange(p + 4, p + 4 + len)))
        }
    }
}

/// Position and output after a block with tables of its own.
pub open spec fn dynamic_block(d: Seq<u8>, pos: int, out: Seq<u8>) -> Option<(int, Seq<u8>)> {
    let hlit = bits_at(d, pos, 5) + 257;
    let hdist = bits_at(d, pos + 5, 5) + 1;
    let hclen = bits_at(d, pos + 10, 4) + 4;
    let cl = code_length_codes(d, pos + 14, hclen as nat);
    if !valid_table(cl) {
        None
    } else {
        match code_lengths(cl, d, pos + 14 + 3 * hclen, Seq::empty(), (hlit + hdist) as nat) {
            None => None,
            Some((p, lengths)) => {
                let lit = lengths.take(hlit);
                let dist = lengths.skip(hlit);
                if valid_table(lit) && valid_table(dist) {
                    block(lit, dist, d, p, out)
                } else {
                    None
                }
            },
        }
    }
}

/// Position and output after the block whose type is given by the two bits
/// at `pos`.
pub open spec fn any_block(d: Seq<u8>, pos: int, out: Seq<u8>) -> Option<(int, Seq<u8>)> {
    let kind = bits_at(d, pos, 2);
    if kind == 0 {
        stored_block(d, pos + 2, out)
    } else if kind == 1 {
        block(fixed_lit_lengths(), fixed_dist_lengths(), d, pos + 2, out)
    } else if kind == 2 {
        dynamic_block(d, pos + 2, out)
    } else {
        None
    }
}

/// Position and output after all blocks up to the one marked final.
pub open spec fn all_blocks(d: Seq<u8>, pos: int, out: Seq<u8>) -> Option<(int, Seq<u8>)>
    decreases left(d, pos),
    via all_blocks_decreases
{
    if pos > 8 * d.len() {
        None
    } else {
        match any_block(d, pos + 1, out) {
            None => None,
            Some((p, o)) => if bit_at(d, pos) == 1 {
                Some((p, o))
            } else {
                all_blocks(d, p, o)
            },
        }
    }
}

#[via_fn]
proof fn all_blocks_decreases(d: Seq<u8>, pos: int, out: Seq<u8>) {
    lemma_any_block_advances(d, pos + 1, out);
}

proof fn lemma_block_advances(lit: Seq<u8>, dist: Seq<u8>, d: Seq<u8>, pos: int, out: Seq<u8>)
    ensures
        block(lit, dist, d, pos, out) matches Some((p, o)) ==> p > pos,
    decreases left(d, pos),
{
    if pos <= 8 * d.len() {
        lemma_symbol_advances(lit, d, pos, 1);
        if let Some((sym, p1)) = symbol_at(lit, d, pos, 1) {
            if sym < 256 {
                lemma_block_advances(lit, dist, d, p1, out.push(sym as u8));
            } else if 257 <= sym < 257 + 29 {
                let li = sym - 257;
                let p2 = p1 + LENGTH_EXTRA@[li];
                lemma_symbol_advances(dist, d, p2, 1);
                if let Some((ds, p3)) = symbol_at(dist, d, p2, 1) {
                    if ds < 30 {
                        let len = LENGTH_BASE@[li] + bits_at(d, p1, LENGTH_EXTRA@[li] as nat);
                        let back = DIST_BASE@[ds as int] + bits_at(
                            d,
                            p3,
                            DIST_EXTRA@[ds as int] as nat,
                        );
                        lemma_block_advances(
                            lit,
                            dist,
                            d,
                            p3 + DIST_EXTRA@[ds as int],
                            repeated(out, back, len as nat),
                        );
                    }
                }
            }
        }
    }
}

proof fn lemma_code_lengths_advance(
    cl: Seq<u8>,
    d: Seq<u8>,
    pos: int,
    acc: Seq<u8>,
    total: nat,
)
    ensures
        code_lengths(cl, d, pos, acc, total) matches Some((p, o)) ==> p >= pos && o.len() == total,
    decreases missing(acc, total),
{
    if acc.len() < total {
        lemma_symbol_advances(cl, d, pos, 1);
        if let Some((sym, p)) = symbol_at(cl, d, pos, 1) {
            lemma_bits_bound(d, p, 2);
            lemma_bits_bound(d, p, 3);
            lemma_bits_bound(d, p, 7);
            if sym <= 15 {
                lemma_code_lengths_advance(cl, d, p, acc.push(sym as u8), total);
            } else if sym == 16 {
                if acc.len() > 0 {
                    lemma_code_lengths_advance(
                        cl,
                        d,
                        p + 2,
                        padded(acc, acc.last(), (3 + bits_at(d, p, 2)) as nat),
                        total,
                    );
                }
            } else if sym == 17 {
                lemma_code_lengths_advance(
                    cl,
                    d,
                    p + 3,
                    padded(acc, 0, (3 + bits_at(d, p, 3)) as nat),
                    total,
                );
            } else if sym == 18 {
                lemma_code_lengths_advance(
                    cl,
                    d,
                    p + 7,
                    padded(acc, 0, (11 + bits_at(d, p, 7)) as nat),
                    total,
                );
            }
        }
    }
}

proof fn lemma_any_block_advances(d: Seq<u8>, pos: int, out: Seq<u8>)
    ensures
        any_block(d, pos, out) matches Some((p, o)) ==> p > pos,
{
    lemma_block_advances(fixed_lit_lengths(), fixed_dist_lengths(), d, pos + 2, out);
    let hlit = bits_at(d, pos + 2, 5) + 257;
    let hdist = bits_at(d, pos + 7, 5) + 1;
    let hclen = bits_at(d, pos + 12, 4) + 4;
    lemma_bits_bound(d, pos + 2, 5);
    lemma_bits_bound(d, pos + 7, 5);
    lemma_bits_bound(d, pos + 12, 4);
    let cl = code_length_codes(d, pos + 16, hclen as nat);
    let total = (hlit + hdist) as nat;
    let p0 = pos + 16 + 3 * hclen;
    lemma_code_lengths_advance(cl, d, p0, Seq::empty(), total);
    if let Some((p, lengths)) = code_lengths(cl, d, p0, Seq::empty(), total) {
        lemma_block_advances(lengths.take(hlit), lengths.skip(hlit), d, p, out);
    }
}

/// What a zlib stream inflates to, if it is sound.
pub open spec fn inflated(data: Seq<u8>) -> Option<Seq<u8>> {
    if data.len() < 6 || data[0] % 16 != 8 || (data[0] * 256 + data[1]) % 31 != 0 || data[1] & 0x20
        != 0 {
        None
    } else {
        let d = data.skip(2);
        match all_blocks(d, 0, Seq::empty()) {
            None => None,
            Some((pos, out)) => {
                let p = (pos + 7) / 8;
                if p + 4 > d.len() || be32(d, p) != adler(out) {
                    None
                } else {
                    Some(out)
                }
            },
        }
    }
}

/// Appends `v` to `s` `n` times.
fn pad(s: &mut Vec<u8>, v: u8, n: usize)
    ensures
        final(s)@ == padded(old(s)@, v, n as nat),
{
    let mut i: usize = 0;
    while i < n
        invariant
            i <= n,
            s@ =~= padded(old(s)@, v, i as nat),
        decreases n - i,
    {
        s.push(v);
        i += 1;
    }
}

/// Decodes a block with tables of its own.
#[verifier::loop_isolation(false)]
fn decode_dynamic(r: &mut BitReader, out: &mut Vec<u8>) -> (ok: Option<()>)
    requires
        old(r).wf(),
        old(r).bitpos <= 8 * old(r).data@.len() + 64,
    ensures
        final(r).data == old(r).data,
        match dynamic_block(old(r).data@, old(r).bitpos as int, old(out)@) {
            None => ok is None,
            Some((p, o)) => ok is Some && final(r).bitpos == p && final(out)@ == o && p <= 8
                * old(r).data@.len() + 64,
        },
{
    let ghost d = r.data@;
    let ghost pos = r.bitpos as int;
    proof {
        lemma_pw_small();
    }
    let hlit = r.read_bits_lsb(5) as usize + 257;
    let hdist = r.read_bits_lsb(5) as usize + 1;
    let hclen = r.read_bits_lsb(4) as usize + 4;
    let mut cl: Vec<u8> = Vec::new();
    cl.resize(19, 0);
    assert(cl@ =~= code_length_codes(d, pos + 14, 0));
    let mut i: usize = 0;
    while i < hclen
        invariant
            i <= hclen <= 19,
            r.data == old(r).data,
            r.wf(),
            d == r.data@,
            pos == old(r).bitpos,
            pos <= 8 * d.len() + 64,
            r.bitpos == pos + 14 + 3 * i,
            cl@ == code_length_codes(d, pos + 14, i as nat),
            cl@.len() == 19,
        decreases hclen - i,
    {
        proof {
            lemma_pw_small();
        }
        let v = r.read_bits_lsb(3) as u8;
        assert(ORDER@[i as int] < 19);
        cl.set(ORDER[i] as usize, v);
        i += 1;
    }
    let cl_huff = match build_huff(cl.as_slice()) {
        Some(h) => h,
        None => {
            return None;
        },
    };
    let total = hlit + hdist;
    let mut lengths: Vec<u8> = Vec::new();
    let ghost p0 = r.bitpos as int;
    let ghost all = code_lengths(cl@, d, p0, Seq::empty(), total as nat);
    assert(lengths@ =~= Seq::<u8>::empty());
    while lengths.len() < total
        invariant
            r.data == old(r).data,
            r.wf(),
            d == r.data@,
            cl_huff.wf(),
            cl_huff.lengths@ == cl@,
            total <= 320,
            p0 <= 8 * d.len() + 200,
            lengths@.len() <= 500,
            p0 <= r.bitpos <= p0 + 22 * lengths@.len(),
            all == code_lengths(cl@, d, p0, Seq::empty(), total as nat),
            all == code_lengths(cl@, d, r.bitpos as int, lengths@, total as nat),
        decreases missing(lengths@, total as nat),
    {
        proof {
            lemma_pw_small();
        }
        let sym = match cl_huff.decode(r) {
            Some(s) => s,
            None => {
                return None;
            },
        };
        if sym <= 15 {
            lengths.push(sym as u8);
        } else if sym == 16 {
            if lengths.len() == 0 {
                return None;
            }
            let prev = lengths[lengths.len() - 1];
            let rep = 3 + r.read_bits_lsb(2) as usize;
            pad(&mut lengths, prev, rep);
        } else if sym == 17 {
            let rep = 3 + r.read_bits_lsb(3) as usize;
            pad(&mut lengths, 0, rep);
        } else if sym == 18 {
            let rep = 11 + r.read_bits_lsb(7) as usize;
            pad(&mut lengths, 0, rep);
        } else {
            return None;
        }
    }
    if lengths.len() != total {
        return None;
    }
    let lit_lengths = slice_subrange(lengths.as_slice(), 0, hlit);
    let dist_lengths = slice_subrange(lengths.as_slice(), hlit, lengths.len());
    assert(lit_lengths@ =~= lengths@.take(hlit as int));
    assert(dist_lengths@ =~= lengths@.skip(hlit as int));
    let lit = match build_huff(lit_lengths) {
        Some(h) => h,
        None => {
            return None;
        },
    };
    let dist = match build_huff(dist_lengths) {
        Some(h) => h,
        None => {
            return None;
        },
    };
    decode_blocks(r, &lit, &dist, out)
}

/// Copies a stored block: byte-aligned LEN/NLEN, then raw bytes.
fn decode_stored(r: &mut BitReader, out: &mut Vec<u8>) -> (ok: Option<()>)
    requires
        old(r).wf(),
        old(r).bitpos <= 8 * old(r).data@.len() + 64,
    ensures
        final(r).data == old(r).data,
        match stored_block(old(r).data@, old(r).bitpos as int, old(out)@) {
            None => ok is None,
            Some((p, o)) => ok is Some && final(r).bitpos == p && final(out)@ == o && p <= 8
                * old(r).data@.len(),
        },
{
    r.align_byte();
    let pos = r.bitpos / 8;
    if pos + 4 > r.data.len() as u64 {
        return None;
    }
    let at = pos as usize;
    let len = get_le16(r.data, at);
    let nlen = get_le16(r.data, at + 2);
    if nlen != 0xFFFF - len {
        return None;
    }
    if pos + 4 + len as u64 > r.data.len() as u64 {
        return None;
    }
    let body = slice_subrange(r.data, at + 4, at + 4 + len as usize);
    let ghost before = out@;
    out.extend_from_slice(body);
    assert(out@ =~= before + r.data@.subrange(at + 4, at + 4 + len));
    r.bitpos = (pos + 4 + len as u64) * 8;
    Some(())
}

/// Inflates a zlib stream (RFC 1950 header + DEFLATE + adler32) into an
/// empty vector.
pub fn inflate(data: &[u8]) -> (r: Option<Vec<u8>>)
    requires
        data.len() < 0x1000_0000_0000_0000,
    ensures
        match inflated(data@) {
            None => r is None,
            Some(out) => r is Some && r->0@ == out,
        },
{
    if data.len() < 6 {
        return None;
    }
    let cmf = data[0];
    let flg = data[1];
    if cmf % 16 != 8 || (cmf as u16 * 256 + flg as u16) % 31 != 0 {
        return None;
    }
    if flg & 0x20 != 0 {
        return None;
    }
    let body = slice_subrange(data, 2, data.len());
    let ghost d = data@.skip(2);
    assert(body@ =~= d);
    let mut r = BitReader::new(body);
    let mut out: Vec<u8> = Vec::new();
    let ghost all = all_blocks(d, 0, Seq::empty());
    assert(out@ =~= Seq::<u8>::empty());
    let mut done = false;
    while !done
        invariant
            r.data@ == d,
            r.data == body,
            r.wf(),
            inflated(data@) == match all {
                None => None,
                Some((pos, out)) => {
                    let p = (pos + 7) / 8;
                    if p + 4 > d.len() || be32(d, p) != adler(out) {
                        None
                    } else {
                        Some(out)
                    }
                },
            },
            r.bitpos <= 8 * d.len() + 64,
            !done ==> all == all_blocks(d, r.bitpos as int, out@),
            done ==> all == Some((r.bitpos as int, out@)),
        decreases (if done { 0int } else { 1 }), left(d, r.bitpos as int),
    {
        let ghost p0 = r.bitpos as int;
        let ghost o0 = out@;
        if r.bitpos > 8 * r.data.len() as u64 {
            return None;
        }
        proof {
            lemma_pw_small();
            lemma_any_block_advances(d, p0 + 1, o0);
        }
        let bfinal = r.read_bit();
        let btype = r.read_bits_lsb(2);
        let ok = if btype == 0 {
            decode_stored(&mut r, &mut out)
        } else if btype == 1 {
            let lit = fixed_lit();
            let dist = fixed_dist();
            decode_blocks(&mut r, &lit, &dist, &mut out)
        } else if btype == 2 {
            decode_dynamic(&mut r, &mut out)
        } else {
            None
        };
        if ok.is_none() {
            return None;
        }
        if bfinal == 1 {
            done = true;
        }
    }
    r.align_byte();
    let pos = r.bitpos / 8;
    if pos + 4 > r.data.len() as u64 {
        return None;
    }
    if get_be32(r.data, pos as usize) != adler32(out.as_slice()) {
        return None;
    }
    Some(out)
}

/// A back-reference repeats what stands `d` bytes back, also where it runs
/// into the bytes it appends.
pub proof fn law_back_reference(out: Seq<u8>, d: int, n: nat, i: int)
    requires
        1 <= d <= out.len(),
        0 <= i < n,
    ensures
        repeated(out, d, n).len() == out.len() + n,
        repeated(out, d, n)[out.len() + i] == repeated(out, d, n)[out.len() + i - d],
        forall|k: int| 0 <= k < out.len() ==> repeated(out, d, n)[k] == out[k],
    decreases n,
{
    lemma_repeated_len(out, d, n);
    lemma_repeated_len(out, d, (n - 1) as nat);
    if i < n - 1 {
        law_back_reference(out, d, (n - 1) as nat, i);
    } else if n > 1 {
        law_back_reference(out, d, (n - 1) as nat, 0);
    }
}

/// A zlib stream of one final stored block.
pub open spec fn stored_stream(x: Seq<u8>) -> Seq<u8> {
    seq![0x78u8, 0x01u8, 0x01u8] + le16_bytes(x.len() as u16) + le16_bytes(
        (0xFFFF - x.len()) as u16,
    ) + x + be32_bytes(adler(x))
}

proof fn lemma_stored_layout(x: Seq<u8>)
    requires
        x.len() <= 0xFFFF,
    ensures
        ({
            let s = stored_stream(x);
            let d = s.skip(2);
            let n = x.len() as int;
            &&& s.len() == n + 11
            &&& s[0] == 0x78 && s[1] == 0x01
            &&& d.len() == n + 9
            &&& d[0] == 0x01
            &&& le16(d, 1) == n
            &&& le16(d, 3) == 0xFFFF - n
            &&& d.subrange(5, 5 + n) == x
            &&& be32(d, 5 + n) == adler(x)
        }),
{
    let s = stored_stream(x);
    let d = s.skip(2);
    let n = x.len() as int;
    let t = be32_bytes(adler(x));
    let (l, m) = (le16_bytes(x.len() as u16), le16_bytes((0xFFFF - x.len()) as u16));
    assert(d[1] == l[0] && d[2] == l[1] && d[3] == m[0] && d[4] == m[1]);
    crate::bytes::lemma_le16_round_trip(n as u16);
    crate::bytes::lemma_le16_round_trip((0xFFFF - n) as u16);
    assert(d.subrange(5, 5 + n) =~= x);
    assert(d[5 + n] == t[0] && d[6 + n] == t[1] && d[7 + n] == t[2] && d[8 + n] == t[3]);
    crate::bytes::lemma_be32_round_trip(adler(x));
}

/// A final block of the stored kind begins.
proof fn lemma_stored_header(d: Seq<u8>)
    requires
        d.len() > 0,
        d[0] == 0x01,
    ensures
        bit_at(d, 0) == 1,
        bits_at(d, 1, 2) == 0,
{
    assert((0x01u8 >> 0u8) & 1u8 == 1 && (0x01u8 >> 1u8) & 1u8 == 0 && (0x01u8 >> 2u8) & 1u8 == 0)
        by (bit_vector);
    assert(bit_at(d, 0) == 1 && bit_at(d, 1) == 0 && bit_at(d, 2) == 0);
    reveal_with_fuel(bits_at, 3);
    reveal_with_fuel(pw, 3);
}

#[verifier::spinoff_prover]
proof fn lemma_stored_body(d: Seq<u8>, x: Seq<u8>)
    requires
        x.len() <= 0xFFFF,
        d.len() == x.len() + 9,
        le16(d, 1) == x.len(),
        le16(d, 3) == 0xFFFF - x.len(),
        d.subrange(5, 5 + x.len() as int) == x,
    ensures
        stored_block(d, 3, Seq::empty()) == Some((((5 + x.len()) * 8) as int, x)),
{
    let none = Seq::<u8>::empty();
    assert(none + x =~= x);
}

#[verifier::spinoff_prover]
proof fn lemma_stored_blocks(d: Seq<u8>, x: Seq<u8>)
    requires
        x.len() <= 0xFFFF,
        d.len() == x.len() + 9,
        d[0] == 0x01,
        le16(d, 1) == x.len(),
        le16(d, 3) == 0xFFFF - x.len(),
        d.subrange(5, 5 + x.len() as int) == x,
    ensures
        all_blocks(d, 0, Seq::empty()) == Some((((5 + x.len()) * 8) as int, x)),
{
    lemma_stored_header(d);
    lemma_stored_body(d, x);
    let none = Seq::<u8>::empty();
    assert(any_block(d, 1, none) == stored_block(d, 3, none));
}

/// Whatever was stored comes back unchanged.
#[verifier::spinoff_prover]
pub proof fn law_stored_round_trip(x: Seq<u8>)
    requires
        x.len() <= 0xFFFF,
    ensures
        inflated(stored_stream(x)) == Some(x),
{
    let d = stored_stream(x).skip(2);
    let n = x.len() as int;
    lemma_stored_layout(x);
    assert(0x01u8 & 0x20u8 == 0) by (bit_vector);
    lemma_stored_blocks(d, x);
    assert(((5 + n) * 8 + 7) / 8 == 5 + n);
}

} // verus!
