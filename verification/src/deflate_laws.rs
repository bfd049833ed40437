//! What the compressed format says of codes, lengths and distances.

use crate::deflate::{
    all_blocks, any_block, bit_at, bits_at, block, code_at, code_lengths, count_of, first_code, fixed_dist_lengths,
    fixed_lit_lengths, lemma_fixed_dist_counts, lemma_fixed_lit_counts, pw, symbol_at, symbols_of, DIST_BASE,
    DIST_EXTRA, LENGTH_BASE, LENGTH_EXTRA, ORDER,
};
use vstd::prelude::*;

verus! {

// ---------------------------------------------------------------------
// Tables
// ---------------------------------------------------------------------

/// The first eight length codes stand for 3 to 10; from there on each group
/// of four has one extra bit more than the one before and steps twice as
/// wide; the last code is 258.
pub proof fn law_length_codes(i: int)
    requires
        0 <= i < 29,
    ensures
        i < 8 ==> LENGTH_EXTRA@[i] == 0 && LENGTH_BASE@[i] == 3 + i,
        8 <= i < 28 ==> LENGTH_EXTRA@[i] == i / 4 - 1,
        8 <= i < 12 ==> LENGTH_BASE@[i] == 3 + (4 + i % 4) * 2,
        12 <= i < 16 ==> LENGTH_BASE@[i] == 3 + (4 + i % 4) * 4,
        16 <= i < 20 ==> LENGTH_BASE@[i] == 3 + (4 + i % 4) * 8,
        20 <= i < 24 ==> LENGTH_BASE@[i] == 3 + (4 + i % 4) * 16,
        24 <= i < 28 ==> LENGTH_BASE@[i] == 3 + (4 + i % 4) * 32,
        i == 28 ==> LENGTH_EXTRA@[i] == 0 && LENGTH_BASE@[i] == 258,
{
    assert(i == 0 || i == 1 || i == 2 || i == 3 || i == 4 || i == 5 || i == 6 || i == 7 || i == 8 || i == 9 || i == 10
        || i == 11 || i == 12 || i == 13 || i == 14 || i == 15 || i == 16 || i == 17 || i == 18 || i == 19 || i == 20
        || i == 21 || i == 22 || i == 23 || i == 24 || i == 25 || i == 26 || i == 27 || i == 28);
}

/// The first four distance codes stand for 1 to 4; from there on each pair
/// has one extra bit more than the one before and steps twice as wide.
pub proof fn law_distance_codes(i: int)
    requires
        0 <= i < 30,
    ensures
        i < 4 ==> DIST_EXTRA@[i] == 0 && DIST_BASE@[i] == 1 + i,
        4 <= i ==> DIST_EXTRA@[i] == i / 2 - 1,
        4 <= i < 6 ==> DIST_BASE@[i] == 1 + (2 + i % 2) * 2,
        6 <= i < 8 ==> DIST_BASE@[i] == 1 + (2 + i % 2) * 4,
        8 <= i < 10 ==> DIST_BASE@[i] == 1 + (2 + i % 2) * 8,
        10 <= i < 12 ==> DIST_BASE@[i] == 1 + (2 + i % 2) * 16,
        12 <= i < 14 ==> DIST_BASE@[i] == 1 + (2 + i % 2) * 32,
        14 <= i < 16 ==> DIST_BASE@[i] == 1 + (2 + i % 2) * 64,
        16 <= i < 18 ==> DIST_BASE@[i] == 1 + (2 + i % 2) * 128,
        18 <= i < 20 ==> DIST_BASE@[i] == 1 + (2 + i % 2) * 256,
        20 <= i < 22 ==> DIST_BASE@[i] == 1 + (2 + i % 2) * 512,
        22 <= i < 24 ==> DIST_BASE@[i] == 1 + (2 + i % 2) * 1024,
        24 <= i < 26 ==> DIST_BASE@[i] == 1 + (2 + i % 2) * 2048,
        26 <= i < 28 ==> DIST_BASE@[i] == 1 + (2 + i % 2) * 4096,
        28 <= i < 30 ==> DIST_BASE@[i] == 1 + (2 + i % 2) * 8192,
{
    assert(i == 0 || i == 1 || i == 2 || i == 3 || i == 4 || i == 5 || i == 6 || i == 7 || i == 8 || i == 9 || i == 10
        || i == 11 || i == 12 || i == 13 || i == 14 || i == 15 || i == 16 || i == 17 || i == 18 || i == 19 || i == 20
        || i == 21 || i == 22 || i == 23 || i == 24 || i == 25 || i == 26 || i == 27 || i == 28 || i == 29);
}

/// The lengths of the code-length codes come as 16, 17, 18 and 0, then from
/// 8 outward, the upper side first.
pub proof fn law_code_length_order(i: int)
    requires
        0 <= i < 19,
    ensures
        i < 3 ==> ORDER@[i] == 16 + i,
        i == 3 ==> ORDER@[i] == 0,
        i >= 4 && i % 2 == 0 ==> ORDER@[i] == 8 + (i - 4) / 2,
        i >= 4 && i % 2 == 1 ==> ORDER@[i] == 8 - (i - 3) / 2,
{
    assert(i == 0 || i == 1 || i == 2 || i == 3 || i == 4 || i == 5 || i == 6 || i == 7 || i == 8 || i == 9 || i == 10
        || i == 11 || i == 12 || i == 13 || i == 14 || i == 15 || i == 16 || i == 17 || i == 18);
}

// ---------------------------------------------------------------------
// Bits
// ---------------------------------------------------------------------

/// Two to the power of a place in a byte.
pub open spec fn place_value(k: int) -> int {
    if k == 0 {
        1
    } else if k == 1 {
        2
    } else if k == 2 {
        4
    } else if k == 3 {
        8
    } else if k == 4 {
        16
    } else if k == 5 {
        32
    } else if k == 6 {
        64
    } else {
        128
    }
}

/// Bit `p` of a stream: the bits of a byte come lowest first.
pub open spec fn stream_bit(d: Seq<u8>, p: int) -> int {
    d[p / 8] as int / place_value(p % 8) % 2
}

/// The `n` bits from `p` on read as a code, the first bit counting most.
pub open spec fn stream_code(d: Seq<u8>, p: int, n: nat) -> int
    decreases n,
{
    if n == 0 {
        0
    } else {
        2 * stream_code(d, p, (n - 1) as nat) + stream_bit(d, p + n - 1)
    }
}

/// The bits of the stream are read from the low end of each byte.
pub proof fn law_bits_come_lowest_first(d: Seq<u8>, p: int)
    requires
        0 <= p < 8 * d.len(),
    ensures
        bit_at(d, p) == stream_bit(d, p),
{
    let b = d[p / 8];
    assert((b >> 0u8) & 1u8 == b % 2 && (b >> 1u8) & 1u8 == b / 2 % 2 && (b >> 2u8) & 1u8 == b / 4 % 2 && (b >> 3u8)
        & 1u8 == b / 8 % 2 && (b >> 4u8) & 1u8 == b / 16 % 2 && (b >> 5u8) & 1u8 == b / 32 % 2 && (b >> 6u8) & 1u8 == b
        / 64 % 2 && (b >> 7u8) & 1u8 == b / 128 % 2) by (bit_vector);
    let k = p % 8;
    assert(k == 0 || k == 1 || k == 2 || k == 3 || k == 4 || k == 5 || k == 6 || k == 7);
}

proof fn lemma_code(d: Seq<u8>, p: int, n: nat)
    requires
        0 <= p,
        p + n <= 8 * d.len(),
    ensures
        code_at(d, p, n) == stream_code(d, p, n),
        0 <= stream_code(d, p, n),
    decreases n,
{
    if n > 0 {
        lemma_code(d, p, (n - 1) as nat);
        law_bits_come_lowest_first(d, p + n - 1);
    }
}

proof fn lemma_code_halves(d: Seq<u8>, p: int, n: nat)
    requires
        n > 0,
    ensures
        stream_code(d, p, (n - 1) as nat) == stream_code(d, p, n) / 2,
{
    let b = stream_bit(d, p + n - 1);
    assert(b == 0 || b == 1);
}

// ---------------------------------------------------------------------
// The fixed codes
// ---------------------------------------------------------------------

proof fn lemma_lit_symbol(l: nat, n: nat, k: int)
    requires
        n <= 288,
        0 <= k < symbols_of(fixed_lit_lengths(), l, n).len(),
    ensures
        l == 7 ==> symbols_of(fixed_lit_lengths(), l, n)[k] == 256 + k,
        l == 8 ==> symbols_of(fixed_lit_lengths(), l, n)[k] == if k < 144 {
            k
        } else {
            280 + (k - 144)
        },
        l == 9 ==> symbols_of(fixed_lit_lengths(), l, n)[k] == 144 + k,
    decreases n,
{
    lemma_fixed_lit_counts(l, n);
    if n > 0 {
        lemma_fixed_lit_counts(l, (n - 1) as nat);
        if k < symbols_of(fixed_lit_lengths(), l, (n - 1) as nat).len() {
            lemma_lit_symbol(l, (n - 1) as nat, k);
        }
    }
}

proof fn lemma_fixed_firsts()
    ensures
        forall|l: nat| 1 <= l <= 7 ==> #[trigger] first_code(fixed_lit_lengths(), l) == 0,
        first_code(fixed_lit_lengths(), 8) == 48,
        first_code(fixed_lit_lengths(), 9) == 400,
        forall|l: nat| 1 <= l <= 5 ==> #[trigger] first_code(fixed_dist_lengths(), l) == 0,
{
    reveal_with_fuel(first_code, 10);
    let t = fixed_lit_lengths();
    let u = fixed_dist_lengths();
    assert forall|l: nat| #[trigger] count_of(t, l) == if l == 7 {
        24nat
    } else if l == 8 {
        152
    } else if l == 9 {
        112
    } else {
        0
    } by {
        lemma_fixed_lit_counts(l, 288);
    }
    assert forall|l: nat| #[trigger] count_of(u, l) == if l == 5 {
        32nat
    } else {
        0
    } by {
        lemma_fixed_dist_counts(l, 32);
    }
    assert(first_code(t, 1) == 0 && first_code(t, 2) == 0 && first_code(t, 3) == 0 && first_code(t, 4) == 0);
    assert(first_code(t, 5) == 0 && first_code(t, 6) == 0 && first_code(t, 7) == 0);
    assert(first_code(u, 1) == 0 && first_code(u, 2) == 0 && first_code(u, 3) == 0 && first_code(u, 4) == 0);
    assert(first_code(u, 5) == 0);
}

/// A code of fewer than seven bits is none of the fixed literal codes.
proof fn lemma_skip_short(d: Seq<u8>, p: int, l: nat)
    requires
        1 <= l <= 7,
    ensures
        symbol_at(fixed_lit_lengths(), d, p, l) == symbol_at(fixed_lit_lengths(), d, p, 7),
    decreases 7 - l,
{
    if l < 7 {
        lemma_fixed_lit_counts(l, 288);
        lemma_skip_short(d, p, l + 1);
    }
}

/// Without tables of its own a block codes the bytes to 143 in eight bits
/// from 00110000 on, the bytes from 144 on in nine from 110010000 on, the
/// end mark and the lengths to 279 in seven from 0000000 on, and the rest in
/// eight from 11000000 on.
#[verifier::spinoff_prover]
pub proof fn law_fixed_codes(d: Seq<u8>, p: int)
    requires
        0 <= p,
        p + 9 <= 8 * d.len(),
    ensures
        ({
            let s = symbol_at(fixed_lit_lengths(), d, p, 1);
            let (c7, c8, c9) = (stream_code(d, p, 7), stream_code(d, p, 8), stream_code(d, p, 9));
            &&& c7 <= 0b0010111 ==> s == Some(((256 + c7) as u16, p + 7))
            &&& 0b00110000 <= c8 <= 0b10111111 ==> s == Some(((c8 - 0b00110000) as u16, p + 8))
            &&& 0b11000000 <= c8 <= 0b11000111 ==> s == Some(((280 + c8 - 0b11000000) as u16, p + 8))
            &&& 0b110010000 <= c9 <= 0b111111111 ==> s == Some(((144 + c9 - 0b110010000) as u16, p + 9))
        }),
{
    let t = fixed_lit_lengths();
    let (c7, c8, c9) = (stream_code(d, p, 7), stream_code(d, p, 8), stream_code(d, p, 9));
    lemma_code(d, p, 7);
    lemma_code(d, p, 8);
    lemma_code(d, p, 9);
    lemma_code_halves(d, p, 8);
    lemma_code_halves(d, p, 9);
    lemma_fixed_firsts();
    lemma_fixed_lit_counts(7, 288);
    lemma_fixed_lit_counts(8, 288);
    lemma_fixed_lit_counts(9, 288);
    lemma_skip_short(d, p, 1);
    if c7 < 24 {
        lemma_lit_symbol(7, 288, c7);
    } else {
        assert(symbol_at(t, d, p, 7) == symbol_at(t, d, p, 8));
        if 48 <= c8 < 200 {
            lemma_lit_symbol(8, 288, c8 - 48);
        } else {
            assert(symbol_at(t, d, p, 8) == symbol_at(t, d, p, 9));
            if 400 <= c9 < 512 {
                lemma_lit_symbol(9, 288, c9 - 400);
            }
        }
    }
}

// ---------------------------------------------------------------------
// Literal blocks
// ---------------------------------------------------------------------

/// How many bits a byte takes in a block without tables of its own.
pub open spec fn fixed_bits(v: u8) -> int {
    if v < 144 {
        8
    } else {
        9
    }
}

/// Where the code of byte `i` starts, the first one starting at `p`.
pub open spec fn fixed_place(x: Seq<u8>, p: int, i: int) -> int
    decreases i,
{
    if i <= 0 {
        p
    } else {
        fixed_place(x, p, i - 1) + fixed_bits(x[i - 1])
    }
}

/// Whether the bytes stand coded from `p` on, an end mark behind them.
pub open spec fn holds_literals(d: Seq<u8>, p: int, x: Seq<u8>) -> bool {
    &&& 0 <= p
    &&& fixed_place(x, p, x.len() as int) + 9 <= 8 * d.len()
    &&& forall|i: int| 0 <= i < x.len() ==> #[trigger] holds_literal(d, fixed_place(x, p, i), x[i])
    &&& stream_code(d, fixed_place(x, p, x.len() as int), 7) == 0
}

pub open spec fn holds_literal(d: Seq<u8>, p: int, v: u8) -> bool {
    if v < 144 {
        stream_code(d, p, 8) == 0b00110000 + v
    } else {
        stream_code(d, p, 9) == 0b110010000 + (v - 144)
    }
}

proof fn lemma_places(x: Seq<u8>, p: int, i: int, j: int)
    requires
        i <= j,
    ensures
        fixed_place(x, p, i) <= fixed_place(x, p, j),
        p <= fixed_place(x, p, i),
    decreases j,
{
    if i < j && j > 0 {
        lemma_places(x, p, i, j - 1);
    } else if i > 0 {
        lemma_places(x, p, i - 1, i - 1);
    }
}

proof fn lemma_literals(d: Seq<u8>, p: int, x: Seq<u8>, i: int, out: Seq<u8>)
    requires
        holds_literals(d, p, x),
        0 <= i <= x.len(),
    ensures
        block(fixed_lit_lengths(), fixed_dist_lengths(), d, fixed_place(x, p, i), out) == Some(
            (fixed_place(x, p, x.len() as int) + 7, out + x.skip(i)),
        ),
    decreases x.len() - i,
{
    let at = fixed_place(x, p, i);
    lemma_places(x, p, i, x.len() as int);
    law_fixed_codes(d, at);
    if i < x.len() {
        assert(holds_literal(d, at, x[i]));
        lemma_literals(d, p, x, i + 1, out.push(x[i]));
        assert(out.push(x[i]) + x.skip(i + 1) =~= out + x.skip(i));
        assert(fixed_place(x, p, i + 1) == at + fixed_bits(x[i]));
    } else {
        assert(out + x.skip(i) =~= out);
    }
}

/// Bytes coded one by one with the fixed codes in a final block come back as
/// they were.
pub proof fn law_fixed_literals_come_back(d: Seq<u8>, x: Seq<u8>)
    requires
        holds_literals(d, 3, x),
        stream_bit(d, 0) == 1,
        stream_bit(d, 1) == 1,
        stream_bit(d, 2) == 0,
    ensures
        all_blocks(d, 0, Seq::empty()) == Some((fixed_place(x, 3, x.len() as int) + 7, x)),
{
    let none = Seq::<u8>::empty();
    lemma_places(x, 3, 0, x.len() as int);
    law_bits_come_lowest_first(d, 0);
    law_bits_come_lowest_first(d, 1);
    law_bits_come_lowest_first(d, 2);
    reveal_with_fuel(bits_at, 3);
    reveal_with_fuel(pw, 3);
    assert(bits_at(d, 1, 2) == 1);
    lemma_literals(d, 3, x, 0, none);
    assert(none + x.skip(0) =~= x);
    assert(any_block(d, 1, none) == block(fixed_lit_lengths(), fixed_dist_lengths(), d, 3, none));
}

// ---------------------------------------------------------------------
// Tables of a block's own
// ---------------------------------------------------------------------

proof fn lemma_symbols(t: Seq<u8>, l: nat, n: nat, k: int)
    requires
        n <= t.len() <= 320,
        0 <= k < symbols_of(t, l, n).len(),
    ensures
        symbols_of(t, l, n)[k] < n,
        t[symbols_of(t, l, n)[k] as int] == l,
        forall|j: int| 0 <= j < k ==> symbols_of(t, l, n)[j] < symbols_of(t, l, n)[k],
    decreases n,
{
    if n > 0 {
        let before = symbols_of(t, l, (n - 1) as nat);
        if k < before.len() {
            lemma_symbols(t, l, (n - 1) as nat, k);
        } else {
            assert forall|j: int| 0 <= j < k implies symbols_of(t, l, n)[j] < symbols_of(t, l, n)[k] by {
                lemma_symbols(t, l, (n - 1) as nat, j);
            }
        }
    }
}

proof fn lemma_taken(t: Seq<u8>, d: Seq<u8>, p: int, l: nat)
    requires
        t.len() <= 320,
        1 <= l,
    ensures
        symbol_at(t, d, p, l) matches Some((s, q)) ==> s < t.len() && p + l <= q <= p + 15 && t[s as int] == q - p && {
            let n = (q - p) as nat;
            let k = code_at(d, p, n) - first_code(t, n);
            0 <= k < count_of(t, n) && s == symbols_of(t, n, t.len())[k]
        },
    decreases 16 - l,
{
    if l <= 15 {
        let k = code_at(d, p, l) - first_code(t, l);
        if 0 <= k < count_of(t, l) {
            lemma_symbols(t, l, t.len(), k);
        } else {
            lemma_taken(t, d, p, l + 1);
        }
    }
}

/// The code of a symbol has as many bits as the table gives the symbol, and
/// among codes of one length the greater one is the later symbol's.
pub proof fn law_codes_follow_the_table(t: Seq<u8>, d: Seq<u8>, p: int, e: Seq<u8>, q: int)
    requires
        t.len() <= 320,
        symbol_at(t, d, p, 1) is Some,
        symbol_at(t, e, q, 1) is Some,
    ensures
        ({
            let (s, p2) = symbol_at(t, d, p, 1)->0;
            let (r, q2) = symbol_at(t, e, q, 1)->0;
            let n = (p2 - p) as nat;
            &&& s < t.len() && t[s as int] == n
            &&& q2 - q == n && code_at(d, p, n) < code_at(e, q, n) ==> s < r
            &&& q2 - q == n && code_at(d, p, n) == code_at(e, q, n) ==> s == r
        }),
{
    lemma_taken(t, d, p, 1);
    lemma_taken(t, e, q, 1);
    let (s, p2) = symbol_at(t, d, p, 1)->0;
    let (r, q2) = symbol_at(t, e, q, 1)->0;
    let n = (p2 - p) as nat;
    if q2 - q == n {
        let k = code_at(e, q, n) - first_code(t, n);
        lemma_symbols(t, n, t.len(), k);
    }
}

proof fn lemma_seven_bits(d: Seq<u8>, q: int)
    ensures
        bits_at(d, q, 2) == bit_at(d, q) + 2 * bit_at(d, q + 1),
        bits_at(d, q, 3) == bits_at(d, q, 2) + 4 * bit_at(d, q + 2),
        bits_at(d, q, 7) == bits_at(d, q, 3) + 8 * bit_at(d, q + 3) + 16 * bit_at(d, q + 4) + 32 * bit_at(d, q + 5)
            + 64 * bit_at(d, q + 6),
{
    reveal_with_fuel(pw, 8);
    reveal_with_fuel(bits_at, 2);
    let b0 = bit_at(d, q + 0);
    assert(b0 * pw(0) == 1 * b0) by (nonlinear_arith)
        requires
            pw(0) == 1,
    ;
    assert(bits_at(d, q, 1) == bits_at(d, q, 0) + 1 * b0);
    let b1 = bit_at(d, q + 1);
    assert(b1 * pw(1) == 2 * b1) by (nonlinear_arith)
        requires
            pw(1) == 2,
    ;
    assert(bits_at(d, q, 2) == bits_at(d, q, 1) + 2 * b1);
    let b2 = bit_at(d, q + 2);
    assert(b2 * pw(2) == 4 * b2) by (nonlinear_arith)
        requires
            pw(2) == 4,
    ;
    assert(bits_at(d, q, 3) == bits_at(d, q, 2) + 4 * b2);
    let b3 = bit_at(d, q + 3);
    assert(b3 * pw(3) == 8 * b3) by (nonlinear_arith)
        requires
            pw(3) == 8,
    ;
    assert(bits_at(d, q, 4) == bits_at(d, q, 3) + 8 * b3);
    let b4 = bit_at(d, q + 4);
    assert(b4 * pw(4) == 16 * b4) by (nonlinear_arith)
        requires
            pw(4) == 16,
    ;
    assert(bits_at(d, q, 5) == bits_at(d, q, 4) + 16 * b4);
    let b5 = bit_at(d, q + 5);
    assert(b5 * pw(5) == 32 * b5) by (nonlinear_arith)
        requires
            pw(5) == 32,
    ;
    assert(bits_at(d, q, 6) == bits_at(d, q, 5) + 32 * b5);
    let b6 = bit_at(d, q + 6);
    assert(b6 * pw(6) == 64 * b6) by (nonlinear_arith)
        requires
            pw(6) == 64,
    ;
    assert(bits_at(d, q, 7) == bits_at(d, q, 6) + 64 * b6);
}

/// Of the code-length codes, 16 repeats the last length three to six times,
/// 17 stands for three to ten zeros and 18 for eleven to 138.
pub proof fn law_repeated_lengths(cl: Seq<u8>, d: Seq<u8>, p: int, acc: Seq<u8>, total: nat)
    requires
        acc.len() < total,
        symbol_at(cl, d, p, 1) is Some,
    ensures
        ({
            let (s, q) = symbol_at(cl, d, p, 1)->0;
            let (b0, b1, b2) = (bit_at(d, q), bit_at(d, q + 1), bit_at(d, q + 2));
            let (b3, b4, b5, b6) = (bit_at(d, q + 3), bit_at(d, q + 4), bit_at(d, q + 5), bit_at(d, q + 6));
            let two = b0 + 2 * b1;
            let three = two + 4 * b2;
            let seven = three + 8 * b3 + 16 * b4 + 32 * b5 + 64 * b6;
            let r = code_lengths(cl, d, p, acc, total);
            &&& s < 16 ==> r == code_lengths(cl, d, q, acc.push(s as u8), total)
            &&& s == 16 && acc.len() > 0 ==> r == code_lengths(
                cl,
                d,
                q + 2,
                acc + Seq::new((3 + two) as nat, |i: int| acc[acc.len() - 1]),
                total,
            )
            &&& s == 17 ==> r == code_lengths(cl, d, q + 3, acc + Seq::new((3 + three) as nat, |i: int| 0u8), total)
            &&& s == 18 ==> r == code_lengths(cl, d, q + 7, acc + Seq::new((11 + seven) as nat, |i: int| 0u8), total)
        }),
{
    let (s, q) = symbol_at(cl, d, p, 1)->0;
    lemma_seven_bits(d, q);
    if s == 16 && acc.len() > 0 {
        let n = (3 + bits_at(d, q, 2)) as nat;
        assert(Seq::new(n, |i: int| acc.last()) =~= Seq::new(n, |i: int| acc[acc.len() - 1]));
    }
}

} // verus!
