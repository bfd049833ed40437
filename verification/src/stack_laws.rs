//! What a Linux program finds on its initial stack, read from the bytes at
//! the stack pointer.

use crate::bytes::{le32_bytes, le64_bytes};
use crate::elf::Segment;
use crate::process::{
    auxv, auxv_pairs, cstrings, flat, holds_phdrs, lemma_flat_len, lemma_table_len, lemma_text_in_place,
    lemma_words_len, pointers, phdr_len, phdrs_mapped, random_byte, random_bytes, stack_data, stack_fault,
    stack_pointer, stack_words, table_len, text_offset, words_bytes, ProgramFacts, USER_STACK_TOP,
};
use vstd::prelude::*;

verus! {

// ---------------------------------------------------------------------
// Reading the stack
// ---------------------------------------------------------------------

/// The 64-bit word at byte `at`, low byte first.
pub open spec fn word_at(m: Seq<u8>, at: int) -> int {
    m[at] + m[at + 1] * 0x100 + m[at + 2] * 0x1_0000 + m[at + 3] * 0x100_0000 + m[at + 4] * 0x1_0000_0000 + m[at + 5]
        * 0x100_0000_0000 + m[at + 6] * 0x1_0000_0000_0000 + m[at + 7] * 0x100_0000_0000_0000
}

/// Whether the bytes `b` stand at byte `at`.
pub open spec fn stands_at(m: Seq<u8>, at: int, b: Seq<u8>) -> bool {
    0 <= at && at + b.len() <= m.len() && m.subrange(at, at + b.len()) == b
}

/// The key of pair `k` of the auxiliary vector, whose first word is word `a`
/// of the stack.
pub open spec fn aux_key(m: Seq<u8>, a: int, k: int) -> int {
    word_at(m, 8 * (a + 2 * k))
}

/// The value of pair `k` of the auxiliary vector.
pub open spec fn aux_value(m: Seq<u8>, a: int, k: int) -> int {
    word_at(m, 8 * (a + 2 * k + 1))
}

/// Whether exactly one of the `n` pairs has the key, and it has the value.
pub open spec fn aux_says(m: Seq<u8>, a: int, n: int, key: int, value: int) -> bool {
    exists|k: int|
        0 <= k < n && #[trigger] aux_key(m, a, k) == key && aux_value(m, a, k) == value && forall|l: int|
            0 <= l < n && l != k ==> #[trigger] aux_key(m, a, l) != key
}

/// Whether the first segment whose file data covers the program headers has
/// them at `v`, or no segment covers them and they stand at `v` on the
/// stack, whose first byte is at `rsp`.
pub open spec fn headers_at(
    v: int,
    m: Seq<u8>,
    rsp: int,
    ss: Seq<Segment>,
    f: ProgramFacts,
    elf: Seq<u8>,
) -> bool {
    let size = f.phentsize * f.phnum;
    let covers = |s: Segment| s.file_offset <= f.phoff && f.phoff + size <= s.file_offset + s.filesz;
    if exists|i: int| 0 <= i < ss.len() && covers(#[trigger] ss[i]) {
        exists|i: int|
            0 <= i < ss.len() && covers(#[trigger] ss[i]) && v == ss[i].vaddr + (f.phoff - ss[i].file_offset)
                && forall|j: int| 0 <= j < i ==> !covers(#[trigger] ss[j])
    } else {
        stands_at(m, v - rsp, elf.subrange(f.phoff as int, f.phoff + size))
    }
}

/// Whether the sixteen bytes at `at` are the random ones: the bits from 33
/// on of the tick and the entry point, mixed, times a constant.
pub open spec fn random_at(m: Seq<u8>, at: int, f: ProgramFacts) -> bool {
    &&& 0 <= at && at + 16 <= m.len()
    &&& forall|i: int|
        0 <= i < 16 ==> #[trigger] m[at + i] == ((f.ticks ^ f.entry) * 0x9E37_79B9_7F4A_7C15
            % 0x1_0000_0000_0000_0000 + i) % 0x1_0000_0000_0000_0000 / 0x2_0000_0000 % 0x100
}

// ---------------------------------------------------------------------
// Words and pairs in place
// ---------------------------------------------------------------------

pub(crate) proof fn lemma_word_bytes(v: u64)
    ensures
        le64_bytes(v).len() == 8,
        word_at(le64_bytes(v), 0) == v,
{
    let lo = (v % 0x1_0000_0000) as u32;
    let hi = (v / 0x1_0000_0000) as u32;
    crate::bytes::lemma_le64_round_trip(v);
    let b = le64_bytes(v);
    let (x, y) = (le32_bytes(lo), le32_bytes(hi));
    crate::bytes::lemma_le32_round_trip(lo);
    crate::bytes::lemma_le32_round_trip(hi);
    assert(b[0] == x[0] && b[1] == x[1] && b[2] == x[2] && b[3] == x[3]);
    assert(b[4] == y[0] && b[5] == y[1] && b[6] == y[2] && b[7] == y[3]);
    assert(lo == x[0] + x[1] * 0x100 + x[2] * 0x1_0000 + x[3] * 0x100_0000);
    assert(hi == y[0] + y[1] * 0x100 + y[2] * 0x1_0000 + y[3] * 0x100_0000);
    assert(v == lo + hi * 0x1_0000_0000);
}

pub(crate) proof fn lemma_same_word(m: Seq<u8>, p: int, n: Seq<u8>, q: int)
    requires
        forall|i: int| 0 <= i < 8 ==> #[trigger] m[p + i] == n[q + i],
    ensures
        word_at(m, p) == word_at(n, q),
{
    assert(m[p + 0] == n[q + 0]);
    assert(m[p + 1] == n[q + 1]);
    assert(m[p + 2] == n[q + 2]);
    assert(m[p + 3] == n[q + 3]);
    assert(m[p + 4] == n[q + 4]);
    assert(m[p + 5] == n[q + 5]);
    assert(m[p + 6] == n[q + 6]);
    assert(m[p + 7] == n[q + 7]);
}

proof fn lemma_word_in_place(w: Seq<u64>, data: Seq<u8>, k: int)
    requires
        0 <= k < w.len(),
    ensures
        word_at(words_bytes(w) + data, 8 * k) == w[k],
    decreases w.len(),
{
    lemma_words_len(w);
    lemma_words_len(w.drop_last());
    let m = words_bytes(w) + data;
    let a = words_bytes(w.drop_last());
    if k < w.len() - 1 {
        lemma_word_in_place(w.drop_last(), data, k);
        let n = a + data;
        assert forall|i: int| 0 <= i < 8 implies #[trigger] m[8 * k + i] == n[8 * k + i] by {}
        lemma_same_word(m, 8 * k, n, 8 * k);
    } else {
        let b = le64_bytes(w.last());
        lemma_word_bytes(w.last());
        assert forall|i: int| 0 <= i < 8 implies #[trigger] m[8 * k + i] == b[0 + i] by {}
        lemma_same_word(m, 8 * k, b, 0);
    }
}

proof fn lemma_flat(p: Seq<(u64, u64)>, k: int)
    requires
        0 <= k < p.len(),
    ensures
        flat(p).len() == 2 * p.len(),
        flat(p)[2 * k] == p[k].0,
        flat(p)[2 * k + 1] == p[k].1,
    decreases p.len(),
{
    lemma_flat_len(p);
    lemma_flat_len(p.drop_last());
    if k < p.len() - 1 {
        lemma_flat(p.drop_last(), k);
    }
}

// ---------------------------------------------------------------------
// The auxiliary vector
// ---------------------------------------------------------------------

/// The place of a key among the pairs.
spec fn rank(key: u64) -> int {
    if key == 4 {
        0
    } else if key == 5 {
        1
    } else if key == 6 {
        2
    } else if key == 7 {
        3
    } else if key == 8 {
        4
    } else if key == 9 {
        5
    } else if key == 11 {
        6
    } else if key == 12 {
        7
    } else if key == 13 {
        8
    } else if key == 14 {
        9
    } else if key == 16 {
        10
    } else if key == 26 {
        11
    } else if key == 17 {
        12
    } else if key == 23 {
        13
    } else if key == 3 {
        14
    } else if key == 25 {
        15
    } else if key == 31 {
        16
    } else {
        -1
    }
}

proof fn lemma_ranked(f: ProgramFacts, phdr: u64, random: u64, has_args: bool, base: u64, k: int)
    requires
        0 <= k < (if has_args {
            17int
        } else {
            16int
        }),
    ensures
        rank(auxv_pairs(f, phdr, random, has_args, base)[k].0) == k,
{
    let p = auxv_pairs(f, phdr, random, has_args, base);
    if k == 0 {
    } else if k == 1 {
    } else if k == 2 {
    } else if k == 3 {
    } else if k == 4 {
    } else if k == 5 {
    } else if k == 6 {
    } else if k == 7 {
    } else if k == 8 {
    } else if k == 9 {
    } else if k == 10 {
    } else if k == 11 {
    } else if k == 12 {
    } else if k == 13 {
    } else if k == 14 {
    } else if k == 15 {
    } else {
        assert(p[16].0 == 31);
    }
}

spec fn pair_in_place(m: Seq<u8>, a: int, p: Seq<(u64, u64)>, k: int) -> bool {
    aux_key(m, a, k) == p[k].0 && aux_value(m, a, k) == p[k].1
}

/// The pairs of the auxiliary vector are where they are read.
spec fn pairs_in_place(m: Seq<u8>, a: int, n: int, p: Seq<(u64, u64)>) -> bool {
    &&& p.len() == n + 1
    &&& forall|k: int| 0 <= k <= n ==> #[trigger] pair_in_place(m, a, p, k)
    &&& forall|k: int| 0 <= k < n ==> rank(#[trigger] p[k].0) == k
}

proof fn lemma_says(m: Seq<u8>, a: int, n: int, p: Seq<(u64, u64)>, k: int)
    requires
        pairs_in_place(m, a, n, p),
        0 <= k < n,
    ensures
        aux_says(m, a, n, p[k].0 as int, p[k].1 as int),
{
    assert(pair_in_place(m, a, p, k));
    assert forall|l: int| 0 <= l < n && l != k implies #[trigger] aux_key(m, a, l) != p[k].0 as int by {
        assert(pair_in_place(m, a, p, l));
        assert(rank(p[l].0) == l);
        assert(rank(p[k].0) == k);
    }
}

proof fn lemma_keys_set(m: Seq<u8>, a: int, n: int, p: Seq<(u64, u64)>)
    requires
        pairs_in_place(m, a, n, p),
    ensures
        forall|k: int| 0 <= k < n ==> #[trigger] aux_key(m, a, k) != 0,
        0 <= n ==> aux_key(m, a, n) == p[n].0,
{
    assert forall|k: int| 0 <= k < n implies #[trigger] aux_key(m, a, k) != 0 by {
        assert(pair_in_place(m, a, p, k));
        assert(rank(p[k].0) == k);
    }
    if 0 <= n {
        assert(pair_in_place(m, a, p, n));
    }
}

// ---------------------------------------------------------------------
// The data
// ---------------------------------------------------------------------

proof fn lemma_stands_behind(a: Seq<u8>, m: Seq<u8>, at: int, b: Seq<u8>)
    requires
        stands_at(m, at, b),
    ensures
        stands_at(a + m, a.len() + at, b),
{
    assert((a + m).subrange(a.len() + at, a.len() + at + b.len()) =~= m.subrange(at, at + b.len()));
}

proof fn lemma_stands_before(m: Seq<u8>, c: Seq<u8>, at: int, b: Seq<u8>)
    requires
        stands_at(m, at, b),
    ensures
        stands_at(m + c, at, b),
{
    assert((m + c).subrange(at, at + b.len()) =~= m.subrange(at, at + b.len()));
}

proof fn lemma_text_stands(v: Seq<Seq<u8>>, i: int)
    requires
        0 <= i < v.len(),
    ensures
        stands_at(cstrings(v), text_offset(v, i), v[i].push(0u8)),
{
    lemma_text_in_place(v, i, v.len() as int);
    assert(v.take(v.len() as int) =~= v);
}

proof fn lemma_mapped(ss: Seq<Segment>, f: ProgramFacts, i: int)
    requires
        0 <= i <= ss.len(),
        forall|k: int|
            0 <= k < ss.len() ==> #[trigger] ss[k].file_offset + ss[k].filesz <= u64::MAX && ss[k].vaddr + ss[k].filesz
                <= u64::MAX,
    ensures
        match phdrs_mapped(ss, f, i) {
            None => forall|k: int| i <= k < ss.len() ==> !holds_phdrs(#[trigger] ss[k], f),
            Some(v) => exists|k: int|
                i <= k < ss.len() && holds_phdrs(#[trigger] ss[k], f) && v == ss[k].vaddr + (f.phoff
                    - ss[k].file_offset) && forall|j: int| i <= j < k ==> !holds_phdrs(#[trigger] ss[j], f),
        },
    decreases ss.len() - i,
{
    if i < ss.len() {
        if holds_phdrs(ss[i], f) {
            assert(ss[i].file_offset + ss[i].filesz <= u64::MAX);
            assert(f.phentsize * f.phnum >= 0) by (nonlinear_arith)
                requires
                    f.phentsize >= 0,
                    f.phnum >= 0,
            ;
        } else {
            lemma_mapped(ss, f, i + 1);
        }
    }
}

// ---------------------------------------------------------------------
// The law
// ---------------------------------------------------------------------

/// The bytes from the stack pointer on: the table and the data behind it.
pub open spec fn stack_bytes(
    f: ProgramFacts,
    mapped: Option<u64>,
    argv: Seq<Seq<u8>>,
    envp: Seq<Seq<u8>>,
    elf: Seq<u8>,
) -> Seq<u8> {
    let data = stack_data(f, mapped, argv, envp, elf);
    let table = table_len(argv.len(), envp.len());
    words_bytes(stack_words(f, mapped, argv, envp, stack_pointer(table, data.len() as int) + table)) + data
}

/// A word of the table, read from the stack.
proof fn lemma_table_word(
    f: ProgramFacts,
    mapped: Option<u64>,
    argv: Seq<Seq<u8>>,
    envp: Seq<Seq<u8>>,
    elf: Seq<u8>,
    k: int,
)
    requires
        0 <= 8 * k < table_len(argv.len(), envp.len()),
    ensures
        ({
            let table = table_len(argv.len(), envp.len());
            let base = stack_pointer(table, stack_data(f, mapped, argv, envp, elf).len() as int) + table;
            word_at(stack_bytes(f, mapped, argv, envp, elf), 8 * k) == stack_words(f, mapped, argv, envp, base)[k]
        }),
{
    let data = stack_data(f, mapped, argv, envp, elf);
    let table = table_len(argv.len(), envp.len());
    let base = stack_pointer(table, data.len() as int) + table;
    let w = stack_words(f, mapped, argv, envp, base);
    lemma_table_len(f, mapped, argv, envp, base);
    lemma_words_len(w);
    lemma_word_in_place(w, data, k);
}

#[verifier::spinoff_prover]
proof fn lemma_pairs(
    f: ProgramFacts,
    mapped: Option<u64>,
    argv: Seq<Seq<u8>>,
    envp: Seq<Seq<u8>>,
    elf: Seq<u8>,
    phdr: u64,
    random: u64,
    p: Seq<(u64, u64)>,
)
    requires
        ({
            let table = table_len(argv.len(), envp.len());
            let base = stack_pointer(table, stack_data(f, mapped, argv, envp, elf).len() as int) + table;
            let strings = cstrings(argv).len() + cstrings(envp).len();
            &&& phdr == (match mapped {
                Some(x) => x as int,
                None => base + strings,
            }) as u64
            &&& random == (base + strings + if mapped is Some { 0 } else { phdr_len(f) }) as u64
            &&& p == auxv_pairs(f, phdr, random, argv.len() > 0, base as u64)
        }),
    ensures
        pairs_in_place(
            stack_bytes(f, mapped, argv, envp, elf),
            3 + argv.len() as int + envp.len() as int,
            if argv.len() > 0 { 17int } else { 16int },
            p,
        ),
{
    let m = stack_bytes(f, mapped, argv, envp, elf);
    let table = table_len(argv.len(), envp.len());
    let base = stack_pointer(table, stack_data(f, mapped, argv, envp, elf).len() as int) + table;
    let w = stack_words(f, mapped, argv, envp, base);
    let x = auxv(f, mapped, argv, envp, base);
    assert(x == flat(p));
    lemma_flat_len(p);
    lemma_table_len(f, mapped, argv, envp, base);
    lemma_words_len(w);
    assert(w.skip(3 + argv.len() as int + envp.len() as int) =~= x);
    lemma_place(m, 3 + argv.len() as int + envp.len() as int, p, w, stack_data(f, mapped, argv, envp, elf));
    let n = p.len() - 1;
    assert forall|k: int| 0 <= k < n implies rank(#[trigger] p[k].0) == k by {
        lemma_ranked(f, phdr, random, argv.len() > 0, base as u64, k);
    }
}

proof fn lemma_place(m: Seq<u8>, a: int, p: Seq<(u64, u64)>, w: Seq<u64>, data: Seq<u8>)
    requires
        m == words_bytes(w) + data,
        0 <= a,
        w.len() == a + 2 * p.len(),
        w.skip(a) == flat(p),
    ensures
        forall|k: int| 0 <= k < p.len() ==> #[trigger] pair_in_place(m, a, p, k),
{
    assert forall|k: int| 0 <= k < p.len() implies #[trigger] pair_in_place(m, a, p, k) by {
        lemma_flat(p, k);
        lemma_word_in_place(w, data, a + 2 * k);
        lemma_word_in_place(w, data, a + 2 * k + 1);
        assert(w[a + 2 * k] == w.skip(a)[2 * k]);
        assert(w[a + 2 * k + 1] == w.skip(a)[2 * k + 1]);
    }
}

#[verifier::spinoff_prover]
proof fn lemma_facts(
    m: Seq<u8>,
    a: int,
    n: int,
    p: Seq<(u64, u64)>,
    f: ProgramFacts,
    phdr: u64,
    random: u64,
    has_args: bool,
    base: u64,
)
    requires
        p == auxv_pairs(f, phdr, random, has_args, base),
        n == p.len() - 1,
        pairs_in_place(m, a, n, p),
    ensures
        aux_key(m, a, n) == 0,
        forall|k: int| 0 <= k < n ==> #[trigger] aux_key(m, a, k) != 0,
        aux_says(m, a, n, 3, phdr as int),
        aux_says(m, a, n, 4, f.phentsize as int),
        aux_says(m, a, n, 5, f.phnum as int),
        aux_says(m, a, n, 6, 4096),
        aux_says(m, a, n, 7, f.at_base as int),
        aux_says(m, a, n, 8, 0),
        aux_says(m, a, n, 9, f.entry as int),
        aux_says(m, a, n, 11, 0),
        aux_says(m, a, n, 12, 0),
        aux_says(m, a, n, 13, 0),
        aux_says(m, a, n, 14, 0),
        aux_says(m, a, n, 16, 0),
        aux_says(m, a, n, 26, 0),
        aux_says(m, a, n, 17, 100),
        aux_says(m, a, n, 23, 0),
        aux_says(m, a, n, 25, random as int),
        has_args ==> aux_says(m, a, n, 31, base as int),
{
    assert(p[n].0 == 0);
    assert(p[0] == (4u64, f.phentsize as u64));
    assert(p[1] == (5u64, f.phnum as u64));
    assert(p[2] == (6u64, 4096u64));
    assert(p[3] == (7u64, f.at_base));
    assert(p[4] == (8u64, 0u64));
    assert(p[5] == (9u64, f.entry));
    assert(p[6] == (11u64, 0u64));
    assert(p[7] == (12u64, 0u64));
    assert(p[8] == (13u64, 0u64));
    assert(p[9] == (14u64, 0u64));
    assert(p[10] == (16u64, 0u64));
    assert(p[11] == (26u64, 0u64));
    assert(p[12] == (17u64, 100u64));
    assert(p[13] == (23u64, 0u64));
    assert(p[14] == (3u64, phdr));
    assert(p[15] == (25u64, random));
    lemma_says(m, a, n, p, 0);
    lemma_says(m, a, n, p, 1);
    lemma_says(m, a, n, p, 2);
    lemma_says(m, a, n, p, 3);
    lemma_says(m, a, n, p, 4);
    lemma_says(m, a, n, p, 5);
    lemma_says(m, a, n, p, 6);
    lemma_says(m, a, n, p, 7);
    lemma_says(m, a, n, p, 8);
    lemma_says(m, a, n, p, 9);
    lemma_says(m, a, n, p, 10);
    lemma_says(m, a, n, p, 11);
    lemma_says(m, a, n, p, 12);
    lemma_says(m, a, n, p, 13);
    lemma_says(m, a, n, p, 14);
    lemma_says(m, a, n, p, 15);
    lemma_keys_set(m, a, n, p);
    if has_args {
        assert(p[16] == (31u64, base));
        lemma_says(m, a, n, p, 16);
    }
}

/// The stack pointer is a multiple of 16 and what lies from it on ends less
/// than 16 bytes below the top of the stack. There lie the number of
/// arguments, a pointer to each argument and a null, a pointer to each
/// environment string and a null; each string stands where its pointer says,
/// a zero behind it.
#[verifier::spinoff_prover]
pub proof fn law_stack_holds_the_strings(
    ss: Seq<Segment>,
    f: ProgramFacts,
    argv: Seq<Seq<u8>>,
    envp: Seq<Seq<u8>>,
    elf: Seq<u8>,
)
    requires
        stack_fault(f, phdrs_mapped(ss, f, 0), argv, envp, elf) is None,
    ensures
        ({
            let mapped = phdrs_mapped(ss, f, 0);
            let m = stack_bytes(f, mapped, argv, envp, elf);
            let rsp = stack_pointer(
                table_len(argv.len(), envp.len()),
                stack_data(f, mapped, argv, envp, elf).len() as int,
            );
            let (na, ne) = (argv.len() as int, envp.len() as int);
            &&& rsp % 16 == 0
            &&& USER_STACK_TOP - 16 < rsp + m.len() <= USER_STACK_TOP
            &&& word_at(m, 0) == na
            &&& forall|i: int|
                0 <= i < na ==> stands_at(m, #[trigger] word_at(m, 8 * (1 + i)) - rsp, argv[i].push(0u8))
            &&& word_at(m, 8 * (1 + na)) == 0
            &&& forall|i: int|
                0 <= i < ne ==> stands_at(m, #[trigger] word_at(m, 8 * (2 + na + i)) - rsp, envp[i].push(0u8))
            &&& word_at(m, 8 * (2 + na + ne)) == 0
        }),
{
    let mapped = phdrs_mapped(ss, f, 0);
    let m = stack_bytes(f, mapped, argv, envp, elf);
    let data = stack_data(f, mapped, argv, envp, elf);
    let table = table_len(argv.len(), envp.len());
    let rsp = stack_pointer(table, data.len() as int);
    let base = rsp + table;
    let w = stack_words(f, mapped, argv, envp, base);
    let (na, ne) = (argv.len() as int, envp.len() as int);
    lemma_table_len(f, mapped, argv, envp, base);
    let (ca, ce) = (cstrings(argv), cstrings(envp));
    let more = (if mapped is Some {
        Seq::empty()
    } else {
        elf.subrange(f.phoff as int, f.phoff + phdr_len(f))
    }) + random_bytes(f);
    assert(data =~= ca + (ce + more));
    let t = words_bytes(w);
    assert(m == t + data);
    assert(t.len() == table);
    lemma_table_word(f, mapped, argv, envp, elf, 0);
    lemma_table_word(f, mapped, argv, envp, elf, 1 + na);
    lemma_table_word(f, mapped, argv, envp, elf, 2 + na + ne);
    assert(w[0] == na);
    assert(w[1 + na] == 0);
    assert(w[2 + na + ne] == 0);
    assert forall|i: int| 0 <= i < na implies stands_at(
        m,
        #[trigger] word_at(m, 8 * (1 + i)) - rsp,
        argv[i].push(0u8),
    ) by {
        lemma_table_word(f, mapped, argv, envp, elf, 1 + i);
        lemma_text_stands(argv, i);
        let o = text_offset(argv, i);
        assert(w[1 + i] == pointers(argv, argv.len(), base)[i]);
        assert(w[1 + i] == base + o);
        lemma_stands_before(ca, ce + more, o, argv[i].push(0u8));
        lemma_stands_behind(t, data, o, argv[i].push(0u8));
    }
    assert forall|i: int| 0 <= i < ne implies stands_at(
        m,
        #[trigger] word_at(m, 8 * (2 + na + i)) - rsp,
        envp[i].push(0u8),
    ) by {
        lemma_table_word(f, mapped, argv, envp, elf, 2 + na + i);
        lemma_text_stands(envp, i);
        let o = text_offset(envp, i);
        assert(w[2 + na + i] == pointers(envp, envp.len(), base + ca.len())[i]);
        assert(w[2 + na + i] == base + ca.len() + o);
        lemma_stands_before(ce, more, o, envp[i].push(0u8));
        lemma_stands_behind(ca, ce + more, o, envp[i].push(0u8));
        lemma_stands_behind(t, data, ca.len() + o, envp[i].push(0u8));
    }
}

/// Whether the `n` pairs from word `a` of a stack on say what a program is
/// told, ended by the key 0. One of them, and no other, says under key 3
/// where the program headers of the file are in memory, under 4 and 5 how
/// long a header is and how many there are, under 6 the page size, under 7
/// where the interpreter is, under 9 the entry point, under 11 to 14 user
/// and group 0, under 16 and 26 no processor features, under 17 a hundred
/// ticks a second, under 23 that nothing is privileged, under 25 where on
/// the stack the 16 random bytes are, and under 31, if there are arguments,
/// where the first one is.
pub open spec fn tells_the_program(
    m: Seq<u8>,
    rsp: int,
    a: int,
    n: int,
    ss: Seq<Segment>,
    f: ProgramFacts,
    argv: Seq<Seq<u8>>,
    elf: Seq<u8>,
) -> bool {
    &&& 0 <= n && 8 * (a + 2 * n + 2) <= m.len()
    &&& aux_key(m, a, n) == 0
    &&& forall|k: int| 0 <= k < n ==> #[trigger] aux_key(m, a, k) != 0
    &&& exists|v: int| #[trigger] aux_says(m, a, n, 3, v) && headers_at(v, m, rsp, ss, f, elf)
    &&& aux_says(m, a, n, 4, f.phentsize as int)
    &&& aux_says(m, a, n, 5, f.phnum as int)
    &&& aux_says(m, a, n, 6, 4096)
    &&& aux_says(m, a, n, 7, f.at_base as int)
    &&& aux_says(m, a, n, 8, 0)
    &&& aux_says(m, a, n, 9, f.entry as int)
    &&& aux_says(m, a, n, 11, 0)
    &&& aux_says(m, a, n, 12, 0)
    &&& aux_says(m, a, n, 13, 0)
    &&& aux_says(m, a, n, 14, 0)
    &&& aux_says(m, a, n, 16, 0)
    &&& aux_says(m, a, n, 26, 0)
    &&& aux_says(m, a, n, 17, 100)
    &&& aux_says(m, a, n, 23, 0)
    &&& exists|v: int| #[trigger] aux_says(m, a, n, 25, v) && random_at(m, v - rsp, f)
    &&& argv.len() > 0 ==> exists|v: int|
        #[trigger] aux_says(m, a, n, 31, v) && stands_at(m, v - rsp, argv[0].push(0u8))
}

#[verifier::spinoff_prover]
proof fn lemma_tells(
    m: Seq<u8>,
    rsp: int,
    a: int,
    n: int,
    ss: Seq<Segment>,
    f: ProgramFacts,
    argv: Seq<Seq<u8>>,
    elf: Seq<u8>,
    p: Seq<(u64, u64)>,
    phdr: u64,
    random: u64,
    base: u64,
)
    requires
        p == auxv_pairs(f, phdr, random, argv.len() > 0, base),
        n == p.len() - 1,
        pairs_in_place(m, a, n, p),
        8 * (a + 2 * n + 2) <= m.len(),
        headers_at(phdr as int, m, rsp, ss, f, elf),
        random_at(m, random - rsp, f),
        argv.len() > 0 ==> stands_at(m, base - rsp, argv[0].push(0u8)),
    ensures
        tells_the_program(m, rsp, a, n, ss, f, argv, elf),
{
    lemma_facts(m, a, n, p, f, phdr, random, argv.len() > 0, base);
}

/// Where the parts of the stack are, as numbers.
#[verifier::spinoff_prover]
proof fn lemma_sizes(f: ProgramFacts, mapped: Option<u64>, argv: Seq<Seq<u8>>, envp: Seq<Seq<u8>>, elf: Seq<u8>)
    requires
        stack_fault(f, mapped, argv, envp, elf) is None,
    ensures
        ({
            let table = table_len(argv.len(), envp.len());
            let data = stack_data(f, mapped, argv, envp, elf).len();
            let base = stack_pointer(table, data as int) + table;
            let strings = cstrings(argv).len() + cstrings(envp).len();
            &&& phdr_len(f) >= 0
            &&& data == strings + (if mapped is Some { 0 } else { phdr_len(f) }) + 16
            &&& 0 <= base && base + data <= USER_STACK_TOP
            &&& stack_bytes(f, mapped, argv, envp, elf).len() == table + data
        }),
{
    assert(phdr_len(f) >= 0) by (nonlinear_arith)
        requires
            f.phentsize >= 0,
            f.phnum >= 0,
            phdr_len(f) == f.phentsize * f.phnum,
    ;
    let table = table_len(argv.len(), envp.len());
    let data = stack_data(f, mapped, argv, envp, elf).len();
    lemma_table_len(f, mapped, argv, envp, stack_pointer(table, data as int) + table);
}

/// Behind the null after the environment pointers stand the pairs of the
/// auxiliary vector, and they tell the program what it has to know.
#[verifier::spinoff_prover]
pub proof fn law_auxiliary_vector(
    ss: Seq<Segment>,
    f: ProgramFacts,
    argv: Seq<Seq<u8>>,
    envp: Seq<Seq<u8>>,
    elf: Seq<u8>,
) -> (n: int)
    requires
        forall|k: int|
            0 <= k < ss.len() ==> #[trigger] ss[k].file_offset + ss[k].filesz <= u64::MAX && ss[k].vaddr + ss[k].filesz
                <= u64::MAX,
        stack_fault(f, phdrs_mapped(ss, f, 0), argv, envp, elf) is None,
    ensures
        ({
            let mapped = phdrs_mapped(ss, f, 0);
            let table = table_len(argv.len(), envp.len());
            tells_the_program(
                stack_bytes(f, mapped, argv, envp, elf),
                stack_pointer(table, stack_data(f, mapped, argv, envp, elf).len() as int),
                3 + argv.len() + envp.len() as int,
                n,
                ss,
                f,
                argv,
                elf,
            )
        }),
{
    let mapped = phdrs_mapped(ss, f, 0);
    let table = table_len(argv.len(), envp.len());
    let rsp = stack_pointer(table, stack_data(f, mapped, argv, envp, elf).len() as int);
    let base = rsp + table;
    let strings = cstrings(argv).len() + cstrings(envp).len();
    lemma_sizes(f, mapped, argv, envp, elf);
    let phdr = match mapped {
        Some(x) => x as int,
        None => base + strings,
    };
    let random = base + strings + if mapped is Some { 0 } else { phdr_len(f) };
    let p = auxv_pairs(f, phdr as u64, random as u64, argv.len() > 0, base as u64);
    lemma_pairs(f, mapped, argv, envp, elf, phdr as u64, random as u64, p);
    lemma_headers(ss, f, argv, envp, elf);
    lemma_random(ss, f, argv, envp, elf);
    if argv.len() > 0 {
        lemma_first_argument(ss, f, argv, envp, elf);
    }
    let n = p.len() - 1;
    lemma_tells(
        stack_bytes(f, mapped, argv, envp, elf),
        rsp,
        3 + argv.len() + envp.len() as int,
        n,
        ss,
        f,
        argv,
        elf,
        p,
        phdr as u64,
        random as u64,
        base as u64,
    );
    n
}

#[verifier::spinoff_prover]
proof fn lemma_first_argument(
    ss: Seq<Segment>,
    f: ProgramFacts,
    argv: Seq<Seq<u8>>,
    envp: Seq<Seq<u8>>,
    elf: Seq<u8>,
)
    requires
        stack_fault(f, phdrs_mapped(ss, f, 0), argv, envp, elf) is None,
        argv.len() > 0,
    ensures
        stands_at(
            stack_bytes(f, phdrs_mapped(ss, f, 0), argv, envp, elf),
            table_len(argv.len(), envp.len()),
            argv[0].push(0u8),
        ),
{
    let mapped = phdrs_mapped(ss, f, 0);
    let data = stack_data(f, mapped, argv, envp, elf);
    let table = table_len(argv.len(), envp.len());
    let base = stack_pointer(table, data.len() as int) + table;
    lemma_table_len(f, mapped, argv, envp, base);
    let t = words_bytes(stack_words(f, mapped, argv, envp, base));
    lemma_text_stands(argv, 0);
    assert(argv.take(0) =~= Seq::<Seq<u8>>::empty());
    assert(text_offset(argv, 0) == 0);
    let ca = cstrings(argv);
    let more = cstrings(envp) + ((if mapped is Some {
        Seq::empty()
    } else {
        elf.subrange(f.phoff as int, f.phoff + phdr_len(f))
    }) + random_bytes(f));
    assert(data =~= ca + more);
    lemma_stands_before(ca, more, 0, argv[0].push(0u8));
    lemma_stands_behind(t, data, 0, argv[0].push(0u8));
}

#[verifier::spinoff_prover]
proof fn lemma_headers(ss: Seq<Segment>, f: ProgramFacts, argv: Seq<Seq<u8>>, envp: Seq<Seq<u8>>, elf: Seq<u8>)
    requires
        forall|k: int|
            0 <= k < ss.len() ==> #[trigger] ss[k].file_offset + ss[k].filesz <= u64::MAX && ss[k].vaddr + ss[k].filesz
                <= u64::MAX,
        stack_fault(f, phdrs_mapped(ss, f, 0), argv, envp, elf) is None,
    ensures
        ({
            let mapped = phdrs_mapped(ss, f, 0);
            let m = stack_bytes(f, mapped, argv, envp, elf);
            let table = table_len(argv.len(), envp.len());
            let rsp = stack_pointer(table, stack_data(f, mapped, argv, envp, elf).len() as int);
            let phdr = match mapped {
                Some(x) => x as int,
                None => rsp + table + cstrings(argv).len() + cstrings(envp).len(),
            };
            headers_at(phdr, m, rsp, ss, f, elf)
        }),
{
    let mapped = phdrs_mapped(ss, f, 0);
    let m = stack_bytes(f, mapped, argv, envp, elf);
    let data = stack_data(f, mapped, argv, envp, elf);
    let table = table_len(argv.len(), envp.len());
    let rsp = stack_pointer(table, data.len() as int);
    let size = f.phentsize * f.phnum;
    assert(size >= 0) by (nonlinear_arith)
        requires
            f.phentsize >= 0,
            f.phnum >= 0,
            size == f.phentsize * f.phnum,
    ;
    lemma_mapped(ss, f, 0);
    lemma_table_len(f, mapped, argv, envp, rsp + table);
    let t = words_bytes(stack_words(f, mapped, argv, envp, rsp + table));
    let covers = |s: Segment| s.file_offset <= f.phoff && f.phoff + size <= s.file_offset + s.filesz;
    assert forall|i: int| 0 <= i < ss.len() implies covers(#[trigger] ss[i]) == holds_phdrs(ss[i], f) by {}
    match mapped {
        Some(v) => {
            let k = choose|k: int|
                0 <= k < ss.len() && holds_phdrs(#[trigger] ss[k], f) && v == ss[k].vaddr + (f.phoff
                    - ss[k].file_offset) && forall|j: int| 0 <= j < k ==> !holds_phdrs(#[trigger] ss[j], f);
            assert(covers(ss[k]));
        },
        None => {
            let h = elf.subrange(f.phoff as int, f.phoff + size);
            let c = cstrings(argv) + cstrings(envp);
            assert(data =~= c + (h + random_bytes(f)));
            assert(stands_at(h, 0, h)) by {
                assert(h.subrange(0, h.len() as int) =~= h);
            }
            lemma_stands_before(h, random_bytes(f), 0, h);
            lemma_stands_behind(c, h + random_bytes(f), 0, h);
            lemma_stands_behind(t, data, c.len() as int, h);
        },
    }
}

#[verifier::spinoff_prover]
proof fn lemma_random(ss: Seq<Segment>, f: ProgramFacts, argv: Seq<Seq<u8>>, envp: Seq<Seq<u8>>, elf: Seq<u8>)
    requires
        stack_fault(f, phdrs_mapped(ss, f, 0), argv, envp, elf) is None,
    ensures
        ({
            let mapped = phdrs_mapped(ss, f, 0);
            let m = stack_bytes(f, mapped, argv, envp, elf);
            let table = table_len(argv.len(), envp.len());
            let at = table + cstrings(argv).len() + cstrings(envp).len() + if mapped is Some {
                0
            } else {
                phdr_len(f)
            };
            random_at(m, at, f) && at + 16 == m.len()
        }),
{
    let mapped = phdrs_mapped(ss, f, 0);
    let m = stack_bytes(f, mapped, argv, envp, elf);
    let data = stack_data(f, mapped, argv, envp, elf);
    let table = table_len(argv.len(), envp.len());
    let rsp = stack_pointer(table, data.len() as int);
    assert(phdr_len(f) >= 0) by (nonlinear_arith)
        requires
            f.phentsize >= 0,
            f.phnum >= 0,
            phdr_len(f) == f.phentsize * f.phnum,
    ;
    lemma_table_len(f, mapped, argv, envp, rsp + table);
    let at = table + cstrings(argv).len() + cstrings(envp).len() + if mapped is Some {
        0
    } else {
        phdr_len(f)
    };
    assert(m.len() == table + data.len());
    assert forall|i: int| 0 <= i < 16 implies #[trigger] m[at + i] == ((f.ticks ^ f.entry) * 0x9E37_79B9_7F4A_7C15
        % 0x1_0000_0000_0000_0000 + i) % 0x1_0000_0000_0000_0000 / 0x2_0000_0000 % 0x100 by {
        assert(m[at + i] == random_bytes(f)[i]);
        lemma_random_byte(f, i as u64);
    }
}

proof fn lemma_random_byte(f: ProgramFacts, i: u64)
    requires
        i < 16,
    ensures
        random_byte(f, i) == ((f.ticks ^ f.entry) * 0x9E37_79B9_7F4A_7C15 % 0x1_0000_0000_0000_0000 + i)
            % 0x1_0000_0000_0000_0000 / 0x2_0000_0000 % 0x100,
{
    let s = f.ticks ^ f.entry;
    let x = s.wrapping_mul(0x9E37_79B9_7F4A_7C15);
    assert(x as int == s * 0x9E37_79B9_7F4A_7C15 % 0x1_0000_0000_0000_0000);
    let y = x.wrapping_add(i);
    assert(y as int == (x + i) % 0x1_0000_0000_0000_0000);
}

} // verus!
