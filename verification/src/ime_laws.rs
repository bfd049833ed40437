//! How romaji is read: each spelling of the kana, doubled consonants, the
//! syllabic n, and the dictionary.

use crate::ime::{
    applied, candidates_for, dictionary, fed, kana_at, kana_from, kana_index, law_conversion_replaces_romaji,
    law_cycling_replaces_candidate, syllabic_n, syllable, vowel, Composition, DICT, KANA_TABLE,
};
use crate::keyboard::Event;
use vstd::prelude::*;

verus! {

// ---------------------------------------------------------------------
// Reading on behind a prefix
// ---------------------------------------------------------------------

/// The kana of romaji.
pub open spec fn kana(s: Seq<char>) -> Seq<char> {
    kana_from(s, 0)
}

proof fn lemma_kana_at_shift(a: Seq<char>, s: Seq<char>, i: int, n: int)
    requires
        0 <= i,
        0 <= n,
    ensures
        kana_at(a + s, a.len() + i, n) == kana_at(s, i, n),
{
    if i + n <= s.len() {
        assert((a + s).subrange(a.len() + i, a.len() + i + n) =~= s.subrange(i, i + n));
    }
}

/// What stands before a place does not change how the rest is read.
proof fn lemma_shift(a: Seq<char>, s: Seq<char>, i: int)
    requires
        0 <= i,
    ensures
        kana_from(a + s, a.len() + i) == kana_from(s, i),
    decreases (if i < s.len() { s.len() - i } else { 0 }),
{
    if i < s.len() {
        let t = a + s;
        let k = a.len() + i;
        assert(t[k] == s[i]);
        if i + 1 < s.len() {
            assert(t[k + 1] == s[i + 1]);
        }
        if i + 2 < s.len() {
            assert(t[k + 2] == s[i + 2]);
        }
        lemma_kana_at_shift(a, s, i, 1);
        lemma_kana_at_shift(a, s, i, 2);
        lemma_kana_at_shift(a, s, i, 3);
        assert(syllabic_n(t, k) == syllabic_n(s, i));
        assert(syllable(t, k) == syllable(s, i));
        lemma_shift(a, s, i + 1);
        lemma_shift(a, s, i + 2);
        lemma_shift(a, s, i + 3);
    }
}

/// A letter that stands for a vowel.
pub open spec fn is_vowel_letter(c: char) -> bool {
    c == 'a' || c == 'i' || c == 'u' || c == 'e' || c == 'o'
}

/// A doubled consonant is a small tsu before what its second half starts.
pub proof fn law_doubled_consonant(c: char, s: Seq<char>)
    requires
        c == 'k' || c == 's' || c == 't' || c == 'p' || c == 'g' || c == 'z' || c == 'd' || c == 'b',
        s.len() > 0,
        s[0] == c,
    ensures
        kana(seq![c] + s) == seq!['っ'] + kana(s),
{
    let t = seq![c] + s;
    assert(t[0] == c && t[1] == c);
    lemma_shift(seq![c], s, 0);
}

/// An n before a consonant, or at the end, is a syllable of its own, and so
/// is an nn; before a vowel the second n of an nn starts the next syllable.
pub proof fn law_syllabic_n(s: Seq<char>)
    ensures
        s.len() == 0 || !is_vowel_letter(s[0]) && s[0] != 'y' && s[0] != 'n' ==> kana(seq!['n'] + s) == seq!['ん']
            + kana(s),
        s.len() == 0 || !is_vowel_letter(s[0]) ==> kana(seq!['n', 'n'] + s) == seq!['ん'] + kana(s),
        s.len() > 0 && is_vowel_letter(s[0]) ==> kana(seq!['n', 'n'] + s) == seq!['ん'] + kana(seq!['n'] + s),
{
    let one = seq!['n'];
    let two = seq!['n', 'n'];
    lemma_shift(one, s, 0);
    lemma_shift(two, s, 0);
    let t = one + s;
    assert(t[0] == 'n');
    let u = two + s;
    assert(u[0] == 'n' && u[1] == 'n');
    if s.len() > 0 {
        assert(t[1] == s[0] && u[2] == s[0]);
    }
    assert(u =~= one + t);
    lemma_shift(one, t, 0);
}

// ---------------------------------------------------------------------
// The spellings
// ---------------------------------------------------------------------

/// A number for each short run of letters.
spec fn code(r: Seq<char>) -> int {
    if r.len() == 1 {
        r[0] as int
    } else if r.len() == 2 {
        r[0] as int + r[1] as int * 1000
    } else {
        r[0] as int + r[1] as int * 1000 + r[2] as int * 1000000
    }
}

/// The place of a spelling in the table.
spec fn place(c: int) -> int {
    if place_in_0(c) >= 0 {
        place_in_0(c)
    } else if place_in_1(c) >= 0 {
        place_in_1(c)
    } else if place_in_2(c) >= 0 {
        place_in_2(c)
    } else if place_in_3(c) >= 0 {
        place_in_3(c)
    } else if place_in_4(c) >= 0 {
        place_in_4(c)
    } else if place_in_5(c) >= 0 {
        place_in_5(c)
    } else if place_in_6(c) >= 0 {
        place_in_6(c)
    } else if place_in_7(c) >= 0 {
        place_in_7(c)
    } else if place_in_8(c) >= 0 {
        place_in_8(c)
    } else if place_in_9(c) >= 0 {
        place_in_9(c)
    } else {
        -1
    }
}

spec fn place_in_0(c: int) -> int {
    if c == 97121107 {
        0
    } else if c == 117121107 {
        1
    } else if c == 111121107 {
        2
    } else if c == 97104115 {
        3
    } else if c == 117104115 {
        4
    } else if c == 111104115 {
        5
    } else if c == 97104099 {
        6
    } else if c == 117104099 {
        7
    } else if c == 111104099 {
        8
    } else if c == 97121110 {
        9
    } else {
        -1
    }
}

spec fn place_in_1(c: int) -> int {
    if c == 117121110 {
        10
    } else if c == 111121110 {
        11
    } else if c == 97121104 {
        12
    } else if c == 117121104 {
        13
    } else if c == 111121104 {
        14
    } else if c == 97121109 {
        15
    } else if c == 117121109 {
        16
    } else if c == 111121109 {
        17
    } else if c == 97121114 {
        18
    } else if c == 117121114 {
        19
    } else {
        -1
    }
}

spec fn place_in_2(c: int) -> int {
    if c == 111121114 {
        20
    } else if c == 97121103 {
        21
    } else if c == 117121103 {
        22
    } else if c == 111121103 {
        23
    } else if c == 97121098 {
        24
    } else if c == 117121098 {
        25
    } else if c == 111121098 {
        26
    } else if c == 97121112 {
        27
    } else if c == 117121112 {
        28
    } else if c == 111121112 {
        29
    } else {
        -1
    }
}

spec fn place_in_3(c: int) -> int {
    if c == 105104115 {
        30
    } else if c == 105104099 {
        31
    } else if c == 117115116 {
        32
    } else if c == 97107 {
        33
    } else if c == 105107 {
        34
    } else if c == 117107 {
        35
    } else if c == 101107 {
        36
    } else if c == 111107 {
        37
    } else if c == 97115 {
        38
    } else if c == 117115 {
        39
    } else {
        -1
    }
}

spec fn place_in_4(c: int) -> int {
    if c == 101115 {
        40
    } else if c == 111115 {
        41
    } else if c == 97116 {
        42
    } else if c == 101116 {
        43
    } else if c == 111116 {
        44
    } else if c == 97110 {
        45
    } else if c == 105110 {
        46
    } else if c == 117110 {
        47
    } else if c == 101110 {
        48
    } else if c == 111110 {
        49
    } else {
        -1
    }
}

spec fn place_in_5(c: int) -> int {
    if c == 97104 {
        50
    } else if c == 105104 {
        51
    } else if c == 101104 {
        52
    } else if c == 111104 {
        53
    } else if c == 117102 {
        54
    } else if c == 97109 {
        55
    } else if c == 105109 {
        56
    } else if c == 117109 {
        57
    } else if c == 101109 {
        58
    } else if c == 111109 {
        59
    } else {
        -1
    }
}

spec fn place_in_6(c: int) -> int {
    if c == 97121 {
        60
    } else if c == 117121 {
        61
    } else if c == 111121 {
        62
    } else if c == 97114 {
        63
    } else if c == 105114 {
        64
    } else if c == 117114 {
        65
    } else if c == 101114 {
        66
    } else if c == 111114 {
        67
    } else if c == 97119 {
        68
    } else if c == 111119 {
        69
    } else {
        -1
    }
}

spec fn place_in_7(c: int) -> int {
    if c == 97103 {
        70
    } else if c == 105103 {
        71
    } else if c == 117103 {
        72
    } else if c == 101103 {
        73
    } else if c == 111103 {
        74
    } else if c == 97122 {
        75
    } else if c == 105106 {
        76
    } else if c == 117122 {
        77
    } else if c == 101122 {
        78
    } else if c == 111122 {
        79
    } else {
        -1
    }
}

spec fn place_in_8(c: int) -> int {
    if c == 97100 {
        80
    } else if c == 105100 {
        81
    } else if c == 117100 {
        82
    } else if c == 101100 {
        83
    } else if c == 111100 {
        84
    } else if c == 97098 {
        85
    } else if c == 105098 {
        86
    } else if c == 117098 {
        87
    } else if c == 101098 {
        88
    } else if c == 111098 {
        89
    } else {
        -1
    }
}

spec fn place_in_9(c: int) -> int {
    if c == 97112 {
        90
    } else if c == 105112 {
        91
    } else if c == 117112 {
        92
    } else if c == 101112 {
        93
    } else if c == 111112 {
        94
    } else if c == 97 {
        95
    } else if c == 105 {
        96
    } else if c == 117 {
        97
    } else if c == 101 {
        98
    } else if c == 111 {
        99
    } else {
        -1
    }
}

/// How the table's spellings look: three letters with a vowel at the end
/// alone, then two, then the vowels; and where each stands.
spec fn spelled(r: Seq<char>, j: int) -> bool {
    &&& place(code(r)) == j
    &&& forall|i: int| 0 <= i < r.len() ==> 'a' <= #[trigger] r[i] <= 'z'
    &&& j < 33 ==> r.len() == 3 && !vowel(r[0]) && !vowel(r[1]) && vowel(r[2]) && r[0] != r[1] && (r[0] == 'n' ==> r[1]
        == 'y')
    &&& 33 <= j < 95 ==> r.len() == 2 && !vowel(r[0]) && vowel(r[1])
    &&& 95 <= j ==> r.len() == 1 && vowel(r[0])
}

proof fn lemma_spelled_0(j: int)
    requires
        0 <= j < 10,
    ensures
        spelled(KANA_TABLE@[j].0@, j),
{
    if j == 0 {
        reveal_strlit("kya");
        assert(KANA_TABLE@[0].0@ =~= seq!['k', 'y', 'a']);
    } else if j == 1 {
        reveal_strlit("kyu");
        assert(KANA_TABLE@[1].0@ =~= seq!['k', 'y', 'u']);
    } else if j == 2 {
        reveal_strlit("kyo");
        assert(KANA_TABLE@[2].0@ =~= seq!['k', 'y', 'o']);
    } else if j == 3 {
        reveal_strlit("sha");
        assert(KANA_TABLE@[3].0@ =~= seq!['s', 'h', 'a']);
    } else if j == 4 {
        reveal_strlit("shu");
        assert(KANA_TABLE@[4].0@ =~= seq!['s', 'h', 'u']);
    } else if j == 5 {
        reveal_strlit("sho");
        assert(KANA_TABLE@[5].0@ =~= seq!['s', 'h', 'o']);
    } else if j == 6 {
        reveal_strlit("cha");
        assert(KANA_TABLE@[6].0@ =~= seq!['c', 'h', 'a']);
    } else if j == 7 {
        reveal_strlit("chu");
        assert(KANA_TABLE@[7].0@ =~= seq!['c', 'h', 'u']);
    } else if j == 8 {
        reveal_strlit("cho");
        assert(KANA_TABLE@[8].0@ =~= seq!['c', 'h', 'o']);
    } else {
        reveal_strlit("nya");
        assert(KANA_TABLE@[9].0@ =~= seq!['n', 'y', 'a']);
    }
}

proof fn lemma_spelled_1(j: int)
    requires
        10 <= j < 20,
    ensures
        spelled(KANA_TABLE@[j].0@, j),
{
    if j == 10 {
        reveal_strlit("nyu");
        assert(KANA_TABLE@[10].0@ =~= seq!['n', 'y', 'u']);
    } else if j == 11 {
        reveal_strlit("nyo");
        assert(KANA_TABLE@[11].0@ =~= seq!['n', 'y', 'o']);
    } else if j == 12 {
        reveal_strlit("hya");
        assert(KANA_TABLE@[12].0@ =~= seq!['h', 'y', 'a']);
    } else if j == 13 {
        reveal_strlit("hyu");
        assert(KANA_TABLE@[13].0@ =~= seq!['h', 'y', 'u']);
    } else if j == 14 {
        reveal_strlit("hyo");
        assert(KANA_TABLE@[14].0@ =~= seq!['h', 'y', 'o']);
    } else if j == 15 {
        reveal_strlit("mya");
        assert(KANA_TABLE@[15].0@ =~= seq!['m', 'y', 'a']);
    } else if j == 16 {
        reveal_strlit("myu");
        assert(KANA_TABLE@[16].0@ =~= seq!['m', 'y', 'u']);
    } else if j == 17 {
        reveal_strlit("myo");
        assert(KANA_TABLE@[17].0@ =~= seq!['m', 'y', 'o']);
    } else if j == 18 {
        reveal_strlit("rya");
        assert(KANA_TABLE@[18].0@ =~= seq!['r', 'y', 'a']);
    } else {
        reveal_strlit("ryu");
        assert(KANA_TABLE@[19].0@ =~= seq!['r', 'y', 'u']);
    }
}

proof fn lemma_spelled_2(j: int)
    requires
        20 <= j < 30,
    ensures
        spelled(KANA_TABLE@[j].0@, j),
{
    if j == 20 {
        reveal_strlit("ryo");
        assert(KANA_TABLE@[20].0@ =~= seq!['r', 'y', 'o']);
    } else if j == 21 {
        reveal_strlit("gya");
        assert(KANA_TABLE@[21].0@ =~= seq!['g', 'y', 'a']);
    } else if j == 22 {
        reveal_strlit("gyu");
        assert(KANA_TABLE@[22].0@ =~= seq!['g', 'y', 'u']);
    } else if j == 23 {
        reveal_strlit("gyo");
        assert(KANA_TABLE@[23].0@ =~= seq!['g', 'y', 'o']);
    } else if j == 24 {
        reveal_strlit("bya");
        assert(KANA_TABLE@[24].0@ =~= seq!['b', 'y', 'a']);
    } else if j == 25 {
        reveal_strlit("byu");
        assert(KANA_TABLE@[25].0@ =~= seq!['b', 'y', 'u']);
    } else if j == 26 {
        reveal_strlit("byo");
        assert(KANA_TABLE@[26].0@ =~= seq!['b', 'y', 'o']);
    } else if j == 27 {
        reveal_strlit("pya");
        assert(KANA_TABLE@[27].0@ =~= seq!['p', 'y', 'a']);
    } else if j == 28 {
        reveal_strlit("pyu");
        assert(KANA_TABLE@[28].0@ =~= seq!['p', 'y', 'u']);
    } else {
        reveal_strlit("pyo");
        assert(KANA_TABLE@[29].0@ =~= seq!['p', 'y', 'o']);
    }
}

proof fn lemma_spelled_3(j: int)
    requires
        30 <= j < 40,
    ensures
        spelled(KANA_TABLE@[j].0@, j),
{
    if j == 30 {
        reveal_strlit("shi");
        assert(KANA_TABLE@[30].0@ =~= seq!['s', 'h', 'i']);
    } else if j == 31 {
        reveal_strlit("chi");
        assert(KANA_TABLE@[31].0@ =~= seq!['c', 'h', 'i']);
    } else if j == 32 {
        reveal_strlit("tsu");
        assert(KANA_TABLE@[32].0@ =~= seq!['t', 's', 'u']);
    } else if j == 33 {
        reveal_strlit("ka");
        assert(KANA_TABLE@[33].0@ =~= seq!['k', 'a']);
    } else if j == 34 {
        reveal_strlit("ki");
        assert(KANA_TABLE@[34].0@ =~= seq!['k', 'i']);
    } else if j == 35 {
        reveal_strlit("ku");
        assert(KANA_TABLE@[35].0@ =~= seq!['k', 'u']);
    } else if j == 36 {
        reveal_strlit("ke");
        assert(KANA_TABLE@[36].0@ =~= seq!['k', 'e']);
    } else if j == 37 {
        reveal_strlit("ko");
        assert(KANA_TABLE@[37].0@ =~= seq!['k', 'o']);
    } else if j == 38 {
        reveal_strlit("sa");
        assert(KANA_TABLE@[38].0@ =~= seq!['s', 'a']);
    } else {
        reveal_strlit("su");
        assert(KANA_TABLE@[39].0@ =~= seq!['s', 'u']);
    }
}

proof fn lemma_spelled_4(j: int)
    requires
        40 <= j < 50,
    ensures
        spelled(KANA_TABLE@[j].0@, j),
{
    if j == 40 {
        reveal_strlit("se");
        assert(KANA_TABLE@[40].0@ =~= seq!['s', 'e']);
    } else if j == 41 {
        reveal_strlit("so");
        assert(KANA_TABLE@[41].0@ =~= seq!['s', 'o']);
    } else if j == 42 {
        reveal_strlit("ta");
        assert(KANA_TABLE@[42].0@ =~= seq!['t', 'a']);
    } else if j == 43 {
        reveal_strlit("te");
        assert(KANA_TABLE@[43].0@ =~= seq!['t', 'e']);
    } else if j == 44 {
        reveal_strlit("to");
        assert(KANA_TABLE@[44].0@ =~= seq!['t', 'o']);
    } else if j == 45 {
        reveal_strlit("na");
        assert(KANA_TABLE@[45].0@ =~= seq!['n', 'a']);
    } else if j == 46 {
        reveal_strlit("ni");
        assert(KANA_TABLE@[46].0@ =~= seq!['n', 'i']);
    } else if j == 47 {
        reveal_strlit("nu");
        assert(KANA_TABLE@[47].0@ =~= seq!['n', 'u']);
    } else if j == 48 {
        reveal_strlit("ne");
        assert(KANA_TABLE@[48].0@ =~= seq!['n', 'e']);
    } else {
        reveal_strlit("no");
        assert(KANA_TABLE@[49].0@ =~= seq!['n', 'o']);
    }
}

proof fn lemma_spelled_5(j: int)
    requires
        50 <= j < 60,
    ensures
        spelled(KANA_TABLE@[j].0@, j),
{
    if j == 50 {
        reveal_strlit("ha");
        assert(KANA_TABLE@[50].0@ =~= seq!['h', 'a']);
    } else if j == 51 {
        reveal_strlit("hi");
        assert(KANA_TABLE@[51].0@ =~= seq!['h', 'i']);
    } else if j == 52 {
        reveal_strlit("he");
        assert(KANA_TABLE@[52].0@ =~= seq!['h', 'e']);
    } else if j == 53 {
        reveal_strlit("ho");
        assert(KANA_TABLE@[53].0@ =~= seq!['h', 'o']);
    } else if j == 54 {
        reveal_strlit("fu");
        assert(KANA_TABLE@[54].0@ =~= seq!['f', 'u']);
    } else if j == 55 {
        reveal_strlit("ma");
        assert(KANA_TABLE@[55].0@ =~= seq!['m', 'a']);
    } else if j == 56 {
        reveal_strlit("mi");
        assert(KANA_TABLE@[56].0@ =~= seq!['m', 'i']);
    } else if j == 57 {
        reveal_strlit("mu");
        assert(KANA_TABLE@[57].0@ =~= seq!['m', 'u']);
    } else if j == 58 {
        reveal_strlit("me");
        assert(KANA_TABLE@[58].0@ =~= seq!['m', 'e']);
    } else {
        reveal_strlit("mo");
        assert(KANA_TABLE@[59].0@ =~= seq!['m', 'o']);
    }
}

proof fn lemma_spelled_6(j: int)
    requires
        60 <= j < 70,
    ensures
        spelled(KANA_TABLE@[j].0@, j),
{
    if j == 60 {
        reveal_strlit("ya");
        assert(KANA_TABLE@[60].0@ =~= seq!['y', 'a']);
    } else if j == 61 {
        reveal_strlit("yu");
        assert(KANA_TABLE@[61].0@ =~= seq!['y', 'u']);
    } else if j == 62 {
        reveal_strlit("yo");
        assert(KANA_TABLE@[62].0@ =~= seq!['y', 'o']);
    } else if j == 63 {
        reveal_strlit("ra");
        assert(KANA_TABLE@[63].0@ =~= seq!['r', 'a']);
    } else if j == 64 {
        reveal_strlit("ri");
        assert(KANA_TABLE@[64].0@ =~= seq!['r', 'i']);
    } else if j == 65 {
        reveal_strlit("ru");
        assert(KANA_TABLE@[65].0@ =~= seq!['r', 'u']);
    } else if j == 66 {
        reveal_strlit("re");
        assert(KANA_TABLE@[66].0@ =~= seq!['r', 'e']);
    } else if j == 67 {
        reveal_strlit("ro");
        assert(KANA_TABLE@[67].0@ =~= seq!['r', 'o']);
    } else if j == 68 {
        reveal_strlit("wa");
        assert(KANA_TABLE@[68].0@ =~= seq!['w', 'a']);
    } else {
        reveal_strlit("wo");
        assert(KANA_TABLE@[69].0@ =~= seq!['w', 'o']);
    }
}

proof fn lemma_spelled_7(j: int)
    requires
        70 <= j < 80,
    ensures
        spelled(KANA_TABLE@[j].0@, j),
{
    if j == 70 {
        reveal_strlit("ga");
        assert(KANA_TABLE@[70].0@ =~= seq!['g', 'a']);
    } else if j == 71 {
        reveal_strlit("gi");
        assert(KANA_TABLE@[71].0@ =~= seq!['g', 'i']);
    } else if j == 72 {
        reveal_strlit("gu");
        assert(KANA_TABLE@[72].0@ =~= seq!['g', 'u']);
    } else if j == 73 {
        reveal_strlit("ge");
        assert(KANA_TABLE@[73].0@ =~= seq!['g', 'e']);
    } else if j == 74 {
        reveal_strlit("go");
        assert(KANA_TABLE@[74].0@ =~= seq!['g', 'o']);
    } else if j == 75 {
        reveal_strlit("za");
        assert(KANA_TABLE@[75].0@ =~= seq!['z', 'a']);
    } else if j == 76 {
        reveal_strlit("ji");
        assert(KANA_TABLE@[76].0@ =~= seq!['j', 'i']);
    } else if j == 77 {
        reveal_strlit("zu");
        assert(KANA_TABLE@[77].0@ =~= seq!['z', 'u']);
    } else if j == 78 {
        reveal_strlit("ze");
        assert(KANA_TABLE@[78].0@ =~= seq!['z', 'e']);
    } else {
        reveal_strlit("zo");
        assert(KANA_TABLE@[79].0@ =~= seq!['z', 'o']);
    }
}

proof fn lemma_spelled_8(j: int)
    requires
        80 <= j < 90,
    ensures
        spelled(KANA_TABLE@[j].0@, j),
{
    if j == 80 {
        reveal_strlit("da");
        assert(KANA_TABLE@[80].0@ =~= seq!['d', 'a']);
    } else if j == 81 {
        reveal_strlit("di");
        assert(KANA_TABLE@[81].0@ =~= seq!['d', 'i']);
    } else if j == 82 {
        reveal_strlit("du");
        assert(KANA_TABLE@[82].0@ =~= seq!['d', 'u']);
    } else if j == 83 {
        reveal_strlit("de");
        assert(KANA_TABLE@[83].0@ =~= seq!['d', 'e']);
    } else if j == 84 {
        reveal_strlit("do");
        assert(KANA_TABLE@[84].0@ =~= seq!['d', 'o']);
    } else if j == 85 {
        reveal_strlit("ba");
        assert(KANA_TABLE@[85].0@ =~= seq!['b', 'a']);
    } else if j == 86 {
        reveal_strlit("bi");
        assert(KANA_TABLE@[86].0@ =~= seq!['b', 'i']);
    } else if j == 87 {
        reveal_strlit("bu");
        assert(KANA_TABLE@[87].0@ =~= seq!['b', 'u']);
    } else if j == 88 {
        reveal_strlit("be");
        assert(KANA_TABLE@[88].0@ =~= seq!['b', 'e']);
    } else {
        reveal_strlit("bo");
        assert(KANA_TABLE@[89].0@ =~= seq!['b', 'o']);
    }
}

proof fn lemma_spelled_9(j: int)
    requires
        90 <= j < 100,
    ensures
        spelled(KANA_TABLE@[j].0@, j),
{
    if j == 90 {
        reveal_strlit("pa");
        assert(KANA_TABLE@[90].0@ =~= seq!['p', 'a']);
    } else if j == 91 {
        reveal_strlit("pi");
        assert(KANA_TABLE@[91].0@ =~= seq!['p', 'i']);
    } else if j == 92 {
        reveal_strlit("pu");
        assert(KANA_TABLE@[92].0@ =~= seq!['p', 'u']);
    } else if j == 93 {
        reveal_strlit("pe");
        assert(KANA_TABLE@[93].0@ =~= seq!['p', 'e']);
    } else if j == 94 {
        reveal_strlit("po");
        assert(KANA_TABLE@[94].0@ =~= seq!['p', 'o']);
    } else if j == 95 {
        reveal_strlit("a");
        assert(KANA_TABLE@[95].0@ =~= seq!['a']);
    } else if j == 96 {
        reveal_strlit("i");
        assert(KANA_TABLE@[96].0@ =~= seq!['i']);
    } else if j == 97 {
        reveal_strlit("u");
        assert(KANA_TABLE@[97].0@ =~= seq!['u']);
    } else if j == 98 {
        reveal_strlit("e");
        assert(KANA_TABLE@[98].0@ =~= seq!['e']);
    } else {
        reveal_strlit("o");
        assert(KANA_TABLE@[99].0@ =~= seq!['o']);
    }
}

proof fn lemma_spelled(j: int)
    requires
        0 <= j < 100,
    ensures
        spelled(KANA_TABLE@[j].0@, j),
{
    if j < 10 {
        lemma_spelled_0(j);
    } else if j < 20 {
        lemma_spelled_1(j);
    } else if j < 30 {
        lemma_spelled_2(j);
    } else if j < 40 {
        lemma_spelled_3(j);
    } else if j < 50 {
        lemma_spelled_4(j);
    } else if j < 60 {
        lemma_spelled_5(j);
    } else if j < 70 {
        lemma_spelled_6(j);
    } else if j < 80 {
        lemma_spelled_7(j);
    } else if j < 90 {
        lemma_spelled_8(j);
    } else {
        lemma_spelled_9(j);
    }
}

/// The search finds the first entry, and only entries.
proof fn lemma_index(sub: Seq<char>, lo: int)
    requires
        0 <= lo <= 100,
    ensures
        lo <= kana_index(sub, lo) <= 100,
        kana_index(sub, lo) < 100 ==> KANA_TABLE@[kana_index(sub, lo)].0@ == sub,
        kana_index(sub, lo) == 100 ==> forall|i: int| lo <= i < 100 ==> KANA_TABLE@[i].0@ != sub,
    decreases 100 - lo,
{
    if lo < 100 {
        lemma_index(sub, lo + 1);
    }
}

proof fn lemma_found(j: int)
    requires
        0 <= j < 100,
    ensures
        kana_index(KANA_TABLE@[j].0@, 0) == j,
{
    let r = KANA_TABLE@[j].0@;
    lemma_index(r, 0);
    lemma_spelled(j);
    let k = kana_index(r, 0);
    if k < 100 {
        lemma_spelled(k);
    }
}

/// Whatever follows it, an entry of the table is read as its kana.
proof fn lemma_entry(j: int, s: Seq<char>)
    requires
        0 <= j < 100,
    ensures
        kana(KANA_TABLE@[j].0@ + s) == KANA_TABLE@[j].1@ + kana(s),
{
    let r = KANA_TABLE@[j].0@;
    let t = r + s;
    lemma_spelled(j);
    lemma_found(j);
    lemma_shift(r, s, 0);
    let n = r.len() as int;
    assert(t.subrange(0, n) =~= r);
    assert(kana_at(t, 0, n) == Some(KANA_TABLE@[j].1@));
    assert(t[0] == r[0]);
    if n > 1 {
        assert(t[1] == r[1]);
    }
    if n < 3 && t.len() >= 3 {
        let sub = t.subrange(0, 3);
        lemma_index(sub, 0);
        let k = kana_index(sub, 0);
        if k < 100 {
            lemma_spelled(k);
            assert(sub[0] == t[0] && sub[1] == t[1]);
        }
        assert(kana_at(t, 0, 3) is None);
    }
    if n < 2 && t.len() >= 2 {
        let sub = t.subrange(0, 2);
        lemma_index(sub, 0);
        let k = kana_index(sub, 0);
        if k < 100 {
            lemma_spelled(k);
            assert(sub[0] == t[0]);
        }
        assert(kana_at(t, 0, 2) is None);
    }
    assert(syllabic_n(t, 0) is None);
    assert(syllable(t, 0) == (KANA_TABLE@[j].1@, n));
}

/// Any character but a small letter stands for itself.
pub proof fn law_other_characters_stay(c: char, s: Seq<char>)
    requires
        c < 'a' || c > 'z',
    ensures
        kana(seq![c] + s) == seq![c] + kana(s),
{
    let t = seq![c] + s;
    lemma_shift(seq![c], s, 0);
    assert(t[0] == c);
    lemma_starts_none(t, 1);
    lemma_starts_none(t, 2);
    lemma_starts_none(t, 3);
    assert(syllable(t, 0) == (seq![c], 1int));
}

proof fn lemma_starts_none(t: Seq<char>, n: int)
    requires
        0 < n,
        t.len() > 0,
        t[0] < 'a' || t[0] > 'z',
    ensures
        kana_at(t, 0, n) is None,
{
    if n <= t.len() {
        let sub = t.subrange(0, n);
        lemma_index(sub, 0);
        let k = kana_index(sub, 0);
        if k < 100 {
            lemma_spelled(k);
            assert(sub[0] == t[0]);
        }
    }
}

/// The contracted syllables. Whatever follows, the spelling gives the kana.
pub proof fn law_digraphs(s: Seq<char>)
    ensures
        kana("kya"@ + s) == "きゃ"@ + kana(s),
        kana("kyu"@ + s) == "きゅ"@ + kana(s),
        kana("kyo"@ + s) == "きょ"@ + kana(s),
        kana("sha"@ + s) == "しゃ"@ + kana(s),
        kana("shu"@ + s) == "しゅ"@ + kana(s),
        kana("sho"@ + s) == "しょ"@ + kana(s),
        kana("cha"@ + s) == "ちゃ"@ + kana(s),
        kana("chu"@ + s) == "ちゅ"@ + kana(s),
        kana("cho"@ + s) == "ちょ"@ + kana(s),
        kana("nya"@ + s) == "にゃ"@ + kana(s),
        kana("nyu"@ + s) == "にゅ"@ + kana(s),
        kana("nyo"@ + s) == "にょ"@ + kana(s),
        kana("hya"@ + s) == "ひゃ"@ + kana(s),
        kana("hyu"@ + s) == "ひゅ"@ + kana(s),
        kana("hyo"@ + s) == "ひょ"@ + kana(s),
        kana("mya"@ + s) == "みゃ"@ + kana(s),
        kana("myu"@ + s) == "みゅ"@ + kana(s),
        kana("myo"@ + s) == "みょ"@ + kana(s),
        kana("rya"@ + s) == "りゃ"@ + kana(s),
        kana("ryu"@ + s) == "りゅ"@ + kana(s),
        kana("ryo"@ + s) == "りょ"@ + kana(s),
        kana("gya"@ + s) == "ぎゃ"@ + kana(s),
        kana("gyu"@ + s) == "ぎゅ"@ + kana(s),
        kana("gyo"@ + s) == "ぎょ"@ + kana(s),
        kana("bya"@ + s) == "びゃ"@ + kana(s),
        kana("byu"@ + s) == "びゅ"@ + kana(s),
        kana("byo"@ + s) == "びょ"@ + kana(s),
        kana("pya"@ + s) == "ぴゃ"@ + kana(s),
        kana("pyu"@ + s) == "ぴゅ"@ + kana(s),
        kana("pyo"@ + s) == "ぴょ"@ + kana(s),
{
    lemma_entry(0, s);
    lemma_entry(1, s);
    lemma_entry(2, s);
    lemma_entry(3, s);
    lemma_entry(4, s);
    lemma_entry(5, s);
    lemma_entry(6, s);
    lemma_entry(7, s);
    lemma_entry(8, s);
    lemma_entry(9, s);
    lemma_entry(10, s);
    lemma_entry(11, s);
    lemma_entry(12, s);
    lemma_entry(13, s);
    lemma_entry(14, s);
    lemma_entry(15, s);
    lemma_entry(16, s);
    lemma_entry(17, s);
    lemma_entry(18, s);
    lemma_entry(19, s);
    lemma_entry(20, s);
    lemma_entry(21, s);
    lemma_entry(22, s);
    lemma_entry(23, s);
    lemma_entry(24, s);
    lemma_entry(25, s);
    lemma_entry(26, s);
    lemma_entry(27, s);
    lemma_entry(28, s);
    lemma_entry(29, s);
}

/// The rows from k to n. Whatever follows, the spelling gives the kana.
pub proof fn law_first_rows(s: Seq<char>)
    ensures
        kana("shi"@ + s) == "し"@ + kana(s),
        kana("chi"@ + s) == "ち"@ + kana(s),
        kana("tsu"@ + s) == "つ"@ + kana(s),
        kana("ka"@ + s) == "か"@ + kana(s),
        kana("ki"@ + s) == "き"@ + kana(s),
        kana("ku"@ + s) == "く"@ + kana(s),
        kana("ke"@ + s) == "け"@ + kana(s),
        kana("ko"@ + s) == "こ"@ + kana(s),
        kana("sa"@ + s) == "さ"@ + kana(s),
        kana("su"@ + s) == "す"@ + kana(s),
        kana("se"@ + s) == "せ"@ + kana(s),
        kana("so"@ + s) == "そ"@ + kana(s),
        kana("ta"@ + s) == "た"@ + kana(s),
        kana("te"@ + s) == "て"@ + kana(s),
        kana("to"@ + s) == "と"@ + kana(s),
        kana("na"@ + s) == "な"@ + kana(s),
        kana("ni"@ + s) == "に"@ + kana(s),
        kana("nu"@ + s) == "ぬ"@ + kana(s),
        kana("ne"@ + s) == "ね"@ + kana(s),
        kana("no"@ + s) == "の"@ + kana(s),
{
    lemma_entry(30, s);
    lemma_entry(31, s);
    lemma_entry(32, s);
    lemma_entry(33, s);
    lemma_entry(34, s);
    lemma_entry(35, s);
    lemma_entry(36, s);
    lemma_entry(37, s);
    lemma_entry(38, s);
    lemma_entry(39, s);
    lemma_entry(40, s);
    lemma_entry(41, s);
    lemma_entry(42, s);
    lemma_entry(43, s);
    lemma_entry(44, s);
    lemma_entry(45, s);
    lemma_entry(46, s);
    lemma_entry(47, s);
    lemma_entry(48, s);
    lemma_entry(49, s);
}

/// The rows from h to w. Whatever follows, the spelling gives the kana.
pub proof fn law_middle_rows(s: Seq<char>)
    ensures
        kana("ha"@ + s) == "は"@ + kana(s),
        kana("hi"@ + s) == "ひ"@ + kana(s),
        kana("he"@ + s) == "へ"@ + kana(s),
        kana("ho"@ + s) == "ほ"@ + kana(s),
        kana("fu"@ + s) == "ふ"@ + kana(s),
        kana("ma"@ + s) == "ま"@ + kana(s),
        kana("mi"@ + s) == "み"@ + kana(s),
        kana("mu"@ + s) == "む"@ + kana(s),
        kana("me"@ + s) == "め"@ + kana(s),
        kana("mo"@ + s) == "も"@ + kana(s),
        kana("ya"@ + s) == "や"@ + kana(s),
        kana("yu"@ + s) == "ゆ"@ + kana(s),
        kana("yo"@ + s) == "よ"@ + kana(s),
        kana("ra"@ + s) == "ら"@ + kana(s),
        kana("ri"@ + s) == "り"@ + kana(s),
        kana("ru"@ + s) == "る"@ + kana(s),
        kana("re"@ + s) == "れ"@ + kana(s),
        kana("ro"@ + s) == "ろ"@ + kana(s),
        kana("wa"@ + s) == "わ"@ + kana(s),
        kana("wo"@ + s) == "を"@ + kana(s),
{
    lemma_entry(50, s);
    lemma_entry(51, s);
    lemma_entry(52, s);
    lemma_entry(53, s);
    lemma_entry(54, s);
    lemma_entry(55, s);
    lemma_entry(56, s);
    lemma_entry(57, s);
    lemma_entry(58, s);
    lemma_entry(59, s);
    lemma_entry(60, s);
    lemma_entry(61, s);
    lemma_entry(62, s);
    lemma_entry(63, s);
    lemma_entry(64, s);
    lemma_entry(65, s);
    lemma_entry(66, s);
    lemma_entry(67, s);
    lemma_entry(68, s);
    lemma_entry(69, s);
}

/// The voiced rows, and the vowels. Whatever follows, the spelling gives the kana.
pub proof fn law_voiced_rows(s: Seq<char>)
    ensures
        kana("ga"@ + s) == "が"@ + kana(s),
        kana("gi"@ + s) == "ぎ"@ + kana(s),
        kana("gu"@ + s) == "ぐ"@ + kana(s),
        kana("ge"@ + s) == "げ"@ + kana(s),
        kana("go"@ + s) == "ご"@ + kana(s),
        kana("za"@ + s) == "ざ"@ + kana(s),
        kana("ji"@ + s) == "じ"@ + kana(s),
        kana("zu"@ + s) == "ず"@ + kana(s),
        kana("ze"@ + s) == "ぜ"@ + kana(s),
        kana("zo"@ + s) == "ぞ"@ + kana(s),
        kana("da"@ + s) == "だ"@ + kana(s),
        kana("di"@ + s) == "ぢ"@ + kana(s),
        kana("du"@ + s) == "づ"@ + kana(s),
        kana("de"@ + s) == "で"@ + kana(s),
        kana("do"@ + s) == "ど"@ + kana(s),
        kana("ba"@ + s) == "ば"@ + kana(s),
        kana("bi"@ + s) == "び"@ + kana(s),
        kana("bu"@ + s) == "ぶ"@ + kana(s),
        kana("be"@ + s) == "べ"@ + kana(s),
        kana("bo"@ + s) == "ぼ"@ + kana(s),
        kana("pa"@ + s) == "ぱ"@ + kana(s),
        kana("pi"@ + s) == "ぴ"@ + kana(s),
        kana("pu"@ + s) == "ぷ"@ + kana(s),
        kana("pe"@ + s) == "ぺ"@ + kana(s),
        kana("po"@ + s) == "ぽ"@ + kana(s),
        kana("a"@ + s) == "あ"@ + kana(s),
        kana("i"@ + s) == "い"@ + kana(s),
        kana("u"@ + s) == "う"@ + kana(s),
        kana("e"@ + s) == "え"@ + kana(s),
        kana("o"@ + s) == "お"@ + kana(s),
{
    lemma_entry(70, s);
    lemma_entry(71, s);
    lemma_entry(72, s);
    lemma_entry(73, s);
    lemma_entry(74, s);
    lemma_entry(75, s);
    lemma_entry(76, s);
    lemma_entry(77, s);
    lemma_entry(78, s);
    lemma_entry(79, s);
    lemma_entry(80, s);
    lemma_entry(81, s);
    lemma_entry(82, s);
    lemma_entry(83, s);
    lemma_entry(84, s);
    lemma_entry(85, s);
    lemma_entry(86, s);
    lemma_entry(87, s);
    lemma_entry(88, s);
    lemma_entry(89, s);
    lemma_entry(90, s);
    lemma_entry(91, s);
    lemma_entry(92, s);
    lemma_entry(93, s);
    lemma_entry(94, s);
    lemma_entry(95, s);
    lemma_entry(96, s);
    lemma_entry(97, s);
    lemma_entry(98, s);
    lemma_entry(99, s);
}

/// Words with a doubled consonant.
pub proof fn law_doubled_in_words()
    ensures
        kana("kitte"@) == "きって"@,
        kana("zasshi"@) == "ざっし"@,
        kana("kippu"@) == "きっぷ"@,
        kana("settei"@) == "せってい"@,
{
    let e = Seq::<char>::empty();
    assert(kana(e) =~= e);
    reveal_strlit("kitte");
    reveal_strlit("きって");
    reveal_strlit("ki");
    reveal_strlit("き");
    lemma_entry(34, seq!['t', 't', 'e']);
    assert("ki"@ + seq!['t', 't', 'e'] =~= seq!['k', 'i', 't', 't', 'e']);
    assert(seq!['t', 't', 'e'] =~= seq!['t'] + seq!['t', 'e']);
    law_doubled_consonant('t', seq!['t', 'e']);
    reveal_strlit("te");
    reveal_strlit("て");
    lemma_entry(43, e);
    assert("te"@ + e =~= seq!['t', 'e']);
    assert("kitte"@ =~= seq!['k', 'i', 't', 't', 'e']);
    assert(kana("kitte"@) =~= "きって"@);
    reveal_strlit("zasshi");
    reveal_strlit("ざっし");
    reveal_strlit("za");
    reveal_strlit("ざ");
    lemma_entry(75, seq!['s', 's', 'h', 'i']);
    assert("za"@ + seq!['s', 's', 'h', 'i'] =~= seq!['z', 'a', 's', 's', 'h', 'i']);
    assert(seq!['s', 's', 'h', 'i'] =~= seq!['s'] + seq!['s', 'h', 'i']);
    law_doubled_consonant('s', seq!['s', 'h', 'i']);
    reveal_strlit("shi");
    reveal_strlit("し");
    lemma_entry(30, e);
    assert("shi"@ + e =~= seq!['s', 'h', 'i']);
    assert("zasshi"@ =~= seq!['z', 'a', 's', 's', 'h', 'i']);
    assert(kana("zasshi"@) =~= "ざっし"@);
    reveal_strlit("kippu");
    reveal_strlit("きっぷ");
    reveal_strlit("ki");
    reveal_strlit("き");
    lemma_entry(34, seq!['p', 'p', 'u']);
    assert("ki"@ + seq!['p', 'p', 'u'] =~= seq!['k', 'i', 'p', 'p', 'u']);
    assert(seq!['p', 'p', 'u'] =~= seq!['p'] + seq!['p', 'u']);
    law_doubled_consonant('p', seq!['p', 'u']);
    reveal_strlit("pu");
    reveal_strlit("ぷ");
    lemma_entry(92, e);
    assert("pu"@ + e =~= seq!['p', 'u']);
    assert("kippu"@ =~= seq!['k', 'i', 'p', 'p', 'u']);
    assert(kana("kippu"@) =~= "きっぷ"@);
    reveal_strlit("settei");
    reveal_strlit("せってい");
    reveal_strlit("se");
    reveal_strlit("せ");
    lemma_entry(40, seq!['t', 't', 'e', 'i']);
    assert("se"@ + seq!['t', 't', 'e', 'i'] =~= seq!['s', 'e', 't', 't', 'e', 'i']);
    assert(seq!['t', 't', 'e', 'i'] =~= seq!['t'] + seq!['t', 'e', 'i']);
    law_doubled_consonant('t', seq!['t', 'e', 'i']);
    reveal_strlit("te");
    reveal_strlit("て");
    lemma_entry(43, seq!['i']);
    assert("te"@ + seq!['i'] =~= seq!['t', 'e', 'i']);
    reveal_strlit("i");
    reveal_strlit("い");
    lemma_entry(96, e);
    assert("i"@ + e =~= seq!['i']);
    assert("settei"@ =~= seq!['s', 'e', 't', 't', 'e', 'i']);
    assert(kana("settei"@) =~= "せってい"@);
}

// ---------------------------------------------------------------------
// The dictionary
// ---------------------------------------------------------------------

proof fn lemma_offered(reading: Seq<char>, n: int, j: int)
    requires
        0 <= j < n <= 90,
        DICT@[j].0@ == reading,
    ensures
        dictionary(reading, n).contains(DICT@[j].1@),
    decreases n,
{
    let d = dictionary(reading, n);
    let before = dictionary(reading, n - 1);
    if j < n - 1 {
        lemma_offered(reading, n - 1, j);
        let k = choose|k: int| 0 <= k < before.len() && before[k] == DICT@[j].1@;
        assert(d[k] == before[k]);
    } else {
        assert(d[d.len() - 1] == DICT@[j].1@);
    }
}

proof fn lemma_from_dictionary(reading: Seq<char>, n: int, k: int) -> (j: int)
    requires
        0 <= n <= 90,
        0 <= k < dictionary(reading, n).len(),
    ensures
        0 <= j < n,
        DICT@[j].0@ == reading,
        DICT@[j].1@ == dictionary(reading, n)[k],
    decreases n,
{
    let d = dictionary(reading, n);
    let before = dictionary(reading, n - 1);
    if DICT@[n - 1].0@ == reading && k == d.len() - 1 {
        n - 1
    } else {
        lemma_from_dictionary(reading, n - 1, k)
    }
}

/// Each word of the dictionary is offered for its reading, and what is
/// offered before the kana itself is such a word.
pub proof fn law_dictionary_words_are_offered(j: int, reading: Seq<char>, k: int)
    requires
        0 <= j < DICT@.len(),
    ensures
        candidates_for(DICT@[j].0@).contains(DICT@[j].1@),
        0 <= k < candidates_for(reading).len() - 1 ==> exists|i: int|
            0 <= i < DICT@.len() && DICT@[i].0@ == reading && #[trigger] DICT@[i].1@ == candidates_for(reading)[k],
{
    let r = DICT@[j].0@;
    lemma_offered(r, 90, j);
    let d = dictionary(r, 90);
    let i = choose|i: int| 0 <= i < d.len() && d[i] == DICT@[j].1@;
    assert(candidates_for(r)[i] == d[i]);
    if 0 <= k < candidates_for(reading).len() - 1 {
        let i = lemma_from_dictionary(reading, 90, k);
        assert(DICT@[i].1@ == candidates_for(reading)[k]);
    }
}

// ---------------------------------------------------------------------
// Typing
// ---------------------------------------------------------------------

/// The input method after a run of keys, and what the editor holds before
/// the cursor if it held `doc`.
pub open spec fn after_keys(c: Composition, doc: Seq<char>, keys: Seq<Event>) -> (Composition, Seq<char>)
    decreases keys.len(),
{
    if keys.len() == 0 {
        (c, doc)
    } else {
        let (d, text) = after_keys(c, doc, keys.drop_last());
        let (e, out) = fed(d, keys.last());
        (e, applied(text, out.events))
    }
}

/// The keys of a word.
pub open spec fn keys_of(s: Seq<char>) -> Seq<Event>
    decreases s.len(),
{
    if s.len() == 0 {
        Seq::empty()
    } else {
        keys_of(s.drop_last()).push(Event::Char(s.last()))
    }
}

proof fn lemma_letters(c: Composition, doc: Seq<char>, s: Seq<char>)
    requires
        !c.composing,
        s.len() > 0,
        forall|i: int| 0 <= i < s.len() ==> 'a' <= #[trigger] s[i] <= 'z',
    ensures
        ({
            let (d, text) = after_keys(c, doc, keys_of(s));
            d.composing && d.romaji == s && d.candidates.len() == 0 && text == doc + s
        }),
    decreases s.len(),
{
    let b = s.drop_last();
    assert(keys_of(s).drop_last() =~= keys_of(b));
    assert(keys_of(s).last() == Event::Char(s.last()));
    let (d, text) = after_keys(c, doc, keys_of(b));
    assert('a' <= s[s.len() - 1] <= 'z');
    let (e, out) = fed(d, Event::Char(s.last()));
    reveal_with_fuel(applied, 2);
    assert(out.events.drop_last() =~= Seq::<Event>::empty());
    assert(applied(text, out.events) =~= text.push(s.last()));
    if b.len() > 0 {
        assert forall|i: int| 0 <= i < b.len() implies 'a' <= #[trigger] b[i] <= 'z' by {
            assert(b[i] == s[i]);
        }
        lemma_letters(c, doc, b);
        assert(b.push(s.last()) =~= s);
        assert((doc + b).push(s.last()) =~= doc + s);
    } else {
        assert(keys_of(b) =~= Seq::<Event>::empty());
        assert(e.romaji =~= s);
        assert(doc.push(s.last()) =~= doc + s);
    }
}

/// A word that is typed stands in the text letter by letter. Space behind it
/// puts the first candidate for its kana in its place, and each further
/// Space the next candidate in place of the one before, the first again
/// behind the last; a digit puts the candidate of that number there. Enter
/// leaves the text as it is and ends the composition.
pub proof fn law_word_is_converted(c: Composition, doc: Seq<char>, s: Seq<char>, digit: char)
    requires
        !c.composing,
        s.len() > 0,
        forall|i: int| 0 <= i < s.len() ==> 'a' <= #[trigger] s[i] <= 'z',
    ensures
        ({
            let cs = candidates_for(kana(s));
            let n = digit as u32 - '0' as u32;
            let (d0, t0) = after_keys(c, doc, keys_of(s));
            let (d1, t1) = after_keys(d0, t0, seq![Event::Char(' ')]);
            let (d2, t2) = after_keys(d1, t1, seq![Event::Char(' ')]);
            let (d3, t3) = after_keys(d1, t1, seq![Event::Char(digit)]);
            let (d4, t4) = after_keys(d1, t1, seq![Event::Enter]);
            &&& t0 == doc + s
            &&& t1 == doc + cs[0]
            &&& cs.len() > 1 ==> t2 == doc + cs[1]
            &&& cs.len() > 1 && 1 <= n <= 9 && n <= cs.len() ==> t3 == doc + cs[n - 1] && !d3.composing
            &&& t4 == t1 && !d4.composing
        }),
{
    let cs = candidates_for(kana(s));
    lemma_letters(c, doc, s);
    let (d0, t0) = after_keys(c, doc, keys_of(s));
    reveal_with_fuel(after_keys, 2);
    reveal_with_fuel(applied, 2);
    lemma_one_key(d0, t0, Event::Char(' '));
    law_conversion_replaces_romaji(d0, doc);
    let (d1, t1) = after_keys(d0, t0, seq![Event::Char(' ')]);
    assert(t1 == doc + cs[0]);
    lemma_one_key(d1, t1, Event::Char(' '));
    lemma_one_key(d1, t1, Event::Char(digit));
    lemma_one_key(d1, t1, Event::Enter);
    if cs.len() > 1 {
        assert(d1.inserted == cs[0]);
        law_cycling_replaces_candidate(d1, doc, digit);
    }
    let enter = fed(d1, Event::Enter).1.events;
    assert(enter.drop_last() =~= Seq::<Event>::empty());
}

proof fn lemma_one_key(c: Composition, doc: Seq<char>, e: Event)
    ensures
        after_keys(c, doc, seq![e]) == (fed(c, e).0, applied(doc, fed(c, e).1.events)),
{
    reveal_with_fuel(after_keys, 2);
    assert(seq![e].drop_last() =~= Seq::<Event>::empty());
    assert(seq![e].last() == e);
}

/// Backspace while romaji is typed takes the last letter out of the text and
/// out of the reading.
pub proof fn law_backspace_takes_a_letter(c: Composition, doc: Seq<char>)
    requires
        c.composing,
        c.candidates.len() == 0,
        c.romaji.len() > 0,
    ensures
        ({
            let (d, text) = after_keys(c, doc + c.romaji, seq![Event::Backspace]);
            &&& text == doc + c.romaji.drop_last()
            &&& d.romaji == c.romaji.drop_last()
            &&& d.composing == (c.romaji.len() > 1)
        }),
{
    lemma_one_key(c, doc + c.romaji, Event::Backspace);
    reveal_with_fuel(applied, 2);
    let out = fed(c, Event::Backspace).1.events;
    assert(out.drop_last() =~= Seq::<Event>::empty());
    assert((doc + c.romaji).drop_last() =~= doc + c.romaji.drop_last());
}

} // verus!
