//! Text as sequences of characters: decimal and hexadecimal numbers,
//! splitting into lines and words.

use vstd::prelude::*;
use vstd::utf8::{decode_utf8, valid_utf8};

verus! {

/// `String::push` appends the character.
pub assume_specification[ String::push ](s: &mut String, c: char)
    ensures
        final(s)@ == old(s)@.push(c),
;

/// What `String::from_utf8_lossy` makes of bytes.
pub uninterp spec fn utf8_lossy(bytes: Seq<u8>) -> Seq<char>;

/// The text that bytes are read as: what they encode, where they are UTF-8.
pub open spec fn lossy_text(bytes: Seq<u8>) -> Seq<char> {
    if valid_utf8(bytes) {
        decode_utf8(bytes)
    } else {
        utf8_lossy(bytes)
    }
}

/// Calls `String::from_utf8_lossy`: its result depends on the bytes alone,
/// and valid UTF-8 comes out as the text it encodes.
#[verifier::external_body]
pub(crate) fn lossy(bytes: &[u8]) -> (r: String)
    ensures
        r@ == utf8_lossy(bytes@),
        valid_utf8(bytes@) ==> r@ == decode_utf8(bytes@),
{
    String::from_utf8_lossy(bytes).into_owned()
}

/// Calls `str::from_utf8`: valid UTF-8 gives the text it encodes, anything
/// else nothing.
#[verifier::external_body]
pub(crate) fn utf8(bytes: &[u8]) -> (r: Option<String>)
    ensures
        r is Some <==> valid_utf8(bytes@),
        r matches Some(s) ==> s@ == decode_utf8(bytes@),
{
    match core::str::from_utf8(bytes) {
        Ok(s) => Some(s.to_string()),
        Err(_) => None,
    }
}

/// What `str::to_lowercase` makes of a text.
pub uninterp spec fn lowercase(s: Seq<char>) -> Seq<char>;

/// An ASCII letter in lower case; any other character as it is.
pub open spec fn ascii_lower(c: char) -> char {
    if 65 <= c as u32 <= 90 {
        ((c as u32 + 32) as u8) as char
    } else {
        c
    }
}

/// Calls `str::to_lowercase`: its result depends on the text alone, and in
/// ASCII text it lowers the letters one by one.
#[verifier::external_body]
pub(crate) fn to_lowercase(s: &str) -> (r: String)
    ensures
        r@ == lowercase(s@),
        (forall|i: int| 0 <= i < s@.len() ==> (#[trigger] s@[i] as u32) < 128) ==> r@
            == s@.map_values(|c: char| ascii_lower(c)),
{
    s.to_lowercase()
}

/// The characters of a string.
pub fn chars_of(s: &str) -> (r: Vec<char>)
    ensures
        r@ == s@,
{
    let mut out: Vec<char> = Vec::new();
    for c in it: s.chars()
        invariant
            it.seq() == s@,
            out@ == s@.take(it.index() as int),
    {
        out.push(c);
        assert(out@ =~= s@.take(it.index() + 1));
    }
    assert(out@ =~= s@);
    out
}

/// Appends characters to a string.
pub fn push_chars(s: &mut String, chars: &Vec<char>)
    ensures
        final(s)@ == old(s)@ + chars@,
{
    let mut i: usize = 0;
    assert(s@ =~= old(s)@ + chars@.take(0));
    while i < chars.len()
        invariant
            i <= chars@.len(),
            s@ == old(s)@ + chars@.take(i as int),
        decreases chars@.len() - i,
    {
        s.push(chars[i]);
        i += 1;
        assert(s@ =~= old(s)@ + chars@.take(i as int));
    }
    assert(chars@.take(i as int) =~= chars@);
}

/// The string with these characters.
pub fn string_of(chars: &Vec<char>) -> (r: String)
    ensures
        r@ == chars@,
{
    let mut s = String::new();
    push_chars(&mut s, chars);
    assert(s@ =~= chars@);
    s
}

pub open spec fn is_digit(c: char) -> bool {
    48 <= c as u32 <= 57
}

pub open spec fn digit_char(d: nat) -> char {
    ((48 + d) as u8) as char
}

pub open spec fn all_digits(s: Seq<char>) -> bool {
    forall|i: int| 0 <= i < s.len() ==> is_digit(#[trigger] s[i])
}

/// The number that a sequence of decimal digits stands for.
pub open spec fn value(s: Seq<char>) -> nat
    decreases s.len(),
{
    if s.len() == 0 {
        0
    } else {
        value(s.drop_last()) * 10 + (s.last() as u32 - 48) as nat
    }
}

/// The decimal digits of a number.
pub open spec fn dec(n: nat) -> Seq<char>
    decreases n,
{
    if n < 10 {
        seq![digit_char(n)]
    } else {
        dec(n / 10).push(digit_char(n % 10))
    }
}

/// The decimal form of a signed number.
pub open spec fn dec_signed(n: int) -> Seq<char> {
    if n < 0 {
        seq!['-'] + dec((-n) as nat)
    } else {
        dec(n as nat)
    }
}

/// A decimal number with an optional leading plus sign.
pub open spec fn parsed_nat(s: Seq<char>) -> Option<nat> {
    let body = if s.len() > 0 && s[0] == '+' {
        s.skip(1)
    } else {
        s
    };
    if body.len() > 0 && all_digits(body) {
        Some(value(body))
    } else {
        None
    }
}

/// A decimal number no greater than `max`.
pub open spec fn parsed_uint(s: Seq<char>, max: nat) -> Option<nat> {
    match parsed_nat(s) {
        Some(v) => if v <= max {
            Some(v)
        } else {
            None
        },
        None => None,
    }
}

/// A decimal number with an optional sign, from `-max - 1` to `max`.
pub open spec fn parsed_int(s: Seq<char>, max: nat) -> Option<int> {
    if s.len() > 0 && s[0] == '-' {
        let body = s.skip(1);
        if body.len() > 0 && all_digits(body) && value(body) <= max + 1 {
            Some(-(value(body) as int))
        } else {
            None
        }
    } else {
        match parsed_uint(s, max) {
            Some(v) => Some(v as int),
            None => None,
        }
    }
}

proof fn lemma_value_prefix(s: Seq<char>, i: int)
    requires
        0 <= i <= s.len(),
        all_digits(s),
    ensures
        value(s.take(i)) <= value(s),
    decreases s.len() - i,
{
    if i < s.len() {
        lemma_value_prefix(s, i + 1);
        assert(s.take(i + 1).drop_last() =~= s.take(i));
    } else {
        assert(s.take(i) =~= s);
    }
}

/// Reads the digits from `from` on as a number no greater than `max`.
fn digits_value(s: &Vec<char>, from: usize, max: u64) -> (r: Option<u64>)
    requires
        from <= s@.len(),
    ensures
        ({
            let body = s@.skip(from as int);
            match r {
                Some(v) => body.len() > 0 && all_digits(body) && v == value(body) && v <= max,
                None => !(body.len() > 0 && all_digits(body) && value(body) <= max),
            }
        }),
{
    let ghost body = s@.skip(from as int);
    if from == s.len() {
        return None;
    }
    let mut v: u64 = 0;
    let mut i: usize = from;
    while i < s.len()
        invariant
            from <= i <= s@.len(),
            body == s@.skip(from as int),
            v <= max,
            v == value(body.take(i - from)),
            forall|k: int| 0 <= k < i - from ==> is_digit(#[trigger] body[k]),
        decreases s@.len() - i,
    {
        let c = s[i] as u32;
        assert(body[i - from] == s@[i as int]);
        if c < 48 || c > 57 {
            assert(!is_digit(body[i - from]));
            return None;
        }
        let d = (c - 48) as u64;
        proof {
            let next = body.take(i - from + 1);
            assert(next.drop_last() =~= body.take(i - from));
            assert(next.last() == body[i - from]);
            assert(value(next) == v * 10 + d);
            if all_digits(body) {
                lemma_value_prefix(body, i - from + 1);
            }
        }
        if v > (max - if d <= max { d } else { max }) / 10 {
            assert(v * 10 + d > max);
            return None;
        }
        if d > max {
            return None;
        }
        v = v * 10 + d;
        i += 1;
    }
    assert(body.take(i - from) =~= body);
    Some(v)
}

/// Parses a decimal number no greater than `max`.
pub fn parse_uint(s: &Vec<char>, max: u64) -> (r: Option<u64>)
    ensures
        match parsed_uint(s@, max as nat) {
            Some(v) => r is Some && r->0 == v,
            None => r is None,
        },
{
    let from: usize = if s.len() > 0 && s[0] == '+' { 1 } else { 0 };
    assert(s@.skip(0) =~= s@);
    digits_value(s, from, max)
}

/// Parses a signed decimal number that fits `i32`.
pub fn parse_i32(s: &Vec<char>) -> (r: Option<i32>)
    ensures
        match parsed_int(s@, 0x7FFF_FFFF) {
            Some(v) => r is Some && r->0 == v,
            None => r is None,
        },
{
    if s.len() > 0 && s[0] == '-' {
        match digits_value(s, 1, 0x8000_0000) {
            Some(v) => Some((0 - v as i64) as i32),
            None => None,
        }
    } else {
        match parse_uint(s, 0x7FFF_FFFF) {
            Some(v) => Some(v as i32),
            None => None,
        }
    }
}

/// Parses a signed decimal number that fits `i64`.
pub fn parse_i64(s: &Vec<char>) -> (r: Option<i64>)
    ensures
        match parsed_int(s@, 0x7FFF_FFFF_FFFF_FFFF) {
            Some(v) => r is Some && r->0 == v,
            None => r is None,
        },
{
    if s.len() > 0 && s[0] == '-' {
        match digits_value(s, 1, 0x8000_0000_0000_0000) {
            Some(v) => Some((0 - v as i128) as i64),
            None => None,
        }
    } else {
        match parse_uint(s, 0x7FFF_FFFF_FFFF_FFFF) {
            Some(v) => Some(v as i64),
            None => None,
        }
    }
}

/// Appends the decimal digits of `n`.
pub fn push_dec(out: &mut Vec<char>, n: u64)
    ensures
        final(out)@ == old(out)@ + dec(n as nat),
    decreases n,
{
    if n >= 10 {
        push_dec(out, n / 10);
    }
    out.push((48 + (n % 10) as u8) as char);
    assert(out@ =~= old(out)@ + dec(n as nat));
}

/// Appends the decimal form of a signed number.
pub fn push_dec_signed(out: &mut Vec<char>, n: i64)
    ensures
        final(out)@ == old(out)@ + dec_signed(n as int),
{
    if n < 0 {
        out.push('-');
        push_dec(out, (0 - n as i128) as u64);
    } else {
        push_dec(out, n as u64);
    }
    assert(out@ =~= old(out)@ + dec_signed(n as int));
}

/// Appends the characters of a string.
pub fn push_str(out: &mut Vec<char>, s: &str)
    ensures
        final(out)@ == old(out)@ + s@,
{
    let chars = chars_of(s);
    let mut i: usize = 0;
    while i < chars.len()
        invariant
            i <= chars@.len(),
            chars@ == s@,
            out@ =~= old(out)@ + s@.take(i as int),
        decreases chars@.len() - i,
    {
        out.push(chars[i]);
        i += 1;
    }
    assert(out@ =~= old(out)@ + s@);
}

/// The digit characters of a number are digits, there is at least one,
/// and they stand for the number.
pub proof fn law_dec_value(n: nat)
    ensures
        dec(n).len() > 0,
        all_digits(dec(n)),
        value(dec(n)) == n,
    decreases n,
{
    if n >= 10 {
        law_dec_value(n / 10);
        assert(dec(n).drop_last() =~= dec(n / 10));
    } else {
        assert(dec(n).drop_last() =~= Seq::<char>::empty());
        assert(value(Seq::<char>::empty()) == 0);
    }
}

/// A number printed in decimal parses back to itself.
pub proof fn law_dec_parses_back(n: int, max: nat)
    requires
        -(max as int) - 1 <= n <= max,
    ensures
        parsed_int(dec_signed(n), max) == Some(n),
        n >= 0 ==> parsed_uint(dec(n as nat), max) == Some(n as nat),
{
    if n < 0 {
        let m = (-n) as nat;
        law_dec_value(m);
        assert(dec_signed(n).skip(1) =~= dec(m));
    } else {
        law_dec_value(n as nat);
        assert(is_digit(dec(n as nat)[0]));
    }
}

/// Unicode white space.
pub open spec fn is_space(c: char) -> bool {
    let u = c as u32;
    9 <= u <= 13 || u == 0x20 || u == 0x85 || u == 0xA0 || u == 0x1680 || 0x2000 <= u <= 0x200A
        || u == 0x2028 || u == 0x2029 || u == 0x202F || u == 0x205F || u == 0x3000
}

/// Whether the character is white space.
pub fn space(c: char) -> (r: bool)
    ensures
        r == is_space(c),
{
    let u = c as u32;
    (9 <= u && u <= 13) || u == 0x20 || u == 0x85 || u == 0xA0 || u == 0x1680 || (0x2000 <= u && u
        <= 0x200A) || u == 0x2028 || u == 0x2029 || u == 0x202F || u == 0x205F || u == 0x3000
}

/// The maximal runs of characters other than white space; `cur` is the run
/// under way and `i` the next character.
pub open spec fn words_from(s: Seq<char>, i: int, cur: Seq<char>) -> Seq<Seq<char>>
    decreases s.len() - i,
{
    if i >= s.len() {
        if cur.len() > 0 {
            seq![cur]
        } else {
            Seq::empty()
        }
    } else if is_space(s[i]) {
        if cur.len() > 0 {
            seq![cur] + words_from(s, i + 1, Seq::empty())
        } else {
            words_from(s, i + 1, Seq::empty())
        }
    } else {
        words_from(s, i + 1, cur.push(s[i]))
    }
}

/// The words of a text.
pub open spec fn words(s: Seq<char>) -> Seq<Seq<char>> {
    words_from(s, 0, Seq::empty())
}

/// The texts as sequences of characters.
pub open spec fn views(v: Seq<Vec<char>>) -> Seq<Seq<char>> {
    Seq::new(v.len(), |i: int| v[i]@)
}

/// Splits a text into words.
pub fn split_words(s: &Vec<char>) -> (r: Vec<Vec<char>>)
    ensures
        views(r@) == words(s@),
{
    let mut out: Vec<Vec<char>> = Vec::new();
    let mut cur: Vec<char> = Vec::new();
    let mut i: usize = 0;
    assert(views(out@) + words_from(s@, 0, cur@) =~= words(s@)) by {
        assert(cur@ =~= Seq::<char>::empty());
    }
    while i < s.len()
        invariant
            i <= s@.len(),
            views(out@) + words_from(s@, i as int, cur@) == words(s@),
        decreases s@.len() - i,
    {
        let ghost before = views(out@);
        if space(s[i]) {
            if cur.len() > 0 {
                let ghost word = cur@;
                out.push(cur);
                cur = Vec::new();
                assert(cur@ =~= Seq::<char>::empty());
                assert(views(out@) =~= before.push(word));
                assert(before + (seq![word] + words_from(s@, i + 1, cur@)) =~= before.push(word)
                    + words_from(s@, i + 1, cur@));
            } else {
                assert(cur@ =~= Seq::<char>::empty());
            }
        } else {
            cur.push(s[i]);
        }
        i += 1;
    }
    let ghost before = views(out@);
    let ghost word = cur@;
    if cur.len() > 0 {
        out.push(cur);
        assert(views(out@) =~= before.push(word));
        assert(before + seq![word] =~= before.push(word));
    } else {
        assert(before + Seq::<Seq<char>>::empty() =~= before);
    }
    out
}

/// The pieces between separators; `cur` is the piece under way.
pub open spec fn pieces_from(s: Seq<char>, sep: char, i: int, cur: Seq<char>) -> Seq<Seq<char>>
    decreases s.len() - i,
{
    if i >= s.len() {
        seq![cur]
    } else if s[i] == sep {
        seq![cur] + pieces_from(s, sep, i + 1, Seq::empty())
    } else {
        pieces_from(s, sep, i + 1, cur.push(s[i]))
    }
}

/// The text cut at each separator.
pub open spec fn pieces(s: Seq<char>, sep: char) -> Seq<Seq<char>> {
    pieces_from(s, sep, 0, Seq::empty())
}

/// Cuts a text at each separator.
pub fn split_at_each(s: &Vec<char>, sep: char) -> (r: Vec<Vec<char>>)
    ensures
        views(r@) == pieces(s@, sep),
        r@.len() >= 1,
{
    let mut out: Vec<Vec<char>> = Vec::new();
    let mut cur: Vec<char> = Vec::new();
    let mut i: usize = 0;
    assert(views(out@) + pieces_from(s@, sep, 0, cur@) =~= pieces(s@, sep)) by {
        assert(cur@ =~= Seq::<char>::empty());
    }
    while i < s.len()
        invariant
            i <= s@.len(),
            views(out@) + pieces_from(s@, sep, i as int, cur@) == pieces(s@, sep),
        decreases s@.len() - i,
    {
        let ghost before = views(out@);
        if s[i] == sep {
            let ghost piece = cur@;
            out.push(cur);
            cur = Vec::new();
            assert(cur@ =~= Seq::<char>::empty());
            assert(views(out@) =~= before.push(piece));
            assert(before + (seq![piece] + pieces_from(s@, sep, i + 1, cur@)) =~= before.push(piece)
                + pieces_from(s@, sep, i + 1, cur@));
        } else {
            cur.push(s[i]);
        }
        i += 1;
    }
    let ghost before = views(out@);
    let ghost piece = cur@;
    out.push(cur);
    assert(views(out@) =~= before.push(piece));
    assert(before + seq![piece] =~= before.push(piece));
    out
}

/// Whether two texts are the same.
pub fn same(a: &Vec<char>, b: &Vec<char>) -> (r: bool)
    ensures
        r == (a@ == b@),
{
    if a.len() != b.len() {
        return false;
    }
    let mut i: usize = 0;
    while i < a.len()
        invariant
            i <= a@.len() == b@.len(),
            forall|k: int| 0 <= k < i ==> a@[k] == b@[k],
        decreases a@.len() - i,
    {
        if a[i] != b[i] {
            return false;
        }
        i += 1;
    }
    assert(a@ =~= b@);
    true
}

/// A hexadecimal digit in upper case.
pub open spec fn hex_digit(d: nat) -> char {
    if d < 10 {
        ((48 + d) as u8) as char
    } else {
        ((55 + d) as u8) as char
    }
}

/// The two hexadecimal digits of a byte.
pub open spec fn hex2(b: u8) -> Seq<char> {
    seq![hex_digit(b as nat / 16), hex_digit(b as nat % 16)]
}

/// Appends the two hexadecimal digits of a byte.
pub fn push_hex2(out: &mut Vec<char>, b: u8)
    ensures
        final(out)@ == old(out)@ + hex2(b),
{
    let hi = b / 16;
    let lo = b % 16;
    out.push(if hi < 10 { (48 + hi) as char } else { (55 + hi) as char });
    out.push(if lo < 10 { (48 + lo) as char } else { (55 + lo) as char });
    assert(out@ =~= old(out)@ + hex2(b));
}

/// A hexadecimal digit in lower case.
pub open spec fn hex_digit_lower(d: nat) -> char {
    if d < 10 {
        ((48 + d) as u8) as char
    } else {
        ((87 + d) as u8) as char
    }
}

/// The hexadecimal digits of a number.
pub open spec fn hex_digits(n: nat) -> Seq<char>
    decreases n,
{
    if n < 16 {
        seq![hex_digit_lower(n)]
    } else {
        hex_digits(n / 16).push(hex_digit_lower(n % 16))
    }
}

/// A number in hexadecimal behind `0x`.
pub open spec fn hex(n: nat) -> Seq<char> {
    seq!['0', 'x'] + hex_digits(n)
}

fn push_hex_digits(out: &mut Vec<char>, n: u64)
    ensures
        final(out)@ == old(out)@ + hex_digits(n as nat),
    decreases n,
{
    if n >= 16 {
        push_hex_digits(out, n / 16);
    }
    let d = (n % 16) as u8;
    out.push(if d < 10 { (48 + d) as char } else { (87 + d) as char });
    assert(out@ =~= old(out)@ + hex_digits(n as nat));
}

/// Appends a number in hexadecimal behind `0x`.
pub fn push_hex(out: &mut Vec<char>, n: u64)
    ensures
        final(out)@ == old(out)@ + hex(n as nat),
{
    out.push('0');
    out.push('x');
    push_hex_digits(out, n);
    assert(out@ =~= old(out)@ + hex(n as nat));
}

// ---------------------------------------------------------------------
// Putting texts together
// ---------------------------------------------------------------------

/// The texts with a space between any two.
pub open spec fn joined(ws: Seq<Seq<char>>) -> Seq<char>
    decreases ws.len(),
{
    if ws.len() == 0 {
        Seq::empty()
    } else if ws.len() == 1 {
        ws[0]
    } else {
        joined(ws.drop_last()) + seq![' '] + ws.last()
    }
}

/// The texts with a line feed behind each.
pub open spec fn unlines(ls: Seq<Seq<char>>) -> Seq<char>
    decreases ls.len(),
{
    if ls.len() == 0 {
        Seq::empty()
    } else {
        unlines(ls.drop_last()) + ls.last() + seq!['\n']
    }
}

/// One more line.
pub proof fn lemma_unlines_push(ls: Seq<Seq<char>>, l: Seq<char>)
    ensures
        unlines(ls.push(l)) == unlines(ls) + l + seq!['\n'],
{
    assert(ls.push(l).drop_last() =~= ls);
}

/// A word: not empty, without white space.
pub open spec fn is_word(w: Seq<char>) -> bool {
    w.len() > 0 && forall|i: int| 0 <= i < w.len() ==> !is_space(#[trigger] w[i])
}

/// Appends a text to others that are joined by spaces.
pub fn push_word(out: &mut Vec<char>, first: bool, w: &Vec<char>)
    ensures
        final(out)@ == if first {
            old(out)@ + w@
        } else {
            old(out)@ + seq![' '] + w@
        },
{
    if !first {
        out.push(' ');
    }
    let ghost start = out@;
    let mut i: usize = 0;
    assert(out@ =~= start + w@.take(0));
    while i < w.len()
        invariant
            i <= w@.len(),
            out@ == start + w@.take(i as int),
        decreases w@.len() - i,
    {
        out.push(w[i]);
        i += 1;
        assert(out@ =~= start + w@.take(i as int));
    }
    assert(w@.take(i as int) =~= w@);
    assert(old(out)@.push(' ') =~= old(out)@ + seq![' ']);
}

/// Appends texts with a space between any two.
pub fn push_joined(out: &mut Vec<char>, ws: &Vec<Vec<char>>)
    ensures
        final(out)@ == old(out)@ + joined(views(ws@)),
{
    let ghost all = views(ws@);
    let mut i: usize = 0;
    assert(all.take(0) =~= Seq::<Seq<char>>::empty());
    assert(out@ =~= old(out)@ + joined(all.take(0)));
    while i < ws.len()
        invariant
            i <= ws@.len(),
            all == views(ws@),
            out@ == old(out)@ + joined(all.take(i as int)),
        decreases ws@.len() - i,
    {
        push_word(out, i == 0, &ws[i]);
        proof {
            assert(all.take(i + 1).drop_last() =~= all.take(i as int));
            assert(all.take(i + 1).last() == ws@[i as int]@);
            if i == 0 {
                assert(all.take(0) =~= Seq::<Seq<char>>::empty());
            }
            assert(out@ =~= old(out)@ + joined(all.take(i + 1)));
        }
        i += 1;
    }
    assert(all.take(i as int) =~= all);
}

proof fn lemma_words_run(s: Seq<char>, i: int, n: int, cur: Seq<char>)
    requires
        0 <= i,
        0 <= n,
        i + n <= s.len(),
        forall|k: int| i <= k < i + n ==> !is_space(#[trigger] s[k]),
    ensures
        words_from(s, i, cur) == words_from(s, i + n, cur + s.subrange(i, i + n)),
    decreases n,
{
    if n > 0 {
        lemma_words_run(s, i + 1, n - 1, cur.push(s[i]));
        assert(cur.push(s[i]) + s.subrange(i + 1, i + n) =~= cur + s.subrange(i, i + n));
    } else {
        assert(cur + s.subrange(i, i) =~= cur);
    }
}

proof fn lemma_words_prefix(s: Seq<char>, t: Seq<char>, i: int, cur: Seq<char>, w: Seq<char>)
    requires
        0 <= i <= s.len(),
        t == s + seq![' '] + w,
        is_word(w),
    ensures
        words_from(t, i, cur) == words_from(s, i, cur) + seq![w],
    decreases s.len() - i,
{
    if i < s.len() {
        assert(t[i] == s[i]);
        if is_space(s[i]) {
            lemma_words_prefix(s, t, i + 1, Seq::empty(), w);
            if cur.len() > 0 {
                assert(seq![cur] + (words_from(s, i + 1, Seq::empty()) + seq![w]) =~= (seq![cur]
                    + words_from(s, i + 1, Seq::empty())) + seq![w]);
            }
        } else {
            lemma_words_prefix(s, t, i + 1, cur.push(s[i]), w);
        }
    } else {
        let j = i + 1;
        assert(t[i] == ' ');
        assert forall|k: int| j <= k < j + w.len() implies !is_space(#[trigger] t[k]) by {
            assert(t[k] == w[k - j]);
        }
        lemma_words_run(t, j, w.len() as int, Seq::empty());
        assert(Seq::<char>::empty() + t.subrange(j, j + w.len()) =~= w);
        assert(words_from(t, j, Seq::empty()) == seq![w]);
        assert(Seq::<Seq<char>>::empty() + seq![w] =~= seq![w]);
        if cur.len() > 0 {
            assert(words_from(t, i, cur) == seq![cur] + words_from(t, j, Seq::empty()));
        } else {
            assert(words_from(t, i, cur) == words_from(t, j, Seq::empty()));
        }
    }
}

/// Words that are joined by spaces come apart again.
pub proof fn law_joined_words(ws: Seq<Seq<char>>)
    requires
        forall|i: int| 0 <= i < ws.len() ==> is_word(#[trigger] ws[i]),
    ensures
        words(joined(ws)) == ws,
    decreases ws.len(),
{
    if ws.len() == 0 {
        assert(words(joined(ws)) =~= ws);
    } else if ws.len() == 1 {
        let w = ws[0];
        assert(is_word(w));
        lemma_words_run(w, 0, w.len() as int, Seq::empty());
        assert(Seq::<char>::empty() + w.subrange(0, w.len() as int) =~= w);
        assert(words(w) =~= ws);
    } else {
        let head = ws.drop_last();
        assert forall|i: int| 0 <= i < head.len() implies is_word(#[trigger] head[i]) by {
            assert(is_word(ws[i]));
        }
        law_joined_words(head);
        assert(is_word(ws.last()));
        lemma_words_prefix(joined(head), joined(ws), 0, Seq::empty(), ws.last());
        assert(head + seq![ws.last()] =~= ws);
    }
}

pub(crate) proof fn lemma_pieces_prefix(s: Seq<char>, t: Seq<char>, sep: char, i: int, cur: Seq<char>, l: Seq<char>)
    requires
        0 <= i <= s.len(),
        t == s + l,
        !l.contains(sep),
        pieces_from(s, sep, i, cur).len() > 0,
    ensures
        ({
            let a = pieces_from(s, sep, i, cur);
            pieces_from(t, sep, i, cur) == a.drop_last().push(a.last() + l)
        }),
    decreases s.len() - i,
{
    let a = pieces_from(s, sep, i, cur);
    if i < s.len() {
        assert(t[i] == s[i]);
        lemma_pieces_some(s, sep, i + 1, Seq::empty());
        lemma_pieces_some(s, sep, i + 1, cur.push(s[i]));
        if s[i] == sep {
            lemma_pieces_prefix(s, t, sep, i + 1, Seq::empty(), l);
            let b = pieces_from(s, sep, i + 1, Seq::empty());
            assert(a.last() == b.last());
            assert(seq![cur] + b.drop_last().push(b.last() + l) =~= a.drop_last().push(
                a.last() + l,
            ));
        } else {
            lemma_pieces_prefix(s, t, sep, i + 1, cur.push(s[i]), l);
        }
    } else {
        assert forall|k: int| i <= k < t.len() implies #[trigger] t[k] != sep by {
            assert(t[k] == l[k - i]);
        }
        lemma_pieces_run(t, sep, i, cur);
        assert(t.skip(i) =~= l);
        assert(seq![cur + l] =~= a.drop_last().push(a.last() + l));
    }
}

pub(crate) proof fn lemma_pieces_some(s: Seq<char>, sep: char, i: int, cur: Seq<char>)
    ensures
        pieces_from(s, sep, i, cur).len() > 0,
    decreases s.len() - i,
{
    if i < s.len() {
        if s[i] != sep {
            lemma_pieces_some(s, sep, i + 1, cur.push(s[i]));
        }
    }
}

pub(crate) proof fn lemma_pieces_run(s: Seq<char>, sep: char, i: int, cur: Seq<char>)
    requires
        0 <= i <= s.len(),
        forall|k: int| i <= k < s.len() ==> #[trigger] s[k] != sep,
    ensures
        pieces_from(s, sep, i, cur) == seq![cur + s.skip(i)],
    decreases s.len() - i,
{
    if i < s.len() {
        lemma_pieces_run(s, sep, i + 1, cur.push(s[i]));
        assert(cur.push(s[i]) + s.skip(i + 1) =~= cur + s.skip(i));
    } else {
        assert(cur + s.skip(i) =~= cur);
    }
}

pub(crate) proof fn lemma_pieces_sep(s: Seq<char>, t: Seq<char>, sep: char, i: int, cur: Seq<char>)
    requires
        0 <= i <= s.len(),
        t == s.push(sep),
    ensures
        pieces_from(t, sep, i, cur) == pieces_from(s, sep, i, cur).push(Seq::empty()),
    decreases s.len() - i,
{
    if i < s.len() {
        assert(t[i] == s[i]);
        if s[i] == sep {
            lemma_pieces_sep(s, t, sep, i + 1, Seq::empty());
            assert(seq![cur] + pieces_from(s, sep, i + 1, Seq::empty()).push(Seq::empty()) =~= (
            seq![cur] + pieces_from(s, sep, i + 1, Seq::empty())).push(Seq::empty()));
        } else {
            lemma_pieces_sep(s, t, sep, i + 1, cur.push(s[i]));
        }
    } else {
        reveal_with_fuel(pieces_from, 2);
        assert(seq![cur] + seq![Seq::<char>::empty()] =~= seq![cur].push(Seq::empty()));
    }
}

/// Lines that were put behind each other come apart again; behind the last
/// line feed there is an empty one.
pub proof fn law_unlines_pieces(ls: Seq<Seq<char>>)
    requires
        forall|i: int| 0 <= i < ls.len() ==> !(#[trigger] ls[i]).contains('\n'),
    ensures
        pieces(unlines(ls), '\n') == ls.push(Seq::empty()),
    decreases ls.len(),
{
    if ls.len() == 0 {
        assert(pieces(unlines(ls), '\n') =~= ls.push(Seq::empty()));
    } else {
        let head = ls.drop_last();
        assert forall|i: int| 0 <= i < head.len() implies !(#[trigger] head[i]).contains('\n') by {
            assert(head[i] == ls[i]);
        }
        law_unlines_pieces(head);
        let l = ls.last();
        assert(l == ls[ls.len() - 1]);
        let s = unlines(head);
        lemma_pieces_some(s, '\n', 0, Seq::empty());
        lemma_pieces_prefix(s, s + l, '\n', 0, Seq::empty(), l);
        assert(unlines(ls) =~= (s + l).push('\n'));
        lemma_pieces_sep(s + l, unlines(ls), '\n', 0, Seq::empty());
        let a = head.push(Seq::<char>::empty());
        assert(a.drop_last() =~= head);
        assert(a.last() + l =~= l);
        assert(head.push(l) =~= ls);
    }
}

// ---------------------------------------------------------------------
// Taking texts apart
// ---------------------------------------------------------------------

/// The first place from `i` on that is not white space.
pub open spec fn first_ink(s: Seq<char>, i: int) -> int
    decreases s.len() - i,
{
    if i >= s.len() || !is_space(s[i]) {
        i
    } else {
        first_ink(s, i + 1)
    }
}

/// The end of `n` characters without the white space there.
pub open spec fn last_ink(s: Seq<char>, n: int) -> int
    decreases n,
{
    if n <= 0 || !is_space(s[n - 1]) {
        n
    } else {
        last_ink(s, n - 1)
    }
}

/// The text without white space at its ends.
pub open spec fn trimmed(s: Seq<char>) -> Seq<char> {
    if first_ink(s, 0) >= s.len() {
        Seq::empty()
    } else {
        s.subrange(first_ink(s, 0), last_ink(s, s.len() as int))
    }
}

proof fn lemma_last_ink(s: Seq<char>, n: int, i: int)
    requires
        0 <= i < n <= s.len(),
        !is_space(s[i]),
    ensures
        i < last_ink(s, n) <= n,
    decreases n,
{
    if is_space(s[n - 1]) {
        lemma_last_ink(s, n - 1, i);
    }
}

/// A text with ink at both ends stays as it is.
pub proof fn lemma_trimmed_same(s: Seq<char>)
    requires
        s.len() > 0 ==> !is_space(s[0]) && !is_space(s.last()),
    ensures
        trimmed(s) == s,
{
    if s.len() > 0 {
        assert(s.subrange(0, s.len() as int) =~= s);
    } else {
        assert(trimmed(s) =~= s);
    }
}

/// The part of a text between two places.
pub fn part(s: &Vec<char>, from: usize, to: usize) -> (r: Vec<char>)
    requires
        from <= to <= s@.len(),
    ensures
        r@ == s@.subrange(from as int, to as int),
{
    let mut out: Vec<char> = Vec::new();
    let mut i = from;
    while i < to
        invariant
            from <= i <= to <= s@.len(),
            out@ == s@.subrange(from as int, i as int),
        decreases to - i,
    {
        out.push(s[i]);
        i += 1;
        assert(out@ =~= s@.subrange(from as int, i as int));
    }
    out
}

/// Takes white space off both ends.
pub fn trim(s: &Vec<char>) -> (r: Vec<char>)
    ensures
        r@ == trimmed(s@),
{
    let mut i: usize = 0;
    while i < s.len() && space(s[i])
        invariant
            i <= s@.len(),
            first_ink(s@, 0) == first_ink(s@, i as int),
        decreases s@.len() - i,
    {
        i += 1;
    }
    if i >= s.len() {
        let out: Vec<char> = Vec::new();
        assert(out@ =~= Seq::<char>::empty());
        return out;
    }
    let mut n: usize = s.len();
    proof {
        lemma_last_ink(s@, s@.len() as int, i as int);
    }
    while n > 0 && space(s[n - 1])
        invariant
            i < s@.len(),
            n <= s@.len(),
            i < last_ink(s@, s@.len() as int) <= n,
            last_ink(s@, s@.len() as int) == last_ink(s@, n as int),
        decreases n,
    {
        n -= 1;
        proof {
            if n <= i {
                assert(last_ink(s@, n as int) <= n) by {
                    lemma_last_ink_below(s@, n as int);
                }
            }
            lemma_last_ink_below(s@, n as int);
        }
    }
    part(s, i, n)
}

proof fn lemma_last_ink_below(s: Seq<char>, n: int)
    ensures
        last_ink(s, n) <= n,
    decreases n,
{
    if n > 0 && is_space(s[n - 1]) {
        lemma_last_ink_below(s, n - 1);
    }
}

/// Where a character first is from `i` on; the end where it is not.
pub open spec fn place_of(s: Seq<char>, c: char, i: int) -> int
    decreases s.len() - i,
{
    if i >= s.len() || s[i] == c {
        i
    } else {
        place_of(s, c, i + 1)
    }
}

/// What is before and behind the first `c`.
pub open spec fn parted(s: Seq<char>, c: char) -> Option<(Seq<char>, Seq<char>)> {
    let k = place_of(s, c, 0);
    if k >= s.len() {
        None
    } else {
        Some((s.take(k), s.skip(k + 1)))
    }
}

/// A text put together around a `c` comes apart there, if the first part has
/// none.
pub proof fn lemma_parted(a: Seq<char>, c: char, b: Seq<char>)
    requires
        !a.contains(c),
    ensures
        parted(a + seq![c] + b, c) == Some((a, b)),
{
    let s = a + seq![c] + b;
    lemma_place_of(s, c, 0, a.len() as int);
    assert(s.take(a.len() as int) =~= a);
    assert(s.skip(a.len() as int + 1) =~= b);
}

proof fn lemma_place_of(s: Seq<char>, c: char, i: int, k: int)
    requires
        0 <= i <= k < s.len(),
        s[k] == c,
        forall|j: int| i <= j < k ==> s[j] != c,
    ensures
        place_of(s, c, i) == k,
    decreases k - i,
{
    if i < k {
        lemma_place_of(s, c, i + 1, k);
    }
}

/// Cuts a text at the first `c`.
pub fn split_once(s: &Vec<char>, c: char) -> (r: Option<(Vec<char>, Vec<char>)>)
    ensures
        match parted(s@, c) {
            None => r is None,
            Some((a, b)) => r matches Some((x, y)) && x@ == a && y@ == b,
        },
{
    let mut i: usize = 0;
    while i < s.len() && s[i] != c
        invariant
            i <= s@.len(),
            place_of(s@, c, 0) == place_of(s@, c, i as int),
        decreases s@.len() - i,
    {
        i += 1;
    }
    if i >= s.len() {
        return None;
    }
    let a = part(s, 0, i);
    let b = part(s, i + 1, s.len());
    assert(a@ =~= s@.take(i as int));
    assert(b@ =~= s@.skip(i + 1));
    Some((a, b))
}

/// Whether a text is the given one.
pub fn is_text(w: &Vec<char>, s: &str) -> (r: bool)
    ensures
        r == (w@ == s@),
{
    let t = chars_of(s);
    same(w, &t)
}

} // verus!
