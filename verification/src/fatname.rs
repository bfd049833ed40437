//! FAT directory slots: long and short names, and the 32-byte entries that
//! hold them.

use crate::bytes::{get_le16, get_le32, le16, le16_bytes, le32, le32_bytes};
use crate::rtc::DateTime;
use crate::text::{lossy, lossy_text, push_str, string_of};
use vstd::prelude::*;
use vstd::slice::slice_subrange;
use vstd::utf8::encode_utf8;

verus! {

pub const MAX_NAME: usize = 128;

/// An ASCII letter in lower case; any other character as it is.
pub open spec fn lower(c: char) -> u32 {
    if 65 <= c as u32 <= 90 {
        (c as u32 + 32) as u32
    } else {
        c as u32
    }
}

/// Whether two names are the same, ignoring ASCII case.
pub open spec fn same_name(a: Seq<char>, b: Seq<char>) -> bool {
    a.len() == b.len() && forall|i: int| 0 <= i < a.len() ==> lower(#[trigger] a[i]) == lower(b[i])
}

fn lower_of(c: char) -> (r: u32)
    ensures
        r == lower(c),
{
    let u = c as u32;
    if 65 <= u && u <= 90 {
        u + 32
    } else {
        u
    }
}

/// FAT names are case-insensitive.
pub fn name_matches(entry_name: &Vec<char>, needle: &Vec<char>) -> (r: bool)
    ensures
        r == same_name(entry_name@, needle@),
{
    if entry_name.len() != needle.len() {
        return false;
    }
    let mut i: usize = 0;
    while i < entry_name.len()
        invariant
            i <= entry_name@.len() == needle@.len(),
            forall|k: int| 0 <= k < i ==> lower(#[trigger] entry_name@[k]) == lower(needle@[k]),
        decreases entry_name@.len() - i,
    {
        if lower_of(entry_name[i]) != lower_of(needle[i]) {
            assert(lower(entry_name@[i as int]) != lower(needle@[i as int]));
            return false;
        }
        i += 1;
    }
    true
}

/// Name matching is an equivalence.
pub proof fn law_same_name_is_equivalence(a: Seq<char>, b: Seq<char>, c: Seq<char>)
    ensures
        same_name(a, a),
        same_name(a, b) ==> same_name(b, a),
        same_name(a, b) && same_name(b, c) ==> same_name(a, c),
{
    if same_name(a, b) {
        assert forall|i: int| 0 <= i < b.len() implies lower(#[trigger] b[i]) == lower(a[i]) by {
            assert(lower(a[i]) == lower(b[i]));
        }
        if same_name(b, c) {
            assert forall|i: int| 0 <= i < a.len() implies lower(#[trigger] a[i]) == lower(c[i]) by {
                assert(lower(b[i]) == lower(c[i]));
            }
        }
    }
}

/// A character that no name may hold: an ASCII control character or a
/// slash.
pub open spec fn forbidden(c: char) -> bool {
    c as u32 <= 0x1F || c as u32 == 0x7F || c == '/'
}

/// Whether a file or directory may be created under the name.
pub open spec fn valid_name(name: Seq<char>) -> bool {
    &&& name.len() > 0
    &&& encode_utf8(name).len() <= 128
    &&& name[0] != '.'
    &&& forall|i: int| 0 <= i < name.len() ==> !forbidden(#[trigger] name[i])
}

/// The number of bytes of a name.
pub fn byte_len(name: &Vec<char>) -> (r: usize)
    ensures
        r == encode_utf8(name@).len(),
{
    let text = string_of(name);
    text.as_str().as_bytes().len()
}

pub fn validate_name(name: &Vec<char>) -> (r: bool)
    ensures
        r == valid_name(name@),
{
    if name.len() == 0 || byte_len(name) > MAX_NAME || name[0] == '.' {
        return false;
    }
    let mut i: usize = 0;
    while i < name.len()
        invariant
            i <= name@.len(),
            forall|k: int| 0 <= k < i ==> !forbidden(#[trigger] name@[k]),
        decreases name@.len() - i,
    {
        let c = name[i];
        if c as u32 <= 0x1F || c as u32 == 0x7F || c == '/' {
            assert(forbidden(name@[i as int]));
            return false;
        }
        i += 1;
    }
    true
}

// ---------------------------------------------------------------------
// Short names
// ---------------------------------------------------------------------

/// Whether the byte may stand in a short name.
pub open spec fn sfn_char(b: u8) -> bool {
    48 <= b <= 57 || 65 <= b <= 90 || 97 <= b <= 122 || b == 36 || b == 37 || b == 39 || b == 45 || b
        == 95 || b == 64 || b == 126 || b == 96 || b == 33 || b == 40 || b == 41 || b == 123 || b
        == 125 || b == 94 || b == 35 || b == 38
}

fn is_sfn_char(b: u8) -> (r: bool)
    ensures
        r == sfn_char(b),
{
    (48 <= b && b <= 57) || (65 <= b && b <= 90) || (97 <= b && b <= 122) || b == 36 || b == 37 || b
        == 39 || b == 45 || b == 95 || b == 64 || b == 126 || b == 96 || b == 33 || b == 40 || b
        == 41 || b == 123 || b == 125 || b == 94 || b == 35 || b == 38
}

pub open spec fn upper(b: u8) -> u8 {
    if 97 <= b <= 122 {
        (b - 32) as u8
    } else {
        b
    }
}

/// The bytes that may stand in a short name, in upper case.
pub open spec fn sfn_chars(s: Seq<u8>) -> Seq<u8>
    decreases s.len(),
{
    if s.len() == 0 {
        Seq::empty()
    } else if sfn_char(s.last()) {
        sfn_chars(s.drop_last()).push(upper(s.last()))
    } else {
        sfn_chars(s.drop_last())
    }
}

/// The first `n` bytes, filled up with spaces.
pub open spec fn field(s: Seq<u8>, n: nat) -> Seq<u8> {
    Seq::new(
        n,
        |i: int|
            if i < s.len() {
                s[i]
            } else {
                32u8
            },
    )
}

/// The position of the last dot, or the length if there is none.
pub open spec fn last_dot(s: Seq<u8>) -> int
    decreases s.len(),
{
    last_dot_below(s, s.len())
}

pub open spec fn last_dot_below(s: Seq<u8>, n: nat) -> int
    decreases n,
{
    if n == 0 {
        s.len() as int
    } else if s[n - 1] == 46 {
        n - 1
    } else {
        last_dot_below(s, (n - 1) as nat)
    }
}

/// The 8.3 short name of a name.
pub open spec fn short_name(name: Seq<char>) -> Seq<u8> {
    let b = encode_utf8(name);
    let dot = last_dot(b);
    let ext = if dot < b.len() { b.skip(dot + 1) } else { Seq::empty() };
    field(sfn_chars(b.take(dot)), 8) + field(sfn_chars(ext), 3)
}

/// Appends the first `width` short-name characters of `s` in upper case,
/// filled up with spaces.
fn push_field(out: &mut Vec<u8>, s: &[u8], width: usize)
    requires
        width <= 8,
    ensures
        final(out)@ == old(out)@ + field(sfn_chars(s@), width as nat),
{
    let mut n: usize = 0;
    let mut i: usize = 0;
    let ghost start = out@;
    assert(s@.take(0) =~= Seq::<u8>::empty());
    while i < s.len()
        invariant
            i <= s@.len(),
            n <= width <= 8,
            out@ =~= start + sfn_chars(s@.take(i as int)).take(n as int),
            n <= sfn_chars(s@.take(i as int)).len(),
            n < width ==> n == sfn_chars(s@.take(i as int)).len(),
        decreases s@.len() - i,
    {
        let b = s[i];
        proof {
            assert(s@.take(i + 1).drop_last() =~= s@.take(i as int));
            assert(s@.take(i + 1).last() == b);
        }
        if n < width && is_sfn_char(b) {
            out.push(if 97 <= b && b <= 122 { b - 32 } else { b });
            n += 1;
        }
        i += 1;
    }
    assert(s@.take(i as int) =~= s@);
    let ghost kept = n;
    while n < width
        invariant
            kept <= n <= width,
            kept <= sfn_chars(s@).len(),
            kept < width ==> kept == sfn_chars(s@).len(),
            out@ =~= start + field(sfn_chars(s@), n as nat),
        decreases width - n,
    {
        out.push(32);
        n += 1;
    }
}

/// Builds an 8.3 short name from a long name. Collisions with existing
/// entries are not resolved.
pub fn make_sfn(name: &Vec<char>) -> (r: Vec<u8>)
    ensures
        r@ == short_name(name@),
        r@.len() == 11,
{
    let text = string_of(name);
    let b = text.as_str().as_bytes();
    let mut dot: usize = b.len();
    let mut i: usize = b.len();
    let mut found = false;
    while i > 0 && !found
        invariant
            i <= b@.len(),
            b.len() == b@.len(),
            !found ==> dot == b@.len() && last_dot(b@) == last_dot_below(b@, i as nat),
            found ==> dot == last_dot(b@) && dot < b@.len(),
        decreases i, (if found { 0int } else { 1 }),
    {
        i -= 1;
        if b[i] == 46 {
            dot = i;
            found = true;
        }
    }
    let mut sfn: Vec<u8> = Vec::new();
    push_field(&mut sfn, slice_subrange(b, 0, dot), 8);
    assert(b@.subrange(0, dot as int) =~= b@.take(dot as int));
    let ext_start: usize = if dot < b.len() { dot + 1 } else { b.len() };
    push_field(&mut sfn, slice_subrange(b, ext_start, b.len()), 3);
    assert(b@.subrange(ext_start as int, b@.len() as int) =~= if dot < b@.len() {
        b@.skip(dot + 1)
    } else {
        Seq::empty()
    });
    assert(sfn@ =~= short_name(name@));
    sfn
}

/// The checksum of a short name: each byte is added to the sum rotated
/// right by one.
pub open spec fn short_checksum(s: Seq<u8>) -> u8
    decreases s.len(),
{
    if s.len() == 0 {
        0
    } else {
        let sum = short_checksum(s.drop_last());
        ((sum % 2 * 128 + sum / 2 + s.last()) % 256) as u8
    }
}

pub fn sfn_checksum(sfn: &Vec<u8>) -> (r: u8)
    ensures
        r == short_checksum(sfn@),
{
    let mut sum: u8 = 0;
    let mut i: usize = 0;
    assert(sfn@.take(0) =~= Seq::<u8>::empty());
    while i < sfn.len()
        invariant
            i <= sfn@.len(),
            sum == short_checksum(sfn@.take(i as int)),
        decreases sfn@.len() - i,
    {
        assert(sfn@.take(i + 1).drop_last() =~= sfn@.take(i as int));
        assert(sfn@.take(i + 1).last() == sfn@[i as int]);
        let rotated: u16 = (sum % 2) as u16 * 128 + (sum / 2) as u16;
        sum = ((rotated + sfn[i] as u16) % 256) as u8;
        i += 1;
    }
    assert(sfn@.take(i as int) =~= sfn@);
    sum
}

/// The bytes before the first space, from `i` on.
pub open spec fn to_space(s: Seq<u8>, i: int) -> int
    decreases s.len() - i,
{
    if i >= s.len() || s[i] == 32 {
        i
    } else {
        to_space(s, i + 1)
    }
}

/// The text of the short name in a slot.
pub open spec fn shown_short(sfn: Seq<u8>) -> Seq<char> {
    let stem_end = to_space(sfn.take(8), 0);
    let ext = sfn.subrange(8, 11);
    let ext_end = to_space(ext, 0);
    (if stem_end > 0 { lossy_text(sfn.take(stem_end)) } else { Seq::empty() }) + (if ext_end > 0 {
        "."@ + lossy_text(ext.take(ext_end))
    } else {
        Seq::empty()
    })
}

fn find_space(s: &[u8], from: usize, to: usize) -> (r: usize)
    requires
        from <= to <= s.len(),
    ensures
        from <= r <= to,
        r - from == to_space(s@.subrange(from as int, to as int), 0),
{
    let ghost part = s@.subrange(from as int, to as int);
    let mut i: usize = from;
    while i < to && s[i] != 32
        invariant
            from <= i <= to <= s.len(),
            part == s@.subrange(from as int, to as int),
            to_space(part, 0) == to_space(part, i - from),
        decreases to - i,
    {
        assert(part[i - from] == s@[i as int]);
        i += 1;
    }
    if i < to {
        assert(part[i - from] == s@[i as int]);
    }
    i
}

/// The short name in a sector's slot at `at`.
pub fn sfn_name(sector: &Vec<u8>, at: usize) -> (r: Vec<char>)
    requires
        at + 11 <= sector@.len(),
    ensures
        r@ == shown_short(sector@.subrange(at as int, at + 11)),
{
    assert(sector@.len() == sector.len());
    let ghost sfn = sector@.subrange(at as int, at + 11);
    let bytes = sector.as_slice();
    let stem_end = find_space(bytes, at, at + 8);
    let ext_end = find_space(bytes, at + 8, at + 11);
    assert(sector@.subrange(at as int, at + 8) =~= sfn.take(8));
    assert(sector@.subrange(at + 8, at + 11) =~= sfn.subrange(8, 11));
    let mut name: Vec<char> = Vec::new();
    if stem_end > at {
        let stem = slice_subrange(bytes, at, stem_end);
        assert(stem@ =~= sfn.take(stem_end - at));
        let text = lossy(stem);
        push_str(&mut name, text.as_str());
    }
    if ext_end > at + 8 {
        push_str(&mut name, ".");
        let ext = slice_subrange(bytes, at + 8, ext_end);
        assert(ext@ =~= sfn.subrange(8, 11).take(ext_end - (at + 8)));
        let text = lossy(ext);
        push_str(&mut name, text.as_str());
    }
    assert(name@ =~= shown_short(sfn));
    name
}

// ---------------------------------------------------------------------
// Long names
// ---------------------------------------------------------------------

/// Where in its slot character `i` of a long-name part stands.
pub open spec fn lfn_pos(i: int) -> int {
    if i < 5 {
        1 + 2 * i
    } else if i < 11 {
        14 + 2 * (i - 5)
    } else {
        28 + 2 * (i - 11)
    }
}

/// The thirteen characters of the long-name slot at `at`.
pub open spec fn lfn_part(sector: Seq<u8>, at: int) -> Seq<u16> {
    Seq::new(13, |i: int| le16(sector, at + lfn_pos(i)))
}

pub fn read_lfn_part(sector: &Vec<u8>, at: usize) -> (r: Vec<u16>)
    requires
        at + 32 <= sector@.len(),
    ensures
        r@ == lfn_part(sector@, at as int),
{
    assert(sector@.len() == sector.len());
    let mut part: Vec<u16> = Vec::new();
    let mut i: usize = 0;
    while i < 13
        invariant
            i <= 13,
            at + 32 <= sector@.len() == sector.len(),
            part@ =~= lfn_part(sector@, at as int).take(i as int),
        decreases 13 - i,
    {
        let pos: usize = if i < 5 {
            1 + 2 * i
        } else if i < 11 {
            14 + 2 * (i - 5)
        } else {
            28 + 2 * (i - 11)
        };
        part.push(get_le16(sector.as_slice(), at + pos));
        i += 1;
    }
    assert(part@ =~= lfn_part(sector@, at as int));
    part
}

/// A character of a long name as text.
pub open spec fn lfn_char(c: u16) -> char {
    if c < 0x80 {
        (c as u8) as char
    } else {
        '?'
    }
}

/// The text of long-name characters up to the first end mark or filler.
pub open spec fn lfn_text(s: Seq<u16>) -> Seq<char>
    decreases s.len(),
{
    if s.len() == 0 || s[0] == 0 || s[0] == 0xFFFF {
        Seq::empty()
    } else {
        seq![lfn_char(s[0])] + lfn_text(s.skip(1))
    }
}

/// All characters of the parts in order.
pub open spec fn joined(parts: Seq<Seq<u16>>) -> Seq<u16>
    decreases parts.len(),
{
    if parts.len() == 0 {
        Seq::empty()
    } else {
        parts[0] + joined(parts.skip(1))
    }
}

pub open spec fn part_views(v: Seq<Vec<u16>>) -> Seq<Seq<u16>> {
    Seq::new(v.len(), |i: int| v[i]@)
}

/// The long name that the parts make up.
pub fn assemble_lfn(parts: &Vec<Vec<u16>>) -> (r: Vec<char>)
    ensures
        r@ == lfn_text(joined(part_views(parts@))),
{
    let ghost pv = part_views(parts@);
    let ghost all = lfn_text(joined(pv));
    let mut name: Vec<char> = Vec::new();
    let mut i: usize = 0;
    assert(pv.skip(0) =~= pv);
    assert(name@ + lfn_text(joined(pv.skip(0))) =~= all);
    while i < parts.len()
        invariant
            i <= parts@.len(),
            pv == part_views(parts@),
            all == lfn_text(joined(pv)),
            name@ + lfn_text(joined(pv.skip(i as int))) == all,
        decreases parts@.len() - i,
    {
        let part = &parts[i];
        let ghost rest = joined(pv.skip(i + 1));
        assert(pv.skip(i as int).skip(1) =~= pv.skip(i + 1));
        assert(pv.skip(i as int)[0] == part@);
        assert(part@.skip(0) =~= part@);
        let mut j: usize = 0;
        while j < part.len()
            invariant
                j <= part@.len(),
                all == lfn_text(joined(pv)),
                pv == part_views(parts@),
                name@ + lfn_text(part@.skip(j as int) + rest) == all,
            decreases part@.len() - j,
        {
            let c = part[j];
            let ghost here = part@.skip(j as int) + rest;
            assert(here[0] == c);
            assert(here.skip(1) =~= part@.skip(j + 1) + rest);
            if c == 0 || c == 0xFFFF {
                assert(name@ + Seq::<char>::empty() =~= name@);
                return name;
            }
            let ghost before = name@;
            name.push(if c < 0x80 { (c as u8) as char } else { '?' });
            assert(before + (seq![lfn_char(c)] + lfn_text(here.skip(1))) =~= name@ + lfn_text(
                here.skip(1),
            ));
            j += 1;
        }
        assert(part@.skip(j as int) + rest =~= rest);
        i += 1;
    }
    assert(name@ + Seq::<char>::empty() =~= name@);
    name
}

/// The characters of a name as 16-bit units.
pub open spec fn name_units(name: Seq<char>) -> Seq<u16> {
    Seq::new(name.len(), |i: int| (name[i] as u32 % 0x1_0000) as u16)
}

/// How many slots a long name takes.
pub open spec fn lfn_count(n: nat) -> nat {
    (n + 12) / 13
}

/// Part `i` of a long name: filler behind its end, and an end mark in the
/// first part if that is not full.
pub open spec fn name_part(u: Seq<u16>, i: int) -> Seq<u16> {
    Seq::new(
        13,
        |k: int|
            if i * 13 + k < u.len() {
                u[i * 13 + k]
            } else if i == 0 && k == u.len() {
                0u16
            } else {
                0xFFFFu16
            },
    )
}

/// The 32 bytes of a long-name slot.
pub open spec fn lfn_slot(number: u8, part: Seq<u16>, last: bool, checksum: u8) -> Seq<u8> {
    Seq::new(
        32,
        |p: int|
            if p == 0 {
                if last {
                    number | 0x40u8
                } else {
                    number
                }
            } else if p == 0x0B {
                0x0F
            } else if p == 0x0D {
                checksum
            } else if 1 <= p <= 10 {
                le16_bytes(part[(p - 1) / 2])[(p - 1) % 2]
            } else if 14 <= p <= 25 {
                le16_bytes(part[5 + (p - 14) / 2])[(p - 14) % 2]
            } else if 28 <= p <= 31 {
                le16_bytes(part[11 + (p - 28) / 2])[(p - 28) % 2]
            } else {
                0
            },
    )
}

/// A long-name slot that was laid out reads back as its part.
pub proof fn law_lfn_slot_round_trip(number: u8, part: Seq<u16>, last: bool, checksum: u8)
    requires
        part.len() == 13,
    ensures
        lfn_part(lfn_slot(number, part, last, checksum), 0) == part,
        lfn_slot(number, part, last, checksum)[0x0B] == 0x0F,
{
    let s = lfn_slot(number, part, last, checksum);
    assert forall|i: int| 0 <= i < 13 implies le16(s, lfn_pos(i)) == part[i] by {
        let p = lfn_pos(i);
        assert(s[p] == le16_bytes(part[i])[0]);
        assert(s[p + 1] == le16_bytes(part[i])[1]);
    }
    assert(lfn_part(s, 0) =~= part);
}

pub fn lfn_entry_bytes(number: u8, part: &Vec<u16>, is_last: bool, checksum: u8) -> (r: Vec<u8>)
    requires
        part@.len() == 13,
    ensures
        r@ == lfn_slot(number, part@, is_last, checksum),
{
    let mut entry: Vec<u8> = Vec::new();
    let mut p: usize = 0;
    while p < 32
        invariant
            p <= 32,
            part@.len() == 13,
            entry@ =~= lfn_slot(number, part@, is_last, checksum).take(p as int),
        decreases 32 - p,
    {
        let b: u8 = if p == 0 {
            if is_last {
                number | 0x40
            } else {
                number
            }
        } else if p == 0x0B {
            0x0F
        } else if p == 0x0D {
            checksum
        } else if p <= 10 {
            half(part[(p - 1) / 2], (p - 1) % 2)
        } else if 14 <= p && p <= 25 {
            half(part[5 + (p - 14) / 2], (p - 14) % 2)
        } else if 28 <= p {
            half(part[11 + (p - 28) / 2], (p - 28) % 2)
        } else {
            0
        };
        entry.push(b);
        p += 1;
    }
    assert(entry@ =~= lfn_slot(number, part@, is_last, checksum));
    entry
}

fn half(v: u16, k: usize) -> (r: u8)
    requires
        k < 2,
    ensures
        r == le16_bytes(v)[k as int],
{
    if k == 0 {
        (v % 0x100) as u8
    } else {
        (v / 0x100) as u8
    }
}

// ---------------------------------------------------------------------
// Entries
// ---------------------------------------------------------------------

/// FAT date and time words of a date.
pub open spec fn fat_date(dt: DateTime) -> u16 {
    let y = if dt.year < 1980 { 0 } else if dt.year - 1980 > 127 { 127 } else { dt.year - 1980 };
    (y * 512 + dt.month % 16 * 32 + dt.day % 32) as u16
}

pub open spec fn fat_time(dt: DateTime) -> u16 {
    (dt.hour % 32 * 2048 + dt.minute % 64 * 32 + dt.second / 2 % 32) as u16
}

/// FAT date/time words from an RTC reading.
pub fn fat_datetime(dt: DateTime) -> (r: (u16, u16))
    ensures
        r.0 == fat_date(dt),
        r.1 == fat_time(dt),
{
    let year: u16 = if dt.year < 1980 {
        0
    } else if dt.year - 1980 > 127 {
        127
    } else {
        dt.year - 1980
    };
    let date = year * 512 + dt.month as u16 % 16 * 32 + dt.day as u16 % 32;
    let time = dt.hour as u16 % 32 * 2048 + dt.minute as u16 % 64 * 32 + dt.second as u16 / 2 % 32;
    (date, time)
}

/// The 32 bytes of the slot with the short name, kind, time, first cluster
/// and size.
pub open spec fn sfn_slot(sfn: Seq<u8>, is_dir: bool, dt: DateTime, first: u32, size: u32) -> Seq<
    u8,
> {
    let t = le16_bytes(fat_time(dt));
    let d = le16_bytes(fat_date(dt));
    sfn + seq![if is_dir { 0x10u8 } else { 0x20u8 }, 0u8, 0u8] + t + d + d + le16_bytes(
        (first / 0x1_0000) as u16,
    ) + t + d + le16_bytes((first % 0x1_0000) as u16) + le32_bytes(size)
}

pub fn sfn_entry_bytes(
    sfn: &Vec<u8>,
    is_dir: bool,
    now: DateTime,
    first_cluster: u32,
    size: u32,
) -> (r: Vec<u8>)
    requires
        sfn@.len() == 11,
    ensures
        r@ == sfn_slot(sfn@, is_dir, now, first_cluster, size),
        r@.len() == 32,
{
    let (date, time) = fat_datetime(now);
    let mut e: Vec<u8> = Vec::new();
    e.extend_from_slice(sfn.as_slice());
    e.push(if is_dir { 0x10 } else { 0x20 });
    e.push(0);
    e.push(0);
    crate::bytes::push_le16(&mut e, time);
    crate::bytes::push_le16(&mut e, date);
    crate::bytes::push_le16(&mut e, date);
    crate::bytes::push_le16(&mut e, (first_cluster / 0x1_0000) as u16);
    crate::bytes::push_le16(&mut e, time);
    crate::bytes::push_le16(&mut e, date);
    crate::bytes::push_le16(&mut e, (first_cluster % 0x1_0000) as u16);
    crate::bytes::push_le32(&mut e, size);
    assert(e@ =~= sfn_slot(sfn@, is_dir, now, first_cluster, size));
    e
}

/// The first cluster named in the slot at `at`.
pub open spec fn slot_cluster(sector: Seq<u8>, at: int) -> u32 {
    (le16(sector, at + 0x14) * 0x1_0000 + le16(sector, at + 0x1A)) as u32
}

pub fn read_slot_cluster(sector: &Vec<u8>, at: usize) -> (r: u32)
    requires
        at + 32 <= sector@.len(),
    ensures
        r == slot_cluster(sector@, at as int),
{
    assert(sector@.len() == sector.len());
    let high = get_le16(sector.as_slice(), at + 0x14) as u32;
    let low = get_le16(sector.as_slice(), at + 0x1A) as u32;
    high * 0x1_0000 + low
}

/// The size named in the slot at `at`.
pub fn read_slot_size(sector: &Vec<u8>, at: usize) -> (r: u32)
    requires
        at + 32 <= sector@.len(),
    ensures
        r == le32(sector@, at + 0x1C),
{
    assert(sector@.len() == sector.len());
    get_le32(sector.as_slice(), at + 0x1C)
}

/// A slot that was laid out reads back as its kind, first cluster and
/// size.
pub proof fn law_sfn_slot_round_trip(
    sfn: Seq<u8>,
    is_dir: bool,
    dt: DateTime,
    first: u32,
    size: u32,
)
    requires
        sfn.len() == 11,
    ensures
        ({
            let s = sfn_slot(sfn, is_dir, dt, first, size);
            &&& s.len() == 32
            &&& s.take(11) == sfn
            &&& s[0x0B] == if is_dir { 0x10u8 } else { 0x20u8 }
            &&& slot_cluster(s, 0) == first
            &&& le32(s, 0x1C) == size
        }),
{
    let s = sfn_slot(sfn, is_dir, dt, first, size);
    let h = le16_bytes((first / 0x1_0000) as u16);
    let l = le16_bytes((first % 0x1_0000) as u16);
    let z = le32_bytes(size);
    assert(s.take(11) =~= sfn);
    assert(s[0x14] == h[0] && s[0x15] == h[1]);
    assert(s[0x1A] == l[0] && s[0x1B] == l[1]);
    assert(s[0x1C] == z[0] && s[0x1D] == z[1] && s[0x1E] == z[2] && s[0x1F] == z[3]);
    crate::bytes::lemma_le16_round_trip((first / 0x1_0000) as u16);
    crate::bytes::lemma_le16_round_trip((first % 0x1_0000) as u16);
    crate::bytes::lemma_le32_round_trip(size);
}

/// All slots for an entry, in the order in which they stand in the
/// directory: the long-name parts from the last to the first, then the
/// short-name slot. `i` is the number of long-name parts still to come.
pub open spec fn lfn_slots(u: Seq<u16>, i: nat, checksum: u8) -> Seq<Seq<u8>>
    decreases i,
{
    if i == 0 {
        Seq::empty()
    } else {
        seq![lfn_slot(i as u8, name_part(u, i - 1), i == 1, checksum)] + lfn_slots(
            u,
            (i - 1) as nat,
            checksum,
        )
    }
}

pub open spec fn entry_slots(
    name: Seq<char>,
    is_dir: bool,
    dt: DateTime,
    first: u32,
    size: u32,
) -> Seq<Seq<u8>> {
    let sfn = short_name(name);
    lfn_slots(name_units(name), lfn_count(name.len()), short_checksum(sfn)).push(
        sfn_slot(sfn, is_dir, dt, first, size),
    )
}

pub open spec fn slot_views(v: Seq<Vec<u8>>) -> Seq<Seq<u8>> {
    Seq::new(v.len(), |i: int| v[i]@)
}

pub proof fn lemma_lfn_slots(u: Seq<u16>, i: nat, checksum: u8)
    ensures
        lfn_slots(u, i, checksum).len() == i,
        forall|k: int|
            0 <= k < i ==> #[trigger] lfn_slots(u, i, checksum)[k] == lfn_slot(
                (i - k) as u8,
                name_part(u, i - k - 1),
                i - k == 1,
                checksum,
            ),
    decreases i,
{
    if i > 0 {
        lemma_lfn_slots(u, (i - 1) as nat, checksum);
        let rest = lfn_slots(u, (i - 1) as nat, checksum);
        assert forall|k: int| 0 <= k < i implies #[trigger] lfn_slots(u, i, checksum)[k] == lfn_slot(
            (i - k) as u8,
            name_part(u, i - k - 1),
            i - k == 1,
            checksum,
        ) by {
            if k > 0 {
                assert(lfn_slots(u, i, checksum)[k] == rest[k - 1]);
            }
        }
    }
}

/// Builds the slots for an entry.
pub fn build_slots(
    name: &Vec<char>,
    is_dir: bool,
    now: DateTime,
    first_cluster: u32,
    size: u32,
) -> (r: Vec<Vec<u8>>)
    requires
        name@.len() <= 128,
    ensures
        slot_views(r@) == entry_slots(name@, is_dir, now, first_cluster, size),
        r@.len() == lfn_count(name@.len()) + 1,
        forall|k: int| 0 <= k < r@.len() ==> (#[trigger] r@[k])@.len() == 32,
{
    let sfn = make_sfn(name);
    let checksum = sfn_checksum(&sfn);
    let ghost u = name_units(name@);
    let count: usize = (name.len() + 12) / 13;
    let mut entries: Vec<Vec<u8>> = Vec::new();
    let mut i: usize = count;
    let ghost all = lfn_slots(u, count as nat, checksum);
    assert(slot_views(entries@) + lfn_slots(u, i as nat, checksum) =~= all);
    while i > 0
        invariant
            i <= count <= 10,
            name@.len() <= 128,
            u == name_units(name@),
            slot_views(entries@) + lfn_slots(u, i as nat, checksum) == all,
            forall|k: int| 0 <= k < entries@.len() ==> (#[trigger] entries@[k])@.len() == 32,
            entries@.len() + i == count,
        decreases i,
    {
        let ghost before = slot_views(entries@);
        let mut part: Vec<u16> = Vec::new();
        let mut k: usize = 0;
        while k < 13
            invariant
                k <= 13,
                1 <= i <= 10,
                name@.len() <= 128,
                u == name_units(name@),
                part@ =~= name_part(u, i - 1).take(k as int),
            decreases 13 - k,
        {
            let at = (i - 1) * 13 + k;
            part.push(
                if at < name.len() {
                    (name[at] as u32 % 0x1_0000) as u16
                } else if i == 1 && k == name.len() {
                    0
                } else {
                    0xFFFF
                },
            );
            k += 1;
        }
        assert(part@ =~= name_part(u, i - 1));
        let slot = lfn_entry_bytes(i as u8, &part, i == 1, checksum);
        let ghost sv = slot@;
        entries.push(slot);
        i -= 1;
        assert(slot_views(entries@) =~= before.push(sv));
        assert(before.push(sv) + lfn_slots(u, i as nat, checksum) =~= before + (seq![sv]
            + lfn_slots(u, i as nat, checksum)));
    }
    let ghost before = slot_views(entries@);
    assert(before + lfn_slots(u, 0, checksum) =~= before);
    let last = sfn_entry_bytes(&sfn, is_dir, now, first_cluster, size);
    let ghost lv = last@;
    entries.push(last);
    assert(slot_views(entries@) =~= before.push(lv));
    entries
}

/// Whether a name survives being stored: every character is ASCII and no
/// end mark.
pub open spec fn storable(name: Seq<char>) -> bool {
    forall|i: int| 0 <= i < name.len() ==> 0 < (#[trigger] name[i]) as u32 && (name[i] as u32) < 0x80
}

/// The parts of a long name in order.
pub open spec fn name_parts(u: Seq<u16>, from: int, count: int) -> Seq<Seq<u16>> {
    Seq::new((count - from) as nat, |k: int| name_part(u, from + k))
}

proof fn lemma_joined_text(name: Seq<char>, from: int, count: int, pending: Seq<Seq<u16>>)
    requires
        storable(name),
        count == lfn_count(name.len()),
        0 <= from <= count,
        pending.len() == 0 || name.len() % 13 != 0,
    ensures
        13 * from <= name.len() ==> lfn_text(
            joined(name_parts(name_units(name), from, count) + pending),
        ) == name.skip(13 * from),
    decreases count - from,
{
    let u = name_units(name);
    let parts = name_parts(u, from, count) + pending;
    if from < count {
        lemma_joined_text(name, from + 1, count, pending);
        assert(parts.skip(1) =~= name_parts(u, from + 1, count) + pending);
        let rest = joined(parts.skip(1));
        lemma_part_text(name, from, 0, rest);
        assert(parts[0].skip(0) =~= parts[0]);
    } else if 13 * from <= name.len() {
        assert(parts =~= pending);
        assert(name.skip(13 * from) =~= Seq::<char>::empty());
    }
}

proof fn lemma_part_text(name: Seq<char>, i: int, k: int, rest: Seq<u16>)
    requires
        storable(name),
        0 <= i,
        13 * i < name.len(),
        0 <= k <= 13,
        13 * (i + 1) <= name.len() ==> lfn_text(rest) == name.skip(13 * (i + 1)),
    ensures
        13 * i + k <= name.len() ==> lfn_text(name_part(name_units(name), i).skip(k) + rest)
            == name.skip(13 * i + k),
    decreases 13 - k,
{
    let u = name_units(name);
    let p = name_part(u, i);
    let s = p.skip(k) + rest;
    if 13 * i + k <= name.len() {
        if k == 13 {
            assert(s =~= rest);
        } else if 13 * i + k < name.len() {
            lemma_part_text(name, i, k + 1, rest);
            assert(s[0] == u[13 * i + k]);
            assert(s.skip(1) =~= p.skip(k + 1) + rest);
            let c = name[13 * i + k];
            vstd::utf8::char_u32_cast(c, c as u32);
            assert(lfn_char(s[0]) == c);
            assert(seq![c] + name.skip(13 * i + k + 1) =~= name.skip(13 * i + k));
        } else {
            assert(s[0] == 0 || s[0] == 0xFFFF);
            assert(name.skip(13 * i + k) =~= Seq::<char>::empty());
        }
    }
}

/// The parts of a long name, read back in order, make up the name, also
/// with other parts behind them unless the name fills its last part.
pub proof fn law_long_name_before(name: Seq<char>, pending: Seq<Seq<u16>>)
    requires
        storable(name),
        pending.len() == 0 || name.len() % 13 != 0,
    ensures
        lfn_text(
            joined(name_parts(name_units(name), 0, lfn_count(name.len()) as int) + pending),
        ) == name,
{
    lemma_joined_text(name, 0, lfn_count(name.len()) as int, pending);
    assert(name.skip(0) =~= name);
}

proof fn lemma_sfn_chars(s: Seq<u8>)
    ensures
        forall|i: int|
            0 <= i < sfn_chars(s).len() ==> 33 <= #[trigger] sfn_chars(s)[i] && sfn_chars(s)[i]
                <= 126,
    decreases s.len(),
{
    if s.len() > 0 {
        lemma_sfn_chars(s.drop_last());
        let t = sfn_chars(s.drop_last());
        assert forall|i: int| 0 <= i < sfn_chars(s).len() implies 33 <= #[trigger] sfn_chars(s)[i]
            && sfn_chars(s)[i] <= 126 by {
            if i < t.len() {
                assert(sfn_chars(s)[i] == t[i]);
            }
        }
    }
}

/// A short name has eleven bytes, and its first byte neither ends a
/// directory nor marks a free slot.
pub proof fn lemma_short_name_start(name: Seq<char>)
    ensures
        short_name(name).len() == 11,
        short_name(name)[0] != 0,
        short_name(name)[0] != 0xE5,
{
    let b = encode_utf8(name);
    lemma_sfn_chars(b.take(last_dot(b)));
    let f = sfn_chars(b.take(last_dot(b)));
    assert(short_name(name)[0] == field(f, 8)[0]);
}

/// The date and time words hold year since 1980, month, day, hour, minute
/// and half the seconds, each in its field.
pub proof fn law_date_and_time_fields(dt: DateTime)
    requires
        1980 <= dt.year <= 2107,
        1 <= dt.month <= 12,
        1 <= dt.day <= 31,
        dt.hour < 24,
        dt.minute < 60,
        dt.second < 60,
    ensures
        1980 + fat_date(dt) / 512 == dt.year,
        fat_date(dt) / 32 % 16 == dt.month,
        fat_date(dt) % 32 == dt.day,
        fat_time(dt) / 2048 == dt.hour,
        fat_time(dt) / 32 % 64 == dt.minute,
        fat_time(dt) % 32 == dt.second / 2,
{
    let (y, m, d) = (dt.year - 1980, dt.month as int, dt.day as int);
    let v = y * 512 + m * 32 + d;
    assert(fat_date(dt) == v);
    assert(v / 32 == y * 16 + m && v % 32 == d);
    assert((y * 16 + m) % 16 == m && v / 512 == y);
    let (h, n, s) = (dt.hour as int, dt.minute as int, dt.second as int / 2);
    let w = h * 2048 + n * 32 + s;
    assert(fat_time(dt) == w);
    assert(w / 32 == h * 64 + n && w % 32 == s);
    assert((h * 64 + n) % 64 == n && w / 2048 == h);
}

/// The slot of a short name says what the entry is where the format has it:
/// the name, the kind, the time and date of the last change, the two halves
/// of the first cluster, and the size.
pub proof fn law_sfn_slot_layout(sfn: Seq<u8>, is_dir: bool, dt: DateTime, first: u32, size: u32)
    requires
        sfn.len() == 11,
    ensures
        ({
            let s = sfn_slot(sfn, is_dir, dt, first, size);
            &&& s.len() == 32
            &&& s.subrange(0, 11) == sfn
            &&& s[11] == if is_dir {
                0x10u8
            } else {
                0x20u8
            }
            &&& s[22] + s[23] * 0x100 == fat_time(dt)
            &&& s[24] + s[25] * 0x100 == fat_date(dt)
            &&& s[26] + s[27] * 0x100 == first % 0x1_0000
            &&& s[20] + s[21] * 0x100 == first / 0x1_0000
            &&& s[28] + s[29] * 0x100 + s[30] * 0x1_0000 + s[31] * 0x100_0000 == size
        }),
{
    let s = sfn_slot(sfn, is_dir, dt, first, size);
    assert(s.subrange(0, 11) =~= sfn);
    let (t, d) = (le16_bytes(fat_time(dt)), le16_bytes(fat_date(dt)));
    let (h, l) = (le16_bytes((first / 0x1_0000) as u16), le16_bytes((first % 0x1_0000) as u16));
    let z = le32_bytes(size);
    assert(s[22] == t[0] && s[23] == t[1] && s[24] == d[0] && s[25] == d[1]);
    assert(s[20] == h[0] && s[21] == h[1] && s[26] == l[0] && s[27] == l[1]);
    assert(s[28] == z[0] && s[29] == z[1] && s[30] == z[2] && s[31] == z[3]);
    crate::bytes::lemma_le32_round_trip(size);
}

} // verus!
