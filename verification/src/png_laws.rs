//! What the decoder gives back of what a PNG encoder put in: the scanline
//! filters undone, the pixels of each color type, and whole files.

use crate::bytes::be32;
use crate::deflate::inflated;
use crate::png::{
    after_chunk, argb, bytes_per_pixel, chunks_from, decoded, good_header, has_signature, is_type, known_filter, line,
    line_len, no_chunks, paeth_of, picture, pixel_of, pixels_to, predicted, unfiltered, Chunks,
};
use vstd::prelude::*;

verus! {

// ---------------------------------------------------------------------
// Filters
// ---------------------------------------------------------------------

/// The byte one pixel before place `i` of a line, zero for the first pixel.
pub open spec fn before(x: Seq<u8>, i: int, bpp: nat) -> int {
    if i < bpp {
        0
    } else {
        x[i - bpp] as int
    }
}

/// How far `q` is from `a + b - c`.
pub open spec fn miss(a: int, b: int, c: int, q: int) -> int {
    let d = a + b - c - q;
    if d < 0 {
        -d
    } else {
        d
    }
}

/// Whether `q` is the Paeth prediction from the bytes to the left, above and
/// above to the left: the one of the three nearest to `a + b - c`, the left
/// one before the one above before the third where they are equally near.
pub open spec fn is_paeth(a: int, b: int, c: int, q: int) -> bool {
    &&& q == a || q == b || q == c
    &&& miss(a, b, c, q) <= miss(a, b, c, a)
    &&& miss(a, b, c, q) <= miss(a, b, c, b)
    &&& miss(a, b, c, q) <= miss(a, b, c, c)
    &&& miss(a, b, c, q) == miss(a, b, c, a) ==> q == a
    &&& miss(a, b, c, q) == miss(a, b, c, b) && miss(a, b, c, q) < miss(a, b, c, a) ==> q == b
}

/// Whether an encoder may have written byte `i` of the line `x` as `r`
/// under a filter, `p` being the line above.
pub open spec fn written_as(filter: u8, x: Seq<u8>, p: Seq<u8>, bpp: nat, i: int, r: u8) -> bool {
    let left = before(x, i, bpp);
    let up = p[i] as int;
    let corner = before(p, i, bpp);
    match filter {
        0 => r == x[i],
        1 => r == (x[i] - left) % 256,
        2 => r == (x[i] - up) % 256,
        3 => r == (x[i] - (left + up) / 2) % 256,
        4 => exists|q: int| #[trigger] is_paeth(left, up, corner, q) && r == (x[i] - q) % 256,
        _ => false,
    }
}

/// Whether `r` is the line `x` under a filter, `p` being the line above.
pub open spec fn filtered_line(filter: u8, x: Seq<u8>, p: Seq<u8>, bpp: nat, r: Seq<u8>) -> bool {
    &&& filter <= 4
    &&& r.len() == x.len()
    &&& p.len() == x.len()
    &&& forall|i: int| 0 <= i < x.len() ==> written_as(filter, x, p, bpp, i, #[trigger] r[i])
}

proof fn lemma_paeth(a: int, b: int, c: int, q: int)
    requires
        is_paeth(a, b, c, q),
    ensures
        q == paeth_of(a, b, c),
{
}

proof fn lemma_undone(filter: u8, x: Seq<u8>, p: Seq<u8>, bpp: nat, r: Seq<u8>, n: nat)
    requires
        bpp > 0,
        filtered_line(filter, x, p, bpp, r),
        n <= x.len(),
    ensures
        unfiltered(filter, r, p, bpp, n) == x.take(n as int),
    decreases n,
{
    if n > 0 {
        let i = n - 1;
        lemma_undone(filter, x, p, bpp, r, i as nat);
        let cur = x.take(i);
        assert(written_as(filter, x, p, bpp, i, r[i]));
        let left = if i >= bpp { cur[i - bpp] } else { 0u8 };
        let corner = if i >= bpp { p[i - bpp] } else { 0u8 };
        assert(left == before(x, i, bpp));
        let want = predicted(filter, left, p[i], corner);
        if filter == 4 {
            let q = choose|q: int| #[trigger] is_paeth(left as int, p[i] as int, corner as int, q) && r[i] == (x[i] - q)
                % 256;
            lemma_paeth(left as int, p[i] as int, corner as int, q);
        }
        assert(r[i] == (x[i] - want) % 256);
        assert((r[i] + want) % 256 == x[i]);
        assert(x.take(n as int) =~= cur.push(x[i]));
    } else {
        assert(x.take(0) =~= Seq::<u8>::empty());
    }
}

/// Undoing a filter gives back the line that an encoder filtered, under
/// each of the five filters.
pub proof fn law_filters_are_undone(filter: u8, x: Seq<u8>, above: Seq<u8>, bpp: nat, r: Seq<u8>)
    requires
        bpp > 0,
        filtered_line(filter, x, above, bpp, r),
    ensures
        unfiltered(filter, r, above, bpp, x.len()) == x,
{
    lemma_undone(filter, x, above, bpp, r, x.len());
    assert(x.take(x.len() as int) =~= x);
}

// ---------------------------------------------------------------------
// Pixels
// ---------------------------------------------------------------------

/// Whether a pixel has these channels: alpha in the highest byte, then red,
/// green and blue.
pub open spec fn has_channels(p: u32, a: u8, r: u8, g: u8, b: u8) -> bool {
    &&& p / 0x100_0000 == a
    &&& p / 0x1_0000 % 256 == r
    &&& p / 0x100 % 256 == g
    &&& p % 256 == b
}

/// Whether a pixel is what the bytes of pixel `x` of a line stand for in a
/// color type: 0 one gray byte, 2 red, green and blue, 3 a palette entry
/// with the entry's own alpha, 4 gray and alpha, 6 red, green, blue and
/// alpha.
pub open spec fn shows(p: u32, color: u8, palette: Seq<u8>, trns: Seq<u8>, l: Seq<u8>, x: int) -> bool {
    match color {
        0 => has_channels(p, 255, l[x], l[x], l[x]),
        2 => has_channels(p, 255, l[3 * x], l[3 * x + 1], l[3 * x + 2]),
        3 => {
            let e = l[x] as int;
            let alpha = if e < trns.len() { trns[e] } else { 255u8 };
            if 3 * e + 3 <= palette.len() {
                has_channels(p, alpha, palette[3 * e], palette[3 * e + 1], palette[3 * e + 2])
            } else {
                has_channels(p, alpha, 0, 0, 0)
            }
        },
        4 => has_channels(p, l[2 * x + 1], l[2 * x], l[2 * x], l[2 * x]),
        6 => has_channels(p, l[4 * x + 3], l[4 * x], l[4 * x + 1], l[4 * x + 2]),
        _ => false,
    }
}

/// How many bytes a pixel takes in each color type.
pub open spec fn pixel_bytes(color: u8) -> int {
    match color {
        2 => 3,
        4 => 2,
        6 => 4,
        _ => 1,
    }
}

proof fn lemma_argb(a: u8, r: u8, g: u8, b: u8)
    ensures
        has_channels(argb(a, r, g, b), a, r, g, b),
{
    let v = a * 0x100_0000 + r * 0x1_0000 + g * 0x100 + b;
    assert(v == 0x100 * (a * 0x1_0000 + r * 0x100 + g) + b);
    assert(v % 256 == b && v / 0x100 == a * 0x1_0000 + r * 0x100 + g);
    let x = a * 0x1_0000 + r * 0x100 + g;
    assert(x == 0x100 * (a * 0x100 + r) + g);
    assert(x % 256 == g && x / 0x100 == a * 0x100 + r);
    assert(v / 0x1_0000 == x / 0x100);
    let y = a * 0x100 + r;
    assert(y == 0x100 * a + r);
    assert(y % 256 == r && y / 0x100 == a);
    assert(v / 0x100_0000 == y / 0x100);
}

proof fn lemma_shows(s: Chunks, l: Seq<u8>, x: int)
    requires
        s.color_type == 0 || s.color_type == 2 || s.color_type == 3 || s.color_type == 4 || s.color_type == 6,
    ensures
        shows(pixel_of(s, l, x), s.color_type, s.palette, s.trns, l, x),
{
    let c = s.color_type;
    if c == 0 {
        lemma_argb(0xFF, l[x], l[x], l[x]);
    } else if c == 2 {
        lemma_argb(0xFF, l[3 * x], l[3 * x + 1], l[3 * x + 2]);
    } else if c == 3 {
        let e = l[x] as int;
        let alpha = if e < s.trns.len() { s.trns[e] } else { 0xFFu8 };
        if 3 * e + 2 < s.palette.len() {
            lemma_argb(alpha, s.palette[3 * e], s.palette[3 * e + 1], s.palette[3 * e + 2]);
        } else {
            lemma_argb(alpha, 0, 0, 0);
        }
    } else if c == 4 {
        lemma_argb(l[2 * x + 1], l[2 * x], l[2 * x], l[2 * x]);
    } else {
        lemma_argb(l[4 * x + 3], l[4 * x], l[4 * x + 1], l[4 * x + 2]);
    }
}

// ---------------------------------------------------------------------
// Pictures
// ---------------------------------------------------------------------

/// Whether `raw` holds the lines, each `n` bytes behind its filter byte and
/// filtered with it; the line above the first is zero.
pub open spec fn holds_lines(raw: Seq<u8>, lines: Seq<Seq<u8>>, n: nat, bpp: nat) -> bool {
    &&& raw.len() >= lines.len() * (n + 1)
    &&& forall|y: int| 0 <= y < lines.len() ==> #[trigger] holds_line(raw, lines, n, bpp, y)
}

pub open spec fn holds_line(raw: Seq<u8>, lines: Seq<Seq<u8>>, n: nat, bpp: nat, y: int) -> bool {
    let at = y * (n + 1);
    let above = if y == 0 {
        Seq::new(n, |i: int| 0u8)
    } else {
        lines[y - 1]
    };
    &&& lines[y].len() == n
    &&& filtered_line(raw[at], lines[y], above, bpp, raw.subrange(at + 1, at + 1 + n))
}

proof fn lemma_line(s: Chunks, raw: Seq<u8>, lines: Seq<Seq<u8>>, y: int)
    requires
        0 <= y < lines.len(),
        holds_lines(raw, lines, line_len(s), bytes_per_pixel(s.color_type)),
    ensures
        line(s, raw, y) == lines[y],
    decreases y,
{
    let n = line_len(s);
    let bpp = bytes_per_pixel(s.color_type);
    assert(holds_line(raw, lines, n, bpp, y));
    let at = y * (n + 1);
    let above = if y == 0 {
        Seq::new(n, |i: int| 0u8)
    } else {
        lines[y - 1]
    };
    if y > 0 {
        lemma_line(s, raw, lines, y - 1);
    } else {
        assert(line(s, raw, -1) =~= above);
    }
    law_filters_are_undone(raw[at], lines[y], above, bpp, raw.subrange(at + 1, at + 1 + n));
}

proof fn lemma_pixels(s: Chunks, raw: Seq<u8>, lines: Seq<Seq<u8>>, y: nat)
    requires
        y <= lines.len(),
        holds_lines(raw, lines, line_len(s), bytes_per_pixel(s.color_type)),
        s.color_type == 0 || s.color_type == 2 || s.color_type == 3 || s.color_type == 4 || s.color_type == 6,
    ensures
        pixels_to(s, raw, y).len() == y * s.width,
        forall|v: int, x: int|
            0 <= v < y && 0 <= x < s.width ==> #[trigger] shows_at(pixels_to(s, raw, y), s, lines, v, x),
    decreases y,
{
    if y > 0 {
        let z = (y - 1) as nat;
        lemma_pixels(s, raw, lines, z);
        lemma_line(s, raw, lines, z as int);
        let last = Seq::new(s.width as nat, |x: int| pixel_of(s, line(s, raw, z as int), x));
        let a = pixels_to(s, raw, z);
        let b = pixels_to(s, raw, y);
        assert(b == a + last);
        assert(y * s.width == z * s.width + s.width) by (nonlinear_arith)
            requires
                y == z + 1,
        ;
        assert forall|v: int, x: int| 0 <= v < y && 0 <= x < s.width implies #[trigger] shows_at(
            b,
            s,
            lines,
            v,
            x,
        ) by {
            if v < z {
                assert(shows_at(a, s, lines, v, x));
                assert(0 <= v * s.width + x < z * s.width) by (nonlinear_arith)
                    requires
                        0 <= v < z,
                        0 <= x < s.width,
                ;
                assert(b[v * s.width + x] == a[v * s.width + x]);
            } else {
                lemma_shows(s, lines[v], x);
                assert(b[v * s.width + x] == last[x]);
            }
        }
    } else {
        assert(0 * s.width == 0);
    }
}

/// Whether the pixel in column `x` of row `v` is the one that the line says.
pub open spec fn shows_at(px: Seq<u32>, s: Chunks, lines: Seq<Seq<u8>>, v: int, x: int) -> bool {
    shows(px[v * s.width + x], s.color_type, s.palette, s.trns, lines[v], x)
}

// ---------------------------------------------------------------------
// Files
// ---------------------------------------------------------------------

/// Whether `c` is a chunk: the length of its body, high byte first, the four
/// letters of its name, the body, and four more bytes.
pub open spec fn is_chunk(c: Seq<u8>, name: Seq<u8>, body: Seq<u8>) -> bool {
    &&& c.len() == 12 + body.len()
    &&& c[0] * 0x100_0000 + c[1] * 0x1_0000 + c[2] * 0x100 + c[3] == body.len()
    &&& name.len() == 4
    &&& c.subrange(4, 8) == name
    &&& c.subrange(8, 8 + body.len() as int) == body
}

/// Whether a header's body says this width, height and color type, with
/// eight bits a channel and no interlacing.
pub open spec fn is_header(h: Seq<u8>, w: u32, height: u32, color: u8) -> bool {
    &&& h.len() == 13
    &&& h[0] * 0x100_0000 + h[1] * 0x1_0000 + h[2] * 0x100 + h[3] == w
    &&& h[4] * 0x100_0000 + h[5] * 0x1_0000 + h[6] * 0x100 + h[7] == height
    &&& h[8] == 8 && h[9] == color
    &&& h[10] == 0 && h[11] == 0 && h[12] == 0
}

proof fn lemma_chunk(
    front: Seq<u8>,
    c: Seq<u8>,
    rest: Seq<u8>,
    name: Seq<u8>,
    body: Seq<u8>,
    s: Chunks,
)
    requires
        is_chunk(c, name, body),
    ensures
        ({
            let d = front + c + rest;
            let p = front.len() as int;
            &&& p + 12 + body.len() <= d.len()
            &&& be32(d, p) == body.len()
            &&& is_type(d, p + 4, name[0], name[1], name[2], name[3])
            &&& d.subrange(p + 8, p + 8 + body.len()) == body
        }),
{
    let d = front + c + rest;
    let p = front.len() as int;
    assert(d[p] == c[0] && d[p + 1] == c[1] && d[p + 2] == c[2] && d[p + 3] == c[3]);
    assert(c.subrange(4, 8)[0] == c[4] && c.subrange(4, 8)[1] == c[5] && c.subrange(4, 8)[2] == c[6] && c.subrange(
        4,
        8,
    )[3] == c[7]);
    assert(d[p + 4] == c[4] && d[p + 5] == c[5] && d[p + 6] == c[6] && d[p + 7] == c[7]);
    assert(d.subrange(p + 8, p + 8 + body.len()) =~= c.subrange(8, 8 + body.len() as int));
}

/// What one chunk makes of what was known.
pub open spec fn known_after(name: Seq<u8>, body: Seq<u8>, s: Chunks, t: Chunks) -> bool {
    if name == seq!['I' as u8, 'H' as u8, 'D' as u8, 'R' as u8] {
        is_header(body, t.width, t.height, t.color_type) && t == (Chunks {
            seen_ihdr: true,
            width: t.width,
            height: t.height,
            color_type: t.color_type,
            ..s
        })
    } else if name == seq!['P' as u8, 'L' as u8, 'T' as u8, 'E' as u8] {
        body.len() % 3 == 0 && t == (Chunks { palette: s.palette + body, ..s })
    } else if name == seq!['t' as u8, 'R' as u8, 'N' as u8, 'S' as u8] {
        t == (Chunks { trns: body, ..s })
    } else if name == seq!['I' as u8, 'D' as u8, 'A' as u8, 'T' as u8] {
        t == (Chunks { idat: s.idat + body, ..s })
    } else {
        t == s
    }
}

#[verifier::opaque]
spec fn read_from(d: Seq<u8>, p: int, s: Chunks) -> Option<Chunks> {
    chunks_from(d, p, s)
}

#[verifier::spinoff_prover]
proof fn lemma_end(front: Seq<u8>, c: Seq<u8>, s: Chunks)
    requires
        is_chunk(c, seq!['I' as u8, 'E' as u8, 'N' as u8, 'D' as u8], Seq::empty()),
    ensures
        read_from(front + c, front.len() as int, s) == Some(s),
{
    reveal(read_from);
    let e = Seq::<u8>::empty();
    lemma_no_rest(front + c);
    lemma_chunk(front, c, e, seq!['I' as u8, 'E' as u8, 'N' as u8, 'D' as u8], e, s);
}

#[verifier::spinoff_prover]
proof fn lemma_step(
    front: Seq<u8>,
    c: Seq<u8>,
    rest: Seq<u8>,
    name: Seq<u8>,
    body: Seq<u8>,
    s: Chunks,
    t: Chunks,
)
    requires
        is_chunk(c, name, body),
        name != seq!['I' as u8, 'E' as u8, 'N' as u8, 'D' as u8],
        known_after(name, body, s, t),
        t.color_type == 0 || t.color_type == 2 || t.color_type == 3 || t.color_type == 4 || t.color_type == 6,
    ensures
        read_from(front + c + rest, front.len() as int, s) == read_from(
            front + c + rest,
            (front + c).len() as int,
            t,
        ),
{
    reveal(read_from);
    lemma_chunk(front, c, rest, name, body, s);
    let d = front + c + rest;
    let p = front.len() as int;
    let q = p + 4;
    assert(name =~= seq![name[0], name[1], name[2], name[3]]);
    assert(is_type(d, q, 0x49, 0x48, 0x44, 0x52) <==> name =~= seq!['I' as u8, 'H' as u8, 'D' as u8, 'R' as u8]);
    assert(is_type(d, q, 0x50, 0x4C, 0x54, 0x45) <==> name =~= seq!['P' as u8, 'L' as u8, 'T' as u8, 'E' as u8]);
    assert(is_type(d, q, 0x74, 0x52, 0x4E, 0x53) <==> name =~= seq!['t' as u8, 'R' as u8, 'N' as u8, 'S' as u8]);
    assert(is_type(d, q, 0x49, 0x44, 0x41, 0x54) <==> name =~= seq!['I' as u8, 'D' as u8, 'A' as u8, 'T' as u8]);
    assert(is_type(d, q, 0x49, 0x45, 0x4E, 0x44) <==> name =~= seq!['I' as u8, 'E' as u8, 'N' as u8, 'D' as u8]);
    if name == seq!['I' as u8, 'H' as u8, 'D' as u8, 'R' as u8] {
        assert(good_header(body));
        assert(be32(body, 0) == t.width && be32(body, 4) == t.height);
    }
    assert(after_chunk(d, q, body, s) == Some(t));
}

proof fn lemma_assoc(a: Seq<u8>, b: Seq<u8>, c: Seq<u8>)
    ensures
        a + (b + c) == a + b + c,
{
    assert(a + (b + c) =~= a + b + c);
}

proof fn lemma_no_rest(a: Seq<u8>)
    ensures
        a + Seq::<u8>::empty() == a,
{
    assert(a + Seq::<u8>::empty() =~= a);
}

proof fn lemma_signed(a: Seq<u8>, b: Seq<u8>)
    requires
        has_signature(a),
    ensures
        has_signature(a + b),
{
}

/// What the chunks of a file are read as.
#[verifier::spinoff_prover]
proof fn lemma_file(
    c: Seq<Seq<u8>>,
    header: Seq<u8>,
    palette: Seq<u8>,
    trns: Seq<u8>,
    z1: Seq<u8>,
    z2: Seq<u8>,
    w: u32,
    h: u32,
    color: u8,
) -> (s: Chunks)
    requires
        color == 0 || color == 2 || color == 3 || color == 4 || color == 6,
        is_header(header, w, h, color),
        palette.len() % 3 == 0,
        c.len() == 6,
        is_chunk(c[0], seq!['I' as u8, 'H' as u8, 'D' as u8, 'R' as u8], header),
        is_chunk(c[1], seq!['P' as u8, 'L' as u8, 'T' as u8, 'E' as u8], palette),
        is_chunk(c[2], seq!['t' as u8, 'R' as u8, 'N' as u8, 'S' as u8], trns),
        is_chunk(c[3], seq!['I' as u8, 'D' as u8, 'A' as u8, 'T' as u8], z1),
        is_chunk(c[4], seq!['I' as u8, 'D' as u8, 'A' as u8, 'T' as u8], z2),
        is_chunk(c[5], seq!['I' as u8, 'E' as u8, 'N' as u8, 'D' as u8], Seq::empty()),
    ensures
        s == (Chunks { seen_ihdr: true, width: w, height: h, color_type: color, palette, trns, idat: z1 + z2 }),
        has_signature(
            seq![0x89u8, 0x50u8, 0x4Eu8, 0x47u8, 0x0Du8, 0x0Au8, 0x1Au8, 0x0Au8] + c[0] + c[1] + c[2] + c[3] + c[4]
                + c[5],
        ),
        chunks_from(
            seq![0x89u8, 0x50u8, 0x4Eu8, 0x47u8, 0x0Du8, 0x0Au8, 0x1Au8, 0x0Au8] + c[0] + c[1] + c[2] + c[3] + c[4]
                + c[5],
            8,
            no_chunks(),
        ) == Some(s),
{
    let sig = seq![0x89u8, 0x50u8, 0x4Eu8, 0x47u8, 0x0Du8, 0x0Au8, 0x1Au8, 0x0Au8];
    let d = sig + c[0] + c[1] + c[2] + c[3] + c[4] + c[5];
    let ihdr = seq!['I' as u8, 'H' as u8, 'D' as u8, 'R' as u8];
    let plte = seq!['P' as u8, 'L' as u8, 'T' as u8, 'E' as u8];
    let trns_name = seq!['t' as u8, 'R' as u8, 'N' as u8, 'S' as u8];
    let idat = seq!['I' as u8, 'D' as u8, 'A' as u8, 'T' as u8];
    let iend = seq!['I' as u8, 'E' as u8, 'N' as u8, 'D' as u8];
    let s0 = no_chunks();
    let s1 = Chunks { seen_ihdr: true, width: w, height: h, color_type: color, ..s0 };
    let s2 = Chunks { palette, ..s1 };
    let s3 = Chunks { trns, ..s2 };
    let s4 = Chunks { idat: z1, ..s3 };
    let s5 = Chunks { idat: z1 + z2, ..s4 };
    assert(s1.palette + palette =~= palette);
    assert(s3.idat + z1 =~= z1);
    let r4 = c[5];
    let r3 = c[4] + r4;
    let r2 = c[3] + r3;
    let r1 = c[2] + r2;
    let r0 = c[1] + r1;
    let f0 = sig;
    let f1 = f0 + c[0];
    let f2 = f1 + c[1];
    let f3 = f2 + c[2];
    let f4 = f3 + c[3];
    let f5 = f4 + c[4];
    lemma_assoc(f4, c[4], r4);
    lemma_assoc(f3, c[3], r3);
    lemma_assoc(f2, c[2], r2);
    lemma_assoc(f1, c[1], r1);
    assert(plte[0] != ihdr[0]);
    assert(trns_name[0] != ihdr[0] && trns_name[0] != plte[0]);
    assert(idat[1] != ihdr[1] && idat[0] != plte[0] && idat[0] != trns_name[0]);
    assert(ihdr[1] != iend[1] && plte[0] != iend[0] && trns_name[0] != iend[0] && idat[1] != iend[1]);
    lemma_step(f0, c[0], r0, ihdr, header, s0, s1);
    lemma_step(f1, c[1], r1, plte, palette, s1, s2);
    lemma_step(f2, c[2], r2, trns_name, trns, s2, s3);
    lemma_step(f3, c[3], r3, idat, z1, s3, s4);
    lemma_step(f4, c[4], r4, idat, z2, s4, s5);
    lemma_end(f5, c[5], s5);
    assert(chunks_from(d, 8, s0) == Some(s5)) by {
        reveal(read_from);
    }
    assert(has_signature(d)) by {
        lemma_signed(sig, c[0]);
        lemma_signed(f1, c[1]);
        lemma_signed(f2, c[2]);
        lemma_signed(f3, c[3]);
        lemma_signed(f4, c[4]);
        lemma_signed(f5, c[5]);
    }
    s5
}

/// A file of a header, a palette, transparency, two runs of compressed data
/// and an end mark decodes to the picture that its lines hold, each pixel as
/// its color type says.
#[verifier::spinoff_prover]
pub proof fn law_png_file_decodes(
    header: Seq<u8>,
    palette: Seq<u8>,
    trns: Seq<u8>,
    z1: Seq<u8>,
    z2: Seq<u8>,
    c: Seq<Seq<u8>>,
    raw: Seq<u8>,
    lines: Seq<Seq<u8>>,
    w: u32,
    h: u32,
    color: u8,
)
    requires
        color == 0 || color == 2 || color == 3 || color == 4 || color == 6,
        is_header(header, w, h, color),
        palette.len() % 3 == 0,
        c.len() == 6,
        is_chunk(c[0], seq!['I' as u8, 'H' as u8, 'D' as u8, 'R' as u8], header),
        is_chunk(c[1], seq!['P' as u8, 'L' as u8, 'T' as u8, 'E' as u8], palette),
        is_chunk(c[2], seq!['t' as u8, 'R' as u8, 'N' as u8, 'S' as u8], trns),
        is_chunk(c[3], seq!['I' as u8, 'D' as u8, 'A' as u8, 'T' as u8], z1),
        is_chunk(c[4], seq!['I' as u8, 'D' as u8, 'A' as u8, 'T' as u8], z2),
        is_chunk(c[5], seq!['I' as u8, 'E' as u8, 'N' as u8, 'D' as u8], Seq::empty()),
        (z1 + z2).len() > 0,
        inflated(z1 + z2) == Some(raw),
        lines.len() == h,
        holds_lines(raw, lines, (w * pixel_bytes(color)) as nat, pixel_bytes(color) as nat),
    ensures
        ({
            let d = seq![0x89u8, 0x50u8, 0x4Eu8, 0x47u8, 0x0Du8, 0x0Au8, 0x1Au8, 0x0Au8] + c[0] + c[1] + c[2] + c[3]
                + c[4] + c[5];
            &&& decoded(d) matches Some((dw, dh, px))
            &&& dw == w && dh == h
            &&& px.len() == h * w
            &&& forall|y: int, x: int|
                #![trigger px[y * w + x]]
                0 <= y < h && 0 <= x < w ==> shows(px[y * w + x], color, palette, trns, lines[y], x)
        }),
{
    let s5 = lemma_file(c, header, palette, trns, z1, z2, w, h, color);
    let n = line_len(s5);
    assert(n == w * pixel_bytes(color));
    assert forall|y: int| 0 <= y < h implies known_filter(s5, raw, y) by {
        assert(holds_line(raw, lines, n, pixel_bytes(color) as nat, y));
    }
    lemma_pixels(s5, raw, lines, h as nat);
    let px = pixels_to(s5, raw, h as nat);
    assert(picture(s5) == Some((w, h, px)));
    assert forall|y: int, x: int| #![trigger px[y * w + x]] 0 <= y < h && 0 <= x < w implies shows(
        px[y * w + x],
        color,
        palette,
        trns,
        lines[y],
        x,
    ) by {
        assert(shows_at(px, s5, lines, y, x));
    }
}

} // verus!
