//! What drawing does to each pixel.

use crate::deflate_laws::place_value;
use crate::font::glyph_bit;
use crate::gfx::{between, channel, filled, gradient, mix, pasted, rgb, shade, steps, with_char, with_text, Pic};
use vstd::prelude::*;

verus! {

/// Filling a rectangle colors the pixels from its corner on, as many as it
/// is wide and high, and no other.
pub proof fn law_filled_pixels(p: Pic, x: int, y: int, w: int, h: int, color: u32, a: int, b: int)
    requires
        p.wf(),
        0 <= a < p.w,
        0 <= b < p.h,
    ensures
        filled(p, x, y, w, h, color).w == p.w && filled(p, x, y, w, h, color).h == p.h,
        0 <= a - x < w && 0 <= b - y < h ==> filled(p, x, y, w, h, color).at(a, b) == color,
        !(0 <= a - x < w && 0 <= b - y < h) ==> filled(p, x, y, w, h, color).at(a, b) == p.at(a, b),
{
}

/// Pasting a picture row by row puts its pixel in column `i` of row `j` that
/// far right of and below the corner, and changes no pixel outside.
pub proof fn law_pasted_pixels(p: Pic, x: int, y: int, src: Seq<u32>, w: int, h: int, a: int, b: int)
    requires
        p.wf(),
        0 <= a < p.w,
        0 <= b < p.h,
    ensures
        0 <= a - x < w && 0 <= b - y < h ==> pasted(p, x, y, src, w, h, -1, h).at(a, b) == src[(b - y) * w + (a - x)],
        !(0 <= a - x < w && 0 <= b - y < h) ==> pasted(p, x, y, src, w, h, -1, h).at(a, b) == p.at(a, b),
{
}

/// A glyph is eight bytes, one for each row from the top, the lowest bit of
/// a row leftmost. At scale `s` each of its pixels is `s` pixels wide and
/// high, in the foreground color where the bit is set, else in the
/// background color if there is one.
pub proof fn law_glyph_pixels(
    p: Pic,
    bits: Seq<u8>,
    s: int,
    x: int,
    y: int,
    ch: u8,
    fg: u32,
    bg: Option<u32>,
    row: int,
    col: int,
    i: int,
    j: int,
)
    requires
        p.wf(),
        bits.len() == 2048,
        1 <= s <= 2,
        0 <= row < 8,
        0 <= col < 8,
        0 <= i < s,
        0 <= j < s,
        0 <= x + col * s + i < p.w,
        0 <= y + row * s + j < p.h,
    ensures
        ({
            let q = with_char(p, bits, s, x, y, ch, fg, bg);
            let (a, b) = (x + col * s + i, y + row * s + j);
            let set = bits[8 * ch + row] as int / place_value(col) % 2 == 1;
            &&& set ==> q.at(a, b) == fg
            &&& !set ==> q.at(a, b) == (if bg is Some {
                bg->0
            } else {
                p.at(a, b)
            })
        }),
{
    let v = bits[8 * ch + row];
    assert((v & (1u8 << 0u8) != 0) == (v % 2 == 1) && (v & (1u8 << 1u8) != 0) == (v / 2 % 2 == 1) && (v & (1u8 << 2u8)
        != 0) == (v / 4 % 2 == 1) && (v & (1u8 << 3u8) != 0) == (v / 8 % 2 == 1) && (v & (1u8 << 4u8) != 0) == (v / 16
        % 2 == 1) && (v & (1u8 << 5u8) != 0) == (v / 32 % 2 == 1) && (v & (1u8 << 6u8) != 0) == (v / 64 % 2 == 1) && (v
        & (1u8 << 7u8) != 0) == (v / 128 % 2 == 1)) by (bit_vector);
    assert(col == 0 || col == 1 || col == 2 || col == 3 || col == 4 || col == 5 || col == 6 || col == 7);
    let set = v as int / place_value(col) % 2 == 1;
    assert(glyph_bit(bits, ch, row, col) == set);
    if s == 1 {
        assert((x + col * s + i - x) / s == col && (y + row * s + j - y) / s == row);
    } else {
        assert(s == 2);
        assert((x + col * s + i - x) / s == col && (y + row * s + j - y) / s == row);
    }
}

/// Drawing a character changes no pixel outside its cell of eight by eight
/// scaled pixels.
pub proof fn law_glyph_stays_in_its_cell(
    p: Pic,
    bits: Seq<u8>,
    s: int,
    x: int,
    y: int,
    ch: u8,
    fg: u32,
    bg: Option<u32>,
    a: int,
    b: int,
)
    requires
        p.wf(),
        0 <= a < p.w,
        0 <= b < p.h,
        !(0 <= a - x < 8 * s && 0 <= b - y < 8 * s),
    ensures
        with_char(p, bits, s, x, y, ch, fg, bg).at(a, b) == p.at(a, b),
{
}

/// The last character of a text stands as many cells right of its start as
/// there are characters before it.
pub proof fn law_text_runs_right(
    p: Pic,
    bits: Seq<u8>,
    s: int,
    x: int,
    y: int,
    text: Seq<u8>,
    fg: u32,
    bg: Option<u32>,
)
    requires
        text.len() > 0,
    ensures
        with_text(p, bits, s, x, y, text, fg, bg, text.len()) == with_char(
            with_text(p, bits, s, x, y, text, fg, bg, (text.len() - 1) as nat),
            bits,
            s,
            x + (text.len() - 1) * (8 * s),
            y,
            text.last(),
            fg,
            bg,
        ),
        with_text(p, bits, s, x, y, text, fg, bg, 0) == p,
{
}

/// A gradient starts with the upper color and ends with the lower one.
pub proof fn law_gradient_ends(top: u32, bottom: u32, h: int)
    requires
        top <= 0xFF_FFFF,
        bottom <= 0xFF_FFFF,
        h >= 2,
    ensures
        shade(top, bottom, 0, h) == top,
        shade(top, bottom, h - 1, h) == bottom,
{
    let n = steps(h);
    assert(n == h - 1);
    assert forall|k: int| 0 <= k < 3 implies #[trigger] between(channel(top, k), channel(bottom, k), 0, n) == channel(
        top,
        k,
    ) && between(channel(top, k), channel(bottom, k), n, n) == channel(bottom, k) by {
        let (a, b) = (channel(top, k), channel(bottom, k));
        let d = if b >= a {
            b - a
        } else {
            a - b
        };
        assert(d * 0 / n == 0) by (nonlinear_arith)
            requires
                n >= 1,
        ;
        assert(d * n / n == d) by (nonlinear_arith)
            requires
                n >= 1,
        ;
    }
    assert(between(channel(top, 0), channel(bottom, 0), 0, n) == channel(top, 0));
    assert(between(channel(top, 1), channel(bottom, 1), 0, n) == channel(top, 1));
    assert(between(channel(top, 2), channel(bottom, 2), 0, n) == channel(top, 2));
    lemma_channels(top);
    lemma_channels(bottom);
}

/// The channels are red, green and blue from the third byte down, and make
/// up the color.
proof fn lemma_channels(c: u32)
    requires
        c <= 0xFF_FFFF,
    ensures
        rgb(channel(c, 2), channel(c, 1), channel(c, 0)) == c,
{
}

/// The channels of a color lie in its bytes: blue lowest, then green, then
/// red.
pub proof fn law_channels(r: u8, g: u8, b: u8)
    ensures
        rgb(r as int, g as int, b as int) == r * 65536 + g * 256 + b,
        channel(rgb(r as int, g as int, b as int), 2) == r,
        channel(rgb(r as int, g as int, b as int), 1) == g,
        channel(rgb(r as int, g as int, b as int), 0) == b,
{
    let v = r * 65536 + g * 256 + b;
    assert(v == 256 * (r * 256 + g) + b);
    assert(v / 256 == r * 256 + g && v % 256 == b);
    assert((r * 256 + g) % 256 == g && (r * 256 + g) / 256 == r);
    assert(v / 65536 == r);
}

/// Blending gives each channel its share of the foreground by the opacity,
/// cut to a whole number, and lies between the two.
pub proof fn law_blend_shares(f: int, b: int, alpha: int)
    requires
        0 <= f <= 255,
        0 <= b <= 255,
        0 <= alpha <= 255,
    ensures
        255 * mix(f, b, alpha) <= alpha * f + (255 - alpha) * b < 255 * mix(f, b, alpha) + 255,
        f <= b ==> f <= mix(f, b, alpha) <= b,
        b <= f ==> b <= mix(f, b, alpha) <= f,
{
    assert(alpha * f + (255 - alpha) * b == f * alpha + b * (255 - alpha)) by (nonlinear_arith);
    let t = f * alpha + b * (255 - alpha);
    if f <= b {
        assert(255 * f <= t <= 255 * b) by (nonlinear_arith)
            requires
                f <= b,
                0 <= alpha <= 255,
                t == f * alpha + b * (255 - alpha),
        ;
    }
    if b <= f {
        assert(255 * b <= t <= 255 * f) by (nonlinear_arith)
            requires
                b <= f,
                0 <= alpha <= 255,
                t == f * alpha + b * (255 - alpha),
        ;
    }
}

} // verus!
