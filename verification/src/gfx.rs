//! Surface-agnostic drawing primitives (rectangles, glyphs, strings).
//! Anything that can plot a pixel (the framebuffer's back buffer, a
//! window's private pixel buffer, ...) can implement `Surface` and reuse
//! these routines.

use crate::bytes::{get_le32, le32};
use crate::font::{glyph_bit, Font};
use vstd::prelude::*;

verus! {

/// A picture: its rows of pixels, from the top.
pub struct Pic {
    pub w: int,
    pub h: int,
    pub rows: Seq<Seq<u32>>,
}

impl Pic {
    pub open spec fn wf(&self) -> bool {
        &&& 0 <= self.w
        &&& self.rows.len() == self.h
        &&& forall|y: int| 0 <= y < self.h ==> (#[trigger] self.rows[y]).len() == self.w
    }

    /// The pixel in column `x` of row `y`.
    pub open spec fn at(&self, x: int, y: int) -> u32 {
        self.rows[y][x]
    }
}

/// The picture with each pixel replaced by what `f` makes of its place and
/// color.
pub open spec fn recolored(p: Pic, f: spec_fn(int, int, u32) -> u32) -> Pic {
    Pic {
        w: p.w,
        h: p.h,
        rows: Seq::new(
            p.h as nat,
            |y: int| Seq::new(p.w as nat, |x: int| f(x, y, p.rows[y][x])),
        ),
    }
}

/// Two pictures of the same size with the same pixels are the same.
pub proof fn lemma_same_picture(p: Pic, q: Pic)
    requires
        p.wf(),
        q.wf(),
        p.w == q.w,
        p.h == q.h,
        forall|x: int, y: int| 0 <= x < p.w && 0 <= y < p.h ==> #[trigger] p.at(x, y) == q.at(x, y),
    ensures
        p == q,
{
    assert forall|y: int| 0 <= y < p.h implies p.rows[y] == q.rows[y] by {
        assert(p.rows[y].len() == p.w);
        assert(q.rows[y].len() == q.w);
        assert forall|x: int| 0 <= x < p.w implies p.rows[y][x] == q.rows[y][x] by {
            assert(p.at(x, y) == q.at(x, y));
        }
        assert(p.rows[y] =~= q.rows[y]);
    }
    assert(p.rows =~= q.rows);
}

/// Something with pixels.
pub trait Surface {
    spec fn pic(&self) -> Pic;

    /// Whether painted pixels can be read back.
    spec fn readable(&self) -> bool;

    spec fn ok(&self) -> bool;

    proof fn pic_wf(&self)
        requires
            self.ok(),
        ensures
            self.pic().wf(),
            self.pic().w <= u32::MAX,
            self.pic().h <= u32::MAX,
    ;

    fn width(&self) -> (r: u32)
        requires
            self.ok(),
        ensures
            r == self.pic().w,
    ;

    fn height(&self) -> (r: u32)
        requires
            self.ok(),
        ensures
            r == self.pic().h,
    ;

    /// Paints one pixel; one outside the surface is ignored.
    fn put_pixel(&mut self, x: u32, y: u32, color: u32)
        requires
            old(self).ok(),
        ensures
            final(self).ok(),
            final(self).readable() == old(self).readable(),
            final(self).pic().w == old(self).pic().w,
            final(self).pic().h == old(self).pic().h,
            forall|a: int, b: int|
                0 <= a < old(self).pic().w && 0 <= b < old(self).pic().h ==> #[trigger] final(
                    self).pic().at(a, b) == if a == x && b == y {
                    color
                } else {
                    old(self).pic().at(a, b)
                },
    ;

    /// Reads back a pixel already painted onto this surface, used by the
    /// alpha-blending helpers to composite over whatever is underneath.
    fn get_pixel(&self, x: u32, y: u32) -> (r: Option<u32>)
        requires
            self.ok(),
        ensures
            r == if self.readable() && x < self.pic().w && y < self.pic().h {
                Some(self.pic().at(x as int, y as int))
            } else {
                None
            },
    ;
}

/// A rectangle of pixels in memory.
pub struct Canvas {
    width: u32,
    height: u32,
    pixels: Vec<u32>,
}

proof fn lemma_index(x: int, y: int, w: int, h: int)
    requires
        0 <= x < w,
        0 <= y < h,
    ensures
        0 <= y * w + x < w * h,
{
    assert(y * w + x < w * h) by (nonlinear_arith)
        requires
            0 <= x < w,
            0 <= y < h,
    ;
    assert(0 <= y * w) by (nonlinear_arith)
        requires
            0 <= y,
            0 <= w,
    ;
}

proof fn lemma_index_unique(x: int, y: int, a: int, b: int, w: int)
    requires
        0 <= x < w,
        0 <= a < w,
        y * w + x == b * w + a,
    ensures
        x == a,
        y == b,
{
    vstd::arithmetic::div_mod::lemma_fundamental_div_mod_converse(y * w + x, w, y, x);
    vstd::arithmetic::div_mod::lemma_fundamental_div_mod_converse(b * w + a, w, b, a);
}

/// The picture that `w` times `h` pixels in rows make up.
pub open spec fn picture_of(pixels: Seq<u32>, w: int, h: int) -> Pic {
    Pic {
        w,
        h,
        rows: Seq::new(h as nat, |y: int| Seq::new(w as nat, |x: int| pixels[y * w + x])),
    }
}

/// The picture moved up by `n` rows.
pub open spec fn scrolled(p: Pic, n: int, color: u32) -> Pic {
    recolored(
        p,
        |a: int, b: int, o: u32|
            if b + n < p.h {
                p.rows[b + n][a]
            } else {
                color
            },
    )
}

impl Canvas {
    pub closed spec fn size_ok(&self) -> bool {
        self.pixels@.len() == self.width * self.height && self.width * self.height <= u32::MAX
    }

    pub closed spec fn cols(&self) -> u32 {
        self.width
    }

    pub closed spec fn lines(&self) -> u32 {
        self.height
    }

    /// A canvas filled with one color.
    pub fn new(width: u32, height: u32, color: u32) -> (r: Self)
        requires
            width * height <= u32::MAX,
        ensures
            r.ok(),
            r.readable(),
            r.pic().w == width,
            r.pic().h == height,
            forall|x: int, y: int|
                0 <= x < width && 0 <= y < height ==> #[trigger] r.pic().at(x, y) == color,
    {
        let n = width as u64 * height as u64;
        let mut pixels: Vec<u32> = Vec::new();
        pixels.resize(n as usize, color);
        let r = Canvas { width, height, pixels };
        assert forall|x: int, y: int| 0 <= x < width && 0 <= y < height implies #[trigger] r.pic().at(
            x,
            y,
        ) == color by {
            lemma_index(x, y, width as int, height as int);
        }
        r
    }

    /// A canvas with the given pixels, row by row.
    pub fn from_pixels(width: u32, height: u32, pixels: Vec<u32>) -> (r: Self)
        requires
            pixels@.len() == width * height,
            width * height <= u32::MAX,
        ensures
            r.ok(),
            r.readable(),
            r.pic() == picture_of(pixels@, width as int, height as int),
    {
        let r = Canvas { width, height, pixels };
        proof {
            r.pic_wf();
            lemma_same_picture(r.pic(), picture_of(pixels@, width as int, height as int));
        }
        r
    }

    /// A second canvas with the same picture.
    pub fn copy(&self) -> (r: Self)
        requires
            self.ok(),
        ensures
            r.ok(),
            r.readable(),
            r.pic() == self.pic(),
    {
        let pixels = self.pixels.clone();
        assert(pixels@ =~= self.pixels@);
        Canvas { width: self.width, height: self.height, pixels }
    }

    /// Paints the whole canvas in one color.
    pub fn clear(&mut self, color: u32)
        requires
            old(self).ok(),
        ensures
            final(self).ok(),
            final(self).readable(),
            final(self).pic() == recolored(old(self).pic(), |a: int, b: int, o: u32| color),
    {
        let n = self.pixels.len();
        let mut i: usize = 0;
        while i < n
            invariant
                i <= n == self.pixels@.len(),
                self.width == old(self).width,
                self.height == old(self).height,
                self.size_ok(),
                forall|k: int| 0 <= k < i ==> #[trigger] self.pixels@[k] == color,
            decreases n - i,
        {
            self.pixels.set(i, color);
            i += 1;
        }
        proof {
            let q = recolored(old(self).pic(), |a: int, b: int, o: u32| color);
            assert forall|x: int, y: int|
                0 <= x < self.width && 0 <= y < self.height implies #[trigger] self.pic().at(x, y)
                == q.at(x, y) by {
                lemma_index(x, y, self.width as int, self.height as int);
            }
            lemma_same_picture(self.pic(), q);
        }
    }

    /// Moves everything up by `n` rows; the rows that come in at the bottom
    /// have one color.
    pub fn scroll_up(&mut self, n: u32, color: u32)
        requires
            old(self).ok(),
            n <= old(self).pic().h,
        ensures
            final(self).ok(),
            final(self).readable(),
            final(self).pic() == scrolled(old(self).pic(), n as int, color),
    {
        let ghost (w, h) = (self.width as int, self.height as int);
        proof {
            assert(n * w <= h * w) by (nonlinear_arith)
                requires
                    n <= h,
                    w >= 0,
            ;
            assert(h * w == w * h) by (nonlinear_arith);
            assert(n * w >= 0) by (nonlinear_arith)
                requires
                    n >= 0,
                    w >= 0,
            ;
        }
        let shift = (n as u64 * self.width as u64) as usize;
        let total = self.pixels.len();
        let ghost before = self.pixels@;
        let mut i: usize = 0;
        while i < total
            invariant
                i <= total == self.pixels@.len(),
                total == before.len(),
                before == old(self).pixels@,
                shift <= total,
                self.width == old(self).width,
                self.height == old(self).height,
                self.size_ok(),
                forall|k: int|
                    0 <= k < i ==> #[trigger] self.pixels@[k] == if k + shift < total {
                        before[k + shift]
                    } else {
                        color
                    },
                forall|k: int| i <= k < total ==> #[trigger] self.pixels@[k] == before[k],
            decreases total - i,
        {
            let c = if i < total - shift { self.pixels[i + shift] } else { color };
            self.pixels.set(i, c);
            i += 1;
        }
        proof {
            let q = scrolled(old(self).pic(), n as int, color);
            assert forall|x: int, y: int| 0 <= x < w && 0 <= y < h implies #[trigger] self.pic().at(
                x,
                y,
            ) == q.at(x, y) by {
                lemma_index(x, y, w, h);
                assert((y + n) * w + x == y * w + x + n * w) by (nonlinear_arith);
                if y + n < h {
                    lemma_index(x, y + n, w, h);
                } else {
                    assert((y + n) * w >= h * w) by (nonlinear_arith)
                        requires
                            y + n >= h,
                            w >= 0,
                    ;
                }
            }
            lemma_same_picture(self.pic(), q);
        }
    }

    /// The pixels, row by row.
    pub fn pixels(&self) -> (r: &Vec<u32>)
        requires
            self.ok(),
        ensures
            r@.len() == self.pic().w * self.pic().h,
            self.pic() == picture_of(r@, self.pic().w, self.pic().h),
    {
        &self.pixels
    }
}

impl Surface for Canvas {
    closed spec fn pic(&self) -> Pic {
        picture_of(self.pixels@, self.width as int, self.height as int)
    }

    closed spec fn readable(&self) -> bool {
        true
    }

    closed spec fn ok(&self) -> bool {
        self.size_ok()
    }

    proof fn pic_wf(&self) {
    }

    fn width(&self) -> (r: u32) {
        self.width
    }

    fn height(&self) -> (r: u32) {
        self.height
    }

    fn put_pixel(&mut self, x: u32, y: u32, color: u32) {
        if x < self.width && y < self.height {
            proof {
                lemma_index(x as int, y as int, self.width as int, self.height as int);
            }
            let idx = (y as u64 * self.width as u64 + x as u64) as usize;
            self.pixels.set(idx, color);
            assert forall|a: int, b: int|
                0 <= a < old(self).pic().w && 0 <= b < old(self).pic().h implies #[trigger] self.pic()
                .at(a, b) == if a == x && b == y {
                color
            } else {
                old(self).pic().at(a, b)
            } by {
                lemma_index(a, b, self.width as int, self.height as int);
                if b * self.width + a == idx {
                    lemma_index_unique(x as int, y as int, a, b, self.width as int);
                }
            }
        }
    }

    fn get_pixel(&self, x: u32, y: u32) -> (r: Option<u32>) {
        if x < self.width && y < self.height {
            proof {
                lemma_index(x as int, y as int, self.width as int, self.height as int);
            }
            Some(self.pixels[(y as u64 * self.width as u64 + x as u64) as usize])
        } else {
            None
        }
    }
}

// ---------------------------------------------------------------------
// Rectangles
// ---------------------------------------------------------------------

pub open spec fn in_rect(a: int, b: int, x: int, y: int, w: int, h: int) -> bool {
    x <= a < x + w && y <= b < y + h
}

/// The picture with a rectangle filled.
pub open spec fn filled(p: Pic, x: int, y: int, w: int, h: int, color: u32) -> Pic {
    recolored(
        p,
        |a: int, b: int, o: u32|
            if in_rect(a, b, x, y, w, h) {
                color
            } else {
                o
            },
    )
}

fn min_of(a: u32, b: u32) -> (r: u32)
    ensures
        r == if a < b {
            a
        } else {
            b
        },
{
    if a < b {
        a
    } else {
        b
    }
}

pub fn fill_rect<S: Surface>(surface: &mut S, x: u32, y: u32, w: u32, h: u32, color: u32)
    requires
        old(surface).ok(),
        x + w <= u32::MAX,
        y + h <= u32::MAX,
    ensures
        final(surface).ok(),
        final(surface).readable() == old(surface).readable(),
        final(surface).pic() == filled(
            old(surface).pic(),
            x as int,
            y as int,
            w as int,
            h as int,
            color,
        ),
{
    let ghost p = surface.pic();
    proof {
        surface.pic_wf();
    }
    let x_end = min_of(x + w, surface.width());
    let y_end = min_of(y + h, surface.height());
    let mut yy: u32 = y;
    while yy < y_end
        invariant
            surface.ok(),
            surface.readable() == old(surface).readable(),
            p.wf(),
            surface.pic().w == p.w,
            surface.pic().h == p.h,
            x_end == if x + w < p.w { x + w } else { p.w },
            y_end == if y + h < p.h { y + h } else { p.h },
            y <= yy,
            yy <= y_end || yy == y,
            forall|a: int, b: int|
                0 <= a < p.w && 0 <= b < p.h ==> #[trigger] surface.pic().at(a, b) == if x <= a
                    < x_end && y <= b < yy {
                    color
                } else {
                    p.at(a, b)
                },
        decreases y_end - yy,
    {
        let mut xx: u32 = x;
        while xx < x_end
            invariant
                surface.ok(),
                surface.readable() == old(surface).readable(),
                p.wf(),
                surface.pic().w == p.w,
                surface.pic().h == p.h,
                x_end <= p.w,
                y_end <= p.h,
                x <= xx,
                xx <= x_end || xx == x,
                y <= yy < y_end,
                forall|a: int, b: int|
                    0 <= a < p.w && 0 <= b < p.h ==> #[trigger] surface.pic().at(a, b) == if (x <= a
                        < x_end && y <= b < yy) || (x <= a < xx && b == yy) {
                        color
                    } else {
                        p.at(a, b)
                    },
            decreases x_end - xx,
        {
            surface.put_pixel(xx, yy, color);
            xx += 1;
        }
        yy += 1;
    }
    proof {
        surface.pic_wf();
        let q = filled(p, x as int, y as int, w as int, h as int, color);
        lemma_same_picture(surface.pic(), q);
    }
}

/// A color channel of a 0x00RRGGBB color: 2 for red, 1 for green, 0 for
/// blue.
pub open spec fn channel(c: u32, k: int) -> int {
    if k == 2 {
        c as int / 0x1_0000 % 0x100
    } else if k == 1 {
        c as int / 0x100 % 0x100
    } else {
        c as int % 0x100
    }
}

/// The color of three channels.
pub open spec fn rgb(r: int, g: int, b: int) -> u32 {
    (r * 0x1_0000 + g * 0x100 + b) as u32
}

/// A value on the way from `a` to `b`, `row` of `denom` steps along,
/// rounded toward `a`.
pub open spec fn between(a: int, b: int, row: int, denom: int) -> int {
    if b >= a {
        a + (b - a) * row / denom
    } else {
        a - (a - b) * row / denom
    }
}

/// The number of steps of a gradient over `h` rows.
pub open spec fn steps(h: int) -> int {
    if h <= 2 {
        1
    } else {
        h - 1
    }
}

/// The color of row `row` of a gradient over `h` rows.
pub open spec fn shade(top: u32, bottom: u32, row: int, h: int) -> u32 {
    rgb(
        between(channel(top, 2), channel(bottom, 2), row, steps(h)),
        between(channel(top, 1), channel(bottom, 1), row, steps(h)),
        between(channel(top, 0), channel(bottom, 0), row, steps(h)),
    )
}

proof fn lemma_between(a: int, b: int, row: int, denom: int)
    requires
        0 <= a <= 255,
        0 <= b <= 255,
        0 <= row <= denom,
        denom >= 1,
    ensures
        0 <= between(a, b, row, denom) <= 255,
{
    let d = if b >= a { b - a } else { a - b };
    assert(0 <= d * row <= d * denom) by (nonlinear_arith)
        requires
            0 <= d,
            0 <= row <= denom,
    ;
    vstd::arithmetic::div_mod::lemma_div_is_ordered(d * row, d * denom, denom);
    vstd::arithmetic::div_mod::lemma_div_multiples_vanish(d, denom);
    assert(denom * d == d * denom) by (nonlinear_arith);
    vstd::arithmetic::div_mod::lemma_div_pos_is_pos(d * row, denom);
}

fn between_of(a: u32, b: u32, row: u32, denom: u32) -> (r: u32)
    requires
        a <= 255,
        b <= 255,
        row <= denom,
        1 <= denom,
    ensures
        r == between(a as int, b as int, row as int, denom as int),
        r <= 255,
{
    proof {
        lemma_between(a as int, b as int, row as int, denom as int);
        assert(0 <= (b - a) * row || b < a) by (nonlinear_arith)
            requires
                row >= 0,
        ;
    }
    if b >= a {
        let d = (b - a) as u64;
        assert(d * row <= 255 * 0xFFFF_FFFF) by (nonlinear_arith)
            requires
                d <= 255,
                row <= 0xFFFF_FFFF,
        ;
        a + (d * row as u64 / denom as u64) as u32
    } else {
        let d = (a - b) as u64;
        assert(d * row <= 255 * 0xFFFF_FFFF) by (nonlinear_arith)
            requires
                d <= 255,
                row <= 0xFFFF_FFFF,
        ;
        a - (d * row as u64 / denom as u64) as u32
    }
}

fn shade_of(top: u32, bottom: u32, row: u32, h: u32) -> (r: u32)
    requires
        row < h,
    ensures
        r == shade(top, bottom, row as int, h as int),
{
    let denom = if h <= 2 { 1 } else { h - 1 };
    let r = between_of(top / 0x1_0000 % 0x100, bottom / 0x1_0000 % 0x100, row, denom);
    let g = between_of(top / 0x100 % 0x100, bottom / 0x100 % 0x100, row, denom);
    let b = between_of(top % 0x100, bottom % 0x100, row, denom);
    r * 0x1_0000 + g * 0x100 + b
}

/// The picture with the first `n` rows of a gradient rectangle painted.
pub open spec fn gradient(
    p: Pic,
    x: int,
    y: int,
    w: int,
    h: int,
    top: u32,
    bottom: u32,
    n: int,
) -> Pic {
    recolored(
        p,
        |a: int, b: int, o: u32|
            if in_rect(a, b, x, y, w, n) {
                shade(top, bottom, b - y, h)
            } else {
                o
            },
    )
}

/// Same as `fill_rect`, but interpolates linearly from `top` to `bottom`
/// (each 0x00RRGGBB) one scanline at a time.
pub fn fill_rect_gradient_v<S: Surface>(
    surface: &mut S,
    x: u32,
    y: u32,
    w: u32,
    h: u32,
    top: u32,
    bottom: u32,
)
    requires
        old(surface).ok(),
        x + w <= u32::MAX,
        y + h <= u32::MAX,
    ensures
        final(surface).ok(),
        final(surface).readable() == old(surface).readable(),
        final(surface).pic() == gradient(
            old(surface).pic(),
            x as int,
            y as int,
            w as int,
            h as int,
            top,
            bottom,
            h as int,
        ),
{
    let ghost p = surface.pic();
    proof {
        surface.pic_wf();
        lemma_same_picture(
            p,
            gradient(p, x as int, y as int, w as int, h as int, top, bottom, 0),
        );
    }
    let mut row: u32 = 0;
    while row < h
        invariant
            surface.ok(),
            surface.readable() == old(surface).readable(),
            p.wf(),
            row <= h,
            x + w <= u32::MAX,
            y + h <= u32::MAX,
            surface.pic() == gradient(
                p,
                x as int,
                y as int,
                w as int,
                h as int,
                top,
                bottom,
                row as int,
            ),
        decreases h - row,
    {
        let color = shade_of(top, bottom, row, h);
        fill_rect(surface, x, y + row, w, 1, color);
        row += 1;
        proof {
            let q = gradient(
                p,
                x as int,
                y as int,
                w as int,
                h as int,
                top,
                bottom,
                row as int,
            );
            lemma_same_picture(surface.pic(), q);
        }
    }
}

/// Whether the pixel `k` columns into a corner, `v` rows from its centre's
/// row, lies within the arc of radius `r`: its middle is no farther than `r`
/// from the arc's centre.
pub open spec fn within_arc(v: int, r: int, k: int) -> bool {
    let (dx, dy) = (2 * (r - k) - 1, 2 * v - 1);
    dx * dx + dy * dy <= 4 * r * r
}

/// The first pixel from column `k` on that lies within the arc.
pub open spec fn arc_inset(v: int, r: int, k: int) -> int
    decreases r - k,
{
    if k >= r || within_arc(v, r, k) {
        k
    } else {
        arc_inset(v, r, k + 1)
    }
}

/// Horizontal inset for a given scanline of a rectangle with rounded
/// corners of radius `r`: `0` in the middle rows, growing toward the
/// corners along a circular arc.
pub open spec fn inset(row: int, h: int, r: int) -> int {
    if row < r {
        arc_inset(r - row, r, 0)
    } else if row >= h - r {
        arc_inset(row - (h - r) + 1, r, 0)
    } else {
        0
    }
}

proof fn lemma_arc_widens(v: int, r: int, k: int, j: int)
    requires
        0 <= k <= j < r,
        within_arc(v, r, k),
    ensures
        within_arc(v, r, j),
{
    let (a, b) = (2 * (r - k) - 1, 2 * (r - j) - 1);
    assert(b * b <= a * a) by (nonlinear_arith)
        requires
            0 <= b <= a,
    ;
}

proof fn lemma_arc_inset(v: int, r: int, k: int, j: int)
    requires
        0 <= k <= j < r,
        forall|i: int| 0 <= i < k ==> !within_arc(v, r, i),
    ensures
        arc_inset(v, r, k) <= j <==> within_arc(v, r, j),
    decreases r - k,
{
    if within_arc(v, r, k) {
        lemma_arc_widens(v, r, k, j);
    } else if k < j {
        lemma_arc_inset(v, r, k + 1, j);
    } else {
        lemma_arc_beyond(v, r, k + 1);
    }
}

proof fn lemma_arc_beyond(v: int, r: int, k: int)
    ensures
        arc_inset(v, r, k) >= k,
    decreases r - k,
{
    if k < r && !within_arc(v, r, k) {
        lemma_arc_beyond(v, r, k + 1);
    }
}

/// The corners are clipped to a circular arc: a pixel of a corner's square
/// is painted exactly if its middle is within radius `r` of the square's
/// inner point. It is so in all four corners.
pub proof fn law_corners_are_round(x: int, y: int, w: int, h: int, r: int, i: int, j: int)
    requires
        0 <= i < r,
        0 <= j < r,
        2 * r <= w,
        2 * r <= h,
    ensures
        in_rounded(x + i, y + j, x, y, w, h, r) == within_arc(r - j, r, i),
        in_rounded(x + w - 1 - i, y + j, x, y, w, h, r) == within_arc(r - j, r, i),
        in_rounded(x + i, y + h - 1 - j, x, y, w, h, r) == within_arc(r - j, r, i),
        in_rounded(x + w - 1 - i, y + h - 1 - j, x, y, w, h, r) == within_arc(r - j, r, i),
{
    lemma_arc_inset(r - j, r, 0, i);
    lemma_arc_beyond(r - j, r, 0);
    lemma_arc_stops(r - j, r, 0);
}

proof fn lemma_arc_stops(v: int, r: int, k: int)
    requires
        k <= r,
    ensures
        arc_inset(v, r, k) <= r,
    decreases r - k,
{
    if k < r && !within_arc(v, r, k) {
        lemma_arc_stops(v, r, k + 1);
    }
}

/// The first pixel of a row that lies within the arc.
fn inset_on_arc(v: u32, r: u32) -> (k: u32)
    requires
        0 < v <= r,
    ensures
        k == arc_inset(v as int, r as int, 0),
        k <= r,
{
    let dy: u128 = 2 * v as u128 - 1;
    let far: u128 = 2 * r as u128;
    assert(dy * dy <= 0x1_FFFF_FFFF * 0x1_FFFF_FFFF) by (nonlinear_arith)
        requires
            0 <= dy <= 0x1_FFFF_FFFF,
    ;
    assert(far * far <= 0x1_FFFF_FFFF * 0x1_FFFF_FFFF) by (nonlinear_arith)
        requires
            0 <= far <= 0x1_FFFF_FFFF,
    ;
    assert(far * far == 4 * r * r) by (nonlinear_arith)
        requires
            far == 2 * r,
    ;
    let mut k: u32 = 0;
    while k < r
        invariant
            k <= r,
            dy == 2 * v - 1,
            dy * dy <= 0x1_FFFF_FFFF * 0x1_FFFF_FFFF,
            far * far <= 0x1_FFFF_FFFF * 0x1_FFFF_FFFF,
            far * far == 4 * r * r,
            arc_inset(v as int, r as int, 0) == arc_inset(v as int, r as int, k as int),
        decreases r - k,
    {
        let dx: u128 = 2 * (r - k) as u128 - 1;
        assert(dx * dx <= 0x1_FFFF_FFFF * 0x1_FFFF_FFFF) by (nonlinear_arith)
            requires
                0 <= dx <= 0x1_FFFF_FFFF,
        ;
        if dx * dx + dy * dy <= far * far {
            return k;
        }
        k += 1;
    }
    k
}

fn rounded_inset(row: u32, h: u32, r: u32) -> (k: u32)
    requires
        row < h,
    ensures
        k == inset(row as int, h as int, r as int),
{
    if row < r {
        inset_on_arc(r - row, r)
    } else if r > 0 && row >= h - r {
        inset_on_arc(row - (h - r) + 1, r)
    } else {
        0
    }
}

/// Whether a pixel belongs to a rectangle with rounded corners. Rows that
/// would be narrower than two pixels are left out.
pub open spec fn in_rounded(a: int, b: int, x: int, y: int, w: int, h: int, r: int) -> bool {
    let k = inset(b - y, h, r);
    y <= b < y + h && w - 2 * k >= 2 && x + k <= a < x + w - k
}

/// What a rounded rectangle's pixel becomes: a solid color, a gradient or a
/// translucent color.
pub enum Ink {
    Solid(u32),
    Gradient(u32, u32),
    Blend(u32, u32),
}

/// The color that the ink gives a pixel in row `row` of `h` over `o`.
pub open spec fn inked(ink: Ink, row: int, h: int, o: u32, readable: bool) -> u32 {
    match ink {
        Ink::Solid(c) => c,
        Ink::Gradient(top, bottom) => shade(top, bottom, row, h),
        Ink::Blend(c, alpha) => blended(c, o, alpha, readable),
    }
}

/// The picture with the first `n` rows of a rounded rectangle painted.
pub open spec fn rounded(
    p: Pic,
    x: int,
    y: int,
    w: int,
    h: int,
    r: int,
    ink: Ink,
    readable: bool,
    n: int,
) -> Pic {
    recolored(
        p,
        |a: int, b: int, o: u32|
            if b < y + n && in_rounded(a, b, x, y, w, h, r) {
                inked(ink, b - y, h, o, readable)
            } else {
                o
            },
    )
}

/// Like `fill_rect`, but with the four corners clipped to a circular arc
/// of radius `r`.
pub fn fill_rounded_rect<S: Surface>(
    surface: &mut S,
    x: u32,
    y: u32,
    w: u32,
    h: u32,
    r: u32,
    color: u32,
)
    requires
        old(surface).ok(),
        x + w <= u32::MAX,
        y + h <= u32::MAX,
    ensures
        final(surface).ok(),
        final(surface).readable() == old(surface).readable(),
        final(surface).pic() == rounded(
            old(surface).pic(),
            x as int,
            y as int,
            w as int,
            h as int,
            r as int,
            Ink::Solid(color),
            old(surface).readable(),
            h as int,
        ),
{
    let ghost p = surface.pic();
    let ghost readable = surface.readable();
    let ghost ink = Ink::Solid(color);
    proof {
        surface.pic_wf();
        lemma_same_picture(
            p,
            rounded(p, x as int, y as int, w as int, h as int, r as int, ink, readable, 0),
        );
    }
    let mut row: u32 = 0;
    while row < h
        invariant
            surface.ok(),
            surface.readable() == readable,
            readable == old(surface).readable(),
            p.wf(),
            ink == Ink::Solid(color),
            row <= h,
                x + w <= u32::MAX,
            y + h <= u32::MAX,
            surface.pic() == rounded(
                p,
                x as int,
                y as int,
                w as int,
                h as int,
                r as int,
                ink,
                readable,
                row as int,
            ),
        decreases h - row,
    {
        let k = rounded_inset(row, h, r);
        let inner = w.saturating_sub(k).saturating_sub(k);
        if inner >= 2 {
            fill_rect(surface, x + k, y + row, inner, 1, color);
        }
        row += 1;
        proof {
            let q = rounded(
                p,
                x as int,
                y as int,
                w as int,
                h as int,
                r as int,
                ink,
                readable,
                row as int,
            );
            surface.pic_wf();
            lemma_same_picture(surface.pic(), q);
        }
    }
}

/// `fill_rounded_rect` with the vertical-gradient coloring of
/// `fill_rect_gradient_v`.
pub fn fill_rounded_rect_gradient_v<S: Surface>(
    surface: &mut S,
    x: u32,
    y: u32,
    w: u32,
    h: u32,
    r: u32,
    top: u32,
    bottom: u32,
)
    requires
        old(surface).ok(),
        x + w <= u32::MAX,
        y + h <= u32::MAX,
    ensures
        final(surface).ok(),
        final(surface).readable() == old(surface).readable(),
        final(surface).pic() == rounded(
            old(surface).pic(),
            x as int,
            y as int,
            w as int,
            h as int,
            r as int,
            Ink::Gradient(top, bottom),
            old(surface).readable(),
            h as int,
        ),
{
    let ghost p = surface.pic();
    let ghost readable = surface.readable();
    let ghost ink = Ink::Gradient(top, bottom);
    proof {
        surface.pic_wf();
        lemma_same_picture(
            p,
            rounded(p, x as int, y as int, w as int, h as int, r as int, ink, readable, 0),
        );
    }
    let mut row: u32 = 0;
    while row < h
        invariant
            surface.ok(),
            surface.readable() == readable,
            readable == old(surface).readable(),
            p.wf(),
            ink == Ink::Gradient(top, bottom),
            row <= h,
                x + w <= u32::MAX,
            y + h <= u32::MAX,
            surface.pic() == rounded(
                p,
                x as int,
                y as int,
                w as int,
                h as int,
                r as int,
                ink,
                readable,
                row as int,
            ),
        decreases h - row,
    {
        let color = shade_of(top, bottom, row, h);
        let k = rounded_inset(row, h, r);
        let inner = w.saturating_sub(k).saturating_sub(k);
        if inner >= 2 {
            fill_rect(surface, x + k, y + row, inner, 1, color);
        }
        row += 1;
        proof {
            let q = rounded(
                p,
                x as int,
                y as int,
                w as int,
                h as int,
                r as int,
                ink,
                readable,
                row as int,
            );
            surface.pic_wf();
            lemma_same_picture(surface.pic(), q);
        }
    }
}

/// A channel of a foreground over a background.
pub open spec fn mix(f: int, b: int, alpha: int) -> int {
    (f * alpha + b * (255 - alpha)) / 255
}

/// One color over another with the given foreground opacity.
pub open spec fn over(fg: u32, bg: u32, alpha: u32) -> u32 {
    if alpha >= 255 {
        fg
    } else if alpha == 0 {
        bg
    } else {
        rgb(
            mix(channel(fg, 2), channel(bg, 2), alpha as int),
            mix(channel(fg, 1), channel(bg, 1), alpha as int),
            mix(channel(fg, 0), channel(bg, 0), alpha as int),
        )
    }
}

/// What blending a color over a pixel gives; on a surface that cannot be
/// read back it is the color itself.
pub open spec fn blended(color: u32, o: u32, alpha: u32, readable: bool) -> u32 {
    if readable {
        over(color, o, alpha)
    } else {
        color
    }
}

fn mix_of(f: u32, b: u32, alpha: u32) -> (r: u32)
    requires
        f <= 255,
        b <= 255,
        alpha <= 255,
    ensures
        r == mix(f as int, b as int, alpha as int),
        r <= 255,
{
    assert(0 <= f * alpha <= 255 * alpha && 0 <= b * (255 - alpha) <= 255 * (255 - alpha))
        by (nonlinear_arith)
        requires
            0 <= f <= 255,
            0 <= b <= 255,
            0 <= alpha <= 255,
    ;
    (f * alpha + b * (255 - alpha)) / 255
}

/// Blends one 0x00RRGGBB color over another with the given foreground
/// opacity (0-255), all in integer math.
pub fn blend(fg: u32, bg: u32, alpha: u32) -> (r: u32)
    ensures
        r == over(fg, bg, alpha),
{
    if alpha >= 255 {
        return fg;
    }
    if alpha == 0 {
        return bg;
    }
    let r = mix_of(fg / 0x1_0000 % 0x100, bg / 0x1_0000 % 0x100, alpha);
    let g = mix_of(fg / 0x100 % 0x100, bg / 0x100 % 0x100, alpha);
    let b = mix_of(fg % 0x100, bg % 0x100, alpha);
    r * 0x1_0000 + g * 0x100 + b
}

/// Full opacity gives the foreground, none the background, and a color
/// blended over itself keeps its channels.
pub proof fn law_blend(c: u32, d: u32, alpha: u32)
    requires
        c <= 0xFF_FFFF,
    ensures
        over(c, d, 255) == c,
        over(c, d, 0) == d,
        over(c, c, alpha) == c,
{
    if 0 < alpha < 255 {
        let a = alpha as int;
        assert forall|k: int| 0 <= k < 3 implies mix(channel(c, k), channel(c, k), a) == channel(
            c,
            k,
        ) by {
            let v = channel(c, k);
            assert(v * a + v * (255 - a) == v * 255) by (nonlinear_arith);
        }
        assert(mix(channel(c, 2), channel(c, 2), a) == channel(c, 2));
        assert(mix(channel(c, 1), channel(c, 1), a) == channel(c, 1));
        assert(mix(channel(c, 0), channel(c, 0), a) == channel(c, 0));
    }
}

/// The picture with a translucent rectangle over it.
pub open spec fn veiled(
    p: Pic,
    x: int,
    y: int,
    w: int,
    h: int,
    color: u32,
    alpha: u32,
    readable: bool,
) -> Pic {
    recolored(
        p,
        |a: int, b: int, o: u32|
            if in_rect(a, b, x, y, w, h) {
                blended(color, o, alpha, readable)
            } else {
                o
            },
    )
}

/// `fill_rect` with translucency: blends `color` over whatever is
/// already on the surface (which must implement `get_pixel` for the
/// blend to do anything; otherwise it degrades to a solid fill).
pub fn fill_rect_blend<S: Surface>(
    surface: &mut S,
    x: u32,
    y: u32,
    w: u32,
    h: u32,
    color: u32,
    alpha: u32,
)
    requires
        old(surface).ok(),
        x + w <= u32::MAX,
        y + h <= u32::MAX,
    ensures
        final(surface).ok(),
        final(surface).readable() == old(surface).readable(),
        final(surface).pic() == veiled(
            old(surface).pic(),
            x as int,
            y as int,
            w as int,
            h as int,
            color,
            alpha,
            old(surface).readable(),
        ),
{
    let ghost p = surface.pic();
    let ghost readable = surface.readable();
    let ghost all = veiled(p, x as int, y as int, w as int, h as int, color, alpha, readable);
    proof {
        surface.pic_wf();
    }
    if alpha >= 255 {
        fill_rect(surface, x, y, w, h, color);
        proof {
            surface.pic_wf();
            lemma_same_picture(surface.pic(), all);
        }
        return;
    }
    let x_end = min_of(x + w, surface.width());
    let y_end = min_of(y + h, surface.height());
    let mut yy: u32 = y;
    while yy < y_end
        invariant
            surface.ok(),
            surface.readable() == readable,
            readable == old(surface).readable(),
            p.wf(),
            surface.pic().w == p.w,
            surface.pic().h == p.h,
            x_end == if x + w < p.w { x + w } else { p.w },
            y_end == if y + h < p.h { y + h } else { p.h },
            y <= yy,
            yy <= y_end || yy == y,
            forall|a: int, b: int|
                0 <= a < p.w && 0 <= b < p.h ==> #[trigger] surface.pic().at(a, b) == if x <= a
                    < x_end && y <= b < yy {
                    blended(color, p.at(a, b), alpha, readable)
                } else {
                    p.at(a, b)
                },
        decreases y_end - yy,
    {
        let mut xx: u32 = x;
        while xx < x_end
            invariant
                surface.ok(),
                surface.readable() == readable,
                readable == old(surface).readable(),
                p.wf(),
                surface.pic().w == p.w,
                surface.pic().h == p.h,
                x_end <= p.w,
                y_end <= p.h,
                x <= xx,
                xx <= x_end || xx == x,
                y <= yy < y_end,
                forall|a: int, b: int|
                    0 <= a < p.w && 0 <= b < p.h ==> #[trigger] surface.pic().at(a, b) == if (x <= a
                        < x_end && y <= b < yy) || (x <= a < xx && b == yy) {
                        blended(color, p.at(a, b), alpha, readable)
                    } else {
                        p.at(a, b)
                    },
            decreases x_end - xx,
        {
            match surface.get_pixel(xx, yy) {
                Some(base) => {
                    let c = blend(color, base, alpha);
                    surface.put_pixel(xx, yy, c);
                },
                None => {
                    surface.put_pixel(xx, yy, color);
                },
            }
            xx += 1;
        }
        yy += 1;
    }
    proof {
        surface.pic_wf();
        lemma_same_picture(surface.pic(), all);
    }
}

/// `fill_rounded_rect` with translucency (see `fill_rect_blend`).
pub fn fill_rounded_rect_blend<S: Surface>(
    surface: &mut S,
    x: u32,
    y: u32,
    w: u32,
    h: u32,
    r: u32,
    color: u32,
    alpha: u32,
)
    requires
        old(surface).ok(),
        x + w <= u32::MAX,
        y + h <= u32::MAX,
    ensures
        final(surface).ok(),
        final(surface).readable() == old(surface).readable(),
        final(surface).pic() == rounded(
            old(surface).pic(),
            x as int,
            y as int,
            w as int,
            h as int,
            r as int,
            Ink::Blend(color, alpha),
            old(surface).readable(),
            h as int,
        ),
{
    let ghost p = surface.pic();
    let ghost readable = surface.readable();
    let ghost ink = Ink::Blend(color, alpha);
    proof {
        surface.pic_wf();
        lemma_same_picture(
            p,
            rounded(p, x as int, y as int, w as int, h as int, r as int, ink, readable, 0),
        );
    }
    let mut row: u32 = 0;
    while row < h
        invariant
            surface.ok(),
            surface.readable() == readable,
            readable == old(surface).readable(),
            p.wf(),
            ink == Ink::Blend(color, alpha),
            row <= h,
                x + w <= u32::MAX,
            y + h <= u32::MAX,
            surface.pic() == rounded(
                p,
                x as int,
                y as int,
                w as int,
                h as int,
                r as int,
                ink,
                readable,
                row as int,
            ),
        decreases h - row,
    {
        let k = rounded_inset(row, h, r);
        let inner = w.saturating_sub(k).saturating_sub(k);
        if inner >= 2 {
            fill_rect_blend(surface, x + k, y + row, inner, 1, color, alpha);
        }
        row += 1;
        proof {
            let q = rounded(
                p,
                x as int,
                y as int,
                w as int,
                h as int,
                r as int,
                ink,
                readable,
                row as int,
            );
            surface.pic_wf();
            lemma_same_picture(surface.pic(), q);
        }
    }
}

// ---------------------------------------------------------------------
// Text
// ---------------------------------------------------------------------

/// The color that drawing a character gives a pixel: that of the glyph's
/// pixel it belongs to, or its own where nothing is drawn.
pub open spec fn glyph_color(
    bits: Seq<u8>,
    s: int,
    a: int,
    b: int,
    x: int,
    y: int,
    ch: u8,
    fg: u32,
    bg: Option<u32>,
    o: u32,
) -> u32 {
    if in_rect(a, b, x, y, 8 * s, 8 * s) {
        if glyph_bit(bits, ch, (b - y) / s, (a - x) / s) {
            fg
        } else {
            match bg {
                Some(c) => c,
                None => o,
            }
        }
    } else {
        o
    }
}

/// The picture with a character drawn at (`x`, `y`).
pub open spec fn with_char(
    p: Pic,
    bits: Seq<u8>,
    s: int,
    x: int,
    y: int,
    ch: u8,
    fg: u32,
    bg: Option<u32>,
) -> Pic {
    recolored(p, |a: int, b: int, o: u32| glyph_color(bits, s, a, b, x, y, ch, fg, bg, o))
}

/// The picture with the glyph's first `n` pixels drawn, row by row.
spec fn with_cells(
    p: Pic,
    bits: Seq<u8>,
    s: int,
    x: int,
    y: int,
    ch: u8,
    fg: u32,
    bg: Option<u32>,
    n: int,
) -> Pic {
    recolored(
        p,
        |a: int, b: int, o: u32|
            if in_rect(a, b, x, y, 8 * s, 8 * s) && (b - y) / s * 8 + (a - x) / s < n {
                glyph_color(bits, s, a, b, x, y, ch, fg, bg, o)
            } else {
                o
            },
    )
}

proof fn lemma_cell(a: int, x: int, s: int, col: int)
    requires
        1 <= s <= 2,
        0 <= col < 8,
    ensures
        x + col * s <= a < x + col * s + s <==> x <= a < x + 8 * s && (a - x) / s == col,
{
    if s == 1 {
        assert(col * s == col);
        assert((a - x) / s == a - x);
    } else {
        assert(s == 2);
        assert(col * s == 2 * col);
        assert((a - x) / s == (a - x) / 2);
    }
}

proof fn lemma_next_cell(
    p: Pic,
    q: Pic,
    bits: Seq<u8>,
    s: int,
    x: int,
    y: int,
    ch: u8,
    fg: u32,
    bg: Option<u32>,
    row: int,
    col: int,
)
    requires
        p.wf(),
        q.wf(),
        1 <= s <= 2,
        0 <= row < 8,
        0 <= col < 8,
        ({
            let before = with_cells(p, bits, s, x, y, ch, fg, bg, row * 8 + col);
            let set = glyph_bit(bits, ch, row, col);
            q == if set {
                filled(before, x + col * s, y + row * s, s, s, fg)
            } else if bg is Some {
                filled(before, x + col * s, y + row * s, s, s, bg->0)
            } else {
                before
            }
        }),
    ensures
        q == with_cells(p, bits, s, x, y, ch, fg, bg, row * 8 + col + 1),
{
    let after = with_cells(p, bits, s, x, y, ch, fg, bg, row * 8 + col + 1);
    assert forall|a: int, b: int| 0 <= a < p.w && 0 <= b < p.h implies #[trigger] q.at(a, b)
        == after.at(a, b) by {
        lemma_cell(a, x, s, col);
        lemma_cell(b, y, s, row);
        if in_rect(a, b, x, y, 8 * s, 8 * s) {
            let (r, c) = ((b - y) / s, (a - x) / s);
            assert(0 <= r < 8 && 0 <= c < 8) by {
                if s == 1 {
                    assert(r == b - y && c == a - x);
                } else {
                    assert(r == (b - y) / 2 && c == (a - x) / 2);
                }
            }
        }
    }
    lemma_same_picture(q, after);
}

pub fn draw_char<S: Surface>(
    surface: &mut S,
    font: &Font,
    x: u32,
    y: u32,
    ch: u8,
    fg: u32,
    bg: Option<u32>,
)
    requires
        old(surface).ok(),
        font.wf(),
        x + 8 * font.factor() <= u32::MAX,
        y + 8 * font.factor() <= u32::MAX,
    ensures
        final(surface).ok(),
        final(surface).readable() == old(surface).readable(),
        final(surface).pic() == with_char(
            old(surface).pic(),
            font.bits(),
            font.factor() as int,
            x as int,
            y as int,
            ch,
            fg,
            bg,
        ),
{
    let ghost p = surface.pic();
    let s = font.scale();
    let ghost bits = font.bits();
    proof {
        surface.pic_wf();
        lemma_same_picture(
            p,
            with_cells(p, bits, s as int, x as int, y as int, ch, fg, bg, 0),
        );
    }
    let mut row: u32 = 0;
    while row < 8
        invariant
            surface.ok(),
            surface.readable() == old(surface).readable(),
            p.wf(),
            font.wf(),
            bits == font.bits(),
            s == font.factor(),
            row <= 8,
            x + 8 * s <= u32::MAX,
            y + 8 * s <= u32::MAX,
            surface.pic() == with_cells(
                p,
                bits,
                s as int,
                x as int,
                y as int,
                ch,
                fg,
                bg,
                row * 8,
            ),
        decreases 8 - row,
    {
        let mut col: u32 = 0;
        while col < 8
            invariant
                surface.ok(),
                surface.readable() == old(surface).readable(),
                p.wf(),
                font.wf(),
                bits == font.bits(),
                s == font.factor(),
                row < 8,
                col <= 8,
                x + 8 * s <= u32::MAX,
                y + 8 * s <= u32::MAX,
                surface.pic() == with_cells(
                    p,
                    bits,
                    s as int,
                    x as int,
                    y as int,
                    ch,
                    fg,
                    bg,
                    row * 8 + col,
                ),
            decreases 8 - col,
        {
            assert(0 <= col * s && col * s + s <= 8 * s && 0 <= row * s && row * s + s <= 8 * s)
                by (nonlinear_arith)
                requires
                    0 <= col < 8,
                    0 <= row < 8,
                    1 <= s <= 2,
            ;
            if font.bit(ch, row, col) {
                fill_rect(surface, x + col * s, y + row * s, s, s, fg);
            } else if let Some(c) = bg {
                fill_rect(surface, x + col * s, y + row * s, s, s, c);
            }
            proof {
                surface.pic_wf();
                lemma_next_cell(
                    p,
                    surface.pic(),
                    bits,
                    s as int,
                    x as int,
                    y as int,
                    ch,
                    fg,
                    bg,
                    row as int,
                    col as int,
                );
            }
            col += 1;
        }
        row += 1;
    }
    proof {
        surface.pic_wf();
        let all = with_char(p, bits, s as int, x as int, y as int, ch, fg, bg);
        assert forall|a: int, b: int| 0 <= a < p.w && 0 <= b < p.h implies #[trigger] surface.pic().at(
            a,
            b,
        ) == all.at(a, b) by {
            if in_rect(a, b, x as int, y as int, 8 * s, 8 * s) {
                if s == 1 {
                    assert((b - y) / (s as int) == b - y && (a - x) / (s as int) == a - x);
                } else {
                    assert((b - y) / (s as int) == (b - y) / 2 && (a - x) / (s as int) == (a - x)
                        / 2);
                }
            }
        }
        lemma_same_picture(surface.pic(), all);
    }
}

/// The picture with the first `n` bytes of a text drawn at (`x`, `y`).
pub open spec fn with_text(
    p: Pic,
    bits: Seq<u8>,
    s: int,
    x: int,
    y: int,
    text: Seq<u8>,
    fg: u32,
    bg: Option<u32>,
    n: nat,
) -> Pic
    decreases n,
{
    if n == 0 {
        p
    } else {
        with_char(
            with_text(p, bits, s, x, y, text, fg, bg, (n - 1) as nat),
            bits,
            s,
            x + (n - 1) * (8 * s),
            y,
            text[n - 1],
            fg,
            bg,
        )
    }
}

/// Draws the bytes of a text one behind the other.
pub fn draw_string<S: Surface>(
    surface: &mut S,
    font: &Font,
    x: u32,
    y: u32,
    text: &[u8],
    fg: u32,
    bg: Option<u32>,
)
    requires
        old(surface).ok(),
        font.wf(),
        x + text@.len() * (8 * font.factor()) <= u32::MAX,
        y + 8 * font.factor() <= u32::MAX,
    ensures
        final(surface).ok(),
        final(surface).readable() == old(surface).readable(),
        final(surface).pic() == with_text(
            old(surface).pic(),
            font.bits(),
            font.factor() as int,
            x as int,
            y as int,
            text@,
            fg,
            bg,
            text@.len(),
        ),
{
    let ghost p = surface.pic();
    let s = font.scale();
    let mut cursor_x: u32 = x;
    let mut i: usize = 0;
    while i < text.len()
        invariant
            surface.ok(),
            surface.readable() == old(surface).readable(),
            font.wf(),
            s == font.factor(),
            i <= text@.len(),
            x + text@.len() * (8 * s) <= u32::MAX,
            y + 8 * s <= u32::MAX,
            cursor_x == x + i * (8 * s),
            surface.pic() == with_text(
                p,
                font.bits(),
                s as int,
                x as int,
                y as int,
                text@,
                fg,
                bg,
                i as nat,
            ),
        decreases text@.len() - i,
    {
        assert((i + 1) * (8 * s) == i * (8 * s) + 8 * s) by (nonlinear_arith);
        assert((i + 1) * (8 * s) <= text@.len() * (8 * s)) by (nonlinear_arith)
            requires
                i + 1 <= text@.len(),
                s >= 0,
        ;
        draw_char(surface, font, cursor_x, y, text[i], fg, bg);
        cursor_x = cursor_x + 8 * s;
        i += 1;
    }
}

// ---------------------------------------------------------------------
// Copying and scaling
// ---------------------------------------------------------------------

/// The picture with the first `n` rows of a `w` wide image copied to (`x`,
/// `y`), with corners of radius `r` left out; a radius of -1 leaves nothing
/// out.
pub open spec fn pasted(
    p: Pic,
    x: int,
    y: int,
    src: Seq<u32>,
    w: int,
    h: int,
    r: int,
    n: int,
) -> Pic {
    recolored(
        p,
        |a: int, b: int, o: u32|
            {
                let k = if r < 0 { 0 } else { inset(b - y, h, r) };
                if y <= b < y + n && x + k <= a < x + w - k {
                    src[(b - y) * w + (a - x)]
                } else {
                    o
                }
            },
    )
}

fn paste_row<S: Surface>(
    surface: &mut S,
    dst_x: u32,
    dst_y: u32,
    src: &[u32],
    src_w: u32,
    row: u32,
    from: u32,
    to: u32,
)
    requires
        old(surface).ok(),
        from <= to || from == to,
        to <= src_w,
        (row + 1) * src_w <= src@.len(),
        dst_x + src_w <= u32::MAX,
        dst_y + row <= u32::MAX,
    ensures
        final(surface).ok(),
        final(surface).readable() == old(surface).readable(),
        final(surface).pic() == recolored(
            old(surface).pic(),
            |a: int, b: int, o: u32|
                if b == dst_y + row && dst_x + from <= a < dst_x + to {
                    src@[row * src_w + (a - dst_x)]
                } else {
                    o
                },
        ),
{
    let ghost p = surface.pic();
    let ghost all = recolored(
        p,
        |a: int, b: int, o: u32|
            if b == dst_y + row && dst_x + from <= a < dst_x + to {
                src@[row * src_w + (a - dst_x)]
            } else {
                o
            },
    );
    proof {
        surface.pic_wf();
        assert((row + 1) * src_w == row * src_w + src_w) by (nonlinear_arith);
        assert(row * src_w >= 0) by (nonlinear_arith)
            requires
                row >= 0,
                src_w >= 0,
        ;
        assert(src@.len() == src.len());
    }
    let base = (row as u64 * src_w as u64) as usize;
    let mut col: u32 = from;
    while col < to
        invariant
            surface.ok(),
            surface.readable() == old(surface).readable(),
            p.wf(),
            surface.pic().w == p.w,
            surface.pic().h == p.h,
            from <= col <= to <= src_w,
            base == row * src_w,
            base + src_w <= src@.len(),
            src@.len() == src.len(),
            dst_x + src_w <= u32::MAX,
            dst_y + row <= u32::MAX,
            forall|a: int, b: int|
                0 <= a < p.w && 0 <= b < p.h ==> #[trigger] surface.pic().at(a, b) == if b == dst_y
                    + row && dst_x + from <= a < dst_x + col {
                    src@[row * src_w + (a - dst_x)]
                } else {
                    p.at(a, b)
                },
        decreases to - col,
    {
        surface.put_pixel(dst_x + col, dst_y + row, src[base + col as usize]);
        col += 1;
    }
    proof {
        surface.pic_wf();
        lemma_same_picture(surface.pic(), all);
    }
}

/// Copies a `src_w`x`src_h` pixel buffer onto `surface` at (`dst_x`, `dst_y`).
pub fn blit<S: Surface>(
    surface: &mut S,
    dst_x: u32,
    dst_y: u32,
    src: &[u32],
    src_w: u32,
    src_h: u32,
)
    requires
        old(surface).ok(),
        src_h * src_w <= src@.len(),
        dst_x + src_w <= u32::MAX,
        dst_y + src_h <= u32::MAX,
    ensures
        final(surface).ok(),
        final(surface).readable() == old(surface).readable(),
        final(surface).pic() == pasted(
            old(surface).pic(),
            dst_x as int,
            dst_y as int,
            src@,
            src_w as int,
            src_h as int,
            -1,
            src_h as int,
        ),
{
    let ghost p = surface.pic();
    proof {
        surface.pic_wf();
        lemma_same_picture(
            p,
            pasted(p, dst_x as int, dst_y as int, src@, src_w as int, src_h as int, -1, 0),
        );
    }
    let mut row: u32 = 0;
    while row < src_h
        invariant
            surface.ok(),
            surface.readable() == old(surface).readable(),
            p.wf(),
            row <= src_h,
            src_h * src_w <= src@.len(),
            dst_x + src_w <= u32::MAX,
            dst_y + src_h <= u32::MAX,
            surface.pic() == pasted(
                p,
                dst_x as int,
                dst_y as int,
                src@,
                src_w as int,
                src_h as int,
                -1,
                row as int,
            ),
        decreases src_h - row,
    {
        assert((row + 1) * src_w <= src_h * src_w) by (nonlinear_arith)
            requires
                row + 1 <= src_h,
                src_w >= 0,
        ;
        paste_row(surface, dst_x, dst_y, src, src_w, row, 0, src_w);
        row += 1;
        proof {
            surface.pic_wf();
            lemma_same_picture(
                surface.pic(),
                pasted(
                    p,
                    dst_x as int,
                    dst_y as int,
                    src@,
                    src_w as int,
                    src_h as int,
                    -1,
                    row as int,
                ),
            );
        }
    }
}

/// `blit` with the four corners clipped to a circular arc of radius `r`,
/// so content pasted into a rounded window frame doesn't paint over the
/// frame's corner pixels.
pub fn blit_rounded<S: Surface>(
    surface: &mut S,
    dst_x: u32,
    dst_y: u32,
    src: &[u32],
    src_w: u32,
    src_h: u32,
    r: u32,
)
    requires
        old(surface).ok(),
        src_h * src_w <= src@.len(),
        dst_x + src_w <= u32::MAX,
        dst_y + src_h <= u32::MAX,
    ensures
        final(surface).ok(),
        final(surface).readable() == old(surface).readable(),
        final(surface).pic() == pasted(
            old(surface).pic(),
            dst_x as int,
            dst_y as int,
            src@,
            src_w as int,
            src_h as int,
            r as int,
            src_h as int,
        ),
{
    let ghost p = surface.pic();
    proof {
        surface.pic_wf();
        lemma_same_picture(
            p,
            pasted(p, dst_x as int, dst_y as int, src@, src_w as int, src_h as int, r as int, 0),
        );
    }
    let mut row: u32 = 0;
    while row < src_h
        invariant
            surface.ok(),
            surface.readable() == old(surface).readable(),
            p.wf(),
            row <= src_h,
                src_h * src_w <= src@.len(),
            dst_x + src_w <= u32::MAX,
            dst_y + src_h <= u32::MAX,
            surface.pic() == pasted(
                p,
                dst_x as int,
                dst_y as int,
                src@,
                src_w as int,
                src_h as int,
                r as int,
                row as int,
            ),
        decreases src_h - row,
    {
        assert((row + 1) * src_w <= src_h * src_w) by (nonlinear_arith)
            requires
                row + 1 <= src_h,
                src_w >= 0,
        ;
        let k = rounded_inset(row, src_h, r);
        let inner = src_w.saturating_sub(k).saturating_sub(k);
        if inner > 0 {
            paste_row(surface, dst_x, dst_y, src, src_w, row, k, k + inner);
        }
        row += 1;
        proof {
            surface.pic_wf();
            lemma_same_picture(
                surface.pic(),
                pasted(
                    p,
                    dst_x as int,
                    dst_y as int,
                    src@,
                    src_w as int,
                    src_h as int,
                    r as int,
                    row as int,
                ),
            );
        }
    }
}

/// A channel `f` of 65536 parts on the way from `a` to `b`, rounded down.
pub open spec fn lerp_channel(a: int, b: int, f: int) -> int {
    a + (b - a) * f / 0x1_0000
}

/// A color on the way between two.
#[verifier::opaque]
pub open spec fn lerp(a: u32, b: u32, f: int) -> u32 {
    rgb(
        lerp_channel(channel(a, 2), channel(b, 2), f),
        lerp_channel(channel(a, 1), channel(b, 1), f),
        lerp_channel(channel(a, 0), channel(b, 0), f),
    )
}

fn lerp_channel_of(a: u32, b: u32, f: u32) -> (r: u32)
    requires
        a <= 255,
        b <= 255,
        f < 0x1_0000,
    ensures
        r == lerp_channel(a as int, b as int, f as int),
        r <= 255,
{
    let ghost d = b as int - a as int;
    if b >= a {
        let e = b - a;
        assert(0 <= e * f <= 255 * 0xFFFF && d * f == e * f && e * f <= e * 0x1_0000)
            by (nonlinear_arith)
            requires
                0 <= e <= 255,
                0 <= f <= 0xFFFF,
                d == e,
        ;
        a + e * f / 0x1_0000
    } else {
        let e = a - b;
        assert(0 <= e * f <= 255 * 0xFFFF && d * f == -(e * f) && e * f <= e * 0x1_0000)
            by (nonlinear_arith)
            requires
                0 <= e <= 255,
                0 <= f <= 0xFFFF,
                d == -e,
        ;
        a - (e * f + 0xFFFF) / 0x1_0000
    }
}

fn lerp_of(a: u32, b: u32, f: u32) -> (r: u32)
    requires
        f < 0x1_0000,
    ensures
        r == lerp(a, b, f as int),
{
    reveal(lerp);
    let x = lerp_channel_of(a / 0x1_0000 % 0x100, b / 0x1_0000 % 0x100, f);
    let y = lerp_channel_of(a / 0x100 % 0x100, b / 0x100 % 0x100, f);
    let z = lerp_channel_of(a % 0x100, b % 0x100, f);
    x * 0x1_0000 + y * 0x100 + z
}

/// Where destination place `d` of `dst` lies in a source of `src` places,
/// in 65536ths; a single place lies at the first.
pub open spec fn source_pos(d: int, src: int, dst: int) -> int {
    if dst <= 1 {
        0
    } else {
        d * 0x1_0000 * (src - 1) / (dst - 1)
    }
}

/// The place behind `i`, or the last one.
pub open spec fn neighbor(i: int, n: int) -> int {
    if i + 1 < n {
        i + 1
    } else {
        n - 1
    }
}

/// Pixel (`dx`, `dy`) of a picture scaled from `src` by bilinear
/// interpolation.
pub open spec fn scaled_pixel(src: Pic, dst_w: int, dst_h: int, dx: int, dy: int) -> u32 {
    let sx = source_pos(dx, src.w, dst_w);
    let sy = source_pos(dy, src.h, dst_h);
    let (x0, y0) = (sx / 0x1_0000, sy / 0x1_0000);
    let (x1, y1) = (neighbor(x0, src.w), neighbor(y0, src.h));
    let (fx, fy) = (sx % 0x1_0000, sy % 0x1_0000);
    lerp(
        lerp(src.at(x0, y0), src.at(x1, y0), fx),
        lerp(src.at(x0, y1), src.at(x1, y1), fx),
        fy,
    )
}

proof fn lemma_source_pos(d: int, src: int, dst: int)
    requires
        0 <= d < dst,
        1 <= src,
    ensures
        0 <= source_pos(d, src, dst) <= (src - 1) * 0x1_0000,
        0 <= source_pos(d, src, dst) / 0x1_0000 < src,
{
    if dst > 1 {
        let e = dst - 1;
        let s = src - 1;
        let num = d * 0x1_0000 * s;
        assert(0 <= num <= e * (s * 0x1_0000)) by (nonlinear_arith)
            requires
                0 <= d <= e,
                0 <= s,
                num == d * 0x1_0000 * s,
        ;
        vstd::arithmetic::div_mod::lemma_div_is_ordered(num, e * (s * 0x1_0000), e);
        vstd::arithmetic::div_mod::lemma_div_multiples_vanish(s * 0x1_0000, e);
        vstd::arithmetic::div_mod::lemma_div_pos_is_pos(num, e);
    }
}

fn source_pos_of(d: u32, src: u32, dst: u32) -> (r: u64)
    requires
        d < dst,
        1 <= src,
    ensures
        r == source_pos(d as int, src as int, dst as int),
        r / 0x1_0000 < src,
{
    proof {
        lemma_source_pos(d as int, src as int, dst as int);
    }
    if dst == 1 {
        return 0;
    }
    let wide = d as u128 * 0x1_0000;
    let places = src as u128 - 1;
    assert(wide * places <= 0xFFFF_FFFF * 0x1_0000 * 0xFFFF_FFFF) by (nonlinear_arith)
        requires
            wide <= 0xFFFF_FFFF * 0x1_0000,
            places <= 0xFFFF_FFFF,
    ;
    let num = wide * places;
    (num / (dst as u128 - 1)) as u64
}

/// Source pixels for scaling, in either of the two layouts.
pub enum Source<'a> {
    Pixels(&'a [u32]),
    Bytes(&'a [u8]),
}

/// The picture in a source.
pub open spec fn source_pic(s: Source, w: int, h: int) -> Pic {
    match s {
        Source::Pixels(p) => picture_of(p@, w, h),
        Source::Bytes(b) => Pic {
            w,
            h,
            rows: Seq::new(
                h as nat,
                |y: int| Seq::new(w as nat, |x: int| le32(b@, 4 * (y * w + x))),
            ),
        },
    }
}

/// Whether the source holds all pixels of a picture.
pub open spec fn source_holds(s: Source, w: int, h: int) -> bool {
    match s {
        Source::Pixels(p) => w * h <= p@.len(),
        Source::Bytes(b) => 4 * (w * h) <= b@.len(),
    }
}

fn source_pixel(s: &Source, w: u32, h: u32, x: u32, y: u32) -> (r: u32)
    requires
        x < w,
        y < h,
        source_holds(*s, w as int, h as int),
        w * h <= u32::MAX,
    ensures
        r == source_pic(*s, w as int, h as int).at(x as int, y as int),
{
    proof {
        lemma_index(x as int, y as int, w as int, h as int);
    }
    let at = y as u64 * w as u64 + x as u64;
    match s {
        Source::Pixels(p) => {
            assert(p@.len() == p.len());
            p[at as usize]
        },
        Source::Bytes(b) => {
            assert(b@.len() == b.len());
            get_le32(b, (4 * at) as usize)
        },
    }
}

/// Bilinear fixed-point scaling of one pixel.
fn scale_pixel(
    s: &Source,
    src_w: u32,
    src_h: u32,
    dst_w: u32,
    dst_h: u32,
    dx: u32,
    dy: u32,
) -> (r: u32)
    requires
        source_holds(*s, src_w as int, src_h as int),
        src_w * src_h <= u32::MAX,
        1 <= src_w,
        1 <= src_h,
        dx < dst_w,
        dy < dst_h,
    ensures
        r == scaled_pixel(
            source_pic(*s, src_w as int, src_h as int),
            dst_w as int,
            dst_h as int,
            dx as int,
            dy as int,
        ),
{
    let sx = source_pos_of(dx, src_w, dst_w);
    let sy = source_pos_of(dy, src_h, dst_h);
    let x0 = (sx / 0x1_0000) as u32;
    let y0 = (sy / 0x1_0000) as u32;
    let x1: u32 = if x0 + 1 < src_w { x0 + 1 } else { src_w - 1 };
    let y1: u32 = if y0 + 1 < src_h { y0 + 1 } else { src_h - 1 };
    let fx = (sx % 0x1_0000) as u32;
    let fy = (sy % 0x1_0000) as u32;
    let top = lerp_of(
        source_pixel(s, src_w, src_h, x0, y0),
        source_pixel(s, src_w, src_h, x1, y0),
        fx,
    );
    let bottom = lerp_of(
        source_pixel(s, src_w, src_h, x0, y1),
        source_pixel(s, src_w, src_h, x1, y1),
        fx,
    );
    lerp_of(top, bottom, fy)
}

/// Whether `dst` holds the picture scaled from `src`, row by row.
pub open spec fn is_scaled(src: Pic, dst: Seq<u32>, w: int, h: int) -> bool {
    dst.len() == w * h && forall|x: int, y: int|
        0 <= x < w && 0 <= y < h ==> #[trigger] picture_of(dst, w, h).at(x, y) == scaled_pixel(
            src,
            w,
            h,
            x,
            y,
        )
}

/// Bilinear scaling of a source picture to `dst_w`x`dst_h`. An empty source
/// gives black.
fn scale_pixels(s: &Source, src_w: u32, src_h: u32, dst_w: u32, dst_h: u32) -> (dst: Vec<u32>)
    requires
        source_holds(*s, src_w as int, src_h as int),
        src_w * src_h <= u32::MAX,
        dst_w * dst_h <= u32::MAX,
    ensures
        dst@.len() == dst_w * dst_h,
        src_w > 0 && src_h > 0 ==> is_scaled(
            source_pic(*s, src_w as int, src_h as int),
            dst@,
            dst_w as int,
            dst_h as int,
        ),
        src_w == 0 || src_h == 0 ==> forall|i: int| 0 <= i < dst@.len() ==> #[trigger] dst@[i] == 0,
{
    let n = (dst_w as u64 * dst_h as u64) as usize;
    let mut dst: Vec<u32> = Vec::new();
    if src_w == 0 || src_h == 0 || dst_w == 0 || dst_h == 0 {
        dst.resize(n, 0);
        assert(dst_w == 0 || dst_h == 0 ==> dst_w * dst_h == 0) by (nonlinear_arith);
        return dst;
    }
    let ghost src = source_pic(*s, src_w as int, src_h as int);
    let ghost w = dst_w as int;
    let mut dy: u32 = 0;
    while dy < dst_h
        invariant
            source_holds(*s, src_w as int, src_h as int),
            src_w * src_h <= u32::MAX,
            1 <= src_w,
            1 <= src_h,
            w == dst_w,
            src == source_pic(*s, src_w as int, src_h as int),
            dy <= dst_h,
            dst@.len() == dy * w,
            forall|x: int, y: int|
                0 <= x < w && 0 <= y < dy ==> #[trigger] picture_of(dst@, w, dy as int).at(x, y)
                    == scaled_pixel(src, w, dst_h as int, x, y),
        decreases dst_h - dy,
    {
        let ghost before = dst@;
        let mut dx: u32 = 0;
        while dx < dst_w
            invariant
                source_holds(*s, src_w as int, src_h as int),
                src_w * src_h <= u32::MAX,
                1 <= src_w,
                1 <= src_h,
                w == dst_w,
                src == source_pic(*s, src_w as int, src_h as int),
                dy < dst_h,
                dx <= dst_w,
                before.len() == dy * w,
                dst@.len() == dy * w + dx,
                forall|i: int| 0 <= i < before.len() ==> #[trigger] dst@[i] == before[i],
                forall|x: int|
                    0 <= x < dx ==> dst@[dy * w + x] == #[trigger] scaled_pixel(
                        src,
                        w,
                        dst_h as int,
                        x,
                        dy as int,
                    ),
            decreases dst_w - dx,
        {
            let c = scale_pixel(s, src_w, src_h, dst_w, dst_h, dx, dy);
            dst.push(c);
            dx += 1;
        }
        proof {
            assert((dy + 1) * w == dy * w + w) by (nonlinear_arith);
            assert forall|x: int, y: int| 0 <= x < w && 0 <= y < dy + 1 implies #[trigger] picture_of(
                dst@,
                w,
                dy + 1,
            ).at(x, y) == scaled_pixel(src, w, dst_h as int, x, y) by {
                if y < dy {
                    lemma_index(x, y, w, dy as int);
                    assert(w * dy == dy * w) by (nonlinear_arith);
                    assert(picture_of(before, w, dy as int).at(x, y) == before[y * w + x]);
                    assert(dst@[y * w + x] == before[y * w + x]);
                } else {
                    assert(y == dy);
                }
            }
        }
        dy += 1;
    }
    assert(dst_h * w == w * dst_h) by (nonlinear_arith);
    dst
}

/// Scales a `src_w`x`src_h` pixel buffer to `dst_w`x`dst_h` with bilinear
/// interpolation in pure fixed-point integer math.
pub fn scale_image(src: &[u32], src_w: u32, src_h: u32, dst_w: u32, dst_h: u32) -> (dst: Vec<u32>)
    requires
        src_w * src_h <= src@.len(),
        src_w * src_h <= u32::MAX,
        dst_w * dst_h <= u32::MAX,
    ensures
        dst@.len() == dst_w * dst_h,
        src_w > 0 && src_h > 0 ==> is_scaled(
            picture_of(src@, src_w as int, src_h as int),
            dst@,
            dst_w as int,
            dst_h as int,
        ),
        src_w == 0 || src_h == 0 ==> forall|i: int| 0 <= i < dst@.len() ==> #[trigger] dst@[i] == 0,
{
    scale_pixels(&Source::Pixels(src), src_w, src_h, dst_w, dst_h)
}

/// `scale_image` writing into a buffer; an empty source leaves it as it is.
pub fn scale_into(
    src: &[u32],
    src_w: u32,
    src_h: u32,
    dst: &mut Vec<u32>,
    dst_w: u32,
    dst_h: u32,
)
    requires
        src_w * src_h <= src@.len(),
        src_w * src_h <= u32::MAX,
        dst_w * dst_h <= u32::MAX,
        old(dst)@.len() == dst_w * dst_h,
    ensures
        src_w > 0 && src_h > 0 ==> is_scaled(
            picture_of(src@, src_w as int, src_h as int),
            final(dst)@,
            dst_w as int,
            dst_h as int,
        ),
        src_w == 0 || src_h == 0 ==> final(dst)@ == old(dst)@,
{
    if src_w == 0 || src_h == 0 {
        return;
    }
    let out = scale_image(src, src_w, src_h, dst_w, dst_h);
    *dst = out;
}

/// Scales raw little-endian 0x00RRGGBB pixel *bytes* straight into a
/// `dst_w`x`dst_h` buffer of u32 pixels.
pub fn scale_bytes(bytes: &[u8], src_w: u32, src_h: u32, dst_w: u32, dst_h: u32) -> (dst: Vec<u32>)
    requires
        4 * (src_w * src_h) <= bytes@.len(),
        src_w * src_h <= u32::MAX,
        dst_w * dst_h <= u32::MAX,
    ensures
        dst@.len() == dst_w * dst_h,
        src_w > 0 && src_h > 0 ==> is_scaled(
            source_pic(Source::Bytes(bytes), src_w as int, src_h as int),
            dst@,
            dst_w as int,
            dst_h as int,
        ),
        src_w == 0 || src_h == 0 ==> forall|i: int| 0 <= i < dst@.len() ==> #[trigger] dst@[i] == 0,
{
    scale_pixels(&Source::Bytes(bytes), src_w, src_h, dst_w, dst_h)
}

/// Scaling to the same size keeps every pixel's color channels, and scaling
/// to any size keeps those of the four corners; a target of one row or
/// column has the corners of the source's first.
pub proof fn law_scaling_is_faithful(src: Pic, w: int, h: int, x: int, y: int)
    requires
        src.wf(),
        w >= 1,
        h >= 1,
        0 <= x < src.w,
        0 <= y < src.h,
    ensures
        scaled_pixel(src, src.w, src.h, x, y) == src.at(x, y) % 0x100_0000,
        ({
            let right = if w == 1 { 0 } else { src.w - 1 };
            let bottom = if h == 1 { 0 } else { src.h - 1 };
            &&& scaled_pixel(src, w, h, 0, 0) == src.at(0, 0) % 0x100_0000
            &&& scaled_pixel(src, w, h, w - 1, 0) == src.at(right, 0) % 0x100_0000
            &&& scaled_pixel(src, w, h, 0, h - 1) == src.at(0, bottom) % 0x100_0000
            &&& scaled_pixel(src, w, h, w - 1, h - 1) == src.at(right, bottom) % 0x100_0000
        }),
{
    lemma_exact_pos(x, src.w);
    lemma_exact_pos(y, src.h);
    lemma_scaled_exact(src, src.w, src.h, x, y, x, y);
    lemma_end_pos(src.w, w);
    lemma_end_pos(src.h, h);
    let right = if w == 1 { 0 } else { src.w - 1 };
    let bottom = if h == 1 { 0 } else { src.h - 1 };
    lemma_scaled_exact(src, w, h, 0, 0, 0, 0);
    lemma_scaled_exact(src, w, h, w - 1, 0, right, 0);
    lemma_scaled_exact(src, w, h, 0, h - 1, 0, bottom);
    lemma_scaled_exact(src, w, h, w - 1, h - 1, right, bottom);
}

/// Scaling makes no channel darker than the darkest, nor lighter than the
/// lightest, of the source.
pub proof fn law_scaling_stays_in_range(
    src: Pic,
    w: int,
    h: int,
    dx: int,
    dy: int,
    k: int,
    lo: int,
    hi: int,
)
    requires
        src.wf(),
        src.w >= 1,
        src.h >= 1,
        0 <= dx < w,
        0 <= dy < h,
        0 <= k < 3,
        forall|x: int, y: int|
            0 <= x < src.w && 0 <= y < src.h ==> lo <= channel(#[trigger] src.at(x, y), k) <= hi,
    ensures
        lo <= channel(scaled_pixel(src, w, h, dx, dy), k) <= hi,
{
    lemma_source_pos(dx, src.w, w);
    lemma_source_pos(dy, src.h, h);
    let (sx, sy) = (source_pos(dx, src.w, w), source_pos(dy, src.h, h));
    let (x0, y0) = (sx / 0x1_0000, sy / 0x1_0000);
    let (x1, y1) = (neighbor(x0, src.w), neighbor(y0, src.h));
    let (fx, fy) = (sx % 0x1_0000, sy % 0x1_0000);
    let top = lerp(src.at(x0, y0), src.at(x1, y0), fx);
    let bottom = lerp(src.at(x0, y1), src.at(x1, y1), fx);
    lemma_lerp_range(src.at(x0, y0), src.at(x1, y0), fx, k, lo, hi);
    lemma_lerp_range(src.at(x0, y1), src.at(x1, y1), fx, k, lo, hi);
    lemma_lerp_range(top, bottom, fy, k, lo, hi);
}

#[verifier::spinoff_prover]
proof fn lemma_lerp_range(a: u32, b: u32, f: int, k: int, lo: int, hi: int)
    requires
        0 <= f < 0x1_0000,
        0 <= k < 3,
        lo <= channel(a, k) <= hi,
        lo <= channel(b, k) <= hi,
    ensures
        lo <= channel(lerp(a, b, f), k) <= hi,
{
    reveal(lerp);
    lemma_lerp_channel_range(channel(a, 2), channel(b, 2), f);
    lemma_lerp_channel_range(channel(a, 1), channel(b, 1), f);
    lemma_lerp_channel_range(channel(a, 0), channel(b, 0), f);
    let x = lerp_channel(channel(a, 2), channel(b, 2), f);
    let y = lerp_channel(channel(a, 1), channel(b, 1), f);
    let z = lerp_channel(channel(a, 0), channel(b, 0), f);
    let c = rgb(x, y, z);
    assert(0 <= x <= 255 && 0 <= y <= 255 && 0 <= z <= 255);
    assert(c as int == x * 0x1_0000 + y * 0x100 + z);
    assert(channel(c, 2) == x && channel(c, 1) == y && channel(c, 0) == z);
}

proof fn lemma_lerp_channel_range(a: int, b: int, f: int)
    requires
        0 <= f < 0x1_0000,
    ensures
        a <= b ==> a <= lerp_channel(a, b, f) <= b,
        b <= a ==> b <= lerp_channel(a, b, f) <= a,
{
    let d = b - a;
    assert((d >= 0 ==> 0 <= d * f <= d * 0x1_0000) && (d <= 0 ==> d * 0x1_0000 <= d * f <= 0))
        by (nonlinear_arith)
        requires
            0 <= f < 0x1_0000,
    ;
}

proof fn lemma_scaled_exact(src: Pic, w: int, h: int, dx: int, dy: int, x: int, y: int)
    requires
        source_pos(dx, src.w, w) == x * 0x1_0000,
        source_pos(dy, src.h, h) == y * 0x1_0000,
    ensures
        scaled_pixel(src, w, h, dx, dy) == src.at(x, y) % 0x100_0000,
{
    let (x1, y1) = (neighbor(x, src.w), neighbor(y, src.h));
    lemma_lerp_zero(src.at(x, y), src.at(x1, y));
    lemma_lerp_zero(src.at(x, y1), src.at(x1, y1));
    let top = lerp(src.at(x, y), src.at(x1, y), 0);
    let bottom = lerp(src.at(x, y1), src.at(x1, y1), 0);
    lemma_lerp_zero(top, bottom);
}

#[verifier::spinoff_prover]
proof fn lemma_lerp_zero(a: u32, b: u32)
    ensures
        lerp(a, b, 0) == a % 0x100_0000,
{
    reveal(lerp);
    lemma_channel_zero(channel(a, 2), channel(b, 2));
    lemma_channel_zero(channel(a, 1), channel(b, 1));
    lemma_channel_zero(channel(a, 0), channel(b, 0));
    lemma_channels(a);
}

proof fn lemma_channel_zero(a: int, b: int)
    ensures
        lerp_channel(a, b, 0) == a,
{
    assert((b - a) * 0 == 0);
}

/// The three channels of a color make up its low 24 bits.
#[verifier::spinoff_prover]
proof fn lemma_channels(c: u32)
    ensures
        rgb(channel(c, 2), channel(c, 1), channel(c, 0)) == c % 0x100_0000,
{
    let v = c as int;
    let (q, r) = (v / 0x100, v % 0x100);
    let (q2, r2) = (q / 0x100, q % 0x100);
    assert(v / 0x1_0000 == q2);
    assert(v == q2 * 0x1_0000 + r2 * 0x100 + r);
    assert(q2 == q2 / 0x100 * 0x100 + q2 % 0x100);
    assert(v / 0x100_0000 == q2 / 0x100);
}

proof fn lemma_exact_pos(x: int, n: int)
    requires
        0 <= x < n,
    ensures
        source_pos(x, n, n) == x * 0x1_0000,
        source_pos(x, n, n) / 0x1_0000 == x,
        source_pos(x, n, n) % 0x1_0000 == 0,
{
    if n > 1 {
        vstd::arithmetic::div_mod::lemma_div_multiples_vanish(x * 0x1_0000, n - 1);
        assert((n - 1) * (x * 0x1_0000) == x * 0x1_0000 * (n - 1)) by (nonlinear_arith);
    }
}

/// The first and the last place of the target.
proof fn lemma_end_pos(n: int, w: int)
    requires
        n >= 1,
        w >= 1,
    ensures
        source_pos(0, n, w) == 0,
        source_pos(w - 1, n, w) == if w == 1 { 0 } else { (n - 1) * 0x1_0000 },
{
    if w > 1 {
        vstd::arithmetic::div_mod::lemma_div_multiples_vanish((n - 1) * 0x1_0000, w - 1);
        assert((w - 1) * ((n - 1) * 0x1_0000) == (w - 1) * 0x1_0000 * (n - 1))
            by (nonlinear_arith);
        assert(0 * 0x1_0000 * (n - 1) == 0) by (nonlinear_arith);
        vstd::arithmetic::div_mod::lemma_div_basics(w - 1);
    }
}

// ---------------------------------------------------------------------
// Spans of one row
// ---------------------------------------------------------------------

/// The picture with a part of `src` pasted into a row.
pub open spec fn span_pasted(p: Pic, x: int, y: int, src: Seq<u32>, offset: int, len: int) -> Pic {
    recolored(
        p,
        |a: int, b: int, o: u32|
            if in_rect(a, b, x, y, len, 1) {
                src[offset + (a - x)]
            } else {
                o
            },
    )
}

impl Canvas {
    /// Fills a part of a row; what lies outside is ignored.
    pub fn fill_span(&mut self, x: u32, y: u32, len: u32, color: u32)
        requires
            old(self).ok(),
        ensures
            final(self).ok(),
            final(self).readable() == old(self).readable(),
            final(self).pic() == filled(old(self).pic(), x as int, y as int, len as int, 1, color),
    {
        let ghost p = self.pic();
        proof {
            self.pic_wf();
        }
        if y < self.height && x < self.width {
            let n = min_of(len, self.width - x);
            fill_rect(self, x, y, n, 1, color);
        }
        proof {
            self.pic_wf();
            lemma_same_picture(
                self.pic(),
                filled(p, x as int, y as int, len as int, 1, color),
            );
        }
    }

    /// Blends a color over a part of a row; what lies outside is ignored.
    pub fn blend_span(&mut self, x: u32, y: u32, len: u32, color: u32, alpha: u32)
        requires
            old(self).ok(),
        ensures
            final(self).ok(),
            final(self).readable() == old(self).readable(),
            final(self).pic() == veiled(
                old(self).pic(),
                x as int,
                y as int,
                len as int,
                1,
                color,
                alpha,
                old(self).readable(),
            ),
    {
        let ghost p = self.pic();
        let ghost readable = self.readable();
        proof {
            self.pic_wf();
        }
        if y < self.height && x < self.width {
            let n = min_of(len, self.width - x);
            fill_rect_blend(self, x, y, n, 1, color, alpha);
        }
        proof {
            self.pic_wf();
            lemma_same_picture(
                self.pic(),
                veiled(p, x as int, y as int, len as int, 1, color, alpha, readable),
            );
        }
    }

    /// Copies pixels into a row; what lies outside is ignored.
    pub fn blit_span(&mut self, x: u32, y: u32, src: &[u32], offset: usize, len: u32)
        requires
            old(self).ok(),
            offset + len <= src@.len(),
        ensures
            final(self).ok(),
            final(self).readable() == old(self).readable(),
            final(self).pic() == span_pasted(
                old(self).pic(),
                x as int,
                y as int,
                src@,
                offset as int,
                len as int,
            ),
    {
        let ghost p = self.pic();
        let ghost q = span_pasted(p, x as int, y as int, src@, offset as int, len as int);
        proof {
            self.pic_wf();
        }
        assert(src@.len() == src.len());
        if y < self.height && x < self.width {
            let n = min_of(len, self.width - x);
            let mut i: u32 = 0;
            while i < n
                invariant
                    self.ok(),
                    self.readable() == old(self).readable(),
                    p.wf(),
                    self.pic().w == p.w,
                    self.pic().h == p.h,
                    i <= n <= len,
                    x + n <= p.w <= u32::MAX,
                    offset + len <= src@.len(),
                    src@.len() == src.len(),
                    forall|a: int, b: int|
                        0 <= a < p.w && 0 <= b < p.h ==> #[trigger] self.pic().at(a, b) == if x <= a
                            < x + i && b == y {
                            src@[offset + (a - x)]
                        } else {
                            p.at(a, b)
                        },
                decreases n - i,
            {
                self.put_pixel(x + i, y, src[offset + i as usize]);
                i += 1;
            }
        }
        proof {
            self.pic_wf();
            lemma_same_picture(self.pic(), q);
        }
    }
}

} // verus!
