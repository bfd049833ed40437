//! Pictures as lists of what is drawn: an application describes its window
//! as a scene, and painting the scene gives the pixels.

use crate::font::Font;
use crate::gfx::{
    draw_string,
    fill_rect,
    fill_rounded_rect,
    fill_rounded_rect_gradient_v,
    filled,
    lemma_same_picture,
    rounded,
    with_text,
    Canvas,
    Ink,
    Pic,
    Surface,
};
use crate::text::{chars_of, string_of};
use vstd::prelude::*;
use vstd::slice::slice_subrange;
use vstd::utf8::encode_utf8;

verus! {

/// One thing that is drawn.
pub enum Draw {
    Rect { x: u32, y: u32, w: u32, h: u32, color: u32 },
    Round { x: u32, y: u32, w: u32, h: u32, r: u32, color: u32 },
    RoundShade { x: u32, y: u32, w: u32, h: u32, r: u32, top: u32, bottom: u32 },
    Line { x0: u32, y0: u32, x1: u32, y1: u32, color: u32 },
    Text { x: u32, y: u32, text: Vec<char>, color: u32 },
}

/// One thing that is drawn, in contracts.
pub enum Mark {
    Rect(u32, u32, u32, u32, u32),
    Round(u32, u32, u32, u32, u32, u32),
    RoundShade(u32, u32, u32, u32, u32, u32, u32),
    Line(u32, u32, u32, u32, u32),
    Text(u32, u32, Seq<char>, u32),
}

pub open spec fn mark(d: Draw) -> Mark {
    match d {
        Draw::Rect { x, y, w, h, color } => Mark::Rect(x, y, w, h, color),
        Draw::Round { x, y, w, h, r, color } => Mark::Round(x, y, w, h, r, color),
        Draw::RoundShade { x, y, w, h, r, top, bottom } => Mark::RoundShade(
            x,
            y,
            w,
            h,
            r,
            top,
            bottom,
        ),
        Draw::Line { x0, y0, x1, y1, color } => Mark::Line(x0, y0, x1, y1, color),
        Draw::Text { x, y, text, color } => Mark::Text(x, y, text@, color),
    }
}

pub struct Scene {
    draws: Vec<Draw>,
}

impl View for Scene {
    type V = Seq<Mark>;

    closed spec fn view(&self) -> Seq<Mark> {
        self.draws@.map_values(|d: Draw| mark(d))
    }
}

impl Scene {
    pub fn new() -> (r: Self)
        ensures
            r@ == Seq::<Mark>::empty(),
    {
        let r = Scene { draws: Vec::new() };
        assert(r@ =~= Seq::<Mark>::empty());
        r
    }

    fn push(&mut self, d: Draw)
        ensures
            final(self)@ == old(self)@.push(mark(d)),
    {
        self.draws.push(d);
        assert(self@ =~= old(self)@.push(mark(d)));
    }

    /// A filled rectangle.
    pub fn rect(&mut self, x: u32, y: u32, w: u32, h: u32, color: u32)
        ensures
            final(self)@ == old(self)@.push(Mark::Rect(x, y, w, h, color)),
    {
        self.push(Draw::Rect { x, y, w, h, color });
    }

    /// A filled rectangle with rounded corners.
    pub fn round(&mut self, x: u32, y: u32, w: u32, h: u32, r: u32, color: u32)
        ensures
            final(self)@ == old(self)@.push(Mark::Round(x, y, w, h, r, color)),
    {
        self.push(Draw::Round { x, y, w, h, r, color });
    }

    /// A rounded rectangle with a vertical gradient.
    pub fn round_shade(&mut self, x: u32, y: u32, w: u32, h: u32, r: u32, top: u32, bottom: u32)
        ensures
            final(self)@ == old(self)@.push(Mark::RoundShade(x, y, w, h, r, top, bottom)),
    {
        self.push(Draw::RoundShade { x, y, w, h, r, top, bottom });
    }

    /// A line one pixel thick.
    pub fn line(&mut self, x0: u32, y0: u32, x1: u32, y1: u32, color: u32)
        ensures
            final(self)@ == old(self)@.push(Mark::Line(x0, y0, x1, y1, color)),
    {
        self.push(Draw::Line { x0, y0, x1, y1, color });
    }

    /// A text.
    pub fn text(&mut self, x: u32, y: u32, text: &str, color: u32)
        ensures
            final(self)@ == old(self)@.push(Mark::Text(x, y, text@, color)),
    {
        let text = chars_of(text);
        self.push(Draw::Text { x, y, text, color });
    }

    /// A text given by its characters.
    pub fn chars(&mut self, x: u32, y: u32, text: Vec<char>, color: u32)
        ensures
            final(self)@ == old(self)@.push(Mark::Text(x, y, text@, color)),
    {
        self.push(Draw::Text { x, y, text, color });
    }
}

// ---------------------------------------------------------------------
// Lines
// ---------------------------------------------------------------------

/// The distance of two coordinates.
pub open spec fn apart(a: u32, b: u32) -> int {
    if a <= b {
        b - a
    } else {
        a - b
    }
}

/// The coordinate `n` steps from `a` toward `b`.
pub open spec fn toward(a: u32, b: u32, n: int) -> int {
    if b >= a {
        a + n
    } else {
        a - n
    }
}

/// Twice the error term after `i` steps in x and `j` in y.
pub open spec fn error2(dx: int, dy: int, i: int, j: int) -> int {
    2 * (dx - dy - i * dy + j * dx)
}

/// The picture with the rest of a line drawn, from `i` steps in x and `j` in
/// y on: each step goes on in the direction that is behind, or in both.
pub open spec fn lined(
    p: Pic,
    x0: u32,
    y0: u32,
    x1: u32,
    y1: u32,
    color: u32,
    i: int,
    j: int,
) -> Pic
    decreases
            (if i <= apart(x0, x1) && j <= apart(y0, y1) {
                apart(x0, x1) - i + apart(y0, y1) - j + 1
            } else {
                0
            }),
{
    let dx = apart(x0, x1);
    let dy = apart(y0, y1);
    let q = filled(p, toward(x0, x1, i), toward(y0, y1, j), 1, 1, color);
    if i >= dx && j >= dy || i > dx || j > dy || i < 0 || j < 0 {
        q
    } else {
        let e = error2(dx, dy, i, j);
        lined(
            q,
            x0,
            y0,
            x1,
            y1,
            color,
            if e > -dy {
                i + 1
            } else {
                i
            },
            if e < dx {
                j + 1
            } else {
                j
            },
        )
    }
}

/// A line never goes past its end: until both ends meet, a direction that is
/// done is not taken again.
pub proof fn law_line_stays_inside(dx: int, dy: int, i: int, j: int)
    requires
        0 <= i <= dx,
        0 <= j <= dy,
        i < dx || j < dy,
    ensures
        i == dx ==> !(error2(dx, dy, i, j) > -dy),
        j == dy ==> !(error2(dx, dy, i, j) < dx),
        error2(dx, dy, i, j) > -dy || error2(dx, dy, i, j) < dx,
{
    if i == dx {
        assert(dx - dy - dx * dy + j * dx <= -dy) by (nonlinear_arith)
            requires
                0 <= j,
                j + 1 <= dy,
                dx >= 0,
        ;
        assert(i * dy == dx * dy);
    }
    if j == dy {
        assert(dx - dy - i * dy + dy * dx >= dx) by (nonlinear_arith)
            requires
                0 <= i,
                i + 1 <= dx,
                dy >= 0,
        ;
    }
}

/// Draws a line one pixel thick between two points, in any direction.
pub fn draw_line(canvas: &mut Canvas, x0: u32, y0: u32, x1: u32, y1: u32, color: u32)
    requires
        old(canvas).ok(),
        x0 <= 0x1000_0000,
        y0 <= 0x1000_0000,
        x1 <= 0x1000_0000,
        y1 <= 0x1000_0000,
    ensures
        final(canvas).ok(),
        final(canvas).readable() == old(canvas).readable(),
        final(canvas).pic() == lined(old(canvas).pic(), x0, y0, x1, y1, color, 0, 0),
{
    let ghost (dxg, dyg) = (apart(x0, x1), apart(y0, y1));
    let dx: i64 = if x0 <= x1 { (x1 - x0) as i64 } else { (x0 - x1) as i64 };
    let dy: i64 = if y0 <= y1 { (y1 - y0) as i64 } else { (y0 - y1) as i64 };
    let mut i: i64 = 0;
    let mut j: i64 = 0;
    let mut err: i64 = dx - dy;
    let ghost p = canvas.pic();
    assert(0 * dy == 0 && 0 * dx == 0);
    loop
        invariant
            canvas.ok(),
            canvas.readable() == old(canvas).readable(),
            x0 <= 0x1000_0000,
            y0 <= 0x1000_0000,
            x1 <= 0x1000_0000,
            y1 <= 0x1000_0000,
            0 <= i <= dx <= 0x1000_0000,
            0 <= j <= dy <= 0x1000_0000,
            dx == apart(x0, x1),
            dy == apart(y0, y1),
            p == old(canvas).pic(),
            2 * err == error2(dx as int, dy as int, i as int, j as int),
            lined(p, x0, y0, x1, y1, color, 0, 0) == lined(
                canvas.pic(),
                x0,
                y0,
                x1,
                y1,
                color,
                i as int,
                j as int,
            ),
        decreases dx - i + dy - j,
    {
        let x = if x1 >= x0 { x0 + i as u32 } else { x0 - i as u32 };
        let y = if y1 >= y0 { y0 + j as u32 } else { y0 - j as u32 };
        let ghost before = canvas.pic();
        fill_rect(canvas, x, y, 1, 1, color);
        if i == dx && j == dy {
            return;
        }
        proof {
            law_line_stays_inside(dx as int, dy as int, i as int, j as int);
            assert(-0x1000_0000 * 0x1000_0000 <= i * dy * -1 && i * dy >= 0 && 0 <= j * dx
                <= 0x1000_0000 * 0x1000_0000) by (nonlinear_arith)
                requires
                    0 <= i <= 0x1000_0000,
                    0 <= j <= 0x1000_0000,
                    0 <= dx <= 0x1000_0000,
                    0 <= dy <= 0x1000_0000,
            ;
        }
        let e2 = 2 * err;
        let ghost (i0, j0) = (i as int, j as int);
        if e2 > -dy {
            err = err - dy;
            i = i + 1;
            assert((i0 + 1) * dy == i0 * dy + dy) by (nonlinear_arith);
        }
        if e2 < dx {
            err = err + dx;
            j = j + 1;
            assert((j0 + 1) * dx == j0 * dx + dx) by (nonlinear_arith);
        }
    }
}

// ---------------------------------------------------------------------
// Painting
// ---------------------------------------------------------------------

/// The bytes of a text that are drawn: more than a screen can ever hold.
pub open spec fn drawn_bytes(text: Seq<char>) -> Seq<u8> {
    let b = encode_utf8(text);
    if b.len() > 0x10_0000 {
        b.take(0x10_0000)
    } else {
        b
    }
}

/// The picture with one mark added. A mark with coordinates that no screen
/// has is left out.
pub open spec fn marked(p: Pic, m: Mark, bits: Seq<u8>, scale: int) -> Pic {
    match m {
        Mark::Rect(x, y, w, h, color) => if x + w <= u32::MAX && y + h <= u32::MAX {
            filled(p, x as int, y as int, w as int, h as int, color)
        } else {
            p
        },
        Mark::Round(x, y, w, h, r, color) => if x + w <= u32::MAX && y + h <= u32::MAX {
            rounded(
                p,
                x as int,
                y as int,
                w as int,
                h as int,
                r as int,
                Ink::Solid(color),
                true,
                h as int,
            )
        } else {
            p
        },
        Mark::RoundShade(x, y, w, h, r, top, bottom) => if x + w <= u32::MAX && y + h <= u32::MAX {
            rounded(
                p,
                x as int,
                y as int,
                w as int,
                h as int,
                r as int,
                Ink::Gradient(top, bottom),
                true,
                h as int,
            )
        } else {
            p
        },
        Mark::Line(x0, y0, x1, y1, color) => if x0 <= 0x1000_0000 && y0 <= 0x1000_0000 && x1
            <= 0x1000_0000 && y1 <= 0x1000_0000 {
            lined(p, x0, y0, x1, y1, color, 0, 0)
        } else {
            p
        },
        Mark::Text(x, y, text, color) => if x <= 0x8000_0000 && y <= 0x8000_0000 {
            with_text(
                p,
                bits,
                scale,
                x as int,
                y as int,
                drawn_bytes(text),
                color,
                None,
                drawn_bytes(text).len(),
            )
        } else {
            p
        },
    }
}

/// The picture with the first `n` marks added.
pub open spec fn painted(p: Pic, marks: Seq<Mark>, n: nat, bits: Seq<u8>, scale: int) -> Pic
    decreases n,
{
    if n == 0 {
        p
    } else {
        marked(painted(p, marks, (n - 1) as nat, bits, scale), marks[n - 1], bits, scale)
    }
}

/// A picture of one color.
pub open spec fn blank(w: int, h: int, color: u32) -> Pic {
    Pic {
        w,
        h,
        rows: Seq::new(h as nat, |y: int| Seq::new(w as nat, |x: int| color)),
    }
}

/// The picture of a scene on a blank canvas.
pub open spec fn picture(w: int, h: int, bg: u32, marks: Seq<Mark>, bits: Seq<u8>, scale: int) -> Pic {
    painted(blank(w, h, bg), marks, marks.len(), bits, scale)
}

fn add_mark(canvas: &mut Canvas, font: &Font, d: &Draw)
    requires
        old(canvas).ok(),
        old(canvas).readable(),
        font.wf(),
    ensures
        final(canvas).ok(),
        final(canvas).readable(),
        final(canvas).pic() == marked(
            old(canvas).pic(),
            mark(*d),
            font.bits(),
            font.factor() as int,
        ),
{
    match d {
        Draw::Rect { x, y, w, h, color } => {
            if *w <= u32::MAX - *x && *h <= u32::MAX - *y {
                fill_rect(canvas, *x, *y, *w, *h, *color);
            }
        },
        Draw::Round { x, y, w, h, r, color } => {
            if *w <= u32::MAX - *x && *h <= u32::MAX - *y {
                fill_rounded_rect(canvas, *x, *y, *w, *h, *r, *color);
            }
        },
        Draw::RoundShade { x, y, w, h, r, top, bottom } => {
            if *w <= u32::MAX - *x && *h <= u32::MAX - *y {
                fill_rounded_rect_gradient_v(canvas, *x, *y, *w, *h, *r, *top, *bottom);
            }
        },
        Draw::Line { x0, y0, x1, y1, color } => {
            if *x0 <= 0x1000_0000 && *y0 <= 0x1000_0000 && *x1 <= 0x1000_0000 && *y1
                <= 0x1000_0000 {
                draw_line(canvas, *x0, *y0, *x1, *y1, *color);
            }
        },
        Draw::Text { x, y, text, color } => {
            if *x <= 0x8000_0000 && *y <= 0x8000_0000 {
                let s = string_of(text);
                let bytes = s.as_str().as_bytes();
                assert(forall|n: int|
                    #![trigger n * (8 * font.factor())]
                    0 <= n <= 0x10_0000 ==> n * (8 * font.factor()) <= 16 * 0x10_0000) by {
                    assert forall|n: int|
                        #![trigger n * (8 * font.factor())]
                        0 <= n <= 0x10_0000 implies n * (8 * font.factor()) <= 16 * 0x10_0000 by {
                        let f = 8 * font.factor();
                        assert(n * f <= 16 * 0x10_0000) by (nonlinear_arith)
                            requires
                                0 <= n <= 0x10_0000,
                                0 <= f <= 16,
                        ;
                    }
                }
                if bytes.len() > 0x10_0000 {
                    let part = slice_subrange(bytes, 0, 0x10_0000);
                    assert(part@ =~= bytes@.take(0x10_0000));
                    draw_string(canvas, font, *x, *y, part, *color, None);
                } else {
                    draw_string(canvas, font, *x, *y, bytes, *color, None);
                }
            }
        },
    }
}

impl Scene {
    /// The scene on a canvas of the given size and background.
    pub fn paint(&self, font: &Font, w: u32, h: u32, bg: u32) -> (r: Canvas)
        requires
            font.wf(),
            w * h <= u32::MAX,
        ensures
            r.ok(),
            r.readable(),
            r.pic() == picture(
                w as int,
                h as int,
                bg,
                self@,
                font.bits(),
                font.factor() as int,
            ),
    {
        let mut canvas = Canvas::new(w, h, bg);
        let ghost p = blank(w as int, h as int, bg);
        proof {
            canvas.pic_wf();
            lemma_same_picture(canvas.pic(), p);
        }
        self.paint_onto(font, &mut canvas);
        canvas
    }

    /// Adds the scene to what a canvas shows.
    pub fn paint_onto(&self, font: &Font, canvas: &mut Canvas)
        requires
            font.wf(),
            old(canvas).ok(),
            old(canvas).readable(),
        ensures
            final(canvas).ok(),
            final(canvas).readable(),
            final(canvas).pic() == painted(
                old(canvas).pic(),
                self@,
                self@.len(),
                font.bits(),
                font.factor() as int,
            ),
    {
        let ghost p = canvas.pic();
        let mut i: usize = 0;
        while i < self.draws.len()
            invariant
                canvas.ok(),
                canvas.readable(),
                font.wf(),
                i <= self.draws@.len(),
                canvas.pic() == painted(
                    p,
                    self@,
                    i as nat,
                    font.bits(),
                    font.factor() as int,
                ),
            decreases self.draws@.len() - i,
        {
            add_mark(canvas, font, &self.draws[i]);
            i += 1;
        }
    }
}

proof fn lemma_line_size(p: Pic, x0: u32, y0: u32, x1: u32, y1: u32, color: u32, i: int, j: int)
    ensures
        lined(p, x0, y0, x1, y1, color, i, j).w == p.w,
        lined(p, x0, y0, x1, y1, color, i, j).h == p.h,
    decreases
            (if i <= apart(x0, x1) && j <= apart(y0, y1) {
                apart(x0, x1) - i + apart(y0, y1) - j + 1
            } else {
                0
            }),
{
    let dx = apart(x0, x1);
    let dy = apart(y0, y1);
    let q = filled(p, toward(x0, x1, i), toward(y0, y1, j), 1, 1, color);
    if !(i >= dx && j >= dy || i > dx || j > dy || i < 0 || j < 0) {
        let e = error2(dx, dy, i, j);
        lemma_line_size(
            q,
            x0,
            y0,
            x1,
            y1,
            color,
            if e > -dy {
                i + 1
            } else {
                i
            },
            if e < dx {
                j + 1
            } else {
                j
            },
        );
    }
}

proof fn lemma_text_size(
    p: Pic,
    bits: Seq<u8>,
    s: int,
    x: int,
    y: int,
    text: Seq<u8>,
    fg: u32,
    n: nat,
)
    ensures
        with_text(p, bits, s, x, y, text, fg, None, n).w == p.w,
        with_text(p, bits, s, x, y, text, fg, None, n).h == p.h,
    decreases n,
{
    if n > 0 {
        lemma_text_size(p, bits, s, x, y, text, fg, (n - 1) as nat);
    }
}

/// Painting keeps the size of the picture.
pub proof fn law_painting_keeps_size(p: Pic, marks: Seq<Mark>, n: nat, bits: Seq<u8>, scale: int)
    ensures
        painted(p, marks, n, bits, scale).w == p.w,
        painted(p, marks, n, bits, scale).h == p.h,
    decreases n,
{
    if n > 0 {
        law_painting_keeps_size(p, marks, (n - 1) as nat, bits, scale);
        let q = painted(p, marks, (n - 1) as nat, bits, scale);
        match marks[n - 1] {
            Mark::Line(x0, y0, x1, y1, color) => {
                lemma_line_size(q, x0, y0, x1, y1, color, 0, 0);
            },
            Mark::Text(x, y, text, color) => {
                let b = drawn_bytes(text);
                lemma_text_size(q, bits, scale, x as int, y as int, b, color, b.len());
            },
            _ => {},
        }
    }
}

} // verus!
