//! Linear framebuffer access. The window manager composites at a *virtual*
//! resolution (chosen by the user; at first the physical mode) into a back
//! buffer, and `present` scales it onto the physical one when the two
//! differ.

use crate::font::Font;
use crate::gfx::{
    in_rect,
    lemma_same_picture,
    picture_of,
    recolored,
    scale_into,
    scaled_pixel,
    with_text,
    Canvas,
    Pic,
    Surface,
};
use crate::multiboot::{FramebufferInfo, MultibootInfo};
use crate::paging::{is_identity_mapped, IDENTITY_MAP_END};
use crate::scene::blank;
use vstd::prelude::*;

verus! {

/// Resolutions the Settings app offers. Must stay <= the physical
/// framebuffer in both axes; anything else is rejected.
pub const SUPPORTED_RESOLUTIONS: [(u32, u32); 6] = [
    (1920, 1080),
    (1600, 900),
    (1366, 768),
    (1280, 720),
    (1024, 576),
    (800, 600),
];

pub struct Framebuffer {
    addr: u64,
    pitch: u32,
    /// The virtual desktop.
    virtual_buffer: Canvas,
    /// The virtual desktop scaled to the real mode.
    back_buffer: Canvas,
    /// What the monitor shows.
    screen: Canvas,
}

/// The three pictures.
pub struct Views {
    pub desktop: Pic,
    pub back: Pic,
    pub screen: Pic,
}

impl View for Framebuffer {
    type V = Views;

    closed spec fn view(&self) -> Views {
        Views {
            desktop: self.virtual_buffer.pic(),
            back: self.back_buffer.pic(),
            screen: self.screen.pic(),
        }
    }
}

/// Modes that can be driven: linear, 32 bits a pixel, in mapped memory, and
/// with less than 2^32 pixels.
pub open spec fn drivable(fb: FramebufferInfo) -> bool {
    &&& fb.bpp == 32
    &&& fb.addr + fb.pitch * fb.height <= IDENTITY_MAP_END
    &&& fb.width * fb.height <= u32::MAX
}

/// What scaling the desktop to the physical size gives.
pub open spec fn stretched(p: Pic, w: int, h: int) -> Pic {
    Pic {
        w,
        h,
        rows: Seq::new(h as nat, |y: int| Seq::new(w as nat, |x: int| scaled_pixel(p, w, h, x, y))),
    }
}

/// What the screen shows of a desktop.
pub open spec fn presented(desktop: Pic, w: int, h: int) -> Pic {
    if desktop.w == w && desktop.h == h {
        desktop
    } else {
        stretched(desktop, w, h)
    }
}

pub open spec fn least(a: int, b: int) -> int {
    if a < b {
        a
    } else {
        b
    }
}

/// The pixels of a region, row by row; zero where it lies outside. A corner
/// outside counts as the edge.
pub open spec fn snapshot(p: Pic, x: int, y: int, w: int, h: int) -> Seq<u32> {
    Seq::new(
        (w * h) as nat,
        |i: int|
            {
                let a = least(x, p.w) + i % w;
                let b = least(y, p.h) + i / w;
                if a < p.w && b < p.h {
                    p.rows[b][a]
                } else {
                    0
                }
            },
    )
}

/// The picture with a region painted over from saved pixels.
pub open spec fn restored(p: Pic, x: int, y: int, w: int, h: int, saved: Seq<u32>) -> Pic {
    recolored(
        p,
        |a: int, b: int, o: u32|
            if in_rect(a, b, least(x, p.w), least(y, p.h), w, h) {
                saved[(b - least(y, p.h)) * w + (a - least(x, p.w))]
            } else {
                o
            },
    )
}

/// One picture with a rectangle from another of the same size.
pub open spec fn patched(p: Pic, from: Pic, x: int, y: int, w: int, h: int) -> Pic {
    recolored(
        p,
        |a: int, b: int, o: u32|
            if in_rect(a, b, x, y, w, h) {
                from.rows[b][a]
            } else {
                o
            },
    )
}

/// Restoring a snapshot undoes whatever was drawn in its region since.
pub proof fn law_restore_undoes_drawing(p: Pic, q: Pic, x: int, y: int, w: int, h: int)
    requires
        p.wf(),
        q.wf(),
        p.w == q.w,
        p.h == q.h,
        0 <= x,
        0 <= y,
        0 <= w,
        0 <= h,
        forall|a: int, b: int|
            0 <= a < p.w && 0 <= b < p.h && !in_rect(a, b, x, y, w, h) ==> #[trigger] p.at(a, b)
                == q.at(a, b),
    ensures
        restored(q, x, y, w, h, snapshot(p, x, y, w, h)) == p,
{
    let r = restored(q, x, y, w, h, snapshot(p, x, y, w, h));
    let (x0, y0) = (least(x, p.w), least(y, p.h));
    assert forall|a: int, b: int| 0 <= a < p.w && 0 <= b < p.h implies #[trigger] r.at(a, b)
        == p.at(a, b) by {
        if in_rect(a, b, x0, y0, w, h) {
            let i = (b - y0) * w + (a - x0);
            lemma_place(a - x0, b - y0, w, h);
        } else {
            assert(!in_rect(a, b, x, y, w, h));
            assert(p.at(a, b) == q.at(a, b));
        }
    }
    lemma_same_picture(r, p);
}

/// Column and row of a place in a list of rows.
proof fn lemma_place(a: int, b: int, w: int, h: int)
    requires
        0 <= a < w,
        0 <= b < h,
    ensures
        0 <= b * w + a < w * h,
        (b * w + a) % w == a,
        (b * w + a) / w == b,
{
    assert(0 <= b * w) by (nonlinear_arith)
        requires
            0 <= b,
            0 <= w,
    ;
    assert(b * w + a < w * h) by (nonlinear_arith)
        requires
            0 <= a < w,
            b + 1 <= h,
            0 <= b,
    ;
    vstd::arithmetic::div_mod::lemma_fundamental_div_mod_converse(b * w + a, w, b, a);
}

fn min_of(a: u32, b: u32) -> (r: u32)
    ensures
        r == least(a as int, b as int),
{
    if a < b {
        a
    } else {
        b
    }
}

/// Copies a rectangle from one canvas to another of the same size.
fn copy_rect(dst: &mut Canvas, src: &Canvas, x: u32, y: u32, x_end: u32, y_end: u32)
    requires
        old(dst).ok(),
        old(dst).readable(),
        src.ok(),
        src.readable(),
        src.pic().w == old(dst).pic().w,
        src.pic().h == old(dst).pic().h,
        x <= x_end <= src.pic().w,
        y <= y_end <= src.pic().h,
    ensures
        final(dst).ok(),
        final(dst).readable(),
        final(dst).pic() == patched(
            old(dst).pic(),
            src.pic(),
            x as int,
            y as int,
            x_end - x,
            y_end - y,
        ),
{
    let ghost p = dst.pic();
    proof {
        dst.pic_wf();
        src.pic_wf();
    }
    let mut yy: u32 = y;
    while yy < y_end
        invariant
            dst.ok(),
            dst.readable(),
            src.ok(),
            src.readable(),
            p.wf(),
            dst.pic().w == p.w,
            dst.pic().h == p.h,
            src.pic().w == p.w,
            src.pic().h == p.h,
            x <= x_end <= p.w,
            y <= yy <= y_end <= p.h,
            forall|a: int, b: int|
                0 <= a < p.w && 0 <= b < p.h ==> #[trigger] dst.pic().at(a, b) == if x <= a < x_end
                    && y <= b < yy {
                    src.pic().at(a, b)
                } else {
                    p.at(a, b)
                },
        decreases y_end - yy,
    {
        let mut xx: u32 = x;
        while xx < x_end
            invariant
                dst.ok(),
                dst.readable(),
                src.ok(),
                src.readable(),
                p.wf(),
                dst.pic().w == p.w,
                dst.pic().h == p.h,
                src.pic().w == p.w,
                src.pic().h == p.h,
                x <= xx <= x_end <= p.w,
                y <= yy < y_end <= p.h,
                forall|a: int, b: int|
                    0 <= a < p.w && 0 <= b < p.h ==> #[trigger] dst.pic().at(a, b) == if (x <= a
                        < x_end && y <= b < yy) || (x <= a < xx && b == yy) {
                        src.pic().at(a, b)
                    } else {
                        p.at(a, b)
                    },
            decreases x_end - xx,
        {
            if let Some(c) = src.get_pixel(xx, yy) {
                dst.put_pixel(xx, yy, c);
            }
            xx += 1;
        }
        yy += 1;
    }
    proof {
        dst.pic_wf();
        lemma_same_picture(
            dst.pic(),
            patched(p, src.pic(), x as int, y as int, x_end - x, y_end - y),
        );
    }
}

impl Framebuffer {
    pub closed spec fn wf(&self) -> bool {
        &&& self.virtual_buffer.ok() && self.virtual_buffer.readable()
        &&& self.back_buffer.ok() && self.back_buffer.readable()
        &&& self.screen.ok() && self.screen.readable()
        &&& self.screen.pic().w == self.back_buffer.pic().w
        &&& self.screen.pic().h == self.back_buffer.pic().h
        &&& self.screen.pic().w * self.screen.pic().h <= u32::MAX
        &&& self.virtual_buffer.pic().w <= self.screen.pic().w
        &&& self.virtual_buffer.pic().h <= self.screen.pic().h
        &&& (self.virtual_buffer.pic().w == 0 || self.virtual_buffer.pic().h == 0) ==> (
        self.screen.pic().w == 0 || self.screen.pic().h == 0)
    }

    pub closed spec fn place(&self) -> (u64, u32) {
        (self.addr, self.pitch)
    }
}

/// Sets the framebuffer up. The virtual resolution starts out equal to the
/// physical one.
pub fn init(info: &MultibootInfo) -> (r: Option<Framebuffer>)
    requires
        info.wf(),
    ensures
        match info.shown_framebuffer() {
            Some(fb) if drivable(fb) => {
                &&& r matches Some(f)
                &&& f.wf()
                &&& f.place() == (fb.addr, fb.pitch)
                &&& f@.desktop == blank(fb.width as int, fb.height as int, 0)
                &&& f@.back == f@.desktop
                &&& f@.screen == f@.desktop
            },
            _ => r is None,
        },
{
    let fb = match info.framebuffer() {
        None => {
            return None;
        },
        Some(fb) => fb,
    };
    if fb.bpp != 32 {
        return None;
    }
    assert(0 <= fb.width * fb.height <= 0xFFFF_FFFF * 0xFFFF_FFFF) by (nonlinear_arith)
        requires
            0 <= fb.width <= 0xFFFF_FFFF,
            0 <= fb.height <= 0xFFFF_FFFF,
    ;
    if fb.width as u64 * fb.height as u64 > u32::MAX as u64 {
        return None;
    }
    assert(0 <= fb.pitch * fb.height <= 0xFFFF_FFFF * 0xFFFF_FFFF) by (nonlinear_arith)
        requires
            0 <= fb.pitch <= 0xFFFF_FFFF,
            0 <= fb.height <= 0xFFFF_FFFF,
    ;
    if !is_identity_mapped(fb.addr, fb.pitch as u64 * fb.height as u64) {
        return None;
    }
    let canvas = Canvas::new(fb.width, fb.height, 0);
    proof {
        canvas.pic_wf();
        lemma_same_picture(canvas.pic(), blank(fb.width as int, fb.height as int, 0));
    }
    Some(
        Framebuffer {
            addr: fb.addr,
            pitch: fb.pitch,
            virtual_buffer: canvas.copy(),
            back_buffer: canvas.copy(),
            screen: canvas,
        },
    )
}

pub fn is_graphics_mode(fb: &Option<Framebuffer>) -> (r: bool)
    ensures
        r == (fb is Some),
{
    fb.is_some()
}

/// The physical framebuffer size, as chosen at boot.
pub fn dimensions(fb: &Option<Framebuffer>) -> (r: (u32, u32))
    requires
        fb matches Some(f) ==> f.wf(),
    ensures
        match *fb {
            Some(f) => r.0 == f@.screen.w && r.1 == f@.screen.h,
            None => r == (0u32, 0u32),
        },
{
    match fb {
        Some(f) => (f.screen.width(), f.screen.height()),
        None => (0, 0),
    }
}

/// The virtual desktop resolution: what the window manager lays out
/// against.
pub fn virtual_dimensions(fb: &Option<Framebuffer>) -> (r: (u32, u32))
    requires
        fb matches Some(f) ==> f.wf(),
    ensures
        match *fb {
            Some(f) => r.0 == f@.desktop.w && r.1 == f@.desktop.h,
            None => r == (0u32, 0u32),
        },
{
    match fb {
        Some(f) => (f.virtual_buffer.width(), f.virtual_buffer.height()),
        None => (0, 0),
    }
}

impl Framebuffer {
    /// Changes the virtual desktop resolution, to black. The new size must
    /// be no larger than the physical framebuffer.
    pub fn set_virtual_resolution(&mut self, w: u32, h: u32) -> (r: bool)
        requires
            old(self).wf(),
        ensures
            final(self).wf(),
            r == (0 < w <= old(self)@.screen.w && 0 < h <= old(self)@.screen.h),
            final(self).place() == old(self).place(),
            final(self)@ == if r {
                Views { desktop: blank(w as int, h as int, 0), ..old(self)@ }
            } else {
                old(self)@
            },
    {
        if w == 0 || h == 0 || w > self.screen.width() || h > self.screen.height() {
            return false;
        }
        proof {
            let (pw, ph) = (self.screen.pic().w, self.screen.pic().h);
            assert(w * h <= pw * ph) by (nonlinear_arith)
                requires
                    0 <= w <= pw,
                    0 <= h <= ph,
            ;
        }
        let canvas = Canvas::new(w, h, 0);
        proof {
            canvas.pic_wf();
            lemma_same_picture(canvas.pic(), blank(w as int, h as int, 0));
        }
        self.virtual_buffer = canvas;
        true
    }

    /// The virtual back buffer as a surface.
    pub fn with_surface(&mut self) -> (r: &mut Canvas)
        requires
            old(self).wf(),
        ensures
            r.ok(),
            r.readable(),
            r.pic() == old(self)@.desktop,
            final(r).ok() && final(r).readable() && final(r).pic().w == r.pic().w && final(r).pic().h
                == r.pic().h ==> final(self).wf(),
            final(self)@ == (Views { desktop: final(r).pic(), ..old(self)@ }),
            final(self).place() == old(self).place(),
    {
        &mut self.virtual_buffer
    }

    /// Reads back a pixel from the *physical* back buffer.
    pub fn get_pixel(&self, x: u32, y: u32) -> (r: Option<u32>)
        requires
            self.wf(),
        ensures
            r == if x < self@.back.w && y < self@.back.h {
                Some(self@.back.at(x as int, y as int))
            } else {
                None
            },
    {
        self.back_buffer.get_pixel(x, y)
    }

    /// Copies a region of the virtual back buffer out, for restoring what is
    /// under the mouse cursor. The buffer is always `w`x`h`.
    pub fn snapshot_region(&self, x: u32, y: u32, w: u32, h: u32) -> (r: Vec<u32>)
        requires
            self.wf(),
            w * h <= u32::MAX,
        ensures
            r@ == snapshot(self@.desktop, x as int, y as int, w as int, h as int),
    {
        let mut out: Vec<u32> = Vec::new();
        let x0 = min_of(x, self.virtual_buffer.width());
        let y0 = min_of(y, self.virtual_buffer.height());
        let n = w as u64 * h as u64;
        let mut i: u64 = 0;
        let ghost p = self@.desktop;
        while i < n
            invariant
                self.wf(),
                p == self@.desktop,
                n == w * h,
                n <= u32::MAX,
                i <= n,
                i < n ==> w > 0,
                x0 == least(x as int, p.w),
                y0 == least(y as int, p.h),
                out@.len() == i,
                forall|k: int|
                    0 <= k < i ==> #[trigger] out@[k] == snapshot(
                        p,
                        x as int,
                        y as int,
                        w as int,
                        h as int,
                    )[k],
            decreases n - i,
        {
            let a = x0 as u64 + i % w as u64;
            let b = y0 as u64 + i / w as u64;
            proof {
                vstd::arithmetic::div_mod::lemma_mod_bound(i as int, w as int);
                vstd::arithmetic::div_mod::lemma_div_is_ordered_by_denominator(
                    i as int,
                    1,
                    w as int,
                );
            }
            let c = if a < self.virtual_buffer.width() as u64 && b
                < self.virtual_buffer.height() as u64 {
                match self.virtual_buffer.get_pixel(a as u32, b as u32) {
                    Some(c) => c,
                    None => 0,
                }
            } else {
                0
            };
            out.push(c);
            i += 1;
        }
        assert(out@ =~= snapshot(p, x as int, y as int, w as int, h as int));
        out
    }

    /// Writes a region saved by `snapshot_region` back into the virtual back
    /// buffer.
    pub fn restore_region(&mut self, x: u32, y: u32, w: u32, h: u32, pixels: &[u32])
        requires
            old(self).wf(),
            w * h <= u32::MAX,
            w * h <= pixels@.len(),
        ensures
            final(self).wf(),
            final(self).place() == old(self).place(),
            final(self)@ == (Views {
                desktop: restored(
                    old(self)@.desktop,
                    x as int,
                    y as int,
                    w as int,
                    h as int,
                    pixels@,
                ),
                ..old(self)@
            }),
    {
        let ghost p = self@.desktop;
        proof {
            self.virtual_buffer.pic_wf();
        }
        let x0 = min_of(x, self.virtual_buffer.width());
        let y0 = min_of(y, self.virtual_buffer.height());
        let cols = min_of(w, self.virtual_buffer.width() - x0);
        let rows = min_of(h, self.virtual_buffer.height() - y0);
        let mut yy: u32 = 0;
        while yy < rows
            invariant
                self.wf(),
                self.place() == old(self).place(),
                self.back_buffer == old(self).back_buffer,
                self.screen == old(self).screen,
                p.wf(),
                self@.desktop.w == p.w,
                self@.desktop.h == p.h,
                x0 == least(x as int, p.w),
                y0 == least(y as int, p.h),
                cols == least(w as int, p.w - x0),
                rows == least(h as int, p.h - y0),
                p.w <= u32::MAX,
                p.h <= u32::MAX,
                yy <= rows,
                w * h <= u32::MAX,
                w * h <= pixels@.len(),
                forall|a: int, b: int|
                    0 <= a < p.w && 0 <= b < p.h ==> #[trigger] self.virtual_buffer.pic().at(a, b)
                        == if in_rect(a, b, x0 as int, y0 as int, cols as int, yy as int) {
                        pixels@[(b - y0) * w + (a - x0)]
                    } else {
                        p.at(a, b)
                    },
            decreases rows - yy,
        {
            let mut xx: u32 = 0;
            while xx < cols
                invariant
                    self.wf(),
                    self.place() == old(self).place(),
                    self.back_buffer == old(self).back_buffer,
                    self.screen == old(self).screen,
                    p.wf(),
                    self@.desktop.w == p.w,
                    self@.desktop.h == p.h,
                    x0 == least(x as int, p.w),
                    y0 == least(y as int, p.h),
                    cols == least(w as int, p.w - x0),
                    rows == least(h as int, p.h - y0),
                    p.w <= u32::MAX,
                    p.h <= u32::MAX,
                    yy < rows,
                    xx <= cols,
                    w * h <= u32::MAX,
                    w * h <= pixels@.len(),
                    forall|a: int, b: int|
                        0 <= a < p.w && 0 <= b < p.h ==> #[trigger] self.virtual_buffer.pic().at(
                            a,
                            b,
                        ) == if in_rect(a, b, x0 as int, y0 as int, cols as int, yy as int) || (x0
                            <= a < x0 + xx && b == y0 + yy) {
                            pixels@[(b - y0) * w + (a - x0)]
                        } else {
                            p.at(a, b)
                        },
                decreases cols - xx,
            {
                proof {
                    lemma_place(xx as int, yy as int, w as int, h as int);
                    assert(yy * w >= 0) by (nonlinear_arith)
                        requires
                            yy >= 0,
                            w >= 0,
                    ;
                }
                let c = pixels[(yy as u64 * w as u64 + xx as u64) as usize];
                self.virtual_buffer.put_pixel(x0 + xx, y0 + yy, c);
                xx += 1;
            }
            yy += 1;
        }
        proof {
            self.virtual_buffer.pic_wf();
            let q = restored(p, x as int, y as int, w as int, h as int, pixels@);
            assert forall|a: int, b: int| 0 <= a < p.w && 0 <= b < p.h implies #[trigger] self.virtual_buffer.pic().at(
            a, b) == q.at(a, b) by {}
            lemma_same_picture(self.virtual_buffer.pic(), q);
        }
    }

    /// Shows the virtual back buffer, scaled to the physical size.
    pub fn present(&mut self)
        requires
            old(self).wf(),
        ensures
            final(self).wf(),
            final(self).place() == old(self).place(),
            ({
                let v = old(self)@;
                let shown = presented(v.desktop, v.screen.w, v.screen.h);
                final(self)@ == (Views { desktop: v.desktop, back: shown, screen: shown })
            }),
    {
        let (vw, vh) = (self.virtual_buffer.width(), self.virtual_buffer.height());
        let (w, h) = (self.screen.width(), self.screen.height());
        if vw != w || vh != h {
            let ghost p = self.virtual_buffer.pic();
            let mut out: Vec<u32> = Vec::new();
            out.resize((w as u64 * h as u64) as usize, 0);
            proof {
                assert(vw * vh <= w * h) by (nonlinear_arith)
                    requires
                        0 <= vw <= w,
                        0 <= vh <= h,
                ;
            }
            scale_into(self.virtual_buffer.pixels().as_slice(), vw, vh, &mut out, w, h);
            let canvas = Canvas::from_pixels(w, h, out);
            proof {
                canvas.pic_wf();
                lemma_same_picture(canvas.pic(), stretched(p, w as int, h as int));
            }
            self.back_buffer = canvas;
        } else {
            self.back_buffer = self.virtual_buffer.copy();
        }
        self.screen = self.back_buffer.copy();
    }

    /// Shows only the given region of the virtual back buffer. While a scale
    /// is active this is a full `present`.
    pub fn present_region(&mut self, x: u32, y: u32, w: u32, h: u32)
        requires
            old(self).wf(),
        ensures
            final(self).wf(),
            final(self).place() == old(self).place(),
            ({
                let v = old(self)@;
                let back = patched(v.back, v.desktop, x as int, y as int, w as int, h as int);
                if v.desktop.w != v.screen.w || v.desktop.h != v.screen.h {
                    let shown = presented(v.desktop, v.screen.w, v.screen.h);
                    final(self)@ == (Views { desktop: v.desktop, back: shown, screen: shown })
                } else {
                    final(self)@ == (Views {
                        desktop: v.desktop,
                        back,
                        screen: patched(v.screen, back, x as int, y as int, w as int, h as int),
                    })
                }
            }),
    {
        let (pw, ph) = (self.screen.width(), self.screen.height());
        if self.virtual_buffer.width() != pw || self.virtual_buffer.height() != ph {
            self.present();
            return;
        }
        let x0 = min_of(x, pw);
        let y0 = min_of(y, ph);
        let x_end = x0 + min_of(w, pw - x0);
        let y_end = y0 + min_of(h, ph - y0);
        let ghost v = self@;
        proof {
            self.back_buffer.pic_wf();
            self.screen.pic_wf();
            self.virtual_buffer.pic_wf();
        }
        copy_rect(&mut self.back_buffer, &self.virtual_buffer, x0, y0, x_end, y_end);
        proof {
            let back = patched(v.back, v.desktop, x as int, y as int, w as int, h as int);
            self.back_buffer.pic_wf();
            lemma_same_picture(self.back_buffer.pic(), back);
        }
        copy_rect(&mut self.screen, &self.back_buffer, x0, y0, x_end, y_end);
        proof {
            let back = patched(v.back, v.desktop, x as int, y as int, w as int, h as int);
            let screen = patched(v.screen, back, x as int, y as int, w as int, h as int);
            self.screen.pic_wf();
            lemma_same_picture(self.screen.pic(), screen);
        }
    }

    /// Where a pixel of the screen is in memory.
    pub fn pixel_address(&self, x: u32, y: u32) -> (r: Option<u64>)
        requires
            self.wf(),
            self.place().0 + self.place().1 * self@.screen.h + 4 * self@.screen.w <= u64::MAX,
        ensures
            r == if x < self@.screen.w && y < self@.screen.h {
                Some((self.place().0 + y * self.place().1 + 4 * x) as u64)
            } else {
                None
            },
    {
        if x >= self.screen.width() || y >= self.screen.height() {
            return None;
        }
        proof {
            assert(0 <= y * self.pitch <= self.pitch * self.screen.pic().h) by (nonlinear_arith)
                requires
                    0 <= y <= self.screen.pic().h,
                    0 <= self.pitch,
            ;
        }
        Some(self.addr + y as u64 * self.pitch as u64 + 4 * x as u64)
    }

    /// The screen's pixels, row by row.
    pub fn screen_pixels(&self) -> (r: &Vec<u32>)
        requires
            self.wf(),
        ensures
            self@.screen == picture_of(r@, self@.screen.w, self@.screen.h),
            r@.len() == self@.screen.w * self@.screen.h,
    {
        self.screen.pixels()
    }

    /// Writes a pixel straight to the screen, for the panic handler.
    pub fn emergency_put_pixel(&mut self, x: u32, y: u32, color: u32)
        requires
            old(self).wf(),
        ensures
            final(self).wf(),
            final(self).place() == old(self).place(),
            final(self)@ == (Views {
                screen: recolored(
                    old(self)@.screen,
                    |a: int, b: int, o: u32|
                        if a == x && b == y {
                            color
                        } else {
                            o
                        },
                ),
                ..old(self)@
            }),
    {
        let ghost p = self.screen.pic();
        proof {
            self.screen.pic_wf();
        }
        self.screen.put_pixel(x, y, color);
        proof {
            self.screen.pic_wf();
            lemma_same_picture(
                self.screen.pic(),
                recolored(
                    p,
                    |a: int, b: int, o: u32|
                        if a == x && b == y {
                            color
                        } else {
                            o
                        },
                ),
            );
        }
    }

    /// Fills the whole screen.
    pub fn emergency_fill(&mut self, color: u32)
        requires
            old(self).wf(),
        ensures
            final(self).wf(),
            final(self).place() == old(self).place(),
            final(self)@ == (Views {
                screen: recolored(old(self)@.screen, |a: int, b: int, o: u32| color),
                ..old(self)@
            }),
    {
        self.screen.clear(color);
        proof {
            self.screen.pic_wf();
            lemma_same_picture(
                self.screen.pic(),
                recolored(old(self)@.screen, |a: int, b: int, o: u32| color),
            );
        }
    }

    /// Draws a text straight to the screen, at scale 1.
    pub fn emergency_draw_string(&mut self, font: &Font, x: u32, y: u32, text: &[u8], fg: u32)
        requires
            old(self).wf(),
            font.wf(),
            font.factor() == 1,
            x + 8 * text@.len() <= u32::MAX,
            y + 8 <= u32::MAX,
        ensures
            final(self).wf(),
            final(self).place() == old(self).place(),
            final(self)@ == (Views {
                screen: with_text(
                    old(self)@.screen,
                    font.bits(),
                    1,
                    x as int,
                    y as int,
                    text@,
                    fg,
                    None,
                    text@.len(),
                ),
                ..old(self)@
            }),
    {
        let ghost p = self.screen.pic();
        crate::gfx::draw_string(&mut self.screen, font, x, y, text, fg, None);
        proof {
            lemma_text_size(p, font.bits(), 1, x as int, y as int, text@, fg, None, text@.len());
        }
    }
}

proof fn lemma_text_size(
    p: Pic,
    bits: Seq<u8>,
    s: int,
    x: int,
    y: int,
    text: Seq<u8>,
    fg: u32,
    bg: Option<u32>,
    n: nat,
)
    ensures
        with_text(p, bits, s, x, y, text, fg, bg, n).w == p.w,
        with_text(p, bits, s, x, y, text, fg, bg, n).h == p.h,
    decreases n,
{
    if n > 0 {
        lemma_text_size(p, bits, s, x, y, text, fg, bg, (n - 1) as nat);
    }
}

} // verus!
