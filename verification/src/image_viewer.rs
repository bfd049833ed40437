//! A simple RAW image viewer: displays 32-bit raw pixel images, with zoom
//! in/out and panning.

use crate::bytes::{get_le32, le32};
use crate::font::Font;
use crate::gfx::{lemma_same_picture, recolored, Canvas, Pic, Surface};
use crate::keyboard::Event;
use crate::scene::{blank, law_painting_keeps_size, painted, Mark, Scene};
use crate::text::{chars_of, dec, push_dec, push_str};
use vstd::prelude::*;

verus! {

pub const WIDTH: u32 = 640;

pub const HEIGHT: u32 = 480;

pub const BG: u32 = 0x1A1A1A;

pub const TOOLBAR_BG: u32 = 0x2A2A2A;

pub const TEXT: u32 = 0xFFFFFF;

pub const TEXT_DIM: u32 = 0x999999;

pub const TOOLBAR_HEIGHT: u32 = 30;

/// How far an image can be moved away.
pub const PAN_LIMIT: i32 = 0x7000_0000;

pub struct ImageViewerApp {
    canvas: Canvas,
    image_data: Option<Vec<u32>>,
    image_width: u32,
    image_height: u32,
    /// 1 = 100%, 2 = 200%, etc.
    zoom: u32,
    offset_x: i32,
    offset_y: i32,
    file_path: Vec<char>,
    status: Vec<char>,
}

/// The state of the viewer.
pub struct Viewer {
    pub image: Option<Seq<u32>>,
    pub w: int,
    pub h: int,
    pub zoom: int,
    pub ox: int,
    pub oy: int,
    pub path: Seq<char>,
    pub status: Seq<char>,
}

impl View for ImageViewerApp {
    type V = Viewer;

    closed spec fn view(&self) -> Viewer {
        Viewer {
            image: match self.image_data {
                Some(d) => Some(d@),
                None => None,
            },
            w: self.image_width as int,
            h: self.image_height as int,
            zoom: self.zoom as int,
            ox: self.offset_x as int,
            oy: self.offset_y as int,
            path: self.file_path@,
            status: self.status@,
        }
    }
}

pub open spec fn empty_viewer() -> Viewer {
    Viewer {
        image: None,
        w: 0,
        h: 0,
        zoom: 1,
        ox: 0,
        oy: 0,
        path: Seq::empty(),
        status: "No image loaded"@,
    }
}

/// Division that rounds toward zero, by a positive number.
pub open spec fn part_of(a: int, z: int) -> int {
    if a >= 0 {
        a / z
    } else {
        -(-a / z)
    }
}

/// The line about the image.
pub open spec fn status_text(v: Viewer) -> Seq<char> {
    v.path + " ("@ + dec(v.w as nat) + "x"@ + dec(v.h as nat) + ", zoom "@ + dec(v.zoom as nat)
        + "x)"@
}

pub open spec fn with_status(v: Viewer) -> Viewer {
    Viewer { status: status_text(v), ..v }
}

/// The viewer with the image in the middle.
pub open spec fn centered(v: Viewer) -> Viewer {
    Viewer { ox: part_of(640 - v.w * v.zoom, 2), oy: part_of(450 - v.h * v.zoom, 2), ..v }
}

/// The pixels in raw image data.
pub open spec fn raw_pixels(data: Seq<u8>, n: nat) -> Seq<u32> {
    Seq::new(n, |i: int| le32(data, 4 * i))
}

/// The viewer after an image was loaded; data of the wrong length is only
/// reported.
pub open spec fn loaded(v: Viewer, path: Seq<char>, data: Seq<u8>, w: int, h: int) -> Viewer {
    if data.len() != w * h * 4 {
        Viewer {
            status: "Invalid image size (expected "@ + dec((w * h * 4) as nat) + " bytes, got "@
                + dec(data.len()) + ")"@,
            ..v
        }
    } else {
        with_status(
            centered(
                Viewer { image: Some(raw_pixels(data, (w * h) as nat)), w, h, path, ..v },
            ),
        )
    }
}

/// A moved offset; beyond the limit it stays.
pub open spec fn moved(o: int, d: int) -> int {
    if -PAN_LIMIT <= o + d <= PAN_LIMIT {
        o + d
    } else {
        o
    }
}

/// The viewer after a key.
pub open spec fn keyed(v: Viewer, e: Event) -> Viewer {
    match e {
        Event::Char(c) => if c == '+' || c == '=' {
            if v.zoom < 8 {
                with_status(Viewer { zoom: v.zoom + 1, ..v })
            } else {
                v
            }
        } else if c == '-' {
            if v.zoom > 1 {
                with_status(Viewer { zoom: v.zoom - 1, ..v })
            } else {
                v
            }
        } else if c == '0' {
            with_status(centered(Viewer { zoom: 1, ..v }))
        } else {
            v
        },
        Event::Left => Viewer { ox: moved(v.ox, 20), ..v },
        Event::Right => Viewer { ox: moved(v.ox, -20), ..v },
        Event::Up => Viewer { oy: moved(v.oy, 20), ..v },
        Event::Down => Viewer { oy: moved(v.oy, -20), ..v },
        _ => v,
    }
}

/// Zooming in and out again changes nothing but the status line.
pub proof fn law_zoom_out_undoes_zoom_in(v: Viewer)
    requires
        1 <= v.zoom < 8,
    ensures
        keyed(keyed(v, Event::Char('+')), Event::Char('-')) == with_status(v),
{
}

/// Panning there and back changes nothing, short of the limit.
pub proof fn law_pan_back(v: Viewer)
    requires
        -PAN_LIMIT + 20 <= v.ox <= PAN_LIMIT - 20,
        -PAN_LIMIT + 20 <= v.oy <= PAN_LIMIT - 20,
    ensures
        keyed(keyed(v, Event::Left), Event::Right) == v,
        keyed(keyed(v, Event::Up), Event::Down) == v,
{
}

// ---------------------------------------------------------------------
// The picture
// ---------------------------------------------------------------------

pub open spec fn frame_marks() -> Seq<Mark> {
    seq![
        Mark::Rect(0, 0, WIDTH, TOOLBAR_HEIGHT, TOOLBAR_BG),
        Mark::Text(10, 10, "Image Viewer"@, TEXT),
    ]
}

/// The picture with the image below the toolbar.
pub open spec fn with_image(p: Pic, v: Viewer, img: Seq<u32>) -> Pic {
    recolored(
        p,
        |a: int, b: int, o: u32|
            {
                let x = part_of(a - v.ox, v.zoom);
                let y = part_of(b - v.oy - 30, v.zoom);
                if b >= 30 && 0 <= x < v.w && 0 <= y < v.h {
                    img[y * v.w + x]
                } else {
                    o
                }
            },
    )
}

pub open spec fn text_marks(v: Viewer) -> Seq<Mark> {
    (if v.image is None {
        seq![Mark::Text(260, 240, "No image loaded"@, TEXT_DIM)]
    } else {
        Seq::empty()
    }) + (if v.status.len() > 0 {
        seq![Mark::Text(10, 465, v.status, TEXT_DIM)]
    } else {
        Seq::empty()
    })
}

/// What the window shows.
pub open spec fn viewer_picture(v: Viewer, bits: Seq<u8>, s: int) -> Pic {
    let frame = painted(blank(640, 480, BG), frame_marks(), 2, bits, s);
    let shown = match v.image {
        Some(img) => with_image(frame, v, img),
        None => frame,
    };
    painted(shown, text_marks(v), text_marks(v).len(), bits, s)
}

fn part_exec(a: i64, z: u32) -> (r: i64)
    requires
        1 <= z,
        -0x1_0000_0000 <= a <= 0x1_0000_0000,
    ensures
        r == part_of(a as int, z as int),
{
    proof {
        if a >= 0 {
            vstd::arithmetic::div_mod::lemma_div_is_ordered_by_denominator(a as int, 1, z as int);
        } else {
            vstd::arithmetic::div_mod::lemma_div_is_ordered_by_denominator(-a as int, 1, z as int);
        }
    }
    if a >= 0 {
        (a as u64 / z as u64) as i64
    } else {
        -(((-a) as u64 / z as u64) as i64)
    }
}

proof fn lemma_part(a: int, z: int)
    requires
        z >= 1,
    ensures
        a >= 0 ==> 0 <= part_of(a, z) <= a,
        a <= 0 ==> a <= part_of(a, z) <= 0,
{
    if a >= 0 {
        vstd::arithmetic::div_mod::lemma_div_is_ordered_by_denominator(a, 1, z);
        vstd::arithmetic::div_mod::lemma_div_pos_is_pos(a, z);
    }
    if a <= 0 {
        vstd::arithmetic::div_mod::lemma_div_is_ordered_by_denominator(-a, 1, z);
        vstd::arithmetic::div_mod::lemma_div_pos_is_pos(-a, z);
    }
}

proof fn lemma_pixel_index(x: int, y: int, w: int, h: int)
    requires
        0 <= x < w,
        0 <= y < h,
    ensures
        0 <= y * w + x < w * h,
{
    assert(0 <= y * w + x < w * h) by (nonlinear_arith)
        requires
            0 <= x < w,
            0 <= y,
            y + 1 <= h,
    ;
}

impl ImageViewerApp {
    pub closed spec fn wf(&self) -> bool {
        &&& self.canvas.ok()
        &&& 1 <= self.zoom <= 8
        &&& self.image_width <= 0x7FF_FFFF
        &&& self.image_height <= 0x7FF_FFFF
        &&& -PAN_LIMIT <= self.offset_x <= PAN_LIMIT
        &&& -PAN_LIMIT <= self.offset_y <= PAN_LIMIT
        &&& self.image_data matches Some(d) ==> d@.len() == self.image_width * self.image_height
            && d@.len() <= u32::MAX
    }

    /// What the window's pixels show.
    pub closed spec fn shown(&self) -> Pic {
        self.canvas.pic()
    }

    /// Whether the pixels show the state.
    pub open spec fn up_to_date(&self, font: &Font) -> bool {
        self.shown() == viewer_picture(self@, font.bits(), font.factor() as int)
    }

    pub fn new(font: &Font) -> (r: Self)
        requires
            font.wf(),
        ensures
            r.wf(),
            r@ == empty_viewer(),
            r.up_to_date(font),
    {
        let mut app = ImageViewerApp {
            canvas: Canvas::new(0, 0, BG),
            image_data: None,
            image_width: 0,
            image_height: 0,
            zoom: 1,
            offset_x: 0,
            offset_y: 0,
            file_path: Vec::new(),
            status: chars_of("No image loaded"),
        };
        assert(app.file_path@ =~= Seq::<char>::empty());
        app.render(font);
        app
    }

    pub fn width(&self) -> (r: u32)
        ensures
            r == WIDTH,
    {
        WIDTH
    }

    pub fn height(&self) -> (r: u32)
        ensures
            r == HEIGHT,
    {
        HEIGHT
    }

    pub fn pixels(&self) -> (r: &Vec<u32>)
        requires
            self.wf(),
        ensures
            r@.len() == self.shown().w * self.shown().h,
            self.shown() == crate::gfx::picture_of(r@, self.shown().w, self.shown().h),
    {
        self.canvas.pixels()
    }

    fn set_status(&mut self)
        requires
            old(self).wf(),
        ensures
            final(self).wf(),
            final(self)@ == with_status(old(self)@),
            final(self).canvas == old(self).canvas,
    {
        let mut t: Vec<char> = Vec::new();
        crate::text::push_word(&mut t, true, &self.file_path);
        push_str(&mut t, " (");
        push_dec(&mut t, self.image_width as u64);
        push_str(&mut t, "x");
        push_dec(&mut t, self.image_height as u64);
        push_str(&mut t, ", zoom ");
        push_dec(&mut t, self.zoom as u64);
        push_str(&mut t, "x)");
        assert(t@ =~= status_text(self@));
        self.status = t;
    }

    fn center(&mut self)
        requires
            old(self).wf(),
        ensures
            final(self).wf(),
            final(self)@ == centered(old(self)@),
            final(self).canvas == old(self).canvas,
    {
        let (w, h) = (self.image_width, self.image_height);
        let z = self.zoom;
        assert(0 <= w * z <= 0x7FF_FFFF * 8 && 0 <= h * z <= 0x7FF_FFFF * 8) by (nonlinear_arith)
            requires
                0 <= w <= 0x7FF_FFFF,
                0 <= h <= 0x7FF_FFFF,
                0 <= z <= 8,
        ;
        let a = 640 - (w as i64 * z as i64);
        let b = 450 - (h as i64 * z as i64);
        proof {
            lemma_part(a as int, 2);
            lemma_part(b as int, 2);
        }
        self.offset_x = part_exec(a, 2) as i32;
        self.offset_y = part_exec(b, 2) as i32;
    }

    /// Shows an image given as raw pixels. Data of the wrong length is
    /// reported in the status line.
    pub fn load_image(&mut self, font: &Font, path: &str, data: &[u8], width: u32, height: u32)
        requires
            old(self).wf(),
            font.wf(),
            width * height * 4 <= u32::MAX,
            width <= 0x7FF_FFFF,
            height <= 0x7FF_FFFF,
        ensures
            final(self).wf(),
            final(self)@ == loaded(old(self)@, path@, data@, width as int, height as int),
            final(self).up_to_date(font),
    {
        assert(data@.len() == data.len());
        assert(width * height >= 0) by (nonlinear_arith)
            requires
                width >= 0,
                height >= 0,
        ;
        let n = (width as u64 * height as u64) as usize;
        let expected = 4 * n;
        if data.len() != expected {
            let mut t: Vec<char> = Vec::new();
            push_str(&mut t, "Invalid image size (expected ");
            push_dec(&mut t, expected as u64);
            push_str(&mut t, " bytes, got ");
            push_dec(&mut t, data.len() as u64);
            push_str(&mut t, ")");
            assert(t@ =~= loaded(
                old(self)@,
                path@,
                data@,
                width as int,
                height as int,
            ).status);
            self.status = t;
            self.render(font);
            return;
        }
        let mut pixels: Vec<u32> = Vec::new();
        let mut i: usize = 0;
        while i < n
            invariant
                i <= n,
                4 * n == data.len(),
                data@.len() == data.len(),
                pixels@.len() == i,
                forall|k: int| 0 <= k < i ==> #[trigger] pixels@[k] == le32(data@, 4 * k),
            decreases n - i,
        {
            pixels.push(get_le32(data, 4 * i));
            i += 1;
        }
        assert(pixels@ =~= raw_pixels(data@, n as nat));
        self.image_data = Some(pixels);
        self.image_width = width;
        self.image_height = height;
        self.file_path = chars_of(path);
        self.center();
        self.set_status();
        self.render(font);
    }

    /// Clicks have no effect.
    pub fn handle_click(&mut self, _x: i32, _y: i32)
        ensures
            *final(self) == *old(self),
    {
    }

    /// `+`, `=` and `-` zoom, `0` resets zoom and position, the arrow keys
    /// pan.
    pub fn handle_key(&mut self, font: &Font, event: Event)
        requires
            old(self).wf(),
            font.wf(),
        ensures
            final(self).wf(),
            final(self)@ == keyed(old(self)@, event),
            old(self).up_to_date(font) ==> final(self).up_to_date(font),
    {
        match event {
            Event::Char(c) => {
                if c == '+' || c == '=' {
                    if self.zoom >= 8 {
                        return;
                    }
                    self.zoom = self.zoom + 1;
                } else if c == '-' {
                    if self.zoom <= 1 {
                        return;
                    }
                    self.zoom = self.zoom - 1;
                } else if c == '0' {
                    self.zoom = 1;
                    self.center();
                } else {
                    return;
                }
                self.set_status();
            },
            Event::Left => {
                self.offset_x = shift(self.offset_x, 20);
            },
            Event::Right => {
                self.offset_x = shift(self.offset_x, -20);
            },
            Event::Up => {
                self.offset_y = shift(self.offset_y, 20);
            },
            Event::Down => {
                self.offset_y = shift(self.offset_y, -20);
            },
            _ => {
                return;
            },
        }
        self.render(font);
    }

    fn render(&mut self, font: &Font)
        requires
            old(self).wf(),
            font.wf(),
        ensures
            final(self).wf(),
            final(self)@ == old(self)@,
            final(self).up_to_date(font),
    {
        let mut frame = Scene::new();
        frame.rect(0, 0, WIDTH, TOOLBAR_HEIGHT, TOOLBAR_BG);
        frame.text(10, 10, "Image Viewer", TEXT);
        assert(frame@ =~= frame_marks());
        let mut canvas = frame.paint(font, WIDTH, HEIGHT, BG);
        proof {
            law_painting_keeps_size(
                blank(640, 480, BG),
                frame_marks(),
                2,
                font.bits(),
                font.factor() as int,
            );
        }
        self.draw_image(&mut canvas);
        let mut texts = Scene::new();
        if self.image_data.is_none() {
            texts.text(260, 240, "No image loaded", TEXT_DIM);
        }
        if self.status.len() > 0 {
            let shown = crate::text::part(&self.status, 0, self.status.len());
            assert(shown@ =~= self.status@);
            texts.chars(10, 465, shown, TEXT_DIM);
        }
        assert(texts@ =~= text_marks(self@));
        texts.paint_onto(font, &mut canvas);
        self.canvas = canvas;
    }

    fn draw_image(&self, canvas: &mut Canvas)
        requires
            self.wf(),
            old(canvas).ok(),
            old(canvas).readable(),
            old(canvas).pic().w == 640,
            old(canvas).pic().h == 480,
        ensures
            final(canvas).ok(),
            final(canvas).readable(),
            final(canvas).pic() == match self@.image {
                Some(img) => with_image(old(canvas).pic(), self@, img),
                None => old(canvas).pic(),
            },
    {
        let data = match &self.image_data {
            None => {
                return;
            },
            Some(d) => d,
        };
        let ghost p = canvas.pic();
        let ghost v = self@;
        let ghost q = with_image(p, v, data@);
        proof {
            canvas.pic_wf();
        }
        let mut b: u32 = TOOLBAR_HEIGHT;
        while b < HEIGHT
            invariant
                self.wf(),
                v == self@,
                v.image == Some(data@),
                data@.len() == self.image_width * self.image_height,
                data@.len() <= u32::MAX,
                q == with_image(p, v, data@),
                p.wf(),
                p.w == 640,
                p.h == 480,
                canvas.ok(),
                canvas.readable(),
                canvas.pic().w == 640,
                canvas.pic().h == 480,
                30 <= b <= 480,
                forall|x: int, y: int|
                    0 <= x < 640 && 0 <= y < 480 ==> #[trigger] canvas.pic().at(x, y) == if y < b {
                        q.at(x, y)
                    } else {
                        p.at(x, y)
                    },
            decreases 480 - b,
        {
            let mut a: u32 = 0;
            while a < WIDTH
                invariant
                    self.wf(),
                    v == self@,
                    v.image == Some(data@),
                    data@.len() == self.image_width * self.image_height,
                    data@.len() <= u32::MAX,
                    q == with_image(p, v, data@),
                    p.wf(),
                    p.w == 640,
                    p.h == 480,
                    canvas.ok(),
                    canvas.readable(),
                    canvas.pic().w == 640,
                    canvas.pic().h == 480,
                    30 <= b < 480,
                    a <= 640,
                    forall|x: int, y: int|
                        0 <= x < 640 && 0 <= y < 480 ==> #[trigger] canvas.pic().at(x, y) == if y
                            < b || (y == b && x < a) {
                            q.at(x, y)
                        } else {
                            p.at(x, y)
                        },
                decreases 640 - a,
            {
                let x = part_exec(a as i64 - self.offset_x as i64, self.zoom);
                let y = part_exec(b as i64 - self.offset_y as i64 - 30, self.zoom);
                if x >= 0 && x < self.image_width as i64 && y >= 0 && y < self.image_height as i64 {
                    proof {
                        lemma_pixel_index(x as int, y as int, v.w, v.h);
                        assert(y * v.w >= 0) by (nonlinear_arith)
                            requires
                                y >= 0,
                                v.w >= 0,
                        ;
                    }
                    let i = (y as u64 * self.image_width as u64 + x as u64) as usize;
                    canvas.put_pixel(a, b, data[i]);
                }
                a += 1;
            }
            b += 1;
        }
        proof {
            canvas.pic_wf();
            lemma_same_picture(canvas.pic(), q);
        }
    }
}

fn shift(o: i32, d: i32) -> (r: i32)
    requires
        -PAN_LIMIT <= o <= PAN_LIMIT,
        -20 <= d <= 20,
    ensures
        r == moved(o as int, d as int),
{
    let n = o + d;
    if -PAN_LIMIT <= n && n <= PAN_LIMIT {
        n
    } else {
        o
    }
}

} // verus!
