//! A simple pixel-based paint application: drawing with a pen or eraser,
//! choosing colors from a palette, and saving/loading images in raw pixel
//! format.

use crate::bytes::{get_le32, le32, le32_bytes, lemma_le32_round_trip, push_le32};
use crate::fat::{file_written, write_file, Mount, Volume};
use crate::font::Font;
use crate::gfx::{lemma_same_picture, picture_of, recolored, Canvas, Pic, Surface};
use crate::keyboard::Event;
use crate::rtc::DateTime;
use crate::scene::{apart, blank, error2, law_painting_keeps_size, painted, toward, Mark, Scene};
use crate::text::{chars_of, dec, push_dec, push_str, push_word, string_of};
use vstd::prelude::*;

verus! {

pub const CANVAS_WIDTH: u32 = 320;

pub const CANVAS_HEIGHT: u32 = 240;

pub const TOOLBAR_HEIGHT: u32 = 40;

pub const WIDTH: u32 = 320;

pub const HEIGHT: u32 = 280;

pub const BG: u32 = 0x202020;

pub const TOOLBAR_BG: u32 = 0x2A2A2A;

pub const CANVAS_BG: u32 = 0xFFFFFF;

pub const TEXT: u32 = 0xFFFFFF;

pub const TEXT_DIM: u32 = 0x9A9A9A;

/// Color palette.
pub const COLORS: [u32; 8] = [
    0x000000,
    0xFFFFFF,
    0xFF0000,
    0x00FF00,
    0x0000FF,
    0xFFFF00,
    0x00FFFF,
    0xFF00FF,
];

pub const DEFAULT_PATH: &'static str = "/users/macha/Pictures/painting.raw";

#[derive(Clone, Copy, Debug, PartialEq, Eq, Structural)]
pub enum Tool {
    Pen,
    Eraser,
}

#[derive(Clone, Copy, Debug, PartialEq, Eq, Structural)]
pub enum PaintAction {
    Load,
}

pub struct PaintApp {
    buffer: Canvas,
    canvas: Vec<u32>,
    current_color: u32,
    current_tool: Tool,
    drawing: bool,
    last_x: i32,
    last_y: i32,
    status: Vec<char>,
    file_path: Vec<char>,
}

/// The state of the app.
pub struct Easel {
    pub pixels: Seq<u32>,
    pub color: u32,
    pub tool: Tool,
    pub drawing: bool,
    pub last: (i32, i32),
    pub status: Seq<char>,
    pub path: Seq<char>,
}

impl View for PaintApp {
    type V = Easel;

    closed spec fn view(&self) -> Easel {
        Easel {
            pixels: self.canvas@,
            color: self.current_color,
            tool: self.current_tool,
            drawing: self.drawing,
            last: (self.last_x, self.last_y),
            status: self.status@,
            path: self.file_path@,
        }
    }
}

pub open spec fn fresh() -> Easel {
    Easel {
        pixels: Seq::new(76800, |i: int| CANVAS_BG),
        color: 0,
        tool: Tool::Pen,
        drawing: false,
        last: (-1i32, -1i32),
        status: Seq::empty(),
        path: Seq::empty(),
    }
}

/// A sound state: the drawing has its size, and a stroke under way began in
/// it.
pub open spec fn sound(e: Easel) -> bool {
    &&& e.pixels.len() == 76800
    &&& e.drawing ==> 0 <= e.last.0 < 320 && 0 <= e.last.1 < 240
}

/// What the tool puts down.
pub open spec fn ink(e: Easel) -> u32 {
    match e.tool {
        Tool::Pen => e.color,
        Tool::Eraser => CANVAS_BG,
    }
}

/// The drawing with one pixel painted; one outside is ignored.
pub open spec fn dotted(pixels: Seq<u32>, x: int, y: int, color: u32) -> Seq<u32> {
    if 0 <= x < 320 && 0 <= y < 240 {
        pixels.update(y * 320 + x, color)
    } else {
        pixels
    }
}

/// The drawing with the rest of a line painted, from `i` steps in x and `j`
/// in y on.
pub open spec fn stroked(
    pixels: Seq<u32>,
    x0: u32,
    y0: u32,
    x1: u32,
    y1: u32,
    color: u32,
    i: int,
    j: int,
) -> Seq<u32>
    decreases
            (if i <= apart(x0, x1) && j <= apart(y0, y1) {
                apart(x0, x1) - i + apart(y0, y1) - j + 1
            } else {
                0
            }),
{
    let dx = apart(x0, x1);
    let dy = apart(y0, y1);
    let next = dotted(pixels, toward(x0, x1, i), toward(y0, y1, j), color);
    if i >= dx && j >= dy || i > dx || j > dy || i < 0 || j < 0 {
        next
    } else {
        let e = error2(dx, dy, i, j);
        stroked(
            next,
            x0,
            y0,
            x1,
            y1,
            color,
            if e >= -dy {
                i + 1
            } else {
                i
            },
            if e <= dx {
                j + 1
            } else {
                j
            },
        )
    }
}

/// A stroke never goes past its end: until both ends meet, a direction that
/// is done is not taken again.
pub proof fn law_stroke_stays_inside(dx: int, dy: int, i: int, j: int)
    requires
        0 <= i <= dx,
        0 <= j <= dy,
        i < dx || j < dy,
    ensures
        i == dx ==> !(error2(dx, dy, i, j) >= -dy),
        j == dy ==> !(error2(dx, dy, i, j) <= dx),
        error2(dx, dy, i, j) >= -dy || error2(dx, dy, i, j) <= dx,
{
    if i == dx {
        assert(dx - dy - dx * dy + j * dx <= -dy) by (nonlinear_arith)
            requires
                0 <= j,
                j + 1 <= dy,
                dx >= 0,
        ;
    }
    if j == dy {
        assert(dx - dy - i * dy + dy * dx >= dx) by (nonlinear_arith)
            requires
                0 <= i,
                i + 1 <= dx,
                dy >= 0,
        ;
    }
}

/// A stroke paints the pixel where it ends.
pub proof fn law_stroke_reaches_end(
    pixels: Seq<u32>,
    x0: u32,
    y0: u32,
    x1: u32,
    y1: u32,
    color: u32,
    i: int,
    j: int,
)
    requires
        pixels.len() == 76800,
        x1 < 320,
        y1 < 240,
        0 <= i <= apart(x0, x1),
        0 <= j <= apart(y0, y1),
    ensures
        stroked(pixels, x0, y0, x1, y1, color, i, j)[y1 * 320 + x1] == color,
        stroked(pixels, x0, y0, x1, y1, color, i, j).len() == 76800,
    decreases apart(x0, x1) - i + apart(y0, y1) - j,
{
    let dx = apart(x0, x1);
    let dy = apart(y0, y1);
    if i < dx || j < dy {
        law_stroke_stays_inside(dx, dy, i, j);
        let e = error2(dx, dy, i, j);
        let next = dotted(pixels, toward(x0, x1, i), toward(y0, y1, j), color);
        law_stroke_reaches_end(
            next,
            x0,
            y0,
            x1,
            y1,
            color,
            if e >= -dy {
                i + 1
            } else {
                i
            },
            if e <= dx {
                j + 1
            } else {
                j
            },
        );
    }
}

/// The number of the palette color under a point of the toolbar.
pub open spec fn color_under(x: int, y: int) -> Option<int> {
    if 10 <= y < 30 && 100 <= x < 300 && (x - 100) % 25 < 20 {
        Some((x - 100) / 25)
    } else {
        None
    }
}

/// The state after a click on the toolbar.
pub open spec fn toolbar_clicked(e: Easel, x: int, y: int) -> Easel {
    if 5 <= y < 35 && 5 <= x < 35 {
        Easel { tool: Tool::Pen, status: "Tool: Pen"@, ..e }
    } else if 5 <= y < 35 && 40 <= x < 70 {
        Easel { tool: Tool::Eraser, status: "Tool: Eraser"@, ..e }
    } else {
        match color_under(x, y) {
            Some(i) => Easel { color: COLORS@[i], status: "Color: "@ + dec((i + 1) as nat), ..e },
            None => e,
        }
    }
}

/// The state after a press of the mouse button.
pub open spec fn clicked(e: Easel, x: int, y: int) -> Easel {
    if x < 0 || y < 0 {
        e
    } else if y < 40 {
        toolbar_clicked(e, x, y)
    } else if x < 320 && y < 280 {
        Easel {
            drawing: true,
            last: (x as i32, (y - 40) as i32),
            pixels: dotted(e.pixels, x, y - 40, ink(e)),
            ..e
        }
    } else {
        e
    }
}

/// The state after a move of the mouse: with the button down, a stroke goes
/// on from where the mouse was.
pub open spec fn mouse_moved(e: Easel, x: int, y: int, down: bool) -> Easel {
    if !down || !(0 <= x < 320 && 40 <= y < 280) {
        e
    } else {
        Easel {
            pixels: if e.drawing {
                stroked(
                    e.pixels,
                    e.last.0 as u32,
                    e.last.1 as u32,
                    x as u32,
                    (y - 40) as u32,
                    ink(e),
                    0,
                    0,
                )
            } else {
                e.pixels
            },
            last: (x as i32, (y - 40) as i32),
            ..e
        }
    }
}

pub open spec fn released(e: Easel) -> Easel {
    Easel { drawing: false, last: (-1i32, -1i32), ..e }
}

/// The drawing as bytes.
pub open spec fn raw_bytes(pixels: Seq<u32>, n: nat) -> Seq<u8>
    decreases n,
{
    if n == 0 {
        Seq::empty()
    } else {
        raw_bytes(pixels, (n - 1) as nat) + le32_bytes(pixels[n - 1])
    }
}

/// The state after image data was loaded; data of the wrong length is only
/// reported.
pub open spec fn loaded(e: Easel, path: Seq<char>, data: Seq<u8>) -> Easel {
    if data.len() != 307200 {
        Easel { status: "Invalid image size (expected 307200 bytes)"@, ..e }
    } else {
        Easel {
            pixels: Seq::new(76800, |i: int| le32(data, 4 * i)),
            path,
            status: "Loaded "@ + path,
            ..e
        }
    }
}

proof fn lemma_raw_bytes(pixels: Seq<u32>, n: nat)
    requires
        n <= pixels.len(),
    ensures
        raw_bytes(pixels, n).len() == 4 * n,
        forall|i: int| 0 <= i < n ==> #[trigger] le32(raw_bytes(pixels, n), 4 * i) == pixels[i],
    decreases n,
{
    if n > 0 {
        let m = (n - 1) as nat;
        lemma_raw_bytes(pixels, m);
        lemma_le32_round_trip(pixels[m as int]);
        let (b, a) = (raw_bytes(pixels, n), raw_bytes(pixels, m));
        let t = le32_bytes(pixels[m as int]);
        assert forall|i: int| 0 <= i < n implies #[trigger] le32(b, 4 * i) == pixels[i] by {
            if i < m {
                assert(le32(a, 4 * i) == pixels[i]);
                assert(b[4 * i] == a[4 * i]);
                assert(b[4 * i + 1] == a[4 * i + 1]);
                assert(b[4 * i + 2] == a[4 * i + 2]);
                assert(b[4 * i + 3] == a[4 * i + 3]);
            } else {
                assert(b[4 * i] == t[0]);
                assert(b[4 * i + 1] == t[1]);
                assert(b[4 * i + 2] == t[2]);
                assert(b[4 * i + 3] == t[3]);
            }
        }
    }
}

/// Loading what was saved gives the same drawing.
pub proof fn law_saved_drawing_loads(e: Easel, other: Easel, path: Seq<char>)
    requires
        sound(e),
    ensures
        loaded(other, path, raw_bytes(e.pixels, 76800)).pixels == e.pixels,
{
    lemma_raw_bytes(e.pixels, 76800);
    let p = loaded(other, path, raw_bytes(e.pixels, 76800)).pixels;
    assert forall|i: int| 0 <= i < 76800 implies p[i] == e.pixels[i] by {
        assert(le32(raw_bytes(e.pixels, 76800), 4 * i) == e.pixels[i]);
    }
    assert(p =~= e.pixels);
}

/// Where the drawing is saved.
pub open spec fn save_path(e: Easel) -> Seq<char> {
    if e.path.len() == 0 {
        DEFAULT_PATH@
    } else {
        e.path
    }
}

/// The state, and the volume, after a key.
pub open spec fn keyed(e: Easel, disk: Option<Volume>, event: Event, now: DateTime) -> (
    Easel,
    Option<Volume>,
    Option<PaintAction>,
) {
    match event {
        Event::Ctrl(c) => if c == 's' {
            let path = save_path(e);
            match disk {
                Some(v) => {
                    let w = file_written(v, path, raw_bytes(e.pixels, 76800), now);
                    if w.0 is Ok {
                        (Easel { status: "Saved to "@ + path, path, ..e }, Some(w.1), None)
                    } else {
                        (Easel { status: "Save failed: write failed"@, ..e }, Some(w.1), None)
                    }
                },
                None => (Easel { status: "Save failed: write failed"@, ..e }, None, None),
            }
        } else if c == 'o' {
            (e, disk, Some(PaintAction::Load))
        } else {
            (e, disk, None)
        },
        Event::Char(c) => if c == '1' {
            (Easel { tool: Tool::Pen, ..e }, disk, None)
        } else if c == '2' {
            (Easel { tool: Tool::Eraser, ..e }, disk, None)
        } else {
            (e, disk, None)
        },
        _ => (e, disk, None),
    }
}

// ---------------------------------------------------------------------
// The picture
// ---------------------------------------------------------------------

pub open spec fn swatch_marks(e: Easel, i: int) -> Seq<Mark> {
    let x = (100 + i * 25) as u32;
    seq![Mark::Rect(x, 10, 20, 20, COLORS@[i])] + (if COLORS@[i] == e.color {
        seq![
            Mark::Rect((x - 1) as u32, 9, 22, 1, TEXT),
            Mark::Rect((x - 1) as u32, 30, 22, 1, TEXT),
            Mark::Rect((x - 1) as u32, 10, 1, 20, TEXT),
            Mark::Rect((x + 20) as u32, 10, 1, 20, TEXT),
        ]
    } else {
        Seq::empty()
    })
}

pub open spec fn swatches(e: Easel, n: nat) -> Seq<Mark>
    decreases n,
{
    if n == 0 {
        Seq::empty()
    } else {
        swatches(e, (n - 1) as nat) + swatch_marks(e, n - 1)
    }
}

pub open spec fn button_color(on: bool) -> u32 {
    if on {
        0x444444
    } else {
        0x333333
    }
}

pub open spec fn toolbar_marks(e: Easel) -> Seq<Mark> {
    seq![
        Mark::Rect(0, 0, WIDTH, TOOLBAR_HEIGHT, TOOLBAR_BG),
        Mark::Rect(5, 5, 30, 30, button_color(e.tool == Tool::Pen)),
        Mark::Rect(15, 10, 2, 15, TEXT),
        Mark::Rect(13, 23, 6, 2, TEXT),
        Mark::Rect(40, 5, 30, 30, button_color(e.tool == Tool::Eraser)),
        Mark::Rect(48, 15, 14, 10, TEXT),
    ] + swatches(e, 8)
}

/// The picture with the drawing below the toolbar.
pub open spec fn with_drawing(p: Pic, pixels: Seq<u32>) -> Pic {
    recolored(
        p,
        |a: int, b: int, o: u32|
            if b >= 40 {
                pixels[(b - 40) * 320 + a]
            } else {
                o
            },
    )
}

pub open spec fn status_marks(e: Easel) -> Seq<Mark> {
    if e.status.len() > 0 {
        seq![Mark::Text(5, 268, e.status, TEXT_DIM)]
    } else {
        Seq::empty()
    }
}

/// What the window shows.
pub open spec fn easel_picture(e: Easel, bits: Seq<u8>, s: int) -> Pic {
    let tools = painted(blank(320, 280, BG), toolbar_marks(e), toolbar_marks(e).len(), bits, s);
    painted(with_drawing(tools, e.pixels), status_marks(e), status_marks(e).len(), bits, s)
}

impl PaintApp {
    pub closed spec fn wf(&self) -> bool {
        self.buffer.ok() && sound(self@)
    }

    /// What the window's pixels show.
    pub closed spec fn shown(&self) -> Pic {
        self.buffer.pic()
    }

    /// Whether the pixels show the state.
    pub open spec fn up_to_date(&self, font: &Font) -> bool {
        self.shown() == easel_picture(self@, font.bits(), font.factor() as int)
    }

    pub fn new(font: &Font) -> (r: Self)
        requires
            font.wf(),
        ensures
            r.wf(),
            r@ == fresh(),
            r.up_to_date(font),
    {
        let mut canvas: Vec<u32> = Vec::new();
        canvas.resize(76800, CANVAS_BG);
        let mut app = PaintApp {
            buffer: Canvas::new(0, 0, BG),
            canvas,
            current_color: COLORS[0],
            current_tool: Tool::Pen,
            drawing: false,
            last_x: -1,
            last_y: -1,
            status: Vec::new(),
            file_path: Vec::new(),
        };
        proof {
            assert(app@.pixels =~= fresh().pixels);
            assert(app@.status =~= Seq::<char>::empty());
            assert(app@.path =~= Seq::<char>::empty());
        }
        app.render(font);
        app
    }

    pub fn width(&self) -> (r: u32)
        ensures
            r == WIDTH,
    {
        WIDTH
    }

    pub fn height(&self) -> (r: u32)
        ensures
            r == HEIGHT,
    {
        HEIGHT
    }

    pub fn pixels(&self) -> (r: &Vec<u32>)
        requires
            self.wf(),
        ensures
            r@.len() == self.shown().w * self.shown().h,
            self.shown() == picture_of(r@, self.shown().w, self.shown().h),
    {
        self.buffer.pixels()
    }

    /// A press of the mouse button: chooses a tool or color, or starts a
    /// stroke.
    pub fn handle_click(&mut self, font: &Font, x: i32, y: i32)
        requires
            old(self).wf(),
            font.wf(),
        ensures
            final(self).wf(),
            final(self)@ == clicked(old(self)@, x as int, y as int),
            old(self).up_to_date(font) ==> final(self).up_to_date(font),
    {
        if x < 0 || y < 0 {
            return;
        }
        let (x, y) = (x as u32, y as u32);
        if y < TOOLBAR_HEIGHT {
            self.handle_toolbar_click(font, x, y);
            return;
        }
        let canvas_y = y - TOOLBAR_HEIGHT;
        if x < CANVAS_WIDTH && canvas_y < CANVAS_HEIGHT {
            self.drawing = true;
            self.last_x = x as i32;
            self.last_y = canvas_y as i32;
            self.draw_pixel(x, canvas_y);
            self.render(font);
        }
    }

    /// The mouse button was let go.
    pub fn handle_release(&mut self)
        requires
            old(self).wf(),
        ensures
            final(self).wf(),
            final(self)@ == released(old(self)@),
            final(self).shown() == old(self).shown(),
    {
        self.drawing = false;
        self.last_x = -1;
        self.last_y = -1;
    }

    /// The mouse moved.
    pub fn handle_mouse_move(&mut self, font: &Font, x: i32, y: i32, pressed: bool)
        requires
            old(self).wf(),
            font.wf(),
        ensures
            final(self).wf(),
            final(self)@ == mouse_moved(old(self)@, x as int, y as int, pressed),
            old(self).up_to_date(font) ==> final(self).up_to_date(font),
    {
        if !pressed || x < 0 || y < 0 {
            return;
        }
        let (x, y) = (x as u32, y as u32);
        if y >= TOOLBAR_HEIGHT && x < CANVAS_WIDTH {
            let canvas_y = y - TOOLBAR_HEIGHT;
            if canvas_y < CANVAS_HEIGHT {
                if self.drawing {
                    self.draw_line(self.last_x as u32, self.last_y as u32, x, canvas_y);
                }
                self.last_x = x as i32;
                self.last_y = canvas_y as i32;
                self.render(font);
            }
        }
    }

    /// Ctrl+S saves, Ctrl+O asks for a file to load, `1` and `2` choose the
    /// tool.
    pub fn handle_key(&mut self, font: &Font, disk: &mut Mount, event: Event, now: DateTime) -> (r:
        Option<PaintAction>)
        requires
            old(self).wf(),
            font.wf(),
            old(disk).wf(),
        ensures
            final(self).wf(),
            final(disk).wf(),
            (final(self)@, final(disk)@, r) == keyed(old(self)@, old(disk)@, event, now),
            old(self).up_to_date(font) ==> final(self).up_to_date(font),
    {
        match event {
            Event::Ctrl(c) => {
                if c == 's' {
                    let path = if self.file_path.len() == 0 {
                        chars_of(DEFAULT_PATH)
                    } else {
                        crate::text::part(&self.file_path, 0, self.file_path.len())
                    };
                    assert(path@ =~= save_path(self@));
                    let ok = self.save(disk, &path, now);
                    let mut t: Vec<char> = Vec::new();
                    if ok {
                        push_str(&mut t, "Saved to ");
                        push_word(&mut t, true, &path);
                        assert(t@ =~= "Saved to "@ + path@);
                        self.file_path = path;
                    } else {
                        push_str(&mut t, "Save failed: write failed");
                        assert(t@ =~= "Save failed: write failed"@);
                    }
                    self.status = t;
                    self.render(font);
                    None
                } else if c == 'o' {
                    Some(PaintAction::Load)
                } else {
                    None
                }
            },
            Event::Char(c) => {
                if c == '1' {
                    self.current_tool = Tool::Pen;
                    self.render(font);
                } else if c == '2' {
                    self.current_tool = Tool::Eraser;
                    self.render(font);
                }
                None
            },
            _ => None,
        }
    }

    /// Takes over image data.
    pub fn load_image(&mut self, font: &Font, path: &str, data: &[u8])
        requires
            old(self).wf(),
            font.wf(),
        ensures
            final(self).wf(),
            final(self)@ == loaded(old(self)@, path@, data@),
            final(self).up_to_date(font),
    {
        assert(data@.len() == data.len());
        if data.len() != 307200 {
            self.status = chars_of("Invalid image size (expected 307200 bytes)");
            self.render(font);
            return;
        }
        let mut i: usize = 0;
        while i < 76800
            invariant
                i <= 76800,
                data@.len() == 307200,
                data@.len() == data.len(),
                self.canvas@.len() == 76800,
                self.buffer == old(self).buffer,
                self@ == (Easel { pixels: self.canvas@, ..old(self)@ }),
                forall|k: int| 0 <= k < i ==> #[trigger] self.canvas@[k] == le32(data@, 4 * k),
            decreases 76800 - i,
        {
            let c = get_le32(data, 4 * i);
            self.canvas.set(i, c);
            i += 1;
        }
        self.file_path = chars_of(path);
        let mut t: Vec<char> = Vec::new();
        push_str(&mut t, "Loaded ");
        push_str(&mut t, path);
        assert(t@ =~= "Loaded "@ + path@);
        self.status = t;
        assert(self.canvas@ =~= loaded(old(self)@, path@, data@).pixels);
        self.render(font);
    }

    /// Writes the drawing to a file.
    fn save(&self, disk: &mut Mount, path: &Vec<char>, now: DateTime) -> (r: bool)
        requires
            self.wf(),
            old(disk).wf(),
        ensures
            final(disk).wf(),
            match old(disk)@ {
                None => !r && final(disk)@ is None,
                Some(v) => {
                    let w = file_written(v, path@, raw_bytes(self@.pixels, 76800), now);
                    r == (w.0 is Ok) && final(disk)@ == Some(w.1)
                },
            },
    {
        let mut data: Vec<u8> = Vec::new();
        let mut i: usize = 0;
        assert(data@ =~= raw_bytes(self.canvas@, 0));
        while i < 76800
            invariant
                i <= 76800,
                self.wf(),
                data@ == raw_bytes(self.canvas@, i as nat),
            decreases 76800 - i,
        {
            push_le32(&mut data, self.canvas[i]);
            i += 1;
            assert(data@ =~= raw_bytes(self.canvas@, i as nat));
        }
        proof {
            lemma_raw_bytes(self.canvas@, 76800);
        }
        let name = string_of(path);
        write_file(disk, name.as_str(), data.as_slice(), now).is_ok()
    }

    fn handle_toolbar_click(&mut self, font: &Font, x: u32, y: u32)
        requires
            old(self).wf(),
            font.wf(),
        ensures
            final(self).wf(),
            final(self)@ == toolbar_clicked(old(self)@, x as int, y as int),
            old(self).up_to_date(font) ==> final(self).up_to_date(font),
    {
        if y >= 5 && y < 35 {
            if x >= 5 && x < 35 {
                self.current_tool = Tool::Pen;
                self.status = chars_of("Tool: Pen");
                self.render(font);
                return;
            }
            if x >= 40 && x < 70 {
                self.current_tool = Tool::Eraser;
                self.status = chars_of("Tool: Eraser");
                self.render(font);
                return;
            }
        }
        if y >= 10 && y < 30 && x >= 100 && x < 300 && (x - 100) % 25 < 20 {
            let i = ((x - 100) / 25) as usize;
            self.current_color = COLORS[i];
            let mut t: Vec<char> = Vec::new();
            push_str(&mut t, "Color: ");
            push_dec(&mut t, i as u64 + 1);
            assert(t@ =~= "Color: "@ + dec((i + 1) as nat));
            self.status = t;
            self.render(font);
        }
    }

    fn draw_pixel(&mut self, x: u32, y: u32)
        requires
            old(self).wf(),
            x < 320,
            y < 240,
        ensures
            final(self).wf(),
            final(self).shown() == old(self).shown(),
            final(self)@ == (Easel {
                pixels: dotted(old(self)@.pixels, x as int, y as int, ink(old(self)@)),
                ..old(self)@
            }),
    {
        let color = match self.current_tool {
            Tool::Pen => self.current_color,
            Tool::Eraser => CANVAS_BG,
        };
        self.canvas.set((y * CANVAS_WIDTH + x) as usize, color);
    }

    /// Paints a line by Bresenham's algorithm.
    fn draw_line(&mut self, x0: u32, y0: u32, x1: u32, y1: u32)
        requires
            old(self).wf(),
            x0 < 320,
            y0 < 240,
            x1 < 320,
            y1 < 240,
        ensures
            final(self).wf(),
            final(self).shown() == old(self).shown(),
            final(self)@ == (Easel {
                pixels: stroked(old(self)@.pixels, x0, y0, x1, y1, ink(old(self)@), 0, 0),
                ..old(self)@
            }),
    {
        let dx: i32 = if x0 <= x1 { (x1 - x0) as i32 } else { (x0 - x1) as i32 };
        let dy: i32 = if y0 <= y1 { (y1 - y0) as i32 } else { (y0 - y1) as i32 };
        let mut i: i32 = 0;
        let mut j: i32 = 0;
        let mut err: i32 = dx - dy;
        let ghost px = self@.pixels;
        let ghost color = ink(self@);
        assert(0 * dy == 0 && 0 * dx == 0);
        loop
            invariant
                self.wf(),
                self.shown() == old(self).shown(),
                self@ == (Easel { pixels: self@.pixels, ..old(self)@ }),
                color == ink(old(self)@),
                px == old(self)@.pixels,
                x0 < 320,
                y0 < 240,
                x1 < 320,
                y1 < 240,
                0 <= i <= dx < 320,
                0 <= j <= dy < 240,
                dx == apart(x0, x1),
                dy == apart(y0, y1),
                2 * err == error2(dx as int, dy as int, i as int, j as int),
                stroked(px, x0, y0, x1, y1, color, 0, 0) == stroked(
                    self@.pixels,
                    x0,
                    y0,
                    x1,
                    y1,
                    color,
                    i as int,
                    j as int,
                ),
            decreases dx - i + dy - j,
        {
            let x = if x1 >= x0 { x0 + i as u32 } else { x0 - i as u32 };
            let y = if y1 >= y0 { y0 + j as u32 } else { y0 - j as u32 };
            self.draw_pixel(x, y);
            if i == dx && j == dy {
                return;
            }
            proof {
                law_stroke_stays_inside(dx as int, dy as int, i as int, j as int);
                assert(0 <= i * dy <= 320 * 240 && 0 <= j * dx <= 320 * 240) by (nonlinear_arith)
                    requires
                        0 <= i <= 320,
                        0 <= j <= 240,
                        0 <= dx <= 320,
                        0 <= dy <= 240,
                ;
            }
            let e2 = 2 * err;
            let ghost (i0, j0) = (i as int, j as int);
            if e2 >= -dy {
                err = err - dy;
                i = i + 1;
                assert((i0 + 1) * dy == i0 * dy + dy) by (nonlinear_arith);
            }
            if e2 <= dx {
                err = err + dx;
                j = j + 1;
                assert((j0 + 1) * dx == j0 * dx + dx) by (nonlinear_arith);
            }
        }
    }

    fn toolbar(&self, scene: &mut Scene)
        requires
            old(scene)@ == Seq::<Mark>::empty(),
        ensures
            final(scene)@ == toolbar_marks(self@),
    {
        let pen = self.current_tool == Tool::Pen;
        scene.rect(0, 0, WIDTH, TOOLBAR_HEIGHT, TOOLBAR_BG);
        scene.rect(5, 5, 30, 30, if pen { 0x444444 } else { 0x333333 });
        scene.rect(15, 10, 2, 15, TEXT);
        scene.rect(13, 23, 6, 2, TEXT);
        scene.rect(40, 5, 30, 30, if pen { 0x333333 } else { 0x444444 });
        scene.rect(48, 15, 14, 10, TEXT);
        let ghost start = scene@;
        let ghost e = self@;
        assert(scene@ =~= start + swatches(e, 0));
        let mut i: usize = 0;
        while i < 8
            invariant
                i <= 8,
                e == self@,
                scene@ == start + swatches(e, i as nat),
            decreases 8 - i,
        {
            let x = 100 + i as u32 * 25;
            let color = COLORS[i];
            scene.rect(x, 10, 20, 20, color);
            if color == self.current_color {
                scene.rect(x - 1, 9, 22, 1, TEXT);
                scene.rect(x - 1, 30, 22, 1, TEXT);
                scene.rect(x - 1, 10, 1, 20, TEXT);
                scene.rect(x + 20, 10, 1, 20, TEXT);
            }
            i += 1;
            assert(scene@ =~= start + swatches(e, i as nat));
        }
        assert(scene@ =~= toolbar_marks(e));
    }

    fn render(&mut self, font: &Font)
        requires
            old(self).buffer.ok(),
            sound(old(self)@),
            font.wf(),
        ensures
            final(self).wf(),
            final(self)@ == old(self)@,
            final(self).up_to_date(font),
    {
        let mut tools = Scene::new();
        self.toolbar(&mut tools);
        let mut buffer = tools.paint(font, WIDTH, HEIGHT, BG);
        proof {
            law_painting_keeps_size(
                blank(320, 280, BG),
                toolbar_marks(self@),
                toolbar_marks(self@).len(),
                font.bits(),
                font.factor() as int,
            );
        }
        self.draw_canvas(&mut buffer);
        let mut texts = Scene::new();
        if self.status.len() > 0 {
            let shown = crate::text::part(&self.status, 0, self.status.len());
            assert(shown@ =~= self.status@);
            texts.chars(5, 268, shown, TEXT_DIM);
        }
        assert(texts@ =~= status_marks(self@));
        texts.paint_onto(font, &mut buffer);
        self.buffer = buffer;
    }

    fn draw_canvas(&self, buffer: &mut Canvas)
        requires
            self.canvas@.len() == 76800,
            old(buffer).ok(),
            old(buffer).readable(),
            old(buffer).pic().w == 320,
            old(buffer).pic().h == 280,
        ensures
            final(buffer).ok(),
            final(buffer).readable(),
            final(buffer).pic() == with_drawing(old(buffer).pic(), self@.pixels),
    {
        let ghost p = buffer.pic();
        let ghost q = with_drawing(p, self@.pixels);
        proof {
            buffer.pic_wf();
        }
        let mut b: u32 = 0;
        while b < 240
            invariant
                self.canvas@.len() == 76800,
                q == with_drawing(p, self@.pixels),
                p.wf(),
                p.w == 320,
                p.h == 280,
                buffer.ok(),
                buffer.readable(),
                buffer.pic().w == 320,
                buffer.pic().h == 280,
                b <= 240,
                forall|x: int, y: int|
                    0 <= x < 320 && 0 <= y < 280 ==> #[trigger] buffer.pic().at(x, y) == if y < b
                        + 40 {
                        q.at(x, y)
                    } else {
                        p.at(x, y)
                    },
            decreases 240 - b,
        {
            let mut a: u32 = 0;
            while a < 320
                invariant
                    self.canvas@.len() == 76800,
                    q == with_drawing(p, self@.pixels),
                    p.wf(),
                    p.w == 320,
                    p.h == 280,
                    buffer.ok(),
                    buffer.readable(),
                    buffer.pic().w == 320,
                    buffer.pic().h == 280,
                    b < 240,
                    a <= 320,
                    forall|x: int, y: int|
                        0 <= x < 320 && 0 <= y < 280 ==> #[trigger] buffer.pic().at(x, y) == if y
                            < b + 40 || (y == b + 40 && x < a) {
                            q.at(x, y)
                        } else {
                            p.at(x, y)
                        },
                decreases 320 - a,
            {
                buffer.put_pixel(a, b + 40, self.canvas[(b * 320 + a) as usize]);
                a += 1;
            }
            b += 1;
        }
        proof {
            buffer.pic_wf();
            lemma_same_picture(buffer.pic(), q);
        }
    }
}

} // verus!
