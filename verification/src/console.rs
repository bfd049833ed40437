//! A text-cell grid virtual console. It draws glyphs into its own pixel
//! buffer, which a window owns and the compositor copies onward.

use crate::font::Font;
use crate::gfx::{draw_char, recolored, scrolled, with_char, Canvas, Pic, Surface};
use vstd::prelude::*;
use vstd::utf8::{encode_scalar, encode_utf8, is_scalar};

verus! {

/// `char::from_u32` gives the character with this number, if there is one.
pub assume_specification[ char::from_u32 ](i: u32) -> (r: Option<char>)
    ensures
        r is Some <==> is_scalar(i),
        r matches Some(c) ==> c as u32 == i,
;

pub struct Console {
    cols: usize,
    rows: usize,
    row: usize,
    col: usize,
    fg: u32,
    bg: u32,
    scale: u32,
    canvas: Canvas,
    /// UTF-8 sequence being accumulated by `write_byte`.
    pending: Vec<u8>,
    /// Cells (1 or 2) occupied by the most recently written char.
    last_width: usize,
}

/// The state of a console.
pub struct Screen {
    pub cols: nat,
    pub rows: nat,
    pub row: nat,
    pub col: nat,
    pub fg: u32,
    pub bg: u32,
    /// Pixels per glyph pixel.
    pub scale: nat,
    pub pic: Pic,
    pub pending: Seq<u8>,
    pub last_width: nat,
}

impl View for Console {
    type V = Screen;

    closed spec fn view(&self) -> Screen {
        Screen {
            cols: self.cols as nat,
            rows: self.rows as nat,
            row: self.row as nat,
            col: self.col as nat,
            fg: self.fg,
            bg: self.bg,
            scale: self.scale as nat,
            pic: self.canvas.pic(),
            pending: self.pending@,
            last_width: self.last_width as nat,
        }
    }
}

/// The cursor at the start of the next row; from the last row the screen
/// scrolls by one.
pub open spec fn next_line(s: Screen) -> Screen {
    if s.row + 1 < s.rows {
        Screen { row: s.row + 1, col: 0, ..s }
    } else {
        Screen {
            row: (s.rows - 1) as nat,
            col: 0,
            pic: scrolled(s.pic, (8 * s.scale) as int, s.bg),
            ..s
        }
    }
}

/// A byte's glyph drawn in a cell.
pub open spec fn cell_drawn(s: Screen, bits: Seq<u8>, col: int, row: int, byte: u8) -> Screen {
    Screen {
        pic: with_char(
            s.pic,
            bits,
            s.scale as int,
            col * (8 * s.scale),
            row * (8 * s.scale),
            byte,
            s.fg,
            Some(s.bg),
        ),
        ..s
    }
}

/// The screen with room for `cells` cells at the cursor.
pub open spec fn with_room(s: Screen, cells: nat) -> Screen {
    if s.col + cells > s.cols {
        next_line(s)
    } else {
        s
    }
}

/// An ASCII character that is drawn.
pub open spec fn put_ascii(s: Screen, bits: Seq<u8>, byte: u8) -> Screen {
    let t = with_room(s, 1);
    Screen {
        col: t.col + 1,
        last_width: 1,
        ..cell_drawn(t, bits, t.col as int, t.row as int, byte)
    }
}

/// A wide character: the cursor moves over two cells.
pub open spec fn put_wide(s: Screen) -> Screen {
    let t = with_room(s, 2);
    Screen { col: t.col + 2, last_width: 2, ..t }
}

/// `n` spaces.
pub open spec fn put_spaces(s: Screen, bits: Seq<u8>, n: nat) -> Screen
    decreases n,
{
    if n == 0 {
        s
    } else {
        put_ascii(put_spaces(s, bits, (n - 1) as nat), bits, 32)
    }
}

/// The first `n` cells at the cursor blanked.
pub open spec fn blanked(s: Screen, bits: Seq<u8>, n: nat) -> Screen
    decreases n,
{
    if n == 0 {
        s
    } else {
        cell_drawn(blanked(s, bits, (n - 1) as nat), bits, s.col + n - 1, s.row as int, 32)
    }
}

/// Backspace steps back over the last character written, onto the end of
/// the row above from the start of a row, and blanks its cells.
pub open spec fn backed_up(s: Screen, bits: Seq<u8>) -> Screen {
    let w = s.last_width;
    if s.col >= w {
        blanked(Screen { col: (s.col - w) as nat, ..s }, bits, w)
    } else if s.row > 0 {
        blanked(
            Screen {
                row: (s.row - 1) as nat,
                col: if s.cols >= w {
                    (s.cols - w) as nat
                } else {
                    0
                },
                ..s
            },
            bits,
            w,
        )
    } else {
        s
    }
}

/// The screen after a character.
pub open spec fn after_char(s: Screen, bits: Seq<u8>, c: char) -> Screen {
    let u = c as u32;
    if u == 10 {
        next_line(s)
    } else if u == 13 {
        Screen { col: 0, ..s }
    } else if u == 8 {
        backed_up(s, bits)
    } else if u == 9 {
        put_spaces(s, bits, (4 - s.col % 4) as nat)
    } else if u < 128 {
        put_ascii(s, bits, u as u8)
    } else {
        put_wide(s)
    }
}

/// Where a wide character's glyph goes, in pixels.
pub open spec fn wide_place(s: Screen) -> (int, int) {
    let t = with_room(s, 2);
    ((t.col * (8 * s.scale)) as int, (t.row * (8 * s.scale)) as int)
}

/// Byte length of the UTF-8 sequence a lead byte announces.
pub open spec fn announced(lead: u8) -> nat {
    if 0xC0 <= lead < 0xE0 {
        2
    } else if 0xE0 <= lead < 0xF0 {
        3
    } else {
        4
    }
}

/// The number of the character that a 2- or 3-byte sequence encodes.
pub open spec fn decoded(b: Seq<u8>) -> u32 {
    if b.len() == 2 {
        (b[0] % 32 * 64 + b[1] % 64) as u32
    } else {
        (b[0] % 16 * 4096 + b[1] % 64 * 64 + b[2] % 64) as u32
    }
}

/// The character with a number, or the replacement character.
pub open spec fn char_or_replacement(u: u32) -> char {
    if is_scalar(u) {
        u as char
    } else {
        '\u{FFFD}'
    }
}

/// What a byte gives: the state of the sequence under way, and a character
/// once one is complete.
pub open spec fn after_byte(pending: Seq<u8>, byte: u8) -> (Seq<u8>, Option<char>) {
    if byte < 0x80 {
        (pending, Some(byte as char))
    } else if byte < 0xC0 && pending.len() > 0 {
        let all = pending.push(byte);
        if all.len() == announced(pending[0]) {
            (Seq::empty(), Some(char_or_replacement(decoded(all))))
        } else {
            (all, None)
        }
    } else if byte >= 0xC0 {
        if announced(byte) <= 3 {
            (seq![byte], None)
        } else {
            (Seq::empty(), Some('\u{FFFD}'))
        }
    } else {
        (Seq::empty(), Some('\u{FFFD}'))
    }
}

/// The two or three bytes of a character's UTF-8 encoding, fed one by one,
/// give exactly that character.
pub proof fn law_utf8_reassembly(u: u32)
    requires
        is_scalar(u),
        0x80 <= u < 0x1_0000,
    ensures
        u < 0x800 ==> {
            let lead = (0xC0 + u / 64) as u8;
            let tail = (0x80 + u % 64) as u8;
            &&& after_byte(Seq::empty(), lead) == (seq![lead], None::<char>)
            &&& after_byte(seq![lead], tail) == (Seq::<u8>::empty(), Some(u as char))
        },
        u >= 0x800 ==> {
            let lead = (0xE0 + u / 4096) as u8;
            let mid = (0x80 + u / 64 % 64) as u8;
            let tail = (0x80 + u % 64) as u8;
            &&& after_byte(Seq::empty(), lead) == (seq![lead], None::<char>)
            &&& after_byte(seq![lead], mid) == (seq![lead, mid], None::<char>)
            &&& after_byte(seq![lead, mid], tail) == (Seq::<u8>::empty(), Some(u as char))
        },
{
    if u < 0x800 {
        let lead = (0xC0 + u / 64) as u8;
        let tail = (0x80 + u % 64) as u8;
        let all = seq![lead].push(tail);
        assert(decoded(all) == u);
    } else {
        let lead = (0xE0 + u / 4096) as u8;
        let mid = (0x80 + u / 64 % 64) as u8;
        let tail = (0x80 + u % 64) as u8;
        assert(seq![lead].push(mid) =~= seq![lead, mid]);
        let all = seq![lead, mid].push(tail);
        assert(decoded(all) == u);
    }
}

/// The screen after a byte.
pub open spec fn byte_written(s: Screen, bits: Seq<u8>, byte: u8) -> Screen {
    let (pending, c) = after_byte(s.pending, byte);
    let t = Screen { pending, ..s };
    match c {
        Some(c) => after_char(t, bits, c),
        None => t,
    }
}

/// The screen after bytes, one by one.
pub open spec fn bytes_written(s: Screen, bits: Seq<u8>, bytes: Seq<u8>) -> Screen
    decreases bytes.len(),
{
    if bytes.len() == 0 {
        s
    } else {
        bytes_written(byte_written(s, bits, bytes[0]), bits, bytes.drop_first())
    }
}

/// The screen after characters, one by one.
pub open spec fn chars_written(s: Screen, bits: Seq<u8>, chars: Seq<char>) -> Screen
    decreases chars.len(),
{
    if chars.len() == 0 {
        s
    } else {
        chars_written(after_char(s, bits, chars[0]), bits, chars.drop_first())
    }
}

/// Writing the bytes of a text, one by one, shows the characters of the
/// text, for texts of characters that take up to three bytes.
pub proof fn law_text_is_shown(s: Screen, bits: Seq<u8>, text: Seq<char>)
    requires
        s.pending.len() == 0,
        forall|i: int| 0 <= i < text.len() ==> #[trigger] text[i] as u32 <= 0xFFFF,
    ensures
        bytes_written(s, bits, encode_utf8(text)) == chars_written(s, bits, text),
    decreases text.len(),
{
    if text.len() > 0 {
        let c = text[0];
        let rest = text.drop_first();
        let t = after_char(s, bits, c);
        assert(s.pending =~= Seq::<u8>::empty());
        lemma_bytes_of_char(s, bits, c);
        lemma_char_keeps_pending(s, bits, c);
        lemma_bytes_then(s, bits, encode_scalar(c as u32), encode_utf8(rest));
        law_text_is_shown(t, bits, rest);
    }
}

proof fn lemma_bytes_then(s: Screen, bits: Seq<u8>, a: Seq<u8>, b: Seq<u8>)
    ensures
        bytes_written(s, bits, a + b) == bytes_written(bytes_written(s, bits, a), bits, b),
    decreases a.len(),
{
    if a.len() == 0 {
        assert(a + b =~= b);
    } else {
        assert((a + b).drop_first() =~= a.drop_first() + b);
        lemma_bytes_then(byte_written(s, bits, a[0]), bits, a.drop_first(), b);
    }
}

proof fn lemma_lead_bytes(u: u32)
    by (bit_vector)
    ensures
        u <= 0x7F ==> (u & 0x7F) as u8 == u as u8,
        0x80 <= u <= 0x7FF ==> 0xC0u8 | ((u >> 6) & 0x1F) as u8 == (0xC0 + u / 64) as u8,
        0x800 <= u <= 0xFFFF ==> 0xE0u8 | ((u >> 12) & 0x0F) as u8 == (0xE0 + u / 4096) as u8,
{
}

proof fn lemma_tail_bytes(u: u32)
    by (bit_vector)
    ensures
        0x80u8 | (u & 0x3F) as u8 == (0x80 + u % 64) as u8,
        0x80u8 | ((u >> 6) & 0x3F) as u8 == (0x80 + u / 64 % 64) as u8,
{
}

/// The bytes of one character write that character.
proof fn lemma_bytes_of_char(s: Screen, bits: Seq<u8>, c: char)
    requires
        s.pending == Seq::<u8>::empty(),
        c as u32 <= 0xFFFF,
    ensures
        bytes_written(s, bits, encode_scalar(c as u32)) == after_char(s, bits, c),
{
    let u = c as u32;
    let b = encode_scalar(u);
    reveal_with_fuel(bytes_written, 4);
    lemma_lead_bytes(u);
    lemma_tail_bytes(u);
    if u <= 0x7F {
        assert(b =~= seq![u as u8]);
        assert(b.drop_first() =~= Seq::<u8>::empty());
        assert(u as u8 as char == c);
    } else {
        law_utf8_reassembly(u);
        if u <= 0x7FF {
            let (x, y) = ((0xC0 + u / 64) as u8, (0x80 + u % 64) as u8);
            assert(b =~= seq![x, y]);
            assert(b.drop_first() =~= seq![y]);
            assert(b.drop_first().drop_first() =~= Seq::<u8>::empty());
        } else {
            let x = (0xE0 + u / 4096) as u8;
            let y = (0x80 + u / 64 % 64) as u8;
            let z = (0x80 + u % 64) as u8;
            assert(b =~= seq![x, y, z]);
            assert(b.drop_first() =~= seq![y, z]);
            assert(b.drop_first().drop_first() =~= seq![z]);
            assert(b.drop_first().drop_first().drop_first() =~= Seq::<u8>::empty());
        }
    }
}

proof fn lemma_char_keeps_pending(s: Screen, bits: Seq<u8>, c: char)
    ensures
        after_char(s, bits, c).pending == s.pending,
{
    lemma_spaces_keep_pending(s, bits, (4 - s.col % 4) as nat);
    let w = s.last_width;
    lemma_blanks_keep_pending(Screen { col: (s.col - w) as nat, ..s }, bits, w);
    let up = Screen {
        row: (s.row - 1) as nat,
        col: if s.cols >= w {
            (s.cols - w) as nat
        } else {
            0
        },
        ..s
    };
    lemma_blanks_keep_pending(up, bits, w);
}

proof fn lemma_spaces_keep_pending(s: Screen, bits: Seq<u8>, n: nat)
    ensures
        put_spaces(s, bits, n).pending == s.pending,
    decreases n,
{
    if n > 0 {
        lemma_spaces_keep_pending(s, bits, (n - 1) as nat);
    }
}

proof fn lemma_blanks_keep_pending(s: Screen, bits: Seq<u8>, n: nat)
    ensures
        blanked(s, bits, n).pending == s.pending,
    decreases n,
{
    if n > 0 {
        lemma_blanks_keep_pending(s, bits, (n - 1) as nat);
    }
}

impl Console {
    pub closed spec fn wf(&self) -> bool {
        &&& self.canvas.ok()
        &&& 1 <= self.scale <= 2
        &&& 1 <= self.rows <= 0x100_0000
        &&& self.cols <= 0x100_0000
        &&& self.canvas.pic().w == self.cols * (8 * self.scale)
        &&& self.canvas.pic().h == self.rows * (8 * self.scale)
        &&& self.row < self.rows
        &&& self.col <= self.cols + 2
        &&& 1 <= self.last_width <= 2
        &&& self.pending@.len() <= 2
        &&& self.pending@.len() > 0 ==> self.pending@.len() < announced(self.pending@[0]) <= 3
    }

    /// An empty console of the given size in cells.
    pub fn new(font: &Font, cols: usize, rows: usize, fg: u32, bg: u32) -> (r: Self)
        requires
            font.wf(),
            1 <= rows <= 0x100_0000,
            cols <= 0x100_0000,
            (cols * 16) * (rows * 16) <= u32::MAX,
        ensures
            r.wf(),
            r@.cols == cols,
            r@.rows == rows,
            r@.row == 0,
            r@.col == 0,
            r@.fg == fg,
            r@.bg == bg,
            r@.scale == font.factor(),
            r@.pending.len() == 0,
            r@.last_width == 1,
            r@.pic.w == cols * (8 * font.factor()),
            r@.pic.h == rows * (8 * font.factor()),
            forall|x: int, y: int|
                0 <= x < r@.pic.w && 0 <= y < r@.pic.h ==> #[trigger] r@.pic.at(x, y) == bg,
    {
        let canvas = blank_canvas(font.scale(), cols, rows, bg);
        Console {
            cols,
            rows,
            row: 0,
            col: 0,
            fg,
            bg,
            scale: font.scale(),
            canvas,
            pending: Vec::new(),
            last_width: 1,
        }
    }

    pub fn width_px(&self) -> (r: u32)
        requires
            self.wf(),
        ensures
            r == self@.pic.w,
    {
        self.canvas.width()
    }

    pub fn height_px(&self) -> (r: u32)
        requires
            self.wf(),
        ensures
            r == self@.pic.h,
    {
        self.canvas.height()
    }

    pub fn pixels(&self) -> (r: &Vec<u32>)
        requires
            self.wf(),
        ensures
            r@.len() == self@.pic.w * self@.pic.h,
            self@.pic == crate::gfx::picture_of(r@, self@.pic.w, self@.pic.h),
    {
        self.canvas.pixels()
    }

    pub fn clear(&mut self)
        requires
            old(self).wf(),
        ensures
            final(self).wf(),
            final(self)@ == (Screen {
                row: 0,
                col: 0,
                pic: recolored(old(self)@.pic, |a: int, b: int, o: u32| old(self)@.bg),
                ..old(self)@
            }),
    {
        let ghost bg = self.bg;
        self.canvas.clear(self.bg);
        self.row = 0;
        self.col = 0;
        proof {
            crate::gfx::lemma_same_picture(
                self.canvas.pic(),
                recolored(old(self)@.pic, |a: int, b: int, o: u32| old(self)@.bg),
            );
        }
    }

    pub fn cols(&self) -> (r: usize)
        ensures
            r == self@.cols,
    {
        self.cols
    }

    pub fn rows(&self) -> (r: usize)
        ensures
            r == self@.rows,
    {
        self.rows
    }

    /// Reallocates the pixel buffer for a new cell grid size. Contents are
    /// not preserved.
    pub fn resize(&mut self, cols: usize, rows: usize)
        requires
            old(self).wf(),
            1 <= rows <= 0x100_0000,
            cols <= 0x100_0000,
            (cols * 16) * (rows * 16) <= u32::MAX,
        ensures
            final(self).wf(),
            final(self)@.cols == cols,
            final(self)@.rows == rows,
            final(self)@.row == 0,
            final(self)@.col == 0,
            final(self)@.fg == old(self)@.fg,
            final(self)@.bg == old(self)@.bg,
            final(self)@.scale == old(self)@.scale,
            final(self)@.pending == old(self)@.pending,
            final(self)@.last_width == old(self)@.last_width,
            final(self)@.pic.w == cols * (8 * old(self)@.scale),
            final(self)@.pic.h == rows * (8 * old(self)@.scale),
            forall|x: int, y: int|
                0 <= x < final(self)@.pic.w && 0 <= y < final(self)@.pic.h ==> #[trigger] final(
                    self)@.pic.at(x, y) == old(self)@.bg,
    {
        self.canvas = blank_canvas(self.scale, cols, rows, self.bg);
        self.cols = cols;
        self.rows = rows;
        self.row = 0;
        self.col = 0;
    }

    /// The cursor goes to the start of the next row, scrolling if needed.
    fn new_line(&mut self)
        requires
            old(self).wf(),
        ensures
            final(self).wf(),
            final(self)@ == next_line(old(self)@),
    {
        if self.row + 1 < self.rows {
            self.row = self.row + 1;
            self.col = 0;
        } else {
            assert(8 * self.scale <= self.rows * (8 * self.scale)) by (nonlinear_arith)
                requires
                    self.rows >= 1,
                    self.scale >= 0,
            ;
            self.canvas.scroll_up(8 * self.scale, self.bg);
            self.row = self.rows - 1;
            self.col = 0;
        }
    }

    fn draw_cell(&mut self, font: &Font, col: usize, row: usize, byte: u8)
        requires
            old(self).wf(),
            font.wf(),
            font.factor() == old(self)@.scale,
            col <= 0x100_0010,
            row <= 0x100_0010,
        ensures
            final(self).wf(),
            final(self)@ == cell_drawn(old(self)@, font.bits(), col as int, row as int, byte),
    {
        let g = 8 * self.scale;
        assert(0 <= col * g <= 0x100_0010 * 16 && 0 <= row * g <= 0x100_0010 * 16)
            by (nonlinear_arith)
            requires
                0 <= col <= 0x100_0010,
                0 <= row <= 0x100_0010,
                0 <= g <= 16,
        ;
        let x = col as u32 * g;
        let y = row as u32 * g;
        draw_char(&mut self.canvas, font, x, y, byte, self.fg, Some(self.bg));
    }

    fn ascii(&mut self, font: &Font, byte: u8)
        requires
            old(self).wf(),
            font.wf(),
            font.factor() == old(self)@.scale,
        ensures
            final(self).wf(),
            final(self)@ == put_ascii(old(self)@, font.bits(), byte),
    {
        if self.col + 1 > self.cols {
            self.new_line();
        }
        self.draw_cell(font, self.col, self.row, byte);
        self.col = self.col + 1;
        self.last_width = 1;
    }

    /// Writes one character (ASCII or Japanese) at the current cursor,
    /// handling newline/CR/backspace/tab, cell wrapping for wide glyphs,
    /// and scrolling. An 8x8 ASCII glyph fills one cell, a Japanese glyph
    /// two. Where a wide glyph has to be drawn, in pixels, is returned.
    pub fn write_char(&mut self, font: &Font, c: char) -> (r: Option<(u32, u32)>)
        requires
            old(self).wf(),
            font.wf(),
            font.factor() == old(self)@.scale,
        ensures
            final(self).wf(),
            final(self)@ == after_char(old(self)@, font.bits(), c),
            r is Some <==> c as u32 >= 128,
            r matches Some((x, y)) ==> (x as int, y as int) == wide_place(old(self)@),
    {
        let u = c as u32;
        if u == 10 {
            self.new_line();
            None
        } else if u == 13 {
            self.col = 0;
            None
        } else if u == 8 {
            self.backspace(font);
            None
        } else if u == 9 {
            let n = 4 - self.col % 4;
            let mut i: usize = 0;
            while i < n
                invariant
                    self.wf(),
                    font.wf(),
                    font.factor() == self@.scale,
                    i <= n <= 4,
                    self@ == put_spaces(old(self)@, font.bits(), i as nat),
                decreases n - i,
            {
                self.ascii(font, 32);
                i += 1;
            }
            None
        } else if u < 128 {
            self.ascii(font, u as u8);
            None
        } else {
            if self.col + 2 > self.cols {
                self.new_line();
            }
            let g = 8 * self.scale;
            assert(0 <= self.col * g <= 0x100_0010 * 16 && 0 <= self.row * g <= 0x100_0010 * 16)
                by (nonlinear_arith)
                requires
                    0 <= self.col <= 0x100_0010,
                    0 <= self.row <= 0x100_0010,
                    0 <= g <= 16,
            ;
            let place = (self.col as u32 * g, self.row as u32 * g);
            self.col = self.col + 2;
            self.last_width = 2;
            Some(place)
        }
    }

    fn backspace(&mut self, font: &Font)
        requires
            old(self).wf(),
            font.wf(),
            font.factor() == old(self)@.scale,
        ensures
            final(self).wf(),
            final(self)@ == backed_up(old(self)@, font.bits()),
    {
        let w = self.last_width;
        if self.col >= w {
            self.col = self.col - w;
        } else if self.row > 0 {
            self.row = self.row - 1;
            self.col = self.cols.saturating_sub(w);
        } else {
            return;
        }
        let ghost start = self@;
        let mut i: usize = 0;
        while i < w
            invariant
                self.wf(),
                font.wf(),
                font.factor() == self@.scale,
                i <= w <= 2,
                start.col == self.col,
                start.row == self.row,
                self@ == blanked(start, font.bits(), i as nat),
            decreases w - i,
        {
            self.draw_cell(font, self.col + i, self.row, 32);
            i += 1;
        }
    }

    /// Writes one byte, transparently reassembling multi-byte UTF-8
    /// sequences. Where a wide glyph has to be drawn is returned, with the
    /// character.
    pub fn write_byte(&mut self, font: &Font, byte: u8) -> (r: Option<(char, u32, u32)>)
        requires
            old(self).wf(),
            font.wf(),
            font.factor() == old(self)@.scale,
        ensures
            final(self).wf(),
            ({
                let (pending, c) = after_byte(old(self)@.pending, byte);
                let s = Screen { pending, ..old(self)@ };
                &&& final(self)@ == byte_written(old(self)@, font.bits(), byte)
                &&& r is Some <==> c is Some && c->0 as u32 >= 128
                &&& r matches Some((rc, x, y)) ==> rc == c->0 && (x as int, y as int)
                    == wide_place(s)
            }),
    {
        let c = match self.take_byte(byte) {
            None => {
                return None;
            },
            Some(c) => c,
        };
        match self.write_char(font, c) {
            Some((x, y)) => Some((c, x, y)),
            None => None,
        }
    }

    /// Takes a byte into the sequence under way.
    fn take_byte(&mut self, byte: u8) -> (r: Option<char>)
        requires
            old(self).wf(),
        ensures
            final(self).wf(),
            r == after_byte(old(self)@.pending, byte).1,
            final(self)@ == (Screen {
                pending: after_byte(old(self)@.pending, byte).0,
                ..old(self)@
            }),
    {
        if byte < 0x80 {
            return Some(byte as char);
        }
        if byte < 0xC0 && self.pending.len() > 0 {
            self.pending.push(byte);
            let total = utf8_len(self.pending[0]);
            assert(self.pending@[0] == old(self).pending@[0]);
            if self.pending.len() == total {
                let cp = decode_utf8(&self.pending);
                self.pending.clear();
                assert(self.pending@ =~= Seq::<u8>::empty());
                return Some(
                    match char::from_u32(cp) {
                        Some(c) => {
                            proof {
                                vstd::utf8::char_u32_cast(c, cp);
                            }
                            c
                        },
                        None => '\u{FFFD}',
                    },
                );
            }
            return None;
        }
        if byte >= 0xC0 {
            self.pending.clear();
            assert(self.pending@ =~= Seq::<u8>::empty());
            let total = utf8_len(byte);
            if total == 2 || total == 3 {
                self.pending.push(byte);
                assert(self.pending@ =~= seq![byte]);
                return None;
            }
            return Some('\u{FFFD}');
        }
        self.pending.clear();
        assert(self.pending@ =~= Seq::<u8>::empty());
        Some('\u{FFFD}')
    }
}

fn blank_canvas(scale: u32, cols: usize, rows: usize, bg: u32) -> (r: Canvas)
    requires
        1 <= scale <= 2,
        rows <= 0x100_0000,
        cols <= 0x100_0000,
        (cols * 16) * (rows * 16) <= u32::MAX,
    ensures
        r.ok(),
        r.readable(),
        r.pic().w == cols * (8 * scale),
        r.pic().h == rows * (8 * scale),
        forall|x: int, y: int|
            0 <= x < r.pic().w && 0 <= y < r.pic().h ==> #[trigger] r.pic().at(x, y) == bg,
{
    let g = 8 * scale;
    assert(0 <= cols * g <= cols * 16 && 0 <= rows * g <= rows * 16) by (nonlinear_arith)
        requires
            0 <= cols,
            0 <= rows,
            0 <= g <= 16,
    ;
    assert((cols * g) * (rows * g) <= (cols * 16) * (rows * 16)) by (nonlinear_arith)
        requires
            0 <= cols * g <= cols * 16,
            0 <= rows * g <= rows * 16,
    ;
    Canvas::new(cols as u32 * g, rows as u32 * g, bg)
}

fn utf8_len(lead: u8) -> (r: usize)
    ensures
        r == announced(lead),
{
    if 0xC0 <= lead && lead < 0xE0 {
        2
    } else if 0xE0 <= lead && lead < 0xF0 {
        3
    } else {
        4
    }
}

/// Decodes a 2- or 3-byte UTF-8 sequence.
fn decode_utf8(b: &Vec<u8>) -> (r: u32)
    requires
        2 <= b@.len() <= 3,
    ensures
        r == decoded(b@),
{
    if b.len() == 2 {
        b[0] as u32 % 32 * 64 + b[1] as u32 % 64
    } else {
        b[0] as u32 % 16 * 4096 + b[1] as u32 % 64 * 64 + b[2] as u32 % 64
    }
}

} // verus!
