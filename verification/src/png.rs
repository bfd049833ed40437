//! Minimal PNG decoder for the image viewer.
//!
//! Scope: 8-bit, non-interlaced PNGs (grayscale, grayscale+alpha, RGB,
//! RGBA and palette) with all five scanline filters. Adam7 interlacing and
//! 16-bit channels are rejected up front.
//!
//! Output: `(width, height, pixels)` where each pixel is
//! `(a << 24) | (r << 16) | (g << 8) | b`, the same u32 layout the
//! image viewer and framebuffer use.

use crate::bytes::{be32, get_be32};
use crate::deflate::{inflate, inflated};
use vstd::prelude::*;
use vstd::slice::slice_subrange;

verus! {

/// Whether the four bytes at `p` spell the chunk type.
pub open spec fn is_type(d: Seq<u8>, p: int, a: u8, b: u8, c: u8, e: u8) -> bool {
    d[p] == a && d[p + 1] == b && d[p + 2] == c && d[p + 3] == e
}

/// Whether the data starts with the PNG signature.
pub open spec fn has_signature(d: Seq<u8>) -> bool {
    d.len() >= 8 && is_type(d, 0, 0x89, 0x50, 0x4E, 0x47) && is_type(d, 4, 0x0D, 0x0A, 0x1A, 0x0A)
}

/// What the chunks of a file said.
pub struct Chunks {
    pub seen_ihdr: bool,
    pub width: u32,
    pub height: u32,
    pub color_type: u8,
    /// Palette entries, three bytes each.
    pub palette: Seq<u8>,
    pub trns: Seq<u8>,
    pub idat: Seq<u8>,
}

/// Whether a header chunk's body is one that is supported: 8 bits per
/// channel, no interlacing, a known color type.
pub open spec fn good_header(c: Seq<u8>) -> bool {
    &&& c.len() == 13
    &&& c[10] == 0 && c[11] == 0
    &&& c[12] == 0
    &&& c[8] == 8
    &&& known_color(c[9])
}

/// Grayscale, RGB, palette, grayscale+alpha and RGBA.
pub open spec fn known_color(c: u8) -> bool {
    c == 0 || c == 2 || c == 3 || c == 4 || c == 6
}

/// What is known after the chunk whose type stands at `p` and whose body
/// is `c`; `None` rejects the file.
pub open spec fn after_chunk(d: Seq<u8>, p: int, c: Seq<u8>, s: Chunks) -> Option<Chunks> {
    if is_type(d, p, 0x49, 0x48, 0x44, 0x52) {
        if good_header(c) {
            Some(
                Chunks {
                    seen_ihdr: true,
                    width: be32(c, 0),
                    height: be32(c, 4),
                    color_type: c[9],
                    ..s
                },
            )
        } else {
            None
        }
    } else if is_type(d, p, 0x50, 0x4C, 0x54, 0x45) {
        if c.len() % 3 == 0 {
            Some(Chunks { palette: s.palette + c, ..s })
        } else {
            None
        }
    } else if is_type(d, p, 0x74, 0x52, 0x4E, 0x53) {
        Some(Chunks { trns: c, ..s })
    } else if is_type(d, p, 0x49, 0x44, 0x41, 0x54) {
        Some(Chunks { idat: s.idat + c, ..s })
    } else {
        Some(s)
    }
}

/// What the chunks from `pos` on add, up to the end mark or the end of the
/// data; `None` rejects the file.
pub open spec fn chunks_from(d: Seq<u8>, pos: int, s: Chunks) -> Option<Chunks>
    decreases d.len() - pos,
{
    if pos + 12 > d.len() {
        Some(s)
    } else {
        let len = be32(d, pos) as int;
        if pos + 12 + len > d.len() {
            None
        } else if is_type(d, pos + 4, 0x49, 0x45, 0x4E, 0x44) {
            Some(s)
        } else {
            match after_chunk(d, pos + 4, d.subrange(pos + 8, pos + 8 + len), s) {
                None => None,
                Some(t) => chunks_from(d, pos + 12 + len, t),
            }
        }
    }
}

pub open spec fn no_chunks() -> Chunks {
    Chunks {
        seen_ihdr: false,
        width: 0,
        height: 0,
        color_type: 0,
        palette: Seq::empty(),
        trns: Seq::empty(),
        idat: Seq::empty(),
    }
}

/// Bytes per pixel of a color type.
pub open spec fn bytes_per_pixel(color_type: u8) -> nat {
    if color_type == 2 {
        3
    } else if color_type == 4 {
        2
    } else if color_type == 6 {
        4
    } else {
        1
    }
}

pub open spec fn distance(a: int, b: int) -> int {
    if a >= b {
        a - b
    } else {
        b - a
    }
}

/// The one of left, up and upper left that is nearest to left + up - upper
/// left, ties going in that order.
pub open spec fn paeth_of(a: int, b: int, c: int) -> int {
    let p = a + b - c;
    let pa = distance(p, a);
    let pb = distance(p, b);
    let pc = distance(p, c);
    if pa <= pb && pa <= pc {
        a
    } else if pb <= pc {
        b
    } else {
        c
    }
}

/// What a scanline filter predicts from the neighbours.
pub open spec fn predicted(filter: u8, left: u8, up: u8, corner: u8) -> int {
    if filter == 1 {
        left as int
    } else if filter == 2 {
        up as int
    } else if filter == 3 {
        (left + up) / 2
    } else if filter == 4 {
        paeth_of(left as int, up as int, corner as int)
    } else {
        0
    }
}

/// The first `n` bytes of a scanline with its filter undone.
pub open spec fn unfiltered(filter: u8, row: Seq<u8>, prev: Seq<u8>, bpp: nat, n: nat) -> Seq<u8>
    decreases n,
{
    if n == 0 {
        Seq::empty()
    } else {
        let i = n - 1;
        let cur = unfiltered(filter, row, prev, bpp, i as nat);
        let left = if i >= bpp { cur[i - bpp] } else { 0u8 };
        let corner = if i >= bpp { prev[i - bpp] } else { 0u8 };
        cur.push(((row[i] + predicted(filter, left, prev[i], corner)) % 256) as u8)
    }
}

/// A pixel of the four channels.
pub open spec fn argb(a: u8, r: u8, g: u8, b: u8) -> u32 {
    (a * 0x100_0000 + r * 0x1_0000 + g * 0x100 + b) as u32
}

/// The color channel `k` of palette entry `i`, black outside the palette.
pub open spec fn palette_channel(palette: Seq<u8>, i: int, k: int) -> u8 {
    if 3 * i + 2 < palette.len() {
        palette[3 * i + k]
    } else {
        0
    }
}

/// Pixel `x` of an unfiltered scanline.
pub open spec fn pixel_of(s: Chunks, cur: Seq<u8>, x: int) -> u32 {
    if s.color_type == 0 {
        argb(0xFF, cur[x], cur[x], cur[x])
    } else if s.color_type == 2 {
        argb(0xFF, cur[3 * x], cur[3 * x + 1], cur[3 * x + 2])
    } else if s.color_type == 3 {
        let i = cur[x] as int;
        argb(
            if i < s.trns.len() { s.trns[i] } else { 0xFF },
            palette_channel(s.palette, i, 0),
            palette_channel(s.palette, i, 1),
            palette_channel(s.palette, i, 2),
        )
    } else if s.color_type == 4 {
        argb(cur[2 * x + 1], cur[2 * x], cur[2 * x], cur[2 * x])
    } else {
        argb(cur[4 * x + 3], cur[4 * x], cur[4 * x + 1], cur[4 * x + 2])
    }
}

/// The bytes of one scanline without its filter byte.
pub open spec fn line_len(s: Chunks) -> nat {
    s.width as nat * bytes_per_pixel(s.color_type)
}

/// Scanline `y` with its filter undone; the line above the first is zero.
pub open spec fn line(s: Chunks, raw: Seq<u8>, y: int) -> Seq<u8>
    decreases y + 1,
{
    let n = line_len(s);
    if y < 0 {
        Seq::new(n, |i: int| 0u8)
    } else {
        let off = y * (n + 1);
        unfiltered(
            raw[off],
            raw.subrange(off + 1, off + 1 + n),
            line(s, raw, y - 1),
            bytes_per_pixel(s.color_type),
            n,
        )
    }
}

/// The pixels of the first `y` scanlines.
pub open spec fn pixels_to(s: Chunks, raw: Seq<u8>, y: nat) -> Seq<u32>
    decreases y,
{
    if y == 0 {
        Seq::empty()
    } else {
        pixels_to(s, raw, (y - 1) as nat) + Seq::new(
            s.width as nat,
            |x: int| pixel_of(s, line(s, raw, y - 1), x),
        )
    }
}

/// Whether scanline `y` names a known filter.
pub open spec fn known_filter(s: Chunks, raw: Seq<u8>, y: int) -> bool {
    raw[y * (line_len(s) + 1)] <= 4
}

/// The picture that the chunks hold.
pub open spec fn picture(s: Chunks) -> Option<(u32, u32, Seq<u32>)> {
    if !s.seen_ihdr || s.idat.len() == 0 {
        None
    } else {
        match inflated(s.idat) {
            None => None,
            Some(raw) => if raw.len() < s.height * (line_len(s) + 1) {
                None
            } else if exists|y: int| 0 <= y < s.height && !known_filter(s, raw, y) {
                None
            } else {
                Some((s.width, s.height, pixels_to(s, raw, s.height as nat)))
            },
        }
    }
}

/// The picture in a PNG file.
pub open spec fn decoded(d: Seq<u8>) -> Option<(u32, u32, Seq<u32>)> {
    if !has_signature(d) {
        None
    } else {
        match chunks_from(d, 8, no_chunks()) {
            None => None,
            Some(s) => picture(s),
        }
    }
}

/// PNG Paeth predictor.
fn paeth(a: i32, b: i32, c: i32) -> (r: i32)
    requires
        0 <= a <= 255,
        0 <= b <= 255,
        0 <= c <= 255,
    ensures
        r == paeth_of(a as int, b as int, c as int),
        0 <= r <= 255,
{
    let p = a + b - c;
    let pa = if p >= a { p - a } else { a - p };
    let pb = if p >= b { p - b } else { b - p };
    let pc = if p >= c { p - c } else { c - p };
    if pa <= pb && pa <= pc {
        a
    } else if pb <= pc {
        b
    } else {
        c
    }
}

/// What `decode` gathers from the chunks.
struct Image {
    seen_ihdr: bool,
    width: u32,
    height: u32,
    color_type: u8,
    palette: Vec<u8>,
    trns: Vec<u8>,
    idat: Vec<u8>,
}

impl Image {
    spec fn model(&self) -> Chunks {
        Chunks {
            seen_ihdr: self.seen_ihdr,
            width: self.width,
            height: self.height,
            color_type: self.color_type,
            palette: self.palette@,
            trns: self.trns@,
            idat: self.idat@,
        }
    }

    /// Takes in one chunk other than the end mark.
    fn take_chunk(&mut self, data: &[u8], at: usize, body: &[u8]) -> (ok: bool)
        requires
            at + 4 <= data.len(),
        ensures
            match after_chunk(data@, at as int, body@, old(self).model()) {
                None => !ok,
                Some(s) => ok && final(self).model() == s,
            },
    {
        if has_type(data, at, 0x49, 0x48, 0x44, 0x52) {
            if body.len() != 13 {
                return false;
            }
            if body[10] != 0 || body[11] != 0 {
                return false;
            }
            if body[12] != 0 {
                return false;
            }
            if body[8] != 8 {
                return false;
            }
            let color_type = body[9];
            if !(color_type == 0 || color_type == 2 || color_type == 3 || color_type == 4
                || color_type == 6) {
                return false;
            }
            self.width = get_be32(body, 0);
            self.height = get_be32(body, 4);
            self.color_type = color_type;
            self.seen_ihdr = true;
        } else if has_type(data, at, 0x50, 0x4C, 0x54, 0x45) {
            if body.len() % 3 != 0 {
                return false;
            }
            self.palette.extend_from_slice(body);
            assert(self.palette@ =~= old(self).palette@ + body@);
        } else if has_type(data, at, 0x74, 0x52, 0x4E, 0x53) {
            let mut trns: Vec<u8> = Vec::new();
            trns.extend_from_slice(body);
            assert(trns@ =~= body@);
            self.trns = trns;
        } else if has_type(data, at, 0x49, 0x44, 0x41, 0x54) {
            self.idat.extend_from_slice(body);
            assert(self.idat@ =~= old(self).idat@ + body@);
        }
        true
    }

    /// Appends the pixels of one unfiltered scanline.
    fn push_pixels(&self, cur: &Vec<u8>, pixels: &mut Vec<u32>)
        requires
            cur@.len() == line_len(self.model()),
            known_color(self.color_type),
        ensures
            final(pixels)@ == old(pixels)@ + Seq::new(
                self.width as nat,
                |x: int| pixel_of(self.model(), cur@, x),
            ),
    {
        let ghost s = self.model();
        let w = self.width as u64;
        let mut x: u64 = 0;
        while x < w
            invariant
                x <= w == self.width,
                s == self.model(),
                cur@.len() == line_len(s),
                known_color(self.color_type),
                pixels@ =~= old(pixels)@ + Seq::new(x as nat, |x: int| pixel_of(s, cur@, x)),
            decreases w - x,
        {
            assert(cur@.len() == cur.len());
            let pixel = if self.color_type == 0 {
                let g = cur[x as usize];
                pack(0xFF, g, g, g)
            } else if self.color_type == 2 {
                let at = (3 * x) as usize;
                pack(0xFF, cur[at], cur[at + 1], cur[at + 2])
            } else if self.color_type == 3 {
                let i = cur[x as usize] as usize;
                let a = if i < self.trns.len() { self.trns[i] } else { 0xFF };
                if 3 * i + 2 < self.palette.len() {
                    pack(a, self.palette[3 * i], self.palette[3 * i + 1], self.palette[3 * i + 2])
                } else {
                    pack(a, 0, 0, 0)
                }
            } else if self.color_type == 4 {
                let at = (2 * x) as usize;
                let g = cur[at];
                pack(cur[at + 1], g, g, g)
            } else {
                let at = (4 * x) as usize;
                pack(cur[at + 3], cur[at], cur[at + 1], cur[at + 2])
            };
            pixels.push(pixel);
            x += 1;
        }
    }
}

fn pack(a: u8, r: u8, g: u8, b: u8) -> (p: u32)
    ensures
        p == argb(a, r, g, b),
{
    a as u32 * 0x100_0000 + r as u32 * 0x1_0000 + g as u32 * 0x100 + b as u32
}

fn has_type(d: &[u8], p: usize, a: u8, b: u8, c: u8, e: u8) -> (r: bool)
    requires
        p + 4 <= d.len(),
    ensures
        r == is_type(d@, p as int, a, b, c, e),
{
    d[p] == a && d[p + 1] == b && d[p + 2] == c && d[p + 3] == e
}

/// Undoes the filter of one scanline.
fn unfilter(filter: u8, row: &[u8], prev: &Vec<u8>, bpp: usize) -> (cur: Vec<u8>)
    requires
        filter <= 4,
        row@.len() == prev@.len(),
        1 <= bpp,
    ensures
        cur@ == unfiltered(filter, row@, prev@, bpp as nat, row@.len()),
        cur@.len() == row@.len(),
{
    let mut cur: Vec<u8> = Vec::new();
    let mut i: usize = 0;
    while i < row.len()
        invariant
            filter <= 4,
            i <= row@.len(),
            1 <= bpp,
            row@.len() == prev@.len(),
            cur@.len() == i,
            cur@ == unfiltered(filter, row@, prev@, bpp as nat, i as nat),
        decreases row@.len() - i,
    {
        let left: u8 = if i >= bpp { cur[i - bpp] } else { 0 };
        let up: u8 = prev[i];
        let corner: u8 = if i >= bpp { prev[i - bpp] } else { 0 };
        let add: u8 = if filter == 1 {
            left
        } else if filter == 2 {
            up
        } else if filter == 3 {
            ((left as i32 + up as i32) / 2) as u8
        } else if filter == 4 {
            paeth(left as i32, up as i32, corner as i32) as u8
        } else {
            0
        };
        let sum: u16 = row[i] as u16 + add as u16;
        cur.push((sum % 256) as u8);
        i += 1;
    }
    cur
}

proof fn lemma_pixels_len(s: Chunks, raw: Seq<u8>, y: nat)
    ensures
        pixels_to(s, raw, y).len() == y * s.width,
    decreases y,
{
    if y > 0 {
        lemma_pixels_len(s, raw, (y - 1) as nat);
        assert(y * s.width == (y - 1) * s.width + s.width) by (nonlinear_arith)
            requires
                y >= 1,
        ;
    } else {
        assert(y * s.width == 0) by (nonlinear_arith)
            requires
                y == 0,
        ;
    }
}

impl Image {
    /// Turns the scanlines into pixels.
    fn convert(&self, raw: &Vec<u8>) -> (r: Option<Vec<u32>>)
        requires
            known_color(self.color_type),
            raw@.len() >= self.height * (line_len(self.model()) + 1),
        ensures
            r is None <==> exists|y: int|
                0 <= y < self.height && !known_filter(self.model(), raw@, y),
            r matches Some(p) ==> p@ == pixels_to(self.model(), raw@, self.height as nat),
    {
        let ghost s = self.model();
        let bpp: usize = match self.color_type {
            2 => 3,
            4 => 2,
            6 => 4,
            _ => 1,
        };
        let height = self.height;
        if height == 0 {
            let none: Vec<u32> = Vec::new();
            assert(none@ =~= pixels_to(s, raw@, 0));
            return Some(none);
        }
        let ghost n = line_len(s);
        assert(height * (n + 1) >= n + 1) by (nonlinear_arith)
            requires
                height >= 1,
                n >= 0,
        ;
        assert(raw@.len() == raw.len());
        let wide = self.width as u64 * bpp as u64;
        let line_bytes = wide as usize;
        assert(line_bytes == n);
        let mut pixels: Vec<u32> = Vec::new();
        let mut prev: Vec<u8> = Vec::new();
        prev.resize(line_bytes, 0);
        assert(prev@ =~= line(s, raw@, -1));
        assert(pixels@ =~= pixels_to(s, raw@, 0));
        let mut y: u32 = 0;
        let mut off: usize = 0;
        while y < height
            invariant
                y <= height,
                height == self.height,
                s == self.model(),
                known_color(self.color_type),
                n == line_len(s),
                n == line_bytes,
                bpp == bytes_per_pixel(self.color_type),
                raw@.len() >= height * (n + 1),
                raw@.len() == raw.len(),
                off == y * (n + 1),
                prev@ == line(s, raw@, y - 1),
                prev@.len() == n,
                pixels@ == pixels_to(s, raw@, y as nat),
                forall|k: int| 0 <= k < y ==> #[trigger] known_filter(s, raw@, k),
            decreases height - y,
        {
            assert((y + 1) * (n + 1) == y * (n + 1) + (n + 1) && (y + 1) * (n + 1) <= height * (n
                + 1)) by (nonlinear_arith)
                requires
                    y + 1 <= height,
                    n >= 0,
            ;
            let filter = raw[off];
            if filter > 4 {
                assert(!known_filter(s, raw@, y as int));
                return None;
            }
            let row = slice_subrange(raw.as_slice(), off + 1, off + 1 + line_bytes);
            let cur = unfilter(filter, row, &prev, bpp);
            assert(cur@ == line(s, raw@, y as int));
            assert(known_filter(s, raw@, y as int));
            self.push_pixels(&cur, &mut pixels);
            prev = cur;
            off = off + 1 + line_bytes;
            y += 1;
        }
        Some(pixels)
    }
}

/// Gathers what the chunks of the file say.
fn read_chunks(data: &[u8]) -> (r: Option<Image>)
    requires
        8 <= data.len() < 0x1000_0000_0000_0000,
    ensures
        match chunks_from(data@, 8, no_chunks()) {
            None => r is None,
            Some(s) => r matches Some(i) && i.model() == s,
        },
{
    let mut image = Image {
        seen_ihdr: false,
        width: 0,
        height: 0,
        color_type: 0,
        palette: Vec::new(),
        trns: Vec::new(),
        idat: Vec::new(),
    };
    assert(image.palette@ =~= Seq::<u8>::empty());
    assert(image.trns@ =~= Seq::<u8>::empty());
    assert(image.idat@ =~= Seq::<u8>::empty());
    let ghost all = chunks_from(data@, 8, no_chunks());
    let mut pos: usize = 8;
    loop
        invariant
            8 <= pos <= data@.len(),
            data@.len() == data.len(),
            data.len() < 0x1000_0000_0000_0000,
            all == chunks_from(data@, 8, no_chunks()),
            all == chunks_from(data@, pos as int, image.model()),
        decreases data@.len() - pos,
    {
        if data.len() - pos < 12 {
            return Some(image);
        }
        let len = get_be32(data, pos) as u64;
        if pos as u64 + 12 + len > data.len() as u64 {
            return None;
        }
        if has_type(data, pos + 4, 0x49, 0x45, 0x4E, 0x44) {
            return Some(image);
        }
        let body = slice_subrange(data, pos + 8, pos + 8 + len as usize);
        if !image.take_chunk(data, pos + 4, body) {
            return None;
        }
        pos = pos + 12 + len as usize;
    }
}

proof fn lemma_header_color(d: Seq<u8>, pos: int, s: Chunks)
    requires
        known_color(s.color_type),
    ensures
        chunks_from(d, pos, s) matches Some(t) ==> known_color(t.color_type),
    decreases d.len() - pos,
{
    if pos + 12 <= d.len() {
        let len = be32(d, pos) as int;
        if pos + 12 + len <= d.len() {
            if let Some(t) = after_chunk(d, pos + 4, d.subrange(pos + 8, pos + 8 + len), s) {
                lemma_header_color(d, pos + 12 + len, t);
            }
        }
    }
}

/// Decodes an 8-bit, non-interlaced PNG into
/// `(width, height, pixels)` with `(a<<24)|(r<<16)|(g<<8)|b` pixels.
pub fn decode(data: &[u8]) -> (r: Option<(u32, u32, Vec<u32>)>)
    requires
        data.len() < 0x1000_0000_0000_0000,
    ensures
        match decoded(data@) {
            None => r is None,
            Some((w, h, p)) => r matches Some((rw, rh, rp)) && rw == w && rh == h && rp@ == p,
        },
{
    if data.len() < 8 {
        return None;
    }
    if !(has_type(data, 0, 0x89, 0x50, 0x4E, 0x47) && has_type(data, 4, 0x0D, 0x0A, 0x1A, 0x0A)) {
        return None;
    }
    proof {
        lemma_header_color(data@, 8, no_chunks());
    }
    let image = match read_chunks(data) {
        Some(i) => i,
        None => {
            return None;
        },
    };
    if !image.seen_ihdr || image.idat.len() == 0 || image.idat.len() as u64
        >= 0x1000_0000_0000_0000 {
        assert(image.idat@.len() <= data@.len()) by {
            lemma_idat_len(data@, 8, no_chunks());
        }
        return None;
    }
    let ghost s = image.model();
    let raw = match inflate(image.idat.as_slice()) {
        Some(r) => r,
        None => {
            return None;
        },
    };
    let bpp: u64 = match image.color_type {
        2 => 3,
        4 => 2,
        6 => 4,
        _ => 1,
    };
    let stride = 1 + image.width as u64 * bpp;
    assert(0 <= image.height * stride <= 0xFFFF_FFFF * 0x4_0000_0000) by (nonlinear_arith)
        requires
            0 <= image.height <= 0xFFFF_FFFF,
            0 <= stride <= 0x4_0000_0000,
    ;
    let needed = image.height as u128 * stride as u128;
    if (raw.len() as u128) < needed {
        return None;
    }
    assert(line_len(s) + 1 == stride);
    let pixels = match image.convert(&raw) {
        Some(p) => p,
        None => {
            return None;
        },
    };
    Some((image.width, image.height, pixels))
}

proof fn lemma_idat_len(d: Seq<u8>, pos: int, s: Chunks)
    requires
        0 <= pos,
    ensures
        chunks_from(d, pos, s) matches Some(t) ==> t.idat.len() + pos <= s.idat.len() + if pos
            <= d.len() {
            d.len() as int
        } else {
            pos
        },
    decreases d.len() - pos,
{
    if pos + 12 <= d.len() {
        let len = be32(d, pos) as int;
        if pos + 12 + len <= d.len() {
            if let Some(t) = after_chunk(d, pos + 4, d.subrange(pos + 8, pos + 8 + len), s) {
                lemma_idat_len(d, pos + 12 + len, t);
            }
        }
    }
}

/// A decoded picture has exactly width times height pixels.
pub proof fn law_pixel_count(d: Seq<u8>)
    ensures
        decoded(d) matches Some((w, h, p)) ==> p.len() == w * h,
{
    if let Some((w, h, p)) = decoded(d) {
        let s = chunks_from(d, 8, no_chunks())->0;
        let raw = inflated(s.idat)->0;
        lemma_pixels_len(s, raw, s.height as nat);
        assert(s.height * s.width == w * h) by (nonlinear_arith)
            requires
                s.height == h,
                s.width == w,
        ;
    }
}

/// A row under filter 0 is taken as it stands.
pub proof fn law_no_filter(row: Seq<u8>, prev: Seq<u8>, bpp: nat, n: nat)
    requires
        n <= row.len(),
    ensures
        unfiltered(0, row, prev, bpp, n) == row.take(n as int),
    decreases n,
{
    if n > 0 {
        law_no_filter(row, prev, bpp, (n - 1) as nat);
        assert(row.take(n as int) =~= row.take(n - 1).push(row[n - 1]));
    } else {
        assert(row.take(0) =~= Seq::<u8>::empty());
    }
}

} // verus!
