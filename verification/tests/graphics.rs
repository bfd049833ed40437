use machaos::acpi;
use machaos::calculator::CalculatorApp;
use machaos::console::Console;
use machaos::deflate;
use machaos::desktop::{self, Frame, Round};
use machaos::font::Font;
use machaos::gfx::{self, Canvas, Surface};
use machaos::image_viewer::ImageViewerApp;
use machaos::ime::{self, Ime};
use machaos::io::{self, Output, Route};
use machaos::keyboard::Event;
use machaos::png;
use machaos::scene::Scene;

/// Every glyph is a full block, the space is empty.
fn font() -> Font {
    let mut rows = vec![0xFFu8; 2048];
    for b in &mut rows[32 * 8..33 * 8] {
        *b = 0;
    }
    Font::new(rows)
}

fn at(c: &Canvas, x: u32, y: u32) -> u32 {
    c.get_pixel(x, y).unwrap()
}

#[test]
fn rectangles_and_clipping() {
    let mut c = Canvas::new(4, 3, 7);
    gfx::fill_rect(&mut c, 2, 1, 9, 9, 5);
    assert_eq!(c.pixels(), &vec![7, 7, 7, 7, 7, 7, 5, 5, 7, 7, 5, 5]);
    assert_eq!(c.get_pixel(4, 0), None);
    c.fill_span(1, 0, 2, 9);
    assert_eq!(&c.pixels()[..4], &[7, 9, 9, 7]);
    c.blit_span(3, 0, &[1, 2, 3], 1, 2);
    assert_eq!(at(&c, 3, 0), 2);
    c.scroll_up(1, 0);
    assert_eq!(c.pixels(), &vec![7, 7, 5, 5, 7, 7, 5, 5, 0, 0, 0, 0]);
    c.clear(3);
    assert_eq!(c.pixels(), &vec![3; 12]);
}

#[test]
fn blending() {
    assert_eq!(gfx::blend(0xFF0000, 0x0000FF, 255), 0xFF0000);
    assert_eq!(gfx::blend(0xFF0000, 0x0000FF, 0), 0x0000FF);
    assert_eq!(gfx::blend(0x646464, 0x646464, 100), 0x646464);
    assert_eq!(gfx::blend(0xFFFFFF, 0, 128), 0x808080);
    let mut c = Canvas::new(2, 1, 0);
    c.blend_span(0, 0, 1, 0xFFFFFF, 128);
    assert_eq!(c.pixels(), &vec![0x808080, 0]);
}

#[test]
fn gradients_run_from_top_to_bottom() {
    let mut c = Canvas::new(1, 3, 0);
    gfx::fill_rect_gradient_v(&mut c, 0, 0, 1, 3, 0x000000, 0x0000FF);
    assert_eq!(c.pixels(), &vec![0, 127, 255]);
}

#[test]
fn scaling_keeps_corners() {
    let src = vec![1, 2, 3, 4];
    assert_eq!(gfx::scale_image(&src, 2, 2, 2, 2), src);
    assert_eq!(gfx::scale_image(&[1, 2, 3, 4], 2, 2, 1, 1), vec![1]);
    assert_eq!(gfx::scale_image(&[1, 2, 3, 4], 2, 2, 2, 1), vec![1, 2]);
    assert_eq!(gfx::scale_image(&[7], 1, 1, 2, 2), vec![7; 4]);
    assert!(gfx::scale_image(&[1, 2, 3, 4], 2, 2, 0, 5).is_empty());
    let big = gfx::scale_image(&[0, 0xFF, 0, 0xFF], 2, 2, 3, 2);
    assert_eq!(big, vec![0, 0x7F, 0xFF, 0, 0x7F, 0xFF]);
}

#[test]
fn scenes_paint_in_order() {
    let f = font();
    let mut s = Scene::new();
    s.rect(0, 0, 4, 4, 1);
    s.line(0, 0, 3, 3, 2);
    s.text(8, 0, "a", 3);
    let c = s.paint(&f, 16, 8, 0);
    assert_eq!((at(&c, 0, 0), at(&c, 1, 0), at(&c, 3, 3), at(&c, 5, 0)), (2, 1, 2, 0));
    assert_eq!((at(&c, 8, 0), at(&c, 15, 7)), (3, 3));
    let mut steep = Scene::new();
    steep.line(3, 7, 1, 0, 9);
    let c = steep.paint(&f, 5, 8, 0);
    assert_eq!((at(&c, 3, 7), at(&c, 1, 0)), (9, 9));
    assert_eq!(c.pixels().iter().filter(|p| **p == 9).count(), 8);
}

#[test]
fn console_wraps_scrolls_and_backs_up() {
    let f = font();
    let mut c = Console::new(&f, 2, 2, 1, 0);
    assert_eq!((c.width_px(), c.height_px()), (16, 16));
    for b in b"abc" {
        assert!(c.write_byte(&f, *b).is_none());
    }
    let p = c.pixels();
    assert_eq!((p[0], p[8], p[8 * 16], p[8 * 16 + 8]), (1, 1, 1, 0));
    c.write_char(&f, '\n');
    let p = c.pixels();
    assert_eq!((p[0], p[8], p[8 * 16]), (1, 0, 0));
    c.write_char(&f, 'x');
    c.write_char(&f, '\u{8}');
    assert_eq!(c.pixels()[8 * 16], 0);
    c.clear();
    assert_eq!(c.pixels()[0], 0);
    c.resize(3, 1);
    assert_eq!((c.cols(), c.rows()), (3, 1));
}

#[test]
fn console_reassembles_utf8() {
    let f = font();
    let mut c = Console::new(&f, 8, 2, 1, 0);
    let mut got = None;
    for b in "\u{3042}".as_bytes() {
        got = c.write_byte(&f, *b);
    }
    assert_eq!(got, Some(('\u{3042}', 0, 0)));
    assert_eq!(c.write_byte(&f, 0xC3), None);
    assert_eq!(c.write_byte(&f, 0xA9), Some(('\u{E9}', 16, 0)));
    assert_eq!(c.write_byte(&f, 0x80), Some(('\u{FFFD}', 32, 0)));
    assert_eq!(c.write_byte(&f, 0xF0), Some(('\u{FFFD}', 48, 0)));
    assert_eq!(c.write_char(&f, '\u{3044}'), Some((0, 8)));
}

fn adler(data: &[u8]) -> u32 {
    let (mut a, mut b) = (1u32, 0u32);
    for d in data {
        a = (a + *d as u32) % 65521;
        b = (b + a) % 65521;
    }
    b << 16 | a
}

fn stored(data: &[u8]) -> Vec<u8> {
    let mut z = vec![0x78, 0x01, 0x01];
    z.extend_from_slice(&(data.len() as u16).to_le_bytes());
    z.extend_from_slice(&(!(data.len() as u16)).to_le_bytes());
    z.extend_from_slice(data);
    z.extend_from_slice(&adler(data).to_be_bytes());
    z
}

#[test]
fn inflate_stored_and_fixed() {
    assert_eq!(deflate::inflate(&stored(b"hello")), Some(b"hello".to_vec()));
    let fixed = [0x78, 0x9C, 0x4B, 0x4C, 0x4A, 0x4E, 0x49, 0x4D, 0x4B, 0xCF, 0xC8, 0x04, 0x00];
    let mut z = fixed.to_vec();
    z.extend_from_slice(&adler(b"abcdefghi").to_be_bytes());
    assert_eq!(deflate::inflate(&z), Some(b"abcdefghi".to_vec()));
    let mut bad = stored(b"hello");
    let n = bad.len();
    bad[n - 1] ^= 1;
    assert_eq!(deflate::inflate(&bad), None);
    assert_eq!(deflate::inflate(&[0x78]), None);
}

#[test]
fn inflate_back_references() {
    let z = [0x78, 0x9C, 0x4B, 0x4C, 0x84, 0x01, 0x00];
    let mut z = z.to_vec();
    z.extend_from_slice(&adler(&[b'a'; 10]).to_be_bytes());
    assert_eq!(deflate::inflate(&z), Some(vec![b'a'; 10]));
}

fn chunk(out: &mut Vec<u8>, kind: &[u8; 4], data: &[u8]) {
    out.extend_from_slice(&(data.len() as u32).to_be_bytes());
    out.extend_from_slice(kind);
    out.extend_from_slice(data);
    out.extend_from_slice(&[0, 0, 0, 0]);
}

#[test]
fn png_rgb_rows() {
    let mut p = vec![0x89, b'P', b'N', b'G', 13, 10, 26, 10];
    chunk(&mut p, b"IHDR", &[0, 0, 0, 2, 0, 0, 0, 2, 8, 2, 0, 0, 0]);
    let raw = [0, 1, 2, 3, 4, 5, 6, 1, 10, 20, 30, 1, 1, 1];
    chunk(&mut p, b"IDAT", &stored(&raw));
    chunk(&mut p, b"IEND", &[]);
    let (w, h, px) = png::decode(&p).unwrap();
    assert_eq!((w, h), (2, 2));
    assert_eq!(px, vec![0xFF01_0203, 0xFF04_0506, 0xFF0A_141E, 0xFF0B_151F]);
    assert!(png::decode(&p[..20]).is_none());
    p[0] = 0;
    assert!(png::decode(&p).is_none());
}

#[test]
fn romaji_becomes_kana() {
    let kana = |s: &str| ime::romaji_to_kana(&s.chars().collect()).iter().collect::<String>();
    assert_eq!(kana("ka"), "か");
    assert_eq!(kana("kyou"), "きょう");
    assert_eq!(kana("gakkou"), "がっこう");
    assert_eq!(kana("kan"), "かん");
    assert_eq!(kana("kann"), "かん");
    assert_eq!(kana("kannto"), "かんと");
    assert_eq!(kana("minna"), "みんな");
    assert_eq!(kana("nya"), "にゃ");
    assert_eq!(kana("x'"), "x'");
}

fn typed(i: &mut Ime, s: &str) {
    for c in s.chars() {
        assert_eq!(i.feed(Event::Char(c)).events, vec![Event::Char(c)]);
    }
}

fn replacing(erase: usize, s: &str) -> Vec<Event> {
    let mut v = vec![Event::Backspace; erase];
    v.extend(s.chars().map(Event::Char));
    v
}

#[test]
fn ime_converts_and_cycles() {
    let mut i = Ime::new();
    typed(&mut i, "nihon");
    let r = i.feed(Event::Char(' '));
    assert_eq!(r.events, replacing(5, "日本"));
    assert_eq!(r.status.unwrap(), "変換: [日本] 二本 にほん (Space: 次 / 数字: 選択 / Enter: 確定)");
    assert_eq!(i.feed(Event::Char(' ')).events, replacing(2, "二本"));
    assert_eq!(i.feed(Event::Char(' ')).events, replacing(2, "にほん"));
    assert_eq!(i.feed(Event::Char(' ')).events, replacing(3, "日本"));
    let r = i.feed(Event::Char('3'));
    assert_eq!(r.events, replacing(2, "にほん"));
    assert_eq!(r.status, None);
    assert_eq!(i.feed(Event::Char(' ')).events, vec![Event::Char(' ')]);
}

#[test]
fn ime_commits_on_other_keys() {
    let mut i = Ime::new();
    assert_eq!(i.feed(Event::Char('k')).status.unwrap(), "IME: k (Spaceで変換)");
    assert_eq!(i.feed(Event::Char('a')).status.unwrap(), "IME: か (Spaceで変換)");
    assert_eq!(i.feed(Event::Backspace).status.unwrap(), "IME: k (Spaceで変換)");
    assert_eq!(i.feed(Event::Enter).events, vec![Event::Enter]);
    assert_eq!(i.feed(Event::Char(' ')).events, vec![Event::Char(' ')]);
    typed(&mut i, "zu");
    assert_eq!(i.feed(Event::Char(' ')).events, replacing(2, "ず"));
    typed(&mut i, "neko");
    i.feed(Event::Char(' '));
    assert_eq!(i.feed(Event::Char('0')).events, vec![Event::Char('0')]);
    typed(&mut i, "neko");
    i.feed(Event::Char(' '));
    assert_eq!(i.feed(Event::Char('9')).events, vec![Event::Char('9')]);
    typed(&mut i, "a");
    assert_eq!(i.feed(Event::Left).events, vec![Event::Left]);
    assert_eq!(i.feed(Event::Char('X')).events, vec![Event::Char('X')]);
}

fn push(app: &mut CalculatorApp, f: &Font, keys: &str) {
    let grid = "789/456*123-0C=+";
    for k in keys.chars() {
        let i = grid.find(k).unwrap() as i32;
        app.handle_click(f, i % 4 * 60 + 30, 60 + i / 4 * 60 + 30);
    }
}

fn ink(app: &CalculatorApp) -> usize {
    app.pixels()[..60 * 240].iter().filter(|p| **p != 0x10161C).count() / 64
}

#[test]
fn calculator_shows_results() {
    let f = font();
    let mut a = CalculatorApp::new(&f);
    assert_eq!((a.width(), a.height()), (240, 300));
    assert_eq!(ink(&a), 1);
    push(&mut a, &f, "12*34=");
    assert_eq!(ink(&a), 3);
    push(&mut a, &f, "C7-10=");
    assert_eq!(ink(&a), 2);
    push(&mut a, &f, "C5/0=");
    assert_eq!(ink(&a), 5);
    assert!(a.pixels().contains(&0xE06060));
    push(&mut a, &f, "+");
    assert_eq!(ink(&a), 5);
    push(&mut a, &f, "C12345678901234567890");
    assert_eq!(ink(&a), 18);
}

#[test]
fn image_viewer_centers_zooms_and_pans() {
    let f = font();
    let mut v = ImageViewerApp::new(&f);
    let px = |v: &ImageViewerApp, x: usize, y: usize| v.pixels()[y * 640 + x];
    v.load_image(&f, "/a.raw", &[1, 0, 0, 0, 2, 0, 0, 0], 2, 1);
    assert_eq!((px(&v, 319, 254), px(&v, 320, 254)), (1, 2));
    v.handle_key(&f, Event::Char('+'));
    assert_eq!((px(&v, 319, 254), px(&v, 321, 255)), (1, 2));
    v.handle_key(&f, Event::Char('-'));
    v.handle_key(&f, Event::Left);
    assert_eq!((px(&v, 339, 254), px(&v, 340, 254)), (1, 2));
    v.handle_key(&f, Event::Right);
    assert_eq!(px(&v, 320, 254), 2);
    v.load_image(&f, "/b.raw", &[1], 2, 1);
    assert_eq!(px(&v, 320, 254), 2);
}

#[test]
fn output_capture_nests() {
    let mut o = Output { capture: None, console: true };
    assert_eq!(io::print(&mut o, "shown"), Route::Console);
    let prev = io::set_output_capture(&mut o, Some(String::new()));
    assert_eq!(io::print(&mut o, "a"), Route::Captured);
    assert_eq!(io::print(&mut o, "b"), Route::Captured);
    let got = io::restore_output_capture(&mut o, prev);
    assert_eq!(got, Some("ab".to_string()));
    io::set_console_sink(&mut o, false);
    assert_eq!(io::print(&mut o, "x"), Route::Screen);
    assert_eq!(io::sprint(4, "hello"), b"hell");
    assert_eq!(io::sprint(9, "hello"), b"hello");
    assert_eq!(io::clear_active(&o), Route::Screen);
}

#[test]
fn frames_of_the_main_loop() {
    let mut r = Round::new();
    assert_eq!(r.frame(false, false), Frame::Idle);
    r.mouse(false);
    assert_eq!(r.frame(false, false), Frame::CursorOnly);
    assert_eq!(r.frame(true, false), Frame::Full);
    r.key();
    assert_eq!(r.frame(false, true), Frame::Drag);
    assert_eq!(desktop::first_frame(800, 600), "[OK] desktop: first frame composited (800x600)\n");
    let mut s = machaos::settings::Settings::defaults();
    s.font_scale_percent = 200;
    assert_eq!(desktop::startup(&s), (None, 2));
}

#[test]
fn acpi_tables_give_the_power_off() {
    let mut m = vec![0u8; 0x100000];
    m[0xE0010..0xE0018].copy_from_slice(b"RSD PTR ");
    m[0xE0020..0xE0024].copy_from_slice(&0x1000u32.to_le_bytes());
    let sum: u32 = m[0xE0010..0xE0024].iter().map(|b| *b as u32).sum();
    m[0xE0018] = (256 - sum % 256) as u8;
    m[0x1000..0x1004].copy_from_slice(b"RSDT");
    m[0x1004..0x1008].copy_from_slice(&40u32.to_le_bytes());
    m[0x1024..0x1028].copy_from_slice(&0x2000u32.to_le_bytes());
    m[0x2000..0x2004].copy_from_slice(b"FACP");
    m[0x2028..0x202C].copy_from_slice(&0x3000u32.to_le_bytes());
    m[0x2030..0x2032].copy_from_slice(&0xB2u16.to_le_bytes());
    m[0x2034] = 0xF1;
    m[0x2040..0x2042].copy_from_slice(&0x604u16.to_le_bytes());
    m[0x3004..0x3008].copy_from_slice(&60u32.to_le_bytes());
    m[0x3028..0x3033].copy_from_slice(&[b'_', b'S', b'5', b'_', 0x12, 6, 4, 0x0B, 3, 0, 0]);
    let p = acpi::s5_params(&m).unwrap();
    assert_eq!((p.pm1a_cnt, p.slp_typa, p.smi_cmd, p.acpi_enable), (0x604, 3, 0xB2, 0xF1));
    let off = acpi::s5_shutdown(&m).unwrap();
    assert_eq!((off.port, off.enable, off.values), (0x604, Some((0xB2, 0xF1)), vec![0x2C00]));
    m[0x302F] = 0;
    assert_eq!(acpi::s5_shutdown(&m).unwrap().values, vec![0x2000, 0x3C00, 0x3400]);
    m[0x302C] = 0x13;
    assert!(acpi::s5_params(&m).is_none());
    assert!(acpi::s5_params(&[]).is_none());
}

#[test]
fn rounded_corners_and_copies() {
    let mut c = Canvas::new(6, 6, 0);
    gfx::fill_rounded_rect_blend(&mut c, 0, 0, 6, 6, 2, 0xFFFFFF, 255);
    assert_eq!((at(&c, 0, 0), at(&c, 2, 0), at(&c, 3, 3)), (0, 0xFFFFFF, 0xFFFFFF));
    let mut round = Canvas::new(20, 20, 0);
    gfx::fill_rounded_rect(&mut round, 0, 0, 20, 20, 10, 7);
    assert_eq!((at(&round, 3, 5), at(&round, 16, 14), at(&round, 10, 0)), (7, 7, 7));
    assert_eq!((at(&round, 0, 0), at(&round, 2, 2), at(&round, 19, 19)), (0, 0, 0));
    let mut d = Canvas::new(3, 2, 0);
    gfx::blit(&mut d, 1, 0, &[1, 2, 3, 4], 2, 2);
    assert_eq!(d.pixels(), &vec![0, 1, 2, 0, 3, 4]);
    gfx::blit(&mut d, 2, 1, &[9, 9], 2, 1);
    assert_eq!(at(&d, 2, 1), 9);
    let mut e = Canvas::new(6, 6, 0);
    gfx::blit_rounded(&mut e, 0, 0, &[5; 36], 6, 6, 2);
    assert_eq!((at(&e, 0, 0), at(&e, 3, 0), at(&e, 5, 5)), (0, 5, 0));
    let bytes = [1, 0, 0, 0, 2, 0, 0, 0, 3, 0, 0, 0, 4, 0, 0, 0];
    assert_eq!(gfx::scale_bytes(&bytes, 2, 2, 2, 2), vec![1, 2, 3, 4]);
    let mut f = font();
    f.set_scale(2);
    assert_eq!(f.scale(), 2);
    assert!(f.bit(b'A', 0, 0));
    assert!(!f.bit(b' ', 0, 0));
}
