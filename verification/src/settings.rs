//! System settings: persistent configuration stored on disk and applied to
//! the desktop (accent color, wallpaper, background task display, display
//! resolution and font size).

use crate::fat::{file_at, file_written, read_file, write_file, Mount, Volume};
use crate::fat_laws::{can_keep, law_written_file_reads_back};
use crate::fat_room::{can_write, law_file_can_be_written};
use crate::rtc::DateTime;
use crate::text::{
    chars_of, dec, is_space, is_text, law_dec_parses_back, law_dec_value, law_unlines_pieces,
    lemma_parted, lemma_trimmed_same, lemma_unlines_push, parse_uint, parsed_uint, parted, pieces, push_dec, push_str,
    push_word, split_at_each, split_once, string_of, trim, trimmed, unlines, utf8, views,
};
use vstd::prelude::*;
use vstd::utf8::{decode_utf8, encode_utf8, valid_utf8};

verus! {

pub const SETTINGS_PATH: &'static str = "/system/settings.conf";

/// Accent color presets.
pub const ACCENT_COLORS: [(&'static str, u32); 5] = [
    ("blue", 0x4CC2FF),
    ("purple", 0xA87BD4),
    ("green", 0x86C77B),
    ("orange", 0xE8A87B),
    ("red", 0xE87B7B),
];

/// System settings stored in memory and persisted to disk.
pub struct Settings {
    pub accent_color: String,
    pub wallpaper: bool,
    pub show_bg_tasks: bool,
    /// `None` = native (physical framebuffer) resolution.
    pub resolution: Option<(u32, u32)>,
    pub font_scale_percent: u16,
}

/// Settings.
pub struct Config {
    pub accent: Seq<char>,
    pub wallpaper: bool,
    pub tasks: bool,
    pub resolution: Option<(u32, u32)>,
    pub font: u16,
}

impl View for Settings {
    type V = Config;

    open spec fn view(&self) -> Config {
        Config {
            accent: self.accent_color@,
            wallpaper: self.wallpaper,
            tasks: self.show_bg_tasks,
            resolution: self.resolution,
            font: self.font_scale_percent,
        }
    }
}

pub open spec fn default_config() -> Config {
    Config { accent: "blue"@, wallpaper: true, tasks: true, resolution: None, font: 100 }
}

// ---------------------------------------------------------------------
// Writing
// ---------------------------------------------------------------------

pub open spec fn truth_text(b: bool) -> Seq<char> {
    if b {
        "true"@
    } else {
        "false"@
    }
}

pub open spec fn resolution_text(r: Option<(u32, u32)>) -> Seq<char> {
    match r {
        Some((w, h)) => dec(w as nat) + seq!['x'] + dec(h as nat),
        None => "native"@,
    }
}

/// A line `key=value`.
pub open spec fn setting(key: Seq<char>, value: Seq<char>) -> Seq<char> {
    key + seq!['='] + value
}

pub open spec fn settings_lines(c: Config) -> Seq<Seq<char>> {
    seq![
        "# MachaOS settings"@,
        setting("accent_color"@, c.accent),
        setting("wallpaper"@, truth_text(c.wallpaper)),
        setting("show_bg_tasks"@, truth_text(c.tasks)),
        setting("resolution"@, resolution_text(c.resolution)),
        setting("font_scale"@, dec(c.font as nat)),
    ]
}

/// The settings file's text.
pub open spec fn settings_text(c: Config) -> Seq<char> {
    unlines(settings_lines(c))
}

/// Whether the file system can hold the settings file.
pub open spec fn fits(c: Config) -> bool {
    encode_utf8(settings_text(c)).len() <= 0xFFFF_FFFF
}

/// What saving settings does to a volume.
pub open spec fn saved(disk: Option<Volume>, c: Config, now: DateTime) -> (bool, Option<Volume>) {
    match disk {
        None => (false, None),
        Some(v) => {
            let w = file_written(v, SETTINGS_PATH@, encode_utf8(settings_text(c)), now);
            (w.0 is Ok, Some(w.1))
        },
    }
}

fn push_setting(out: &mut Vec<char>, key: &str, value: &Vec<char>, Ghost(ls): Ghost<Seq<Seq<char>>>)
    requires
        old(out)@ == unlines(ls),
    ensures
        final(out)@ == unlines(ls.push(setting(key@, value@))),
{
    push_str(out, key);
    out.push('=');
    push_word(out, true, value);
    out.push('\n');
    proof {
        lemma_unlines_push(ls, setting(key@, value@));
        assert(out@ =~= unlines(ls) + setting(key@, value@) + seq!['\n']);
    }
}

fn truth_chars(b: bool) -> (r: Vec<char>)
    ensures
        r@ == truth_text(b),
{
    chars_of(if b { "true" } else { "false" })
}

fn resolution_chars(r: Option<(u32, u32)>) -> (out: Vec<char>)
    ensures
        out@ == resolution_text(r),
{
    match r {
        Some((w, h)) => {
            let mut out: Vec<char> = Vec::new();
            push_dec(&mut out, w as u64);
            out.push('x');
            push_dec(&mut out, h as u64);
            assert(out@ =~= resolution_text(r));
            out
        },
        None => chars_of("native"),
    }
}

impl Settings {
    /// The settings file's text.
    pub fn to_text(&self) -> (r: String)
        ensures
            r@ == settings_text(self@),
    {
        let mut out: Vec<char> = Vec::new();
        let ghost all = settings_lines(self@);
        push_str(&mut out, "# MachaOS settings");
        out.push('\n');
        proof {
            let none = Seq::<Seq<char>>::empty();
            lemma_unlines_push(none, "# MachaOS settings"@);
            assert(none.push("# MachaOS settings"@) =~= all.take(1));
            assert(out@ =~= unlines(all.take(1)));
        }
        let accent = chars_of(self.accent_color.as_str());
        let wallpaper = truth_chars(self.wallpaper);
        let tasks = truth_chars(self.show_bg_tasks);
        let resolution = resolution_chars(self.resolution);
        let mut font: Vec<char> = Vec::new();
        push_dec(&mut font, self.font_scale_percent as u64);
        assert(font@ =~= dec(self.font_scale_percent as nat));
        push_setting(&mut out, "accent_color", &accent, Ghost(all.take(1)));
        assert(all.take(1).push(all[1]) =~= all.take(2));
        push_setting(&mut out, "wallpaper", &wallpaper, Ghost(all.take(2)));
        assert(all.take(2).push(all[2]) =~= all.take(3));
        push_setting(&mut out, "show_bg_tasks", &tasks, Ghost(all.take(3)));
        assert(all.take(3).push(all[3]) =~= all.take(4));
        push_setting(&mut out, "resolution", &resolution, Ghost(all.take(4)));
        assert(all.take(4).push(all[4]) =~= all.take(5));
        push_setting(&mut out, "font_scale", &font, Ghost(all.take(5)));
        assert(all.take(5).push(all[5]) =~= all);
        string_of(&out)
    }

    /// Saves current settings to disk.
    pub fn save(&self, disk: &mut Mount, now: DateTime) -> (r: bool)
        requires
            old(disk).wf(),
            fits(self@),
        ensures
            final(disk).wf(),
            (r, final(disk)@) == saved(old(disk)@, self@, now),
    {
        let text = self.to_text();
        let bytes = text.as_str().as_bytes();
        write_file(disk, SETTINGS_PATH, bytes, now).is_ok()
    }
}

// ---------------------------------------------------------------------
// Reading
// ---------------------------------------------------------------------

/// A resolution's text: the native one, or a size that fits into the
/// physical framebuffer.
pub open spec fn parsed_resolution(v: Seq<char>, native: (u32, u32)) -> Option<(u32, u32)> {
    if v == "native"@ {
        None
    } else {
        match parted(v, 'x') {
            None => None,
            Some((a, b)) => match (
                parsed_uint(a, u32::MAX as nat),
                parsed_uint(b, u32::MAX as nat),
            ) {
                (Some(w), Some(h)) => if 0 < w <= native.0 && 0 < h <= native.1 {
                    Some((w as u32, h as u32))
                } else {
                    None
                },
                _ => None,
            },
        }
    }
}

/// The settings with what a line says. Comments, unknown keys and lines
/// without `=` say nothing.
pub open spec fn with_line(c: Config, line: Seq<char>, native: (u32, u32)) -> Config {
    let t = trimmed(line);
    if t.len() == 0 || t[0] == '#' {
        c
    } else {
        match parted(t, '=') {
            None => c,
            Some((k, v)) => {
                let key = trimmed(k);
                let value = trimmed(v);
                if key == "accent_color"@ {
                    Config { accent: value, ..c }
                } else if key == "wallpaper"@ {
                    Config { wallpaper: value == "true"@, ..c }
                } else if key == "show_bg_tasks"@ {
                    Config { tasks: value == "true"@, ..c }
                } else if key == "resolution"@ {
                    Config { resolution: parsed_resolution(value, native), ..c }
                } else if key == "font_scale"@ {
                    Config {
                        font: match parsed_uint(value, u16::MAX as nat) {
                            Some(n) => n as u16,
                            None => 100,
                        },
                        ..c
                    }
                } else {
                    c
                }
            },
        }
    }
}

pub open spec fn with_lines(c: Config, lines: Seq<Seq<char>>, native: (u32, u32)) -> Config
    decreases lines.len(),
{
    if lines.len() == 0 {
        c
    } else {
        with_line(with_lines(c, lines.drop_last(), native), lines.last(), native)
    }
}

/// The settings in a file's text, over the defaults.
pub open spec fn parsed(text: Seq<char>, native: (u32, u32)) -> Config {
    with_lines(default_config(), pieces(text, '\n'), native)
}

pub open spec fn parsed_bytes(bytes: Seq<u8>, native: (u32, u32)) -> Config {
    if valid_utf8(bytes) {
        parsed(decode_utf8(bytes), native)
    } else {
        default_config()
    }
}

/// The settings on a disk; the defaults where there is no file.
pub open spec fn loaded(disk: Option<Volume>, native: (u32, u32)) -> Config {
    match disk {
        Some(v) => match file_at(v, SETTINGS_PATH@) {
            Ok(bytes) => parsed_bytes(bytes, native),
            Err(_) => default_config(),
        },
        None => default_config(),
    }
}

fn parse_resolution(value: &Vec<char>, native: (u32, u32)) -> (r: Option<(u32, u32)>)
    ensures
        r == parsed_resolution(value@, native),
{
    if is_text(value, "native") {
        return None;
    }
    match split_once(value, 'x') {
        None => None,
        Some((a, b)) => match (parse_uint(&a, u32::MAX as u64), parse_uint(&b, u32::MAX as u64)) {
            (Some(w), Some(h)) => {
                if w > native.0 as u64 || h > native.1 as u64 || w == 0 || h == 0 {
                    None
                } else {
                    Some((w as u32, h as u32))
                }
            },
            _ => None,
        },
    }
}

impl Settings {
    pub fn defaults() -> (r: Self)
        ensures
            r@ == default_config(),
    {
        let chars = chars_of("blue");
        Settings {
            accent_color: string_of(&chars),
            wallpaper: true,
            show_bg_tasks: true,
            resolution: None,
            font_scale_percent: 100,
        }
    }

    fn apply_line(&mut self, line: &Vec<char>, native: (u32, u32))
        ensures
            final(self)@ == with_line(old(self)@, line@, native),
    {
        let t = trim(line);
        if t.len() == 0 || t[0] == '#' {
            return;
        }
        if let Some((k, v)) = split_once(&t, '=') {
            let key = trim(&k);
            let value = trim(&v);
            if is_text(&key, "accent_color") {
                self.accent_color = string_of(&value);
            } else if is_text(&key, "wallpaper") {
                self.wallpaper = is_text(&value, "true");
            } else if is_text(&key, "show_bg_tasks") {
                self.show_bg_tasks = is_text(&value, "true");
            } else if is_text(&key, "resolution") {
                self.resolution = parse_resolution(&value, native);
            } else if is_text(&key, "font_scale") {
                self.font_scale_percent = match parse_uint(&value, u16::MAX as u64) {
                    Some(n) => n as u16,
                    None => 100,
                };
            }
        }
    }

    /// The settings in a text; what it does not say stays at the defaults.
    pub fn from_text(text: &str, native: (u32, u32)) -> (r: Self)
        ensures
            r@ == parsed(text@, native),
    {
        let chars = chars_of(text);
        let lines = split_at_each(&chars, '\n');
        let mut settings = Settings::defaults();
        let ghost all = views(lines@);
        let mut i: usize = 0;
        assert(all.take(0) =~= Seq::<Seq<char>>::empty());
        while i < lines.len()
            invariant
                i <= lines@.len(),
                all == views(lines@),
                settings@ == with_lines(default_config(), all.take(i as int), native),
            decreases lines@.len() - i,
        {
            settings.apply_line(&lines[i], native);
            proof {
                assert(all.take(i + 1).drop_last() =~= all.take(i as int));
                assert(all.take(i + 1).last() == lines@[i as int]@);
            }
            i += 1;
        }
        assert(all.take(i as int) =~= all);
        settings
    }

    /// Loads settings from disk, falling back to defaults if the file
    /// doesn't exist or is malformed.
    pub fn load(disk: &Mount, native: (u32, u32)) -> (r: Self)
        requires
            disk.wf(),
        ensures
            r@ == loaded(disk@, native),
    {
        match read_file(disk, SETTINGS_PATH) {
            Ok(data) => match utf8(data.as_slice()) {
                Some(text) => Settings::from_text(text.as_str(), native),
                None => Settings::defaults(),
            },
            Err(_) => Settings::defaults(),
        }
    }

    /// Returns the accent color as a u32 RGB value.
    pub fn accent_color_rgb(&self) -> (r: u32)
        ensures
            r == accent_rgb(self@.accent, 0),
    {
        let name = chars_of(self.accent_color.as_str());
        let mut i: usize = 0;
        while i < 5
            invariant
                i <= 5,
                name@ == self@.accent,
                accent_rgb(self@.accent, 0) == accent_rgb(self@.accent, i as int),
            decreases 5 - i,
        {
            if is_text(&name, ACCENT_COLORS[i].0) {
                return ACCENT_COLORS[i].1;
            }
            i += 1;
        }
        0x4CC2FF
    }
}

/// The color of a preset from number `i` on; blue where there is none.
pub open spec fn accent_rgb(name: Seq<char>, i: int) -> u32
    decreases 5 - i,
{
    if i >= 5 || i < 0 {
        0x4CC2FF
    } else if ACCENT_COLORS@[i].0@ == name {
        ACCENT_COLORS@[i].1
    } else {
        accent_rgb(name, i + 1)
    }
}

// ---------------------------------------------------------------------
// What is saved comes back
// ---------------------------------------------------------------------

proof fn lemma_setting(c: Config, key: Seq<char>, value: Seq<char>, native: (u32, u32))
    requires
        key.len() > 0,
        !is_space(key[0]),
        !is_space(key.last()),
        key[0] != '#',
        !key.contains('='),
        value.len() > 0 ==> !is_space(value[0]) && !is_space(value.last()),
    ensures
        trimmed(setting(key, value)) == setting(key, value),
        setting(key, value)[0] != '#',
        parted(setting(key, value), '=') == Some((key, value)),
        trimmed(key) == key,
        trimmed(value) == value,
{
    let l = setting(key, value);
    assert(l[0] == key[0]);
    if value.len() > 0 {
        assert(l.last() == value.last());
    } else {
        assert(l.last() == '=');
    }
    lemma_trimmed_same(l);
    lemma_parted(key, '=', value);
    lemma_trimmed_same(key);
    lemma_trimmed_same(value);
}

proof fn lemma_dec_ends(n: nat)
    ensures
        dec(n).len() > 0,
        !is_space(dec(n)[0]),
        !is_space(dec(n).last()),
        !dec(n).contains('x'),
        !dec(n).contains('\n'),
        dec(n)[0] != 'n',
{
    law_dec_value(n);
    let d = dec(n);
    assert(crate::text::is_digit(d[0]));
    assert(crate::text::is_digit(d[d.len() - 1]));
    assert forall|i: int| 0 <= i < d.len() implies d[i] != 'x' && d[i] != '\n' by {
        assert(crate::text::is_digit(d[i]));
    }
}

proof fn lemma_resolution(r: Option<(u32, u32)>, native: (u32, u32))
    requires
        r matches Some((w, h)) ==> 0 < w <= native.0 && 0 < h <= native.1,
    ensures
        parsed_resolution(resolution_text(r), native) == r,
        resolution_text(r).len() > 0,
        !is_space(resolution_text(r)[0]),
        !is_space(resolution_text(r).last()),
        !resolution_text(r).contains('\n'),
{
    reveal_strlit("native");
    match r {
        None => {
            assert(!"native"@.contains('\n'));
        },
        Some((w, h)) => {
            let (a, b) = (dec(w as nat), dec(h as nat));
            lemma_dec_ends(w as nat);
            lemma_dec_ends(h as nat);
            let t = resolution_text(r);
            assert(t[0] == a[0]);
            assert(t.last() == b.last());
            assert("native"@[0] == 'n');
            lemma_parted(a, 'x', b);
            law_dec_parses_back(w as int, u32::MAX as nat);
            law_dec_parses_back(h as int, u32::MAX as nat);
            assert forall|i: int| 0 <= i < t.len() implies t[i] != '\n' by {
                if i < a.len() {
                    assert(t[i] == a[i]);
                } else if i > a.len() {
                    assert(t[i] == b[i - a.len() - 1]);
                }
            }
        },
    }
}

proof fn lemma_no_feed(key: Seq<char>, value: Seq<char>)
    requires
        !key.contains('\n'),
        !value.contains('\n'),
    ensures
        !setting(key, value).contains('\n'),
{
    let t = setting(key, value);
    assert forall|i: int| 0 <= i < t.len() implies t[i] != '\n' by {
        if i < key.len() {
            assert(t[i] == key[i]);
        } else if i > key.len() {
            assert(t[i] == value[i - key.len() - 1]);
        }
    }
}

/// An accent name that the file can hold: no line feed, no white space at
/// its ends.
pub open spec fn storable(c: Config, native: (u32, u32)) -> bool {
    &&& !c.accent.contains('\n')
    &&& c.accent.len() > 0 ==> !is_space(c.accent[0]) && !is_space(c.accent.last())
    &&& c.resolution matches Some((w, h)) ==> 0 < w <= native.0 && 0 < h <= native.1
}

proof fn lemma_lines(c: Config, native: (u32, u32))
    requires
        storable(c, native),
    ensures
        forall|i: int|
            0 <= i < 6 ==> !(#[trigger] settings_lines(c)[i]).contains('\n'),
{
    reveal_strlit("# MachaOS settings");
    reveal_strlit("accent_color");
    reveal_strlit("wallpaper");
    reveal_strlit("show_bg_tasks");
    reveal_strlit("resolution");
    reveal_strlit("font_scale");
    reveal_strlit("true");
    reveal_strlit("false");
    lemma_resolution(c.resolution, native);
    lemma_dec_ends(c.font as nat);
    assert(!"# MachaOS settings"@.contains('\n'));
    assert(!"true"@.contains('\n'));
    assert(!"false"@.contains('\n'));
    lemma_no_feed("accent_color"@, c.accent);
    lemma_no_feed("wallpaper"@, truth_text(c.wallpaper));
    lemma_no_feed("show_bg_tasks"@, truth_text(c.tasks));
    lemma_no_feed("resolution"@, resolution_text(c.resolution));
    lemma_no_feed("font_scale"@, dec(c.font as nat));
}

proof fn lemma_keys()
    ensures
        "accent_color"@ != "wallpaper"@,
        "accent_color"@ != "show_bg_tasks"@,
        "accent_color"@ != "resolution"@,
        "accent_color"@ != "font_scale"@,
        "wallpaper"@ != "show_bg_tasks"@,
        "wallpaper"@ != "resolution"@,
        "wallpaper"@ != "font_scale"@,
        "show_bg_tasks"@ != "resolution"@,
        "show_bg_tasks"@ != "font_scale"@,
        "resolution"@ != "font_scale"@,
        "true"@ != "false"@,
{
    reveal_strlit("accent_color");
    reveal_strlit("wallpaper");
    reveal_strlit("show_bg_tasks");
    reveal_strlit("resolution");
    reveal_strlit("font_scale");
    reveal_strlit("true");
    reveal_strlit("false");
    assert("accent_color"@[0] == 'a');
    assert("wallpaper"@[0] == 'w');
    assert("show_bg_tasks"@[0] == 's');
    assert("resolution"@[0] == 'r');
    assert("font_scale"@[0] == 'f');
    assert("true"@[0] == 't');
    assert("false"@[0] == 'f');
}

proof fn lemma_each_line(base: Config, c: Config, native: (u32, u32))
    requires
        storable(c, native),
    ensures
        with_line(base, settings_lines(c)[0], native) == base,
        with_line(base, settings_lines(c)[1], native) == (Config { accent: c.accent, ..base }),
        with_line(base, settings_lines(c)[2], native) == (Config {
            wallpaper: c.wallpaper,
            ..base
        }),
        with_line(base, settings_lines(c)[3], native) == (Config { tasks: c.tasks, ..base }),
        with_line(base, settings_lines(c)[4], native) == (Config {
            resolution: c.resolution,
            ..base
        }),
        with_line(base, settings_lines(c)[5], native) == (Config { font: c.font, ..base }),
{
    lemma_keys();
    reveal_strlit("# MachaOS settings");
    reveal_strlit("accent_color");
    reveal_strlit("wallpaper");
    reveal_strlit("show_bg_tasks");
    reveal_strlit("resolution");
    reveal_strlit("font_scale");
    reveal_strlit("true");
    reveal_strlit("false");
    lemma_trimmed_same("# MachaOS settings"@);
    lemma_resolution(c.resolution, native);
    lemma_dec_ends(c.font as nat);
    law_dec_parses_back(c.font as int, u16::MAX as nat);
    lemma_setting(base, "accent_color"@, c.accent, native);
    lemma_setting(base, "wallpaper"@, truth_text(c.wallpaper), native);
    lemma_setting(base, "show_bg_tasks"@, truth_text(c.tasks), native);
    lemma_setting(base, "resolution"@, resolution_text(c.resolution), native);
    lemma_setting(base, "font_scale"@, dec(c.font as nat), native);
}

proof fn lemma_next(d: Config, l: Seq<Seq<char>>, i: int, native: (u32, u32))
    requires
        0 <= i < l.len(),
    ensures
        with_lines(d, l.take(i + 1), native) == with_line(
            with_lines(d, l.take(i), native),
            l[i],
            native,
        ),
{
    assert(l.take(i + 1).drop_last() =~= l.take(i));
}

/// Settings that are saved and loaded again are the same, where the file can
/// hold them.
pub proof fn law_settings_round_trip(c: Config, native: (u32, u32))
    requires
        storable(c, native),
    ensures
        parsed(settings_text(c), native) == c,
        parsed_bytes(encode_utf8(settings_text(c)), native) == c,
{
    let l = settings_lines(c);
    lemma_lines(c, native);
    law_unlines_pieces(l);
    let all = l.push(Seq::empty());
    let d = default_config();
    assert(all.drop_last() =~= l);
    assert(trimmed(Seq::<char>::empty()) =~= Seq::<char>::empty());
    assert(with_lines(d, l.take(0), native) == d);
    lemma_next(d, l, 0, native);
    lemma_next(d, l, 1, native);
    lemma_next(d, l, 2, native);
    lemma_next(d, l, 3, native);
    lemma_next(d, l, 4, native);
    lemma_next(d, l, 5, native);
    lemma_each_line(d, c, native);
    let c2 = Config { accent: c.accent, ..d };
    assert(with_lines(d, l.take(2), native) == c2);
    lemma_each_line(c2, c, native);
    let c3 = Config { wallpaper: c.wallpaper, ..c2 };
    assert(with_lines(d, l.take(3), native) == c3);
    lemma_each_line(c3, c, native);
    let c4 = Config { tasks: c.tasks, ..c3 };
    assert(with_lines(d, l.take(4), native) == c4);
    lemma_each_line(c4, c, native);
    let c5 = Config { resolution: c.resolution, ..c4 };
    assert(with_lines(d, l.take(5), native) == c5);
    lemma_each_line(c5, c, native);
    assert(l.take(6) =~= l);
    vstd::utf8::encode_utf8_valid_utf8(settings_text(c));
    vstd::utf8::encode_utf8_decode_utf8(settings_text(c));
}

/// Settings that were saved to a disk are those that are loaded from it,
/// where the file can hold them and the volume can keep the file.
pub proof fn law_saved_settings_load_back(
    v: Volume,
    c: Config,
    native: (u32, u32),
    now: DateTime,
)
    requires
        storable(c, native),
        can_keep(v, SETTINGS_PATH@, encode_utf8(settings_text(c)).len()),
        saved(Some(v), c, now).0,
    ensures
        loaded(saved(Some(v), c, now).1, native) == c,
{
    law_settings_round_trip(c, native);
    law_written_file_reads_back(v, SETTINGS_PATH@, encode_utf8(settings_text(c)), now);
}

/// Settings are saved on a volume that has room for their file, and load
/// back as they were.
pub proof fn law_settings_can_be_saved(v: Volume, c: Config, native: (u32, u32), now: DateTime)
    requires
        storable(c, native),
        can_write(v, SETTINGS_PATH@, encode_utf8(settings_text(c)).len()),
    ensures
        saved(Some(v), c, now).0,
        loaded(saved(Some(v), c, now).1, native) == c,
{
    law_file_can_be_written(v, SETTINGS_PATH@, encode_utf8(settings_text(c)), now);
    law_saved_settings_load_back(v, c, native, now);
}

} // verus!
