//! The Settings app: a panel with a left navigation sidebar and a content
//! pane.

use crate::fat::{Mount, Volume};
use crate::fb::SUPPORTED_RESOLUTIONS;
use crate::font::Font;
use crate::gfx::{blend, over, Canvas, Pic, Surface};
use crate::rtc::DateTime;
use crate::scene::{picture, Mark, Scene};
use crate::settings::{accent_rgb, fits, saved, Config, Settings, ACCENT_COLORS};
use crate::text::{chars_of, dec, is_text, last_ink, push_dec, push_str, space, string_of, utf8};
use vstd::prelude::*;
use vstd::utf8::{decode_utf8, valid_utf8};

verus! {

pub const WIDTH: u32 = 480;

pub const SIDEBAR_W: u32 = 140;

pub const BG: u32 = 0x202020;

pub const SIDEBAR_BG: u32 = 0x1A1A1A;

pub const TEXT: u32 = 0xFFFFFF;

pub const TEXT_DIM: u32 = 0x9A9A9A;

pub const ROW_BG: u32 = 0x2C2C2C;

pub const ROW_HOVER: u32 = 0x343434;

pub const NAV_HOVER: u32 = 0x262626;

pub const NAV_SELECTED: u32 = 0x2C2C2C;

pub const TOGGLE_OFF: u32 = 0x4A4A4A;

pub const DIVIDER: u32 = 0x2A2A2A;

#[derive(Clone, Copy, Debug, PartialEq, Eq, Structural)]
pub enum Page {
    System,
    Personalization,
    About,
}

/// What the Settings app asks the window manager to do after a click.
#[derive(Clone, Copy, Debug, PartialEq, Eq, Structural)]
pub enum SettingsChange {
    /// Nothing visible changed; no action needed.
    Nothing,
    /// Cosmetic settings changed: reload the in-memory copy.
    Reload,
    /// The display resolution changed; the desktop must be rescaled.
    Resolution(u32, u32),
    /// The font scale changed; the desktop must be rebuilt.
    FontScale(u8),
}

/// Settings app UI.
pub struct SettingsApp {
    canvas: Canvas,
    settings: Settings,
    page: Page,
    cursor: (i32, i32),
    about_lines: Vec<String>,
    /// The physical framebuffer size.
    native: (u32, u32),
    /// Whether the last save went through.
    saved: bool,
}

/// The state of the app.
pub struct Panel {
    pub settings: Config,
    pub page: Page,
    pub cursor: (i32, i32),
    pub about: Seq<Seq<char>>,
    pub native: (u32, u32),
    pub saved: bool,
}

pub open spec fn line_views(v: Seq<String>) -> Seq<Seq<char>> {
    v.map_values(|s: String| s@)
}

impl View for SettingsApp {
    type V = Panel;

    closed spec fn view(&self) -> Panel {
        Panel {
            settings: self.settings@,
            page: self.page,
            cursor: self.cursor,
            about: line_views(self.about_lines@),
            native: self.native,
            saved: self.saved,
        }
    }
}

// ---------------------------------------------------------------------
// Layout
// ---------------------------------------------------------------------

/// The height of the window at a font scale.
pub open spec fn panel_height(s: int) -> int {
    380 + (s - 1) * 180
}

pub open spec fn row_height(s: int) -> int {
    8 * s + 12
}

/// Where the page content starts, under the page title.
pub open spec fn content_top(s: int) -> int {
    20 + 8 * s
}

pub open spec fn label_height(s: int) -> int {
    8 * s + 6
}

/// The resolutions offered: those of the first `n` that fit into the
/// physical framebuffer.
pub open spec fn offered(native: (u32, u32), n: nat) -> Seq<(u32, u32)>
    decreases n,
{
    if n == 0 {
        Seq::empty()
    } else {
        let rest = offered(native, (n - 1) as nat);
        let (w, h) = SUPPORTED_RESOLUTIONS@[n - 1];
        if w <= native.0 && h <= native.1 {
            rest.push((w, h))
        } else {
            rest
        }
    }
}

proof fn lemma_offered(native: (u32, u32), n: nat)
    ensures
        offered(native, n).len() <= n,
    decreases n,
{
    if n > 0 {
        lemma_offered(native, (n - 1) as nat);
    }
}

fn supported_resolutions(native: (u32, u32)) -> (r: Vec<(u32, u32)>)
    ensures
        r@ == offered(native, 6),
        r@.len() <= 6,
{
    let mut out: Vec<(u32, u32)> = Vec::new();
    let mut i: usize = 0;
    while i < 6
        invariant
            i <= 6,
            out@ == offered(native, i as nat),
        decreases 6 - i,
    {
        let (w, h) = SUPPORTED_RESOLUTIONS[i];
        if w <= native.0 && h <= native.1 {
            out.push((w, h));
        }
        i += 1;
    }
    proof {
        lemma_offered(native, 6);
    }
    out
}

/// Where the first resolution row is, and the first font size row.
pub open spec fn resolution_top(s: int) -> int {
    content_top(s) + label_height(s)
}

pub open spec fn font_top(native: (u32, u32), s: int) -> int {
    resolution_top(s) + offered(native, 6).len() * row_height(s) + 10 + label_height(s)
}

/// The number of the option row under a point, of `n` rows from `top` on.
pub open spec fn row_under(x: int, y: int, top: int, n: int, s: int) -> Option<int> {
    if 16 <= x < 324 && top <= y < top + n * row_height(s) {
        Some((y - top) / row_height(s))
    } else {
        None
    }
}

pub open spec fn swatch_under(x: int, y: int, s: int) -> Option<int> {
    if 156 <= x < 356 && (x - 156) % 40 < 28 && resolution_top(s) <= y < resolution_top(s) + 28 {
        Some((x - 156) / 40)
    } else {
        None
    }
}

/// Whether a point is on a switch in the row at `row_y`.
pub open spec fn on_toggle(x: int, y: int, row_y: int) -> bool {
    row_y + 2 <= y < row_y + 24 && 280 <= x < 324
}

pub open spec fn wallpaper_row(s: int) -> int {
    resolution_top(s) + 46
}

pub open spec fn tasks_row(s: int) -> int {
    wallpaper_row(s) + 38
}

// ---------------------------------------------------------------------
// Clicks
// ---------------------------------------------------------------------

/// The app after a redraw, which also saves.
pub open spec fn redrawn(p: Panel, disk: Option<Volume>, now: DateTime) -> (Panel, Option<Volume>) {
    let (ok, after) = saved(disk, p.settings, now);
    (Panel { saved: ok, ..p }, after)
}

/// The app after a changed setting: it is saved, and the app redrawn.
pub open spec fn changed(p: Panel, c: Config, disk: Option<Volume>, now: DateTime) -> (
    Panel,
    Option<Volume>,
) {
    redrawn(Panel { settings: c, ..p }, saved(disk, c, now).1, now)
}

/// What a click on the system page chooses.
pub open spec fn system_choice(p: Panel, x: int, y: int, s: int) -> (Config, SettingsChange) {
    let list = offered(p.native, 6);
    let c = p.settings;
    match row_under(x, y, resolution_top(s), list.len() as int, s) {
        Some(i) => {
            let (w, h) = list[i];
            let next = if (w, h) == p.native {
                None
            } else {
                Some((w, h))
            };
            if c.resolution == next {
                (c, SettingsChange::Nothing)
            } else {
                (Config { resolution: next, ..c }, SettingsChange::Resolution(w, h))
            }
        },
        None => match row_under(x, y, font_top(p.native, s), 2, s) {
            Some(i) => {
                let percent: u16 = if i == 0 {
                    100
                } else {
                    200
                };
                if c.font == percent {
                    (c, SettingsChange::Nothing)
                } else {
                    (Config { font: percent, ..c }, SettingsChange::FontScale((percent / 100) as u8))
                }
            },
            None => (c, SettingsChange::Nothing),
        },
    }
}

/// What a click on the personalization page chooses.
pub open spec fn personal_choice(p: Panel, x: int, y: int, s: int) -> (Config, SettingsChange) {
    let c = p.settings;
    match swatch_under(x, y, s) {
        Some(i) => if ACCENT_COLORS@[i].0@ == c.accent {
            (c, SettingsChange::Nothing)
        } else {
            (Config { accent: ACCENT_COLORS@[i].0@, ..c }, SettingsChange::Reload)
        },
        None => if on_toggle(x, y, wallpaper_row(s)) {
            (Config { wallpaper: !c.wallpaper, ..c }, SettingsChange::Reload)
        } else if on_toggle(x, y, tasks_row(s)) {
            (Config { tasks: !c.tasks, ..c }, SettingsChange::Reload)
        } else {
            (c, SettingsChange::Nothing)
        },
    }
}

/// The page that a click in the sidebar opens.
pub open spec fn nav_under(y: int) -> Option<Page> {
    if 12 <= y < 48 {
        Some(Page::System)
    } else if 56 <= y < 92 {
        Some(Page::Personalization)
    } else if 100 <= y < 136 {
        Some(Page::About)
    } else {
        None
    }
}

/// What a click at (`x`, `y`) does.
pub open spec fn clicked(
    p: Panel,
    disk: Option<Volume>,
    x: int,
    y: int,
    s: int,
    now: DateTime,
) -> (Panel, Option<Volume>, SettingsChange) {
    if x < 0 || y < 0 {
        (p, disk, SettingsChange::Nothing)
    } else if x < 140 {
        match nav_under(y) {
            Some(page) => {
                let (q, after) = redrawn(Panel { page, ..p }, disk, now);
                (q, after, SettingsChange::Nothing)
            },
            None => (p, disk, SettingsChange::Nothing),
        }
    } else if p.page == Page::About {
        (p, disk, SettingsChange::Nothing)
    } else {
        let (c, change) = if p.page == Page::System {
            system_choice(p, x - 140, y, s)
        } else {
            personal_choice(p, x - 140, y, s)
        };
        if change == SettingsChange::Nothing {
            (p, disk, change)
        } else {
            let (q, after) = changed(p, c, disk, now);
            (q, after, change)
        }
    }
}

// ---------------------------------------------------------------------
// The picture
// ---------------------------------------------------------------------

pub open spec fn in_span(v: i32, from: int, to: int) -> bool {
    from <= v < to
}

pub open spec fn nav_label(i: int) -> Seq<char> {
    if i == 0 {
        "System"@
    } else if i == 1 {
        "Personalization"@
    } else {
        "About"@
    }
}

pub open spec fn nav_page(i: int) -> Page {
    if i == 0 {
        Page::System
    } else if i == 1 {
        Page::Personalization
    } else {
        Page::About
    }
}

pub open spec fn nav_marks(p: Panel, i: int, s: int) -> Seq<Mark> {
    let ny = (12 + i * 44) as u32;
    let accent = accent_rgb(p.settings.accent, 0);
    let hovered = in_span(p.cursor.0, 8, 132) && in_span(p.cursor.1, ny as int, ny + 36);
    let selected = p.page == nav_page(i);
    seq![
        Mark::Round(
            8,
            ny,
            124,
            36,
            4,
            if selected {
                NAV_SELECTED
            } else if hovered {
                NAV_HOVER
            } else {
                SIDEBAR_BG
            },
        ),
    ] + (if selected {
        seq![Mark::Round(8, (ny + 8) as u32, 3, 20, 2, accent)]
    } else {
        Seq::empty()
    }) + seq![
        Mark::Text(
            18,
            (ny + (36 - 8 * s) / 2) as u32,
            nav_label(i),
            if selected {
                TEXT
            } else {
                TEXT_DIM
            },
        ),
    ]
}

pub open spec fn sidebar_marks(p: Panel, s: int) -> Seq<Mark> {
    seq![
        Mark::Rect(0, 0, 140, panel_height(s) as u32, SIDEBAR_BG),
        Mark::Rect(139, 0, 1, panel_height(s) as u32, DIVIDER),
    ] + nav_marks(p, 0, s) + nav_marks(p, 1, s) + nav_marks(p, 2, s)
}

/// An option row: its card, a radio circle, and a label.
pub open spec fn option_marks(p: Panel, y: u32, selected: bool, label: Seq<char>, s: int) -> Seq<
    Mark,
> {
    let accent = accent_rgb(p.settings.accent, 0);
    let rh = row_height(s);
    let hovered = in_span(p.cursor.0, 156, 464) && in_span(p.cursor.1, y as int, y + rh);
    let ry = (y + (rh - 12) / 2) as u32;
    seq![
        Mark::Round(
            156,
            y,
            308,
            rh as u32,
            6,
            if selected {
                over(accent, ROW_BG, 45)
            } else if hovered {
                ROW_HOVER
            } else {
                ROW_BG
            },
        ),
    ] + (if selected {
        seq![
            Mark::Round(156, y, 308, 1, 1, accent),
            Mark::Round(168, ry, 12, 12, 6, accent),
            Mark::Round(172, (ry + 4) as u32, 4, 4, 2, TEXT),
        ]
    } else {
        seq![Mark::Round(168, ry, 12, 12, 6, 0x5A5A5Au32)]
    }) + seq![Mark::Text(190, (y + (rh - 8 * s) / 2) as u32, label, TEXT)]
}

pub open spec fn size_text(w: u32, h: u32) -> Seq<char> {
    dec(w as nat) + " x "@ + dec(h as nat)
}

pub open spec fn resolution_marks(p: Panel, n: nat, s: int) -> Seq<Mark>
    decreases n,
{
    if n == 0 {
        Seq::empty()
    } else {
        let (w, h) = offered(p.native, 6)[n - 1];
        let chosen = match p.settings.resolution {
            Some(r) => r,
            None => p.native,
        };
        resolution_marks(p, (n - 1) as nat, s) + option_marks(
            p,
            (resolution_top(s) + (n - 1) * row_height(s)) as u32,
            (w, h) == chosen,
            size_text(w, h),
            s,
        )
    }
}

pub open spec fn system_marks(p: Panel, s: int) -> Seq<Mark> {
    let ft = font_top(p.native, s);
    seq![
        Mark::Text(156, 12, "Display"@, TEXT),
        Mark::Text(156, content_top(s) as u32, "Resolution"@, TEXT_DIM),
    ] + resolution_marks(p, offered(p.native, 6).len(), s) + seq![
        Mark::Text(156, (ft - label_height(s)) as u32, "Font size"@, TEXT_DIM),
    ] + option_marks(p, ft as u32, p.settings.font == 100, "100%  (Default)"@, s) + option_marks(
        p,
        (ft + row_height(s)) as u32,
        p.settings.font == 200,
        "200%  (Large)"@,
        s,
    ) + seq![
        Mark::Text(
            156,
            (ft + 2 * row_height(s) + 12) as u32,
            "Screen: "@ + size_text(p.native.0, p.native.1),
            TEXT_DIM,
        ),
    ]
}

pub open spec fn swatch_marks(p: Panel, i: int, s: int) -> Seq<Mark> {
    let sx = (156 + i * 40) as u32;
    let yy = resolution_top(s) as u32;
    let selected = p.settings.accent == ACCENT_COLORS@[i].0@;
    let hovered = in_span(p.cursor.0, sx as int, sx + 28) && in_span(
        p.cursor.1,
        yy as int,
        yy + 28,
    );
    (if selected || hovered {
        seq![
            Mark::Round(
                (sx - 3) as u32,
                (yy - 3) as u32,
                34,
                34,
                8,
                if selected {
                    TEXT
                } else {
                    0x4A4A4A
                },
            ),
        ]
    } else {
        Seq::empty()
    }) + seq![Mark::Round(sx, yy, 28, 28, 6, ACCENT_COLORS@[i].1)]
}

pub open spec fn swatches(p: Panel, n: nat, s: int) -> Seq<Mark>
    decreases n,
{
    if n == 0 {
        Seq::empty()
    } else {
        swatches(p, (n - 1) as nat, s) + swatch_marks(p, n - 1, s)
    }
}

pub open spec fn toggle_marks(p: Panel, y: u32, on: bool) -> Seq<Mark> {
    let accent = accent_rgb(p.settings.accent, 0);
    let hovered = in_span(p.cursor.0, 280, 324) && in_span(p.cursor.1, y as int, y + 22);
    seq![
        Mark::Round(
            280,
            y,
            44,
            22,
            11,
            if on {
                accent
            } else {
                TOGGLE_OFF
            },
        ),
        Mark::Round(
            if on {
                304
            } else {
                282
            },
            (y + 2) as u32,
            18,
            18,
            9,
            0xFFFFFFu32,
        ),
    ] + (if hovered {
        seq![Mark::Round(278, (y - 2) as u32, 48, 26, 13, 0x4A4A4Au32)]
    } else {
        Seq::empty()
    })
}

pub open spec fn personal_marks(p: Panel, s: int) -> Seq<Mark> {
    let w = wallpaper_row(s) as u32;
    let t = tasks_row(s) as u32;
    seq![
        Mark::Text(156, 12, "Personalization"@, TEXT),
        Mark::Text(156, content_top(s) as u32, "Accent color"@, TEXT_DIM),
    ] + swatches(p, 5, s) + seq![Mark::Text(156, w, "Wallpaper"@, TEXT)] + toggle_marks(
        p,
        (w + 2) as u32,
        p.settings.wallpaper,
    ) + seq![Mark::Text(156, t, "Show background tasks"@, TEXT)] + toggle_marks(
        p,
        (t + 2) as u32,
        p.settings.tasks,
    )
}

pub open spec fn about_marks(p: Panel, n: nat, s: int) -> Seq<Mark>
    decreases n,
{
    if n == 0 {
        seq![Mark::Text(156, 12, "About"@, TEXT)]
    } else {
        about_marks(p, (n - 1) as nat, s).push(
            Mark::Text(
                156,
                (content_top(s) + 4 + (n - 1) * label_height(s)) as u32,
                p.about[n - 1],
                TEXT_DIM,
            ),
        )
    }
}

pub open spec fn page_marks(p: Panel, s: int) -> Seq<Mark> {
    match p.page {
        Page::System => system_marks(p, s),
        Page::Personalization => personal_marks(p, s),
        Page::About => about_marks(p, p.about.len(), s),
    }
}

/// Everything the window shows.
pub open spec fn panel_marks(p: Panel, s: int) -> Seq<Mark> {
    seq![Mark::Rect(0, 0, WIDTH, panel_height(s) as u32, BG)] + sidebar_marks(p, s) + page_marks(
        p,
        s,
    ) + seq![
        Mark::Text(
            156,
            (panel_height(s) - 8 * s - 8) as u32,
            if p.saved {
                "Settings saved"@
            } else {
                "Failed to save"@
            },
            TEXT_DIM,
        ),
    ]
}

fn within(v: i32, from: u32, to: u32) -> (r: bool)
    requires
        from <= 0x7FFF_FFFF,
        to <= 0x7FFF_FFFF,
    ensures
        r == in_span(v, from as int, to as int),
{
    from as i32 <= v && v < to as i32
}

fn size_chars(w: u32, h: u32) -> (r: Vec<char>)
    ensures
        r@ == size_text(w, h),
{
    let mut out: Vec<char> = Vec::new();
    push_dec(&mut out, w as u64);
    push_str(&mut out, " x ");
    push_dec(&mut out, h as u64);
    assert(out@ =~= size_text(w, h));
    out
}

impl SettingsApp {
    pub closed spec fn wf(&self) -> bool {
        self.canvas.ok() && 40 + 22 * self.about_lines@.len() <= u32::MAX
    }

    /// What the window's pixels show.
    pub closed spec fn shown(&self) -> Pic {
        self.canvas.pic()
    }

    /// Whether the pixels show the state.
    pub open spec fn up_to_date(&self, font: &Font) -> bool {
        self.shown() == picture(
            WIDTH as int,
            panel_height(font.factor() as int),
            BG,
            panel_marks(self@, font.factor() as int),
            font.bits(),
            font.factor() as int,
        )
    }

    fn nav(&self, scene: &mut Scene, i: u32, label: &str, page: Page, accent: u32, s: u32)
        requires
            i < 3,
            1 <= s <= 2,
            label@ == nav_label(i as int),
            page == nav_page(i as int),
            accent == accent_rgb(self@.settings.accent, 0),
        ensures
            final(scene)@ == old(scene)@ + nav_marks(self@, i as int, s as int),
    {
        let ny = 12 + i * 44;
        let hovered = within(self.cursor.0, 8, 132) && within(self.cursor.1, ny, ny + 36);
        let selected = self.page == page;
        scene.round(
            8,
            ny,
            124,
            36,
            4,
            if selected {
                NAV_SELECTED
            } else if hovered {
                NAV_HOVER
            } else {
                SIDEBAR_BG
            },
        );
        if selected {
            scene.round(8, ny + 8, 3, 20, 2, accent);
        }
        scene.text(18, ny + (36 - 8 * s) / 2, label, if selected { TEXT } else { TEXT_DIM });
        assert(scene@ =~= old(scene)@ + nav_marks(self@, i as int, s as int));
    }

    fn render_sidebar(&self, scene: &mut Scene, accent: u32, s: u32)
        requires
            1 <= s <= 2,
            accent == accent_rgb(self@.settings.accent, 0),
        ensures
            final(scene)@ == old(scene)@ + sidebar_marks(self@, s as int),
    {
        let h = 380 + (s - 1) * 180;
        scene.rect(0, 0, 140, h, SIDEBAR_BG);
        scene.rect(139, 0, 1, h, DIVIDER);
        self.nav(scene, 0, "System", Page::System, accent, s);
        self.nav(scene, 1, "Personalization", Page::Personalization, accent, s);
        self.nav(scene, 2, "About", Page::About, accent, s);
        assert(scene@ =~= old(scene)@ + sidebar_marks(self@, s as int));
    }

    fn option_row(&self, scene: &mut Scene, y: u32, accent: u32, selected: bool, label: Vec<char>, s: u32)
        requires
            1 <= s <= 2,
            y <= 0x1_0000,
            accent == accent_rgb(self@.settings.accent, 0),
        ensures
            final(scene)@ == old(scene)@ + option_marks(self@, y, selected, label@, s as int),
    {
        let rh = 8 * s + 12;
        let hovered = within(self.cursor.0, 156, 464) && within(self.cursor.1, y, y + rh);
        let bg = if selected {
            blend(accent, ROW_BG, 45)
        } else if hovered {
            ROW_HOVER
        } else {
            ROW_BG
        };
        scene.round(156, y, 308, rh, 6, bg);
        if selected {
            scene.round(156, y, 308, 1, 1, accent);
        }
        let ry = y + (rh - 12) / 2;
        scene.round(168, ry, 12, 12, 6, if selected { accent } else { 0x5A5A5A });
        if selected {
            scene.round(172, ry + 4, 4, 4, 2, TEXT);
        }
        let ghost l = label@;
        scene.chars(190, y + (rh - 8 * s) / 2, label, TEXT);
        assert(scene@ =~= old(scene)@ + option_marks(self@, y, selected, l, s as int));
    }

    fn render_system(&self, scene: &mut Scene, accent: u32, s: u32)
        requires
            1 <= s <= 2,
            accent == accent_rgb(self@.settings.accent, 0),
        ensures
            final(scene)@ == old(scene)@ + system_marks(self@, s as int),
    {
        let rh = 8 * s + 12;
        scene.text(156, 12, "Display", TEXT);
        let top = 20 + 8 * s;
        scene.text(156, top, "Resolution", TEXT_DIM);
        let list = supported_resolutions(self.native);
        let chosen = match self.settings.resolution {
            Some(r) => r,
            None => self.native,
        };
        let first = top + 8 * s + 6;
        let ghost start = scene@;
        let ghost p = self@;
        let mut i: usize = 0;
        assert(scene@ =~= start + resolution_marks(p, 0, s as int));
        while i < list.len()
            invariant
                i <= list@.len() <= 6,
                1 <= s <= 2,
                p == self@,
                list@ == offered(p.native, 6),
                rh == row_height(s as int),
                first == resolution_top(s as int),
                accent == accent_rgb(self@.settings.accent, 0),
                chosen == match p.settings.resolution {
                    Some(r) => r,
                    None => p.native,
                },
                scene@ == start + resolution_marks(p, i as nat, s as int),
            decreases list@.len() - i,
        {
            let (w, h) = list[i];
            assert(i * rh <= 6 * 28) by (nonlinear_arith)
                requires
                    i <= 6,
                    0 <= rh <= 28,
            ;
            let y = first + i as u32 * rh;
            let label = size_chars(w, h);
            self.option_row(scene, y, accent, w == chosen.0 && h == chosen.1, label, s);
            i += 1;
            assert(scene@ =~= start + resolution_marks(p, i as nat, s as int));
        }
        assert(i * rh <= 6 * 28) by (nonlinear_arith)
            requires
                i <= 6,
                0 <= rh <= 28,
        ;
        let label_y = first + list.len() as u32 * rh + 10;
        scene.text(156, label_y, "Font size", TEXT_DIM);
        let font_y = label_y + 8 * s + 6;
        let percent = self.settings.font_scale_percent;
        self.option_row(scene, font_y, accent, percent == 100, chars_of("100%  (Default)"), s);
        self.option_row(scene, font_y + rh, accent, percent == 200, chars_of("200%  (Large)"), s);
        let mut size: Vec<char> = Vec::new();
        push_str(&mut size, "Screen: ");
        push_dec(&mut size, self.native.0 as u64);
        push_str(&mut size, " x ");
        push_dec(&mut size, self.native.1 as u64);
        assert(size@ =~= "Screen: "@ + size_text(self.native.0, self.native.1));
        scene.chars(156, font_y + 2 * rh + 12, size, TEXT_DIM);
        assert(scene@ =~= old(scene)@ + system_marks(p, s as int));
    }

    fn draw_toggle(&self, scene: &mut Scene, y: u32, on: bool, accent: u32)
        requires
            2 <= y <= 0x1_0000,
            accent == accent_rgb(self@.settings.accent, 0),
        ensures
            final(scene)@ == old(scene)@ + toggle_marks(self@, y, on),
    {
        let hovered = within(self.cursor.0, 280, 324) && within(self.cursor.1, y, y + 22);
        scene.round(280, y, 44, 22, 11, if on { accent } else { TOGGLE_OFF });
        scene.round(if on { 304 } else { 282 }, y + 2, 18, 18, 9, 0xFFFFFF);
        if hovered {
            scene.round(278, y - 2, 48, 26, 13, 0x4A4A4A);
        }
        assert(scene@ =~= old(scene)@ + toggle_marks(self@, y, on));
    }

    fn render_personalization(&self, scene: &mut Scene, accent: u32, s: u32)
        requires
            1 <= s <= 2,
            accent == accent_rgb(self@.settings.accent, 0),
        ensures
            final(scene)@ == old(scene)@ + personal_marks(self@, s as int),
    {
        scene.text(156, 12, "Personalization", TEXT);
        let top = 20 + 8 * s;
        scene.text(156, top, "Accent color", TEXT_DIM);
        let yy = top + 8 * s + 6;
        let name = chars_of(self.settings.accent_color.as_str());
        let ghost p = self@;
        let ghost start = scene@;
        assert(scene@ =~= start + swatches(p, 0, s as int));
        let mut i: usize = 0;
        while i < 5
            invariant
                i <= 5,
                1 <= s <= 2,
                p == self@,
                name@ == p.settings.accent,
                yy == resolution_top(s as int),
                scene@ == start + swatches(p, i as nat, s as int),
            decreases 5 - i,
        {
            let sx = 156 + i as u32 * 40;
            let selected = is_text(&name, ACCENT_COLORS[i].0);
            let hovered = within(self.cursor.0, sx, sx + 28) && within(self.cursor.1, yy, yy + 28);
            if selected || hovered {
                scene.round(sx - 3, yy - 3, 34, 34, 8, if selected { TEXT } else { 0x4A4A4A });
            }
            scene.round(sx, yy, 28, 28, 6, ACCENT_COLORS[i].1);
            i += 1;
            assert(scene@ =~= start + swatches(p, i as nat, s as int));
        }
        let w = yy + 46;
        scene.text(156, w, "Wallpaper", TEXT);
        self.draw_toggle(scene, w + 2, self.settings.wallpaper, accent);
        let t = w + 38;
        scene.text(156, t, "Show background tasks", TEXT);
        self.draw_toggle(scene, t + 2, self.settings.show_bg_tasks, accent);
        assert(scene@ =~= old(scene)@ + personal_marks(p, s as int));
    }

    fn render_about(&self, scene: &mut Scene, s: u32)
        requires
            self.wf(),
            1 <= s <= 2,
        ensures
            final(scene)@ == old(scene)@ + about_marks(self@, self@.about.len(), s as int),
    {
        scene.text(156, 12, "About", TEXT);
        let ghost p = self@;
        let ghost start = old(scene)@;
        assert(scene@ =~= start + about_marks(p, 0, s as int));
        let mut i: usize = 0;
        while i < self.about_lines.len()
            invariant
                self.wf(),
                i <= self.about_lines@.len(),
                1 <= s <= 2,
                p == self@,
                scene@ == start + about_marks(p, i as nat, s as int),
            decreases self.about_lines@.len() - i,
        {
            assert(0 <= i * (8 * s + 6) <= i * 22) by (nonlinear_arith)
                requires
                    0 <= i,
                    0 <= 8 * s + 6 <= 22,
            ;
            let y = 20 + 8 * s + 4 + i as u32 * (8 * s + 6);
            scene.text(156, y, self.about_lines[i].as_str(), TEXT_DIM);
            i += 1;
            assert(scene@ =~= start + about_marks(p, i as nat, s as int));
        }
    }

    /// Saves the settings and draws the window.
    fn render(&mut self, font: &Font, disk: &mut Mount, now: DateTime)
        requires
            old(self).wf(),
            font.wf(),
            old(disk).wf(),
            fits(old(self)@.settings),
        ensures
            final(self).wf(),
            final(disk).wf(),
            (final(self)@, final(disk)@) == redrawn(old(self)@, old(disk)@, now),
            final(self).up_to_date(font),
    {
        self.saved = self.settings.save(disk, now);
        let s = font.scale();
        let h = 380 + (s - 1) * 180;
        let accent = self.settings.accent_color_rgb();
        let mut scene = Scene::new();
        scene.rect(0, 0, WIDTH, h, BG);
        self.render_sidebar(&mut scene, accent, s);
        match self.page {
            Page::System => self.render_system(&mut scene, accent, s),
            Page::Personalization => self.render_personalization(&mut scene, accent, s),
            Page::About => self.render_about(&mut scene, s),
        }
        scene.text(
            156,
            h - 8 * s - 8,
            if self.saved {
                "Settings saved"
            } else {
                "Failed to save"
            },
            TEXT_DIM,
        );
        assert(scene@ =~= panel_marks(self@, s as int));
        self.canvas = scene.paint(font, WIDTH, h, BG);
    }

    pub fn new(
        settings: Settings,
        about_lines: Vec<String>,
        native: (u32, u32),
        font: &Font,
        disk: &mut Mount,
        now: DateTime,
    ) -> (r: Self)
        requires
            font.wf(),
            old(disk).wf(),
            fits(settings@),
            40 + 22 * about_lines@.len() <= u32::MAX,
        ensures
            r.wf(),
            final(disk).wf(),
            ({
                let p = Panel {
                    settings: settings@,
                    page: Page::System,
                    cursor: (i32::MAX, i32::MAX),
                    about: line_views(about_lines@),
                    native,
                    saved: false,
                };
                (r@, final(disk)@) == redrawn(p, old(disk)@, now)
            }),
            r.up_to_date(font),
    {
        let mut app = SettingsApp {
            canvas: Canvas::new(0, 0, BG),
            settings,
            page: Page::System,
            cursor: (i32::MAX, i32::MAX),
            about_lines,
            native,
            saved: false,
        };
        app.render(font, disk, now);
        app
    }

    pub fn width(&self) -> (r: u32)
        ensures
            r == WIDTH,
    {
        WIDTH
    }

    pub fn height(&self, font: &Font) -> (r: u32)
        requires
            font.wf(),
        ensures
            r == panel_height(font.factor() as int),
    {
        380 + (font.scale() - 1) * 180
    }

    pub fn pixels(&self) -> (r: &Vec<u32>)
        requires
            self.wf(),
        ensures
            r@.len() == self.shown().w * self.shown().h,
            self.shown() == crate::gfx::picture_of(r@, self.shown().w, self.shown().h),
    {
        self.canvas.pixels()
    }

    /// Redraws if the cursor moved, so hover states track the mouse.
    pub fn render_hover(&mut self, font: &Font, disk: &mut Mount, now: DateTime, x: i32, y: i32)
        requires
            old(self).wf(),
            font.wf(),
            old(disk).wf(),
            fits(old(self)@.settings),
        ensures
            final(self).wf(),
            final(disk).wf(),
            (final(self)@, final(disk)@) == if old(self)@.cursor == (x, y) {
                (old(self)@, old(disk)@)
            } else {
                redrawn(Panel { cursor: (x, y), ..old(self)@ }, old(disk)@, now)
            },
            old(self).up_to_date(font) || old(self)@.cursor != (x, y) ==> final(self).up_to_date(
                font,
            ),
    {
        if self.cursor.0 != x || self.cursor.1 != y {
            self.cursor = (x, y);
            self.render(font, disk, now);
        }
    }

    pub fn settings(&self) -> (r: &Settings)
        ensures
            r@ == self@.settings,
    {
        &self.settings
    }

    /// What a click on the system page chooses; the settings are changed.
    fn handle_system_click(&mut self, x: u32, y: u32, s: u32) -> (r: SettingsChange)
        requires
            old(self).wf(),
            1 <= s <= 2,
        ensures
            final(self).wf(),
            final(self).shown() == old(self).shown(),
            ({
                let (c, change) = system_choice(old(self)@, x as int, y as int, s as int);
                r == change && final(self)@ == (Panel { settings: c, ..old(self)@ })
            }),
    {
        let rh = 8 * s + 12;
        let list = supported_resolutions(self.native);
        let n = list.len() as u32;
        assert(0 <= n * rh <= 6 * 28) by (nonlinear_arith)
            requires
                0 <= n <= 6,
                0 <= rh <= 28,
        ;
        let top = 20 + 8 * s + 8 * s + 6;
        if x < 16 || x >= 324 {
            return SettingsChange::Nothing;
        }
        if y >= top && y < top + n * rh {
            let i = (y - top) / rh;
            proof {
                assert(i < n) by (nonlinear_arith)
                    requires
                        i == (y - top) / rh as int,
                        0 <= y - top < n * rh,
                        rh > 0,
                ;
            }
            let (w, h) = list[i as usize];
            let next = if w == self.native.0 && h == self.native.1 { None } else { Some((w, h)) };
            if self.settings.resolution == next {
                return SettingsChange::Nothing;
            }
            self.settings.resolution = next;
            return SettingsChange::Resolution(w, h);
        }
        let font_y = top + n * rh + 10 + 8 * s + 6;
        if y >= font_y && y < font_y + 2 * rh {
            let percent: u16 = if (y - font_y) / rh == 0 { 100 } else { 200 };
            if self.settings.font_scale_percent == percent {
                return SettingsChange::Nothing;
            }
            self.settings.font_scale_percent = percent;
            return SettingsChange::FontScale((percent / 100) as u8);
        }
        SettingsChange::Nothing
    }

    /// What a click on the personalization page chooses; the settings are
    /// changed.
    fn handle_personalization_click(&mut self, x: u32, y: u32, s: u32) -> (r: SettingsChange)
        requires
            old(self).wf(),
            1 <= s <= 2,
        ensures
            final(self).wf(),
            final(self).shown() == old(self).shown(),
            ({
                let (c, change) = personal_choice(old(self)@, x as int, y as int, s as int);
                r == change && final(self)@ == (Panel { settings: c, ..old(self)@ })
            }),
    {
        let yy = 20 + 8 * s + 8 * s + 6;
        if y >= yy && y < yy + 28 && x >= 156 && x < 356 && (x - 156) % 40 < 28 {
            let i = ((x - 156) / 40) as usize;
            let name = chars_of(self.settings.accent_color.as_str());
            if is_text(&name, ACCENT_COLORS[i].0) {
                return SettingsChange::Nothing;
            }
            let chosen = chars_of(ACCENT_COLORS[i].0);
            self.settings.accent_color = string_of(&chosen);
            return SettingsChange::Reload;
        }
        if self.toggle_hit(x, y, yy + 46) {
            self.settings.wallpaper = !self.settings.wallpaper;
            return SettingsChange::Reload;
        }
        if self.toggle_hit(x, y, yy + 84) {
            self.settings.show_bg_tasks = !self.settings.show_bg_tasks;
            return SettingsChange::Reload;
        }
        SettingsChange::Nothing
    }

    fn toggle_hit(&self, x: u32, y: u32, row_y: u32) -> (r: bool)
        requires
            row_y <= 0x1_0000,
        ensures
            r == on_toggle(x as int, y as int, row_y as int),
    {
        y >= row_y + 2 && y < row_y + 24 && x >= 280 && x < 324
    }

    /// Hit-test and apply a click inside the app's content area.
    pub fn handle_click(&mut self, font: &Font, disk: &mut Mount, now: DateTime, x: i32, y: i32) -> (r:
        SettingsChange)
        requires
            old(self).wf(),
            font.wf(),
            old(disk).wf(),
            fits(old(self)@.settings),
            fits(clicked(old(self)@, old(disk)@, x as int, y as int, font.factor() as int, now).0.settings),
        ensures
            final(self).wf(),
            final(disk).wf(),
            (final(self)@, final(disk)@, r) == clicked(
                old(self)@,
                old(disk)@,
                x as int,
                y as int,
                font.factor() as int,
                now,
            ),
            old(self).up_to_date(font) ==> final(self).up_to_date(font),
    {
        if x < 0 || y < 0 {
            return SettingsChange::Nothing;
        }
        let (x, y) = (x as u32, y as u32);
        let s = font.scale();
        if x < SIDEBAR_W {
            let page = if y >= 12 && y < 48 {
                Page::System
            } else if y >= 56 && y < 92 {
                Page::Personalization
            } else if y >= 100 && y < 136 {
                Page::About
            } else {
                return SettingsChange::Nothing;
            };
            self.page = page;
            self.render(font, disk, now);
            return SettingsChange::Nothing;
        }
        let cx = x - SIDEBAR_W;
        let change = match self.page {
            Page::System => self.handle_system_click(cx, y, s),
            Page::Personalization => self.handle_personalization_click(cx, y, s),
            Page::About => SettingsChange::Nothing,
        };
        if change != SettingsChange::Nothing {
            self.settings.save(disk, now);
            self.render(font, disk, now);
        }
        change
    }
}

// ---------------------------------------------------------------------
// About
// ---------------------------------------------------------------------

/// What the About page is told about the machine.
pub struct Machine {
    pub vendor: [u8; 12],
    pub brand: Option<[u8; 48]>,
    pub memory_lower_kb: Option<u32>,
    pub memory_upper_kb: Option<u32>,
    pub display: (u32, u32),
    pub heap_used: u64,
    pub heap_total: u64,
}

/// Text, or a stand-in for bytes that are none.
pub open spec fn text_or(b: Seq<u8>, other: Seq<char>) -> Seq<char> {
    if valid_utf8(b) {
        decode_utf8(b)
    } else {
        other
    }
}

/// The text without white space at its end.
pub open spec fn end_trimmed(s: Seq<char>) -> Seq<char> {
    s.take(last_ink(s, s.len() as int))
}

pub open spec fn brand_lines(m: Machine) -> Seq<Seq<char>> {
    match m.brand {
        Some(b) => {
            let t = end_trimmed(text_or(b@, Seq::empty()));
            if t.len() > 0 {
                seq![t]
            } else {
                Seq::empty()
            }
        },
        None => Seq::empty(),
    }
}

pub open spec fn memory_lines(m: Machine) -> Seq<Seq<char>> {
    match (m.memory_lower_kb, m.memory_upper_kb) {
        (Some(a), Some(b)) => seq!["Memory: "@ + dec((a + b) as nat) + " KiB"@],
        _ => Seq::empty(),
    }
}

pub open spec fn about_text(m: Machine) -> Seq<Seq<char>> {
    seq!["MachaOS v0.1.0"@, "CPU: "@ + text_or(m.vendor@, "unknown"@)] + brand_lines(m)
        + memory_lines(m) + seq![
        "Display: "@ + dec(m.display.0 as nat) + "x"@ + dec(m.display.1 as nat) + "x32"@,
        "Heap: "@ + dec(m.heap_used as nat / 1024) + " / "@ + dec(m.heap_total as nat / 1024)
            + " KiB"@,
    ]
}

fn text_of(b: &[u8], other: &str) -> (r: String)
    ensures
        r@ == text_or(b@, other@),
{
    match utf8(b) {
        Some(s) => s,
        None => {
            let chars = chars_of(other);
            string_of(&chars)
        },
    }
}

/// The lines of the About page.
pub fn build_about_lines(m: &Machine) -> (r: Vec<String>)
    ensures
        line_views(r@) == about_text(*m),
        r@.len() <= 1000,
{
    let mut lines: Vec<String> = Vec::new();
    let first = chars_of("MachaOS v0.1.0");
    lines.push(string_of(&first));
    let mut cpu: Vec<char> = Vec::new();
    push_str(&mut cpu, "CPU: ");
    let vendor = text_of(&m.vendor, "unknown");
    push_str(&mut cpu, vendor.as_str());
    assert(cpu@ =~= "CPU: "@ + text_or(m.vendor@, "unknown"@));
    lines.push(string_of(&cpu));
    let ghost two = line_views(lines@);
    if let Some(b) = &m.brand {
        let text = text_of(b, "");
        proof {
            reveal_strlit("");
            assert(""@ =~= Seq::<char>::empty());
        }
        let chars = chars_of(text.as_str());
        let t = trim_end(&chars);
        if t.len() > 0 {
            lines.push(string_of(&t));
        }
    }
    assert(line_views(lines@) =~= two + brand_lines(*m));
    let ghost three = line_views(lines@);
    if let (Some(a), Some(b)) = (m.memory_lower_kb, m.memory_upper_kb) {
        let mut memory: Vec<char> = Vec::new();
        push_str(&mut memory, "Memory: ");
        push_dec(&mut memory, a as u64 + b as u64);
        push_str(&mut memory, " KiB");
        assert(memory@ =~= "Memory: "@ + dec((a + b) as nat) + " KiB"@);
        lines.push(string_of(&memory));
    }
    assert(line_views(lines@) =~= three + memory_lines(*m));
    let mut display: Vec<char> = Vec::new();
    push_str(&mut display, "Display: ");
    push_dec(&mut display, m.display.0 as u64);
    push_str(&mut display, "x");
    push_dec(&mut display, m.display.1 as u64);
    push_str(&mut display, "x32");
    assert(display@ =~= "Display: "@ + dec(m.display.0 as nat) + "x"@ + dec(m.display.1 as nat)
        + "x32"@);
    lines.push(string_of(&display));
    let mut heap: Vec<char> = Vec::new();
    push_str(&mut heap, "Heap: ");
    push_dec(&mut heap, m.heap_used / 1024);
    push_str(&mut heap, " / ");
    push_dec(&mut heap, m.heap_total / 1024);
    push_str(&mut heap, " KiB");
    assert(heap@ =~= "Heap: "@ + dec(m.heap_used as nat / 1024) + " / "@ + dec(
        m.heap_total as nat / 1024,
    ) + " KiB"@);
    lines.push(string_of(&heap));
    assert(line_views(lines@) =~= about_text(*m));
    lines
}

/// Takes white space off the end.
fn trim_end(s: &Vec<char>) -> (r: Vec<char>)
    ensures
        r@ == end_trimmed(s@),
{
    let mut n: usize = s.len();
    while n > 0 && space(s[n - 1])
        invariant
            n <= s@.len(),
            last_ink(s@, s@.len() as int) == last_ink(s@, n as int),
        decreases n,
    {
        n -= 1;
    }
    let r = crate::text::part(s, 0, n);
    assert(r@ =~= end_trimmed(s@));
    r
}

} // verus!
