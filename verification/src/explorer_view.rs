//! The picture of the file explorer's window.

use crate::explorer_model::{
    build_sidebar, button_span, crumb_layout, crumb_views, crumbs, drop_target, is_picked, least,
    max_scroll, maybe, path_of, side_views, sidebar_rows, thumb, toolbar_button_rect, Bread,
    Explorer, Layout, Model, ToolbarAction,
};
use crate::explorer_names::{
    elf_name, file_type, fmt_size, is_elf, join, kind_of, size_text, starts, starts_with, Listed,
};
use crate::scene::{Mark, Scene};
use crate::text::{chars_of, dec, part, push_dec, push_str, push_word, same};
use vstd::prelude::*;
use vstd::utf8::encode_utf8;

verus! {

pub const BG: u32 = 0x1F1F1F;

pub const LIST_BG: u32 = 0x1C1C1C;

pub const SIDEBAR_BG: u32 = 0x1A1A1A;

pub const PATH_BG: u32 = 0x252525;

pub const TOOLBAR_BG: u32 = 0x232323;

pub const STATUS_BG: u32 = 0x242424;

pub const HEADER_BG: u32 = 0x242424;

pub const TEXT: u32 = 0xFFFFFF;

pub const TEXT_DIM: u32 = 0x9A9A9A;

pub const TEXT_FAINT: u32 = 0x6A6A6A;

pub const DIR_TEXT: u32 = 0xF0C070;

pub const ELF_TEXT: u32 = 0x86C77B;

pub const SELECTED_TOP: u32 = 0x3A3A3A;

pub const SELECTED_BOTTOM: u32 = 0x333333;

pub const HOVER_BG: u32 = 0x2A2A2A;

pub const CRUMB_BG: u32 = 0x2C2C2C;

pub const ACCENT: u32 = 0x4CC2FF;

pub const SCROLL_TRACK: u32 = 0x202020;

pub const SCROLL_THUMB: u32 = 0x3A3A3A;

pub const BTN: u32 = 0x2C2C2C;

pub const BTN_HOVER: u32 = 0x343434;

pub const BTN_EDGE: u32 = 0x1A1A1A;

pub const ICON_FOLDER: u32 = 0xF0C070;

pub const ICON_FILE: u32 = 0xBBC8D4;

pub const ICON_ELF: u32 = 0x86C77B;

pub const STATUS_TEXT: u32 = 0x9AB8D8;

pub const STATUS_TEXT_BAD: u32 = 0xE06060;

pub const HEADER_FG: u32 = 0x9AA8B5;

pub const ICON: u32 = 0xDBE6F0;

pub open spec fn within(v: i32, from: int, to: int) -> bool {
    from <= v < to
}

fn inside(v: i32, from: u32, to: u32) -> (r: bool)
    requires
        from <= 0x7FFF_FFFF,
        to <= 0x7FFF_FFFF,
    ensures
        r == within(v, from as int, to as int),
{
    from as i32 <= v && v < to as i32
}

/// Where a dragged entry would be dropped.
pub open spec fn hot(x: Explorer) -> Option<Seq<char>> {
    if x.drag is Some {
        drop_target(x, x.cursor.0 as int, x.cursor.1 as int)
    } else {
        None
    }
}

fn hot_target(m: &Model) -> (r: Option<Vec<char>>)
    requires
        m.wf(),
    ensures
        maybe(r) == hot(m@),
{
    if m.drag.is_some() {
        m.drop_target_at(m.cursor.0, m.cursor.1)
    } else {
        None
    }
}

fn is_hot(target: &Option<Vec<char>>, path: &Vec<char>) -> (r: bool)
    ensures
        r == (maybe(*target) == Some(path@)),
{
    match target {
        Some(t) => same(t, path),
        None => false,
    }
}

/// A character's width: wide ones take two glyphs.
pub open spec fn char_width(c: char, s: int) -> int {
    if (c as u32) < 128 {
        8 * s
    } else {
        16 * s
    }
}

/// A text's width; beyond any screen it counts no further.
pub open spec fn text_width(t: Seq<char>, s: int) -> int
    decreases t.len(),
{
    if t.len() == 0 {
        0
    } else {
        least(text_width(t.drop_last(), s) + char_width(t.last(), s), 0x1_0000)
    }
}

fn width_of(t: &Vec<char>, s: u32) -> (r: u32)
    requires
        1 <= s <= 2,
    ensures
        r == text_width(t@, s as int),
        r <= 0x1_0000,
{
    let mut w: u32 = 0;
    let mut i: usize = 0;
    assert(t@.take(0) =~= Seq::<char>::empty());
    while i < t.len()
        invariant
            1 <= s <= 2,
            i <= t@.len(),
            w <= 0x1_0000,
            w == text_width(t@.take(i as int), s as int),
        decreases t@.len() - i,
    {
        assert(t@.take(i + 1).drop_last() =~= t@.take(i as int));
        assert(t@.take(i + 1).last() == t@[i as int]);
        let c = t[i];
        let n = w + (if (c as u32) < 128 { 8 * s } else { 16 * s });
        w = if n > 0x1_0000 { 0x1_0000 } else { n };
        i += 1;
    }
    assert(t@.take(i as int) =~= t@);
    w
}

proof fn lemma_width_bound(t: Seq<char>, s: int)
    requires
        1 <= s <= 2,
    ensures
        0 <= text_width(t, s) <= t.len() * (16 * s),
    decreases t.len(),
{
    if t.len() > 0 {
        lemma_width_bound(t.drop_last(), s);
        assert(t.len() * (16 * s) == (t.len() - 1) * (16 * s) + 16 * s) by (nonlinear_arith);
    }
}

// ---------------------------------------------------------------------
// Sidebar
// ---------------------------------------------------------------------

/// One row of the sidebar at `y`.
pub open spec fn side_marks(x: Explorer, label: Seq<char>, target: Seq<char>, y: u32) -> Seq<Mark> {
    if target.len() == 0 {
        seq![Mark::Text(10, y, label, TEXT_FAINT)]
    } else {
        let active = x.path == target;
        let hovered = within(x.cursor.1, y as int, y + 16) && within(x.cursor.0, 2, 126);
        (if active {
            seq![
                Mark::Round(4, y, 120, 16, 4, 0x22334Au32),
                Mark::Rect(4, (y + 3) as u32, 2, 10, ACCENT),
            ]
        } else if hovered {
            seq![Mark::Round(4, y, 120, 16, 4, 0x1E2A36u32)]
        } else {
            Seq::empty()
        }) + (if hovered && hot(x) == Some(target) {
            seq![
                Mark::Rect(4, (y + 2) as u32, 2, 12, ACCENT),
                Mark::Rect(120, (y + 2) as u32, 2, 12, ACCENT),
            ]
        } else {
            Seq::empty()
        }) + seq![Mark::Text(12, (y + 4) as u32, label, TEXT)]
    }
}

/// Where row `n` of the sidebar is.
pub open spec fn side_y(rows: Seq<(Seq<char>, Seq<char>)>, n: nat) -> int
    decreases n,
{
    if n == 0 {
        56
    } else {
        side_y(rows, (n - 1) as nat) + (if rows[n - 1].1.len() == 0 {
            14int
        } else {
            18
        })
    }
}

pub open spec fn side_rows_marks(x: Explorer, n: nat) -> Seq<Mark>
    decreases n,
{
    if n == 0 {
        seq![Mark::Rect(0, 50, 128, 374, SIDEBAR_BG), Mark::Rect(127, 50, 1, 374, 0x0A1016u32)]
    } else {
        let rows = sidebar_rows(x.homes);
        side_rows_marks(x, (n - 1) as nat) + side_marks(
            x,
            rows[n - 1].0,
            rows[n - 1].1,
            side_y(rows, (n - 1) as nat) as u32,
        )
    }
}

fn render_sidebar(m: &Model, scene: &mut Scene)
    requires
        m.wf(),
    ensures
        final(scene)@ == old(scene)@ + side_rows_marks(m@, 13),
{
    scene.rect(0, 50, 128, 374, SIDEBAR_BG);
    scene.rect(127, 50, 1, 374, 0x0A1016);
    let hot_now = hot_target(m);
    let sidebar = build_sidebar(&m.places);
    let ghost x = m@;
    let ghost rows = sidebar_rows(x.homes);
    let ghost start = old(scene)@;
    assert(side_views(sidebar@).len() == 13);
    assert(scene@ =~= start + side_rows_marks(x, 0));
    let mut y: u32 = 56;
    let mut i: usize = 0;
    while i < 13
        invariant
            m.wf(),
            x == m@,
            i <= 13,
            sidebar@.len() == 13,
            rows == sidebar_rows(x.homes),
            side_views(sidebar@) == rows,
            y == side_y(rows, i as nat),
            y <= 56 + 18 * i,
            maybe(hot_now) == hot(x),
            scene@ == start + side_rows_marks(x, i as nat),
        decreases 13 - i,
    {
        let e = &sidebar[i];
        assert(rows[i as int] == (e.label@, e.target@));
        let label = part(&e.label, 0, e.label.len());
        assert(label@ =~= e.label@);
        let ghost before = scene@;
        if e.target.len() == 0 {
            scene.chars(10, y, label, TEXT_FAINT);
            assert(scene@ =~= before + side_marks(x, e.label@, e.target@, y));
            y += 14;
        } else {
            let active = same(&m.path, &e.target);
            let hovered = inside(m.cursor.1, y, y + 16) && inside(m.cursor.0, 2, 126);
            if active {
                scene.round(4, y, 120, 16, 4, 0x22334A);
                scene.rect(4, y + 3, 2, 10, ACCENT);
            } else if hovered {
                scene.round(4, y, 120, 16, 4, 0x1E2A36);
            }
            if hovered && is_hot(&hot_now, &e.target) {
                scene.rect(4, y + 2, 2, 12, ACCENT);
                scene.rect(120, y + 2, 2, 12, ACCENT);
            }
            scene.chars(12, y + 4, label, TEXT);
            assert(scene@ =~= before + side_marks(x, e.label@, e.target@, y));
            y += 18;
        }
        i += 1;
        assert(scene@ =~= start + side_rows_marks(x, i as nat));
    }
}

// ---------------------------------------------------------------------
// Toolbar
// ---------------------------------------------------------------------

/// The icon of a toolbar button.
pub open spec fn icon_marks(a: ToolbarAction, x: u32, y: u32) -> Seq<Mark> {
    let r = |dx: int, dy: int, w: u32, h: u32, c: u32|
        Mark::Rect((x + dx) as u32, (y + dy) as u32, w, h, c);
    let l = |a: int, b: int, c: int, d: int|
        Mark::Line((x + a) as u32, (y + b) as u32, (x + c) as u32, (y + d) as u32, ICON);
    match a {
        ToolbarAction::Up => seq![r(7, 1, 2, 9, ICON), l(1, 7, 7, 1), l(15, 7, 9, 1)],
        ToolbarAction::New => seq![
            r(1, 5, 6, 2, ICON),
            r(7, 3, 6, 2, ICON),
            r(0, 7, 16, 7, ICON),
            r(2, 8, 12, 5, BG),
            r(11, 8, 3, 2, ICON),
            r(12, 7, 1, 4, ICON),
        ],
        ToolbarAction::NewFile => seq![
            r(4, 0, 8, 12, ICON),
            r(5, 1, 6, 10, BG),
            r(6, 3, 4, 1, ICON),
            r(6, 6, 4, 1, ICON),
            r(6, 9, 4, 1, ICON),
            r(11, 4, 4, 6, ICON),
            r(12, 3, 2, 8, ICON),
        ],
        ToolbarAction::Del => seq![
            r(2, 0, 12, 2, ICON),
            r(5, 2, 2, 2, ICON),
            r(9, 2, 2, 2, ICON),
            r(3, 4, 10, 10, ICON),
            r(5, 6, 2, 6, BG),
            r(9, 6, 2, 6, BG),
        ],
        ToolbarAction::Refresh => seq![
            r(1, 1, 14, 3, ICON),
            r(1, 10, 14, 3, ICON),
            r(1, 1, 3, 7, ICON),
            r(12, 6, 3, 7, ICON),
            l(1, 7, 5, 3),
            l(13, 11, 11, 13),
            l(12, 13, 14, 13),
        ],
        ToolbarAction::ToggleView => Seq::empty(),
    }
}

/// A button's plate.
pub open spec fn plate_marks(x: Explorer, a: ToolbarAction) -> Seq<Mark> {
    let (bx, bw) = button_span(a);
    let hovered = within(x.cursor.0, bx as int, bx + bw) && within(x.cursor.1, 27, 47);
    let c = if hovered {
        BTN_HOVER
    } else {
        BTN
    };
    seq![
        Mark::RoundShade(bx, 27, bw, 20, 4, c, c),
        Mark::Rect((bx + 1) as u32, 46, (bw - 2) as u32, 1, BTN_EDGE),
    ]
}

pub open spec fn button_marks(x: Explorer, a: ToolbarAction) -> Seq<Mark> {
    let (bx, bw) = button_span(a);
    plate_marks(x, a) + icon_marks(a, (bx + (bw - 16) / 2) as u32, 30)
}

pub open spec fn toggle_label(x: Explorer) -> Seq<char> {
    match x.layout {
        Layout::Details => "Icons"@,
        Layout::Grid => "List"@,
    }
}

pub open spec fn toolbar_marks(x: Explorer, s: int) -> Seq<Mark> {
    let w = text_width(toggle_label(x), s);
    seq![Mark::Rect(0, 24, 700, 26, TOOLBAR_BG), Mark::Rect(0, 49, 700, 1, 0x1A1A1Au32)]
        + button_marks(x, ToolbarAction::Up) + button_marks(x, ToolbarAction::New) + button_marks(
        x,
        ToolbarAction::NewFile,
    ) + button_marks(x, ToolbarAction::Del) + button_marks(x, ToolbarAction::Refresh) + plate_marks(
        x,
        ToolbarAction::ToggleView,
    ) + seq![
        Mark::Text(
            if w <= 70 {
                (624 + (70 - w) / 2) as u32
            } else {
                624
            },
            33,
            toggle_label(x),
            TEXT,
        ),
    ]
}

/// 16x14 icon for toolbar buttons.
fn draw_toolbar_icon(scene: &mut Scene, a: ToolbarAction, x: u32, y: u32)
    requires
        x <= 700,
        y <= 500,
    ensures
        final(scene)@ == old(scene)@ + icon_marks(a, x, y),
{
    match a {
        ToolbarAction::Up => {
            scene.rect(x + 7, y + 1, 2, 9, ICON);
            scene.line(x + 1, y + 7, x + 7, y + 1, ICON);
            scene.line(x + 15, y + 7, x + 9, y + 1, ICON);
        },
        ToolbarAction::New => {
            scene.rect(x + 1, y + 5, 6, 2, ICON);
            scene.rect(x + 7, y + 3, 6, 2, ICON);
            scene.rect(x, y + 7, 16, 7, ICON);
            scene.rect(x + 2, y + 8, 12, 5, BG);
            scene.rect(x + 11, y + 8, 3, 2, ICON);
            scene.rect(x + 12, y + 7, 1, 4, ICON);
        },
        ToolbarAction::NewFile => {
            scene.rect(x + 4, y, 8, 12, ICON);
            scene.rect(x + 5, y + 1, 6, 10, BG);
            scene.rect(x + 6, y + 3, 4, 1, ICON);
            scene.rect(x + 6, y + 6, 4, 1, ICON);
            scene.rect(x + 6, y + 9, 4, 1, ICON);
            scene.rect(x + 11, y + 4, 4, 6, ICON);
            scene.rect(x + 12, y + 3, 2, 8, ICON);
        },
        ToolbarAction::Del => {
            scene.rect(x + 2, y, 12, 2, ICON);
            scene.rect(x + 5, y + 2, 2, 2, ICON);
            scene.rect(x + 9, y + 2, 2, 2, ICON);
            scene.rect(x + 3, y + 4, 10, 10, ICON);
            scene.rect(x + 5, y + 6, 2, 6, BG);
            scene.rect(x + 9, y + 6, 2, 6, BG);
        },
        ToolbarAction::Refresh => {
            scene.rect(x + 1, y + 1, 14, 3, ICON);
            scene.rect(x + 1, y + 10, 14, 3, ICON);
            scene.rect(x + 1, y + 1, 3, 7, ICON);
            scene.rect(x + 12, y + 6, 3, 7, ICON);
            scene.line(x + 1, y + 7, x + 5, y + 3, ICON);
            scene.line(x + 13, y + 11, x + 11, y + 13, ICON);
            scene.line(x + 12, y + 13, x + 14, y + 13, ICON);
        },
        ToolbarAction::ToggleView => {},
    }
    assert(scene@ =~= old(scene)@ + icon_marks(a, x, y));
}

fn draw_plate(m: &Model, scene: &mut Scene, a: ToolbarAction)
    ensures
        final(scene)@ == old(scene)@ + plate_marks(m@, a),
{
    let (bx, bw) = toolbar_button_rect(a);
    let hovered = inside(m.cursor.0, bx, bx + bw) && inside(m.cursor.1, 27, 47);
    let c = if hovered { BTN_HOVER } else { BTN };
    scene.round_shade(bx, 27, bw, 20, 4, c, c);
    scene.rect(bx + 1, 46, bw - 2, 1, BTN_EDGE);
    assert(scene@ =~= old(scene)@ + plate_marks(m@, a));
}

fn draw_button(m: &Model, scene: &mut Scene, a: ToolbarAction)
    ensures
        final(scene)@ == old(scene)@ + button_marks(m@, a),
{
    let (bx, bw) = toolbar_button_rect(a);
    draw_plate(m, scene, a);
    draw_toolbar_icon(scene, a, bx + (bw - 16) / 2, 30);
    assert(scene@ =~= old(scene)@ + button_marks(m@, a));
}

fn render_toolbar(m: &Model, scene: &mut Scene, s: u32)
    requires
        1 <= s <= 2,
    ensures
        final(scene)@ == old(scene)@ + toolbar_marks(m@, s as int),
{
    scene.rect(0, 24, 700, 26, TOOLBAR_BG);
    scene.rect(0, 49, 700, 1, 0x1A1A1A);
    draw_button(m, scene, ToolbarAction::Up);
    draw_button(m, scene, ToolbarAction::New);
    draw_button(m, scene, ToolbarAction::NewFile);
    draw_button(m, scene, ToolbarAction::Del);
    draw_button(m, scene, ToolbarAction::Refresh);
    draw_plate(m, scene, ToolbarAction::ToggleView);
    let label = chars_of(
        match m.layout {
            Layout::Details => "Icons",
            Layout::Grid => "List",
        },
    );
    assert(label@ == toggle_label(m@));
    let w = width_of(&label, s);
    scene.chars(if w <= 70 { 624 + (70 - w) / 2 } else { 624 }, 33, label, TEXT);
    assert(scene@ =~= old(scene)@ + toolbar_marks(m@, s as int));
}

// ---------------------------------------------------------------------
// Breadcrumbs
// ---------------------------------------------------------------------

pub open spec fn crumb_marks(x: Explorer, c: Bread, last: bool) -> Seq<Mark> {
    let hovered = !last && within(x.cursor.1, 4, 20) && within(
        x.cursor.0,
        c.x as int,
        c.x + c.w,
    );
    (if last {
        seq![Mark::Round(c.x, 4, c.w, 16, 4, CRUMB_BG)]
    } else {
        Seq::empty()
    }) + seq![
        Mark::Text(
            (c.x + 4) as u32,
            8,
            c.label,
            if last {
                0xFFFFFF
            } else if hovered {
                0xCFE0EC
            } else {
                TEXT_DIM
            },
        ),
    ] + (if last {
        Seq::empty()
    } else {
        seq![Mark::Text((c.x + c.w - 7) as u32, 8, ">"@, TEXT_FAINT)]
    })
}

pub open spec fn crumbs_marks(x: Explorer, cs: Seq<Bread>, n: nat) -> Seq<Mark>
    decreases n,
{
    if n == 0 {
        seq![Mark::Rect(0, 0, 700, 24, PATH_BG), Mark::Rect(0, 23, 700, 1, 0x1A1A1Au32)]
    } else {
        crumbs_marks(x, cs, (n - 1) as nat) + crumb_marks(x, cs[n - 1], n == cs.len())
    }
}

pub open spec fn path_marks(x: Explorer, s: int) -> Seq<Mark> {
    let cs = crumbs(x.path, 556, s);
    crumbs_marks(x, cs, cs.len())
}

fn render_breadcrumbs(m: &Model, scene: &mut Scene, s: u32)
    requires
        1 <= s <= 2,
    ensures
        final(scene)@ == old(scene)@ + path_marks(m@, s as int),
{
    scene.rect(0, 0, 700, 24, PATH_BG);
    scene.rect(0, 23, 700, 1, 0x1A1A1A);
    let cs = crumb_layout(&m.path, 556, s);
    let ghost all = crumb_views(cs@);
    let ghost x = m@;
    let ghost start = old(scene)@;
    assert(scene@ =~= start + crumbs_marks(x, all, 0));
    let mut i: usize = 0;
    while i < cs.len()
        invariant
            x == m@,
            i <= cs@.len(),
            all == crumb_views(cs@),
            forall|k: int| 0 <= k < cs@.len() ==> (#[trigger] cs@[k]).x <= 0x4000_0000 && 16 <= cs@[k].w
                <= 0x10_0010,
            scene@ == start + crumbs_marks(x, all, i as nat),
        decreases cs@.len() - i,
    {
        let c = &cs[i];
        let last = i + 1 == cs.len();
        let hovered = !last && inside(m.cursor.1, 4, 20) && inside(m.cursor.0, c.x, c.x + c.w);
        if last {
            scene.round(c.x, 4, c.w, 16, 4, CRUMB_BG);
        }
        let label = part(&c.label, 0, c.label.len());
        assert(label@ =~= c.label@);
        scene.chars(
            c.x + 4,
            8,
            label,
            if last {
                0xFFFFFF
            } else if hovered {
                0xCFE0EC
            } else {
                TEXT_DIM
            },
        );
        if !last {
            scene.text(c.x + c.w - 7, 8, ">", TEXT_FAINT);
        }
        i += 1;
        assert(scene@ =~= start + crumbs_marks(x, all, i as nat));
    }
}

// ---------------------------------------------------------------------
// Details
// ---------------------------------------------------------------------

pub open spec fn header_marks(x: Explorer, label: Seq<char>, from: u32, to: u32) -> Seq<Mark> {
    let hovered = within(x.cursor.0, from as int, to as int) && within(x.cursor.1, 50, 74);
    (if hovered {
        seq![Mark::Rect(from, 50, (to - from) as u32, 24, 0x25313Eu32)]
    } else {
        Seq::empty()
    }) + seq![
        Mark::Text(
            (from + 8) as u32,
            58,
            label,
            if hovered {
                0xC9D6E0
            } else {
                HEADER_FG
            },
        ),
    ]
}

/// Small folder or document glyph used in rows.
pub open spec fn entry_icon(x: u32, y: u32, e: Listed) -> Seq<Mark> {
    let r = |dx: int, dy: int, w: u32, h: u32, c: u32|
        Mark::Rect((x + dx) as u32, (y + dy) as u32, w, h, c);
    if e.is_dir {
        seq![
            r(0, 1, 5, 2, ICON_FOLDER),
            r(5, 0, 5, 2, ICON_FOLDER),
            r(10, 1, 2, 1, ICON_FOLDER),
            r(0, 3, 14, 7, ICON_FOLDER),
            r(1, 4, 12, 5, LIST_BG),
        ]
    } else {
        let c = if elf_name(e.name) {
            ICON_ELF
        } else {
            ICON_FILE
        };
        seq![
            r(2, 0, 9, 10, c),
            r(3, 1, 7, 8, LIST_BG),
            r(4, 3, 5, 1, c),
            r(4, 5, 5, 1, c),
            r(4, 7, 3, 1, c),
        ]
    }
}

/// Larger glyph for the icon view.
pub open spec fn big_icon(x: u32, y: u32, e: Listed) -> Seq<Mark> {
    let r = |dx: int, dy: int, w: u32, h: u32, c: u32|
        Mark::Rect((x + dx) as u32, (y + dy) as u32, w, h, c);
    if e.is_dir {
        seq![
            r(2, 6, 12, 5, ICON_FOLDER),
            r(14, 2, 12, 5, ICON_FOLDER),
            r(26, 5, 4, 3, ICON_FOLDER),
            r(0, 11, 36, 19, ICON_FOLDER),
            r(3, 14, 30, 13, LIST_BG),
        ]
    } else {
        let c = if elf_name(e.name) {
            ICON_ELF
        } else {
            ICON_FILE
        };
        seq![
            r(6, 0, 22, 28, c),
            r(9, 3, 16, 22, LIST_BG),
            r(11, 9, 12, 2, c),
            r(11, 14, 12, 2, c),
            r(11, 19, 8, 2, c),
        ]
    }
}

pub open spec fn size_marks(e: Listed, y: u32, color: u32, s: int) -> Seq<Mark> {
    if e.is_dir {
        Seq::empty()
    } else {
        let t = size_text(e.size as nat);
        let w = text_width(t, s);
        seq![
            Mark::Text(
                if w <= 450 {
                    (450 - w) as u32
                } else {
                    0
                },
                y,
                t,
                color,
            ),
        ]
    }
}

pub open spec fn kind_label(e: Listed) -> Seq<char> {
    if e.is_dir {
        "Folder"@
    } else {
        kind_of(e.name)@
    }
}

/// What is under a row: the highlight, and the marks of a drop target.
pub open spec fn row_ground(x: Explorer, i: int, ry: u32) -> Seq<Mark> {
    let hovered = within(x.cursor.1, ry as int, ry + 18) && x.cursor.0 >= 128;
    (if is_picked(x, i) {
        seq![
            Mark::RoundShade(130, (ry + 1) as u32, 558, 16, 4, SELECTED_TOP, SELECTED_BOTTOM),
        ]
    } else if hovered {
        seq![Mark::Round(130, (ry + 1) as u32, 558, 16, 4, HOVER_BG)]
    } else {
        Seq::empty()
    }) + (if x.entries[i].is_dir && hot(x) == Some(path_of(x, i)) {
        seq![
            Mark::Rect(131, (ry + 1) as u32, 556, 1, ACCENT),
            Mark::Rect(131, (ry + 16) as u32, 556, 1, ACCENT),
        ]
    } else {
        Seq::empty()
    })
}

pub open spec fn name_color(e: Listed, name: Seq<char>, selected: bool) -> u32 {
    if selected {
        0xFFFFFF
    } else if e.is_dir {
        DIR_TEXT
    } else if elf_name(name) {
        ELF_TEXT
    } else {
        TEXT
    }
}

pub open spec fn dim_color(selected: bool) -> u32 {
    if selected {
        0xC9DAE8
    } else {
        TEXT_DIM
    }
}

pub open spec fn kind_marks(e: Listed, y: u32, color: u32, s: int) -> Seq<Mark> {
    if 468 + text_width(kind_label(e), s) <= 690 {
        seq![Mark::Text(468, y, kind_label(e), color)]
    } else {
        Seq::empty()
    }
}

/// One row of the details view.
pub open spec fn row_marks(x: Explorer, i: int, ry: u32, s: int) -> Seq<Mark> {
    let e = x.entries[i];
    let selected = is_picked(x, i);
    row_ground(x, i, ry) + entry_icon(136, (ry + 4) as u32, e) + seq![
        Mark::Text(154, (ry + 5) as u32, e.name, name_color(e, e.name, selected)),
    ] + size_marks(e, (ry + 5) as u32, dim_color(selected), s) + kind_marks(
        e,
        (ry + 5) as u32,
        dim_color(selected),
        s,
    )
}

/// The first `n` rows of the details view.
pub open spec fn rows_marks(x: Explorer, n: nat, s: int) -> Seq<Mark>
    decreases n,
{
    if n == 0 {
        seq![Mark::Rect(128, 50, 562, 24, HEADER_BG), Mark::Rect(128, 73, 562, 1, 0x1A1A1Au32)]
            + header_marks(x, "Name"@, 128, 320) + header_marks(x, "Size"@, 320, 460)
            + header_marks(x, "Type"@, 460, 690)
    } else {
        rows_marks(x, (n - 1) as nat, s) + row_marks(
            x,
            x.scroll + n - 1,
            (74 + (n - 1) * 18) as u32,
            s,
        )
    }
}

/// How many entries show, of at most `most`.
pub open spec fn shown_count(x: Explorer, most: int) -> int {
    least(x.entries.len() - x.scroll, most)
}

fn draw_header(m: &Model, scene: &mut Scene, label: &str, from: u32, to: u32)
    requires
        from < to <= 700,
    ensures
        final(scene)@ == old(scene)@ + header_marks(m@, label@, from, to),
{
    let hovered = inside(m.cursor.0, from, to) && inside(m.cursor.1, 50, 74);
    if hovered {
        scene.rect(from, 50, to - from, 24, 0x25313E);
    }
    scene.text(from + 8, 58, label, if hovered { 0xC9D6E0 } else { HEADER_FG });
    assert(scene@ =~= old(scene)@ + header_marks(m@, label@, from, to));
}

fn draw_entry_icon(m: &Model, scene: &mut Scene, x: u32, y: u32, i: usize)
    requires
        i < m.entries@.len(),
        x <= 700,
        y <= 500,
    ensures
        final(scene)@ == old(scene)@ + entry_icon(x, y, m@.entries[i as int]),
{
    let e = &m.entries[i];
    if e.is_dir {
        scene.rect(x, y + 1, 5, 2, ICON_FOLDER);
        scene.rect(x + 5, y, 5, 2, ICON_FOLDER);
        scene.rect(x + 10, y + 1, 2, 1, ICON_FOLDER);
        scene.rect(x, y + 3, 14, 7, ICON_FOLDER);
        scene.rect(x + 1, y + 4, 12, 5, LIST_BG);
    } else {
        let c = if is_elf(&e.name) { ICON_ELF } else { ICON_FILE };
        scene.rect(x + 2, y, 9, 10, c);
        scene.rect(x + 3, y + 1, 7, 8, LIST_BG);
        scene.rect(x + 4, y + 3, 5, 1, c);
        scene.rect(x + 4, y + 5, 5, 1, c);
        scene.rect(x + 4, y + 7, 3, 1, c);
    }
    assert(scene@ =~= old(scene)@ + entry_icon(x, y, m@.entries[i as int]));
}

fn draw_big_icon(m: &Model, scene: &mut Scene, x: u32, y: u32, i: usize)
    requires
        i < m.entries@.len(),
        x <= 700,
        y <= 500,
    ensures
        final(scene)@ == old(scene)@ + big_icon(x, y, m@.entries[i as int]),
{
    let e = &m.entries[i];
    if e.is_dir {
        scene.rect(x + 2, y + 6, 12, 5, ICON_FOLDER);
        scene.rect(x + 14, y + 2, 12, 5, ICON_FOLDER);
        scene.rect(x + 26, y + 5, 4, 3, ICON_FOLDER);
        scene.rect(x, y + 11, 36, 19, ICON_FOLDER);
        scene.rect(x + 3, y + 14, 30, 13, LIST_BG);
    } else {
        let c = if is_elf(&e.name) { ICON_ELF } else { ICON_FILE };
        scene.rect(x + 6, y, 22, 28, c);
        scene.rect(x + 9, y + 3, 16, 22, LIST_BG);
        scene.rect(x + 11, y + 9, 12, 2, c);
        scene.rect(x + 11, y + 14, 12, 2, c);
        scene.rect(x + 11, y + 19, 8, 2, c);
    }
    assert(scene@ =~= old(scene)@ + big_icon(x, y, m@.entries[i as int]));
}

fn draw_size(m: &Model, scene: &mut Scene, y: u32, i: usize, color: u32, s: u32)
    requires
        i < m.entries@.len(),
        1 <= s <= 2,
    ensures
        final(scene)@ == old(scene)@ + size_marks(m@.entries[i as int], y, color, s as int),
{
    let e = &m.entries[i];
    if !e.is_dir {
        let t = fmt_size(e.size as u64);
        let w = width_of(&t, s);
        scene.chars(if w <= 450 { 450 - w } else { 0 }, y, t, color);
    }
    assert(scene@ =~= old(scene)@ + size_marks(m@.entries[i as int], y, color, s as int));
}

fn draw_ground(m: &Model, scene: &mut Scene, i: usize, ry: u32, hot_now: &Option<Vec<char>>)
    requires
        i < m.entries@.len(),
        ry <= 440,
        maybe(*hot_now) == hot(m@),
    ensures
        final(scene)@ == old(scene)@ + row_ground(m@, i as int, ry),
{
    let ghost x = m@;
    let e = &m.entries[i];
    assert(x.entries[i as int] == e@);
    let selected = m.is_selected(i);
    let hovered = inside(m.cursor.1, ry, ry + 18) && m.cursor.0 >= 128;
    if selected {
        scene.round_shade(130, ry + 1, 558, 16, 4, SELECTED_TOP, SELECTED_BOTTOM);
    } else if hovered {
        scene.round(130, ry + 1, 558, 16, 4, HOVER_BG);
    }
    let path = join(&m.path, &e.name);
    if e.is_dir && is_hot(hot_now, &path) {
        scene.rect(131, ry + 1, 556, 1, ACCENT);
        scene.rect(131, ry + 16, 556, 1, ACCENT);
    }
    assert(scene@ =~= old(scene)@ + row_ground(x, i as int, ry));
}

fn color_of(is_dir: bool, name: &Vec<char>, selected: bool) -> (r: u32)
    ensures
        forall|e: Listed| e.is_dir == is_dir ==> r == #[trigger] name_color(e, name@, selected),
{
    if selected {
        0xFFFFFF
    } else if is_dir {
        DIR_TEXT
    } else if is_elf(name) {
        ELF_TEXT
    } else {
        TEXT
    }
}

fn draw_kind(m: &Model, scene: &mut Scene, y: u32, i: usize, color: u32, s: u32)
    requires
        i < m.entries@.len(),
        1 <= s <= 2,
    ensures
        final(scene)@ == old(scene)@ + kind_marks(m@.entries[i as int], y, color, s as int),
{
    let e = &m.entries[i];
    assert(m@.entries[i as int] == e@);
    let kind = chars_of(if e.is_dir { "Folder" } else { file_type(&e.name) });
    assert(kind@ == kind_label(e@));
    let kw = width_of(&kind, s);
    if 468 + kw <= 690 {
        scene.chars(468, y, kind, color);
    }
    assert(scene@ =~= old(scene)@ + kind_marks(e@, y, color, s as int));
}

fn draw_row(m: &Model, scene: &mut Scene, i: usize, ry: u32, hot_now: &Option<Vec<char>>, s: u32)
    requires
        i < m.entries@.len(),
        ry <= 440,
        1 <= s <= 2,
        maybe(*hot_now) == hot(m@),
    ensures
        final(scene)@ == old(scene)@ + row_marks(m@, i as int, ry, s as int),
{
    let ghost x = m@;
    let e = &m.entries[i];
    assert(x.entries[i as int] == e@);
    let selected = m.is_selected(i);
    draw_ground(m, scene, i, ry, hot_now);
    draw_entry_icon(m, scene, 136, ry + 4, i);
    let dim = if selected { 0xC9DAE8 } else { TEXT_DIM };
    let name = part(&e.name, 0, e.name.len());
    assert(name@ =~= e.name@);
    let color = color_of(e.is_dir, &e.name, selected);
    assert(color == name_color(e@, e@.name, selected));
    scene.chars(154, ry + 5, name, color);
    draw_size(m, scene, ry + 5, i, dim, s);
    draw_kind(m, scene, ry + 5, i, dim, s);
    assert(scene@ =~= old(scene)@ + row_marks(x, i as int, ry, s as int));
}

fn render_details(m: &Model, scene: &mut Scene, s: u32)
    requires
        m.wf(),
        1 <= s <= 2,
    ensures
        final(scene)@ == old(scene)@ + rows_marks(m@, shown_count(m@, 19) as nat, s as int),
{
    let hot_now = hot_target(m);
    scene.rect(128, 50, 562, 24, HEADER_BG);
    scene.rect(128, 73, 562, 1, 0x1A1A1A);
    draw_header(m, scene, "Name", 128, 320);
    draw_header(m, scene, "Size", 320, 460);
    draw_header(m, scene, "Type", 460, 690);
    let ghost x = m@;
    let ghost start = old(scene)@;
    assert(scene@ =~= start + rows_marks(x, 0, s as int));
    let left = m.entries.len() - m.scroll;
    let n = if left < 19 { left } else { 19 };
    let mut r: usize = 0;
    while r < n
        invariant
            m.wf(),
            x == m@,
            1 <= s <= 2,
            r <= n <= 19,
            n == shown_count(x, 19),
            m.scroll + n <= m.entries.len(),
            maybe(hot_now) == hot(x),
            scene@ == start + rows_marks(x, r as nat, s as int),
        decreases n - r,
    {
        draw_row(m, scene, m.scroll + r, 74 + r as u32 * 18, &hot_now, s);
        r += 1;
        assert(scene@ =~= start + rows_marks(x, r as nat, s as int));
    }
}

// ---------------------------------------------------------------------
// Grid
// ---------------------------------------------------------------------

/// How many of the widest characters fit into a tile.
pub open spec fn tile_chars(s: int) -> int {
    if s == 1 {
        4
    } else {
        2
    }
}

/// A name cut to a tile.
pub open spec fn tile_label(name: Seq<char>, s: int) -> Seq<char> {
    if name.len() > tile_chars(s) {
        name.take(tile_chars(s) - 2) + ".."@
    } else {
        name
    }
}

/// A tile's label never runs over the tile.
pub proof fn law_label_fits_tile(name: Seq<char>, s: int)
    requires
        1 <= s <= 2,
    ensures
        0 <= text_width(tile_label(name, s), s) <= 64,
{
    reveal_strlit("..");
    lemma_width_bound(tile_label(name, s), s);
    assert(tile_label(name, s).len() <= tile_chars(s));
    assert(tile_label(name, s).len() * (16 * s) <= 64) by (nonlinear_arith)
        requires
            tile_label(name, s).len() <= tile_chars(s),
            tile_chars(s) == 4 && s == 1 || tile_chars(s) == 2 && s == 2,
    ;
}

pub open spec fn tile_marks(x: Explorer, i: int, tx: u32, ty: u32, s: int) -> Seq<Mark> {
    let e = x.entries[i];
    let selected = is_picked(x, i);
    let hovered = within(x.cursor.0, tx as int, tx + 88) && within(x.cursor.1, ty as int, ty + 54);
    let label = tile_label(e.name, s);
    (if selected {
        seq![Mark::Round((tx + 4) as u32, (ty + 3) as u32, 80, 46, 6, 0x24467Au32)]
    } else if hovered {
        seq![Mark::Round((tx + 4) as u32, (ty + 3) as u32, 80, 46, 6, 0x1E2A36u32)]
    } else {
        Seq::empty()
    }) + (if e.is_dir && hot(x) == Some(path_of(x, i)) {
        seq![
            Mark::Rect((tx + 5) as u32, (ty + 3) as u32, 78, 1, ACCENT),
            Mark::Rect((tx + 5) as u32, (ty + 48) as u32, 78, 1, ACCENT),
        ]
    } else {
        Seq::empty()
    }) + big_icon((tx + 26) as u32, (ty + 6) as u32, e) + seq![
        Mark::Text(
            (tx + (88 - text_width(label, s)) / 2) as u32,
            (ty + 44) as u32,
            label,
            if selected {
                0xFFFFFF
            } else if e.is_dir {
                DIR_TEXT
            } else if elf_name(label) {
                ELF_TEXT
            } else {
                TEXT
            },
        ),
    ]
}

/// The first `n` tiles.
pub open spec fn tiles_marks(x: Explorer, n: nat, s: int) -> Seq<Mark>
    decreases n,
{
    if n == 0 {
        seq![Mark::Rect(128, 50, 562, 374, LIST_BG)]
    } else {
        let k = n - 1;
        tiles_marks(x, k as nat, s) + tile_marks(
            x,
            x.scroll + k,
            (128 + k % 6 * 88) as u32,
            (50 + k / 6 * 54) as u32,
            s,
        )
    }
}

fn draw_tile(m: &Model, scene: &mut Scene, i: usize, tx: u32, ty: u32, hot_now: &Option<Vec<char>>, s: u32)
    requires
        i < m.entries@.len(),
        tx <= 600,
        ty <= 400,
        1 <= s <= 2,
        maybe(*hot_now) == hot(m@),
    ensures
        final(scene)@ == old(scene)@ + tile_marks(m@, i as int, tx, ty, s as int),
{
    let ghost x = m@;
    let e = &m.entries[i];
    assert(x.entries[i as int] == e@);
    let selected = m.is_selected(i);
    let hovered = inside(m.cursor.0, tx, tx + 88) && inside(m.cursor.1, ty, ty + 54);
    if selected {
        scene.round(tx + 4, ty + 3, 80, 46, 6, 0x24467A);
    } else if hovered {
        scene.round(tx + 4, ty + 3, 80, 46, 6, 0x1E2A36);
    }
    let path = join(&m.path, &e.name);
    if e.is_dir && is_hot(hot_now, &path) {
        scene.rect(tx + 5, ty + 3, 78, 1, ACCENT);
        scene.rect(tx + 5, ty + 48, 78, 1, ACCENT);
    }
    draw_big_icon(m, scene, tx + 26, ty + 6, i);
    let most: usize = if s == 1 { 4 } else { 2 };
    let mut label: Vec<char> = Vec::new();
    if e.name.len() > most {
        label = part(&e.name, 0, most - 2);
        assert(label@ =~= e.name@.take(most - 2));
        push_str(&mut label, "..");
    } else {
        push_word(&mut label, true, &e.name);
    }
    assert(label@ =~= tile_label(e.name@, s as int));
    proof {
        law_label_fits_tile(e.name@, s as int);
    }
    let w = width_of(&label, s);
    let color = if selected {
        0xFFFFFF
    } else if e.is_dir {
        DIR_TEXT
    } else if is_elf(&label) {
        ELF_TEXT
    } else {
        TEXT
    };
    scene.chars(tx + (88 - w) / 2, ty + 44, label, color);
    assert(scene@ =~= old(scene)@ + tile_marks(x, i as int, tx, ty, s as int));
}

fn render_grid(m: &Model, scene: &mut Scene, s: u32)
    requires
        m.wf(),
        1 <= s <= 2,
    ensures
        final(scene)@ == old(scene)@ + tiles_marks(m@, shown_count(m@, 36) as nat, s as int),
{
    let hot_now = hot_target(m);
    scene.rect(128, 50, 562, 374, LIST_BG);
    let ghost x = m@;
    let ghost start = old(scene)@;
    assert(scene@ =~= start + tiles_marks(x, 0, s as int));
    let left = m.entries.len() - m.scroll;
    let n = if left < 36 { left } else { 36 };
    let mut k: usize = 0;
    while k < n
        invariant
            m.wf(),
            x == m@,
            1 <= s <= 2,
            k <= n <= 36,
            n == shown_count(x, 36),
            m.scroll + n <= m.entries.len(),
            maybe(hot_now) == hot(x),
            scene@ == start + tiles_marks(x, k as nat, s as int),
        decreases n - k,
    {
        let tx = 128 + (k % 6) as u32 * 88;
        let ty = 50 + (k / 6) as u32 * 54;
        draw_tile(m, scene, m.scroll + k, tx, ty, &hot_now, s);
        k += 1;
        assert(scene@ =~= start + tiles_marks(x, k as nat, s as int));
    }
}

// ---------------------------------------------------------------------
// Rename box, scrollbar, status line
// ---------------------------------------------------------------------

/// Where the rename box is: its corner and its width.
pub open spec fn rename_box(x: Explorer, item: usize) -> Option<(u32, u32, u32)> {
    if item >= x.entries.len() || item < x.scroll {
        None
    } else {
        let k = item - x.scroll;
        match x.layout {
            Layout::Details => if k >= 19 {
                None
            } else {
                Some((132u32, (75 + k * 18) as u32, 554u32))
            },
            Layout::Grid => if k >= 36 {
                None
            } else {
                Some(((132 + k % 6 * 88) as u32, (56 + k / 6 * 54) as u32, 80u32))
            },
        }
    }
}

pub open spec fn box_height(s: int) -> int {
    8 * s + 8
}

pub open spec fn rename_marks(x: Explorer, s: int) -> Seq<Mark> {
    match x.rename {
        None => Seq::empty(),
        Some(r) => match rename_box(x, r.item) {
            None => Seq::empty(),
            Some((bx, by, bw)) => {
                let by = if x.layout == Layout::Details && s == 2 {
                    (by - 1) as u32
                } else {
                    by
                };
                let bh = box_height(s);
                let most = (bw - 12) as int / (8 * s);
                let from = if r.cursor >= most {
                    r.cursor - (most - 1)
                } else {
                    0
                };
                let from = least(from, r.buf.len() as int);
                let to = least(from + most, r.buf.len() as int);
                let col = least(r.cursor as int, r.buf.len() as int) - from;
                seq![
                    Mark::Round(bx, by, bw, bh as u32, 4, 0x101010u32),
                    Mark::Rect((bx + 2) as u32, by, (bw - 4) as u32, 1, ACCENT),
                    Mark::Rect((bx + 2) as u32, (by + bh - 1) as u32, (bw - 4) as u32, 1, ACCENT),
                    Mark::Text((bx + 6) as u32, (by + 4) as u32, r.buf.subrange(from, to), TEXT),
                    Mark::Rect(
                        (bx + 6 + col * (8 * s)) as u32,
                        (by + 1) as u32,
                        (8 * s) as u32,
                        (bh - 2) as u32,
                        0xFFCC66u32,
                    ),
                ]
            },
        },
    }
}

fn rename_box_of(m: &Model, item: usize) -> (r: Option<(u32, u32, u32)>)
    requires
        m.wf(),
    ensures
        r == rename_box(m@, item),
        r matches Some((x, y, w)) ==> 132 <= x <= 700 && 56 <= y <= 440 && 80 <= w <= 554,
{
    if item >= m.entries.len() || item < m.scroll {
        return None;
    }
    let k = item - m.scroll;
    match m.layout {
        Layout::Details => if k >= 19 {
            None
        } else {
            Some((132, 75 + k as u32 * 18, 554))
        },
        Layout::Grid => if k >= 36 {
            None
        } else {
            Some((132 + (k % 6) as u32 * 88, 56 + (k / 6) as u32 * 54, 80))
        },
    }
}

/// Overlays the inline rename box on the item being renamed.
#[verifier::spinoff_prover]
#[verifier::rlimit(40)]
fn render_rename(m: &Model, scene: &mut Scene, s: u32)
    requires
        m.wf(),
        1 <= s <= 2,
    ensures
        final(scene)@ == old(scene)@ + rename_marks(m@, s as int),
{
    let r = match &m.rename {
        None => {
            assert(scene@ =~= old(scene)@ + rename_marks(m@, s as int));
            return;
        },
        Some(r) => r,
    };
    let (bx, by, bw) = match rename_box_of(m, r.item) {
        None => {
            assert(scene@ =~= old(scene)@ + rename_marks(m@, s as int));
            return;
        },
        Some(b) => b,
    };
    let by = if m.layout == Layout::Details && s == 2 { by - 1 } else { by };
    let bh = 8 * s + 8;
    scene.round(bx, by, bw, bh, 4, 0x101010);
    scene.rect(bx + 2, by, bw - 4, 1, ACCENT);
    scene.rect(bx + 2, by + bh - 1, bw - 4, 1, ACCENT);
    let most = ((bw - 12) / (8 * s)) as usize;
    proof {
        assert(4 <= most <= 68) by (nonlinear_arith)
            requires
                most == (bw - 12) as int / (8 * s as int),
                80 <= bw <= 554,
                8 <= 8 * s <= 16,
        ;
    }
    let n = r.buf.len();
    let from = if r.cursor >= most { r.cursor - (most - 1) } else { 0 };
    let from = if from < n { from } else { n };
    let to = if most > n - from { n } else { from + most };
    let shown = part(&r.buf, from, to);
    scene.chars(bx + 6, by + 4, shown, TEXT);
    let at = if r.cursor < n { r.cursor } else { n };
    let col = (at - from) as u32;
    proof {
        assert(0 <= col * (8 * s) <= 68 * 16) by (nonlinear_arith)
            requires
                0 <= col <= 68,
                0 <= 8 * s <= 16,
        ;
    }
    scene.rect(bx + 6 + col * (8 * s), by + 1, 8 * s, bh - 2, 0xFFCC66);
    assert(scene@ =~= old(scene)@ + rename_marks(m@, s as int));
}

pub open spec fn scrollbar_marks(x: Explorer) -> Seq<Mark> {
    seq![Mark::Rect(690, 50, 10, 374, SCROLL_TRACK)] + (if max_scroll(x) > 0 {
        seq![Mark::Rect(692, thumb(x).0 as u32, 6, thumb(x).1 as u32, SCROLL_THUMB)]
    } else {
        Seq::empty()
    })
}

fn render_scrollbar(m: &Model, scene: &mut Scene)
    requires
        m.wf(),
    ensures
        final(scene)@ == old(scene)@ + scrollbar_marks(m@),
{
    scene.rect(690, 50, 10, 374, SCROLL_TRACK);
    let visible: usize = match m.layout {
        Layout::Details => 19,
        Layout::Grid => 36,
    };
    if m.entries.len() > visible {
        let (top, h) = m.thumb();
        scene.rect(692, top as u32, 6, h as u32, SCROLL_THUMB);
    }
    assert(scene@ =~= old(scene)@ + scrollbar_marks(m@));
}

/// What the status line says.
pub open spec fn status_line(x: Explorer) -> Seq<char> {
    if x.searching {
        "\u{691C}\u{7D22}: "@ + x.search + "|"@
    } else if x.status.len() == 0 {
        dec(x.entries.len()) + " items"@
    } else {
        x.status
    }
}

/// Whether the status line reports an error.
pub open spec fn is_error(t: Seq<char>) -> bool {
    starts(t, "cannot"@) || starts(t, "error"@) || starts(t, "delete failed"@) || starts(
        t,
        "create failed"@,
    ) || starts(t, "no viewer"@)
}

pub open spec fn free_text(x: Explorer) -> Seq<char> {
    "free "@ + size_text(x.free as nat)
}

pub open spec fn status_marks(x: Explorer, s: int) -> Seq<Mark> {
    let w = least(encode_utf8(free_text(x)).len() as int, 0x1_0000) * (8 * s) + 8;
    seq![
        Mark::Rect(0, 424, 700, 16, STATUS_BG),
        Mark::Rect(0, 423, 700, 1, 0x0E141Bu32),
        Mark::Text(
            6,
            428,
            status_line(x),
            if is_error(status_line(x)) {
                STATUS_TEXT_BAD
            } else {
                STATUS_TEXT
            },
        ),
        Mark::Text(
            if w <= 700 {
                (700 - w) as u32
            } else {
                0
            },
            428,
            free_text(x),
            TEXT_DIM,
        ),
    ]
}

fn begins(t: &Vec<char>, with: &str) -> (r: bool)
    ensures
        r == starts(t@, with@),
{
    let w = chars_of(with);
    starts_with(t, &w)
}

fn render_status(m: &Model, scene: &mut Scene, s: u32)
    requires
        1 <= s <= 2,
    ensures
        final(scene)@ == old(scene)@ + status_marks(m@, s as int),
{
    scene.rect(0, 424, 700, 16, STATUS_BG);
    scene.rect(0, 423, 700, 1, 0x0E141B);
    let mut t: Vec<char> = Vec::new();
    if m.search_mode {
        push_str(&mut t, "\u{691C}\u{7D22}: ");
        push_word(&mut t, true, &m.search);
        push_str(&mut t, "|");
    } else if m.status.len() == 0 {
        push_dec(&mut t, m.entries.len() as u64);
        push_str(&mut t, " items");
    } else {
        push_word(&mut t, true, &m.status);
    }
    assert(t@ =~= status_line(m@));
    let bad = begins(&t, "cannot") || begins(&t, "error") || begins(&t, "delete failed") || begins(
        &t,
        "create failed",
    ) || begins(&t, "no viewer");
    scene.chars(6, 428, t, if bad { STATUS_TEXT_BAD } else { STATUS_TEXT });
    let mut free: Vec<char> = Vec::new();
    push_str(&mut free, "free ");
    let size = fmt_size(m.free_bytes);
    push_word(&mut free, true, &size);
    assert(free@ =~= free_text(m@));
    let text = crate::text::string_of(&free);
    let n = text.as_str().as_bytes().len();
    let n: u32 = if n > 0x1_0000 { 0x1_0000 } else { n as u32 };
    assert(0 <= n * (8 * s) <= 0x1_0000 * 16) by (nonlinear_arith)
        requires
            0 <= n <= 0x1_0000,
            0 <= 8 * s <= 16,
    ;
    let w = n * (8 * s) + 8;
    scene.chars(if w <= 700 { 700 - w } else { 0 }, 428, free, TEXT_DIM);
    assert(scene@ =~= old(scene)@ + status_marks(m@, s as int));
}

// ---------------------------------------------------------------------
// The window
// ---------------------------------------------------------------------

pub open spec fn list_marks(x: Explorer, s: int) -> Seq<Mark> {
    match x.layout {
        Layout::Details => rows_marks(x, shown_count(x, 19) as nat, s),
        Layout::Grid => tiles_marks(x, shown_count(x, 36) as nat, s),
    }
}

/// Everything the window shows.
pub open spec fn window_marks(x: Explorer, s: int) -> Seq<Mark> {
    seq![Mark::Rect(0, 0, 700, 440, BG)] + side_rows_marks(x, 13) + toolbar_marks(x, s)
        + path_marks(x, s) + list_marks(x, s) + rename_marks(x, s) + scrollbar_marks(x)
        + status_marks(x, s)
}

/// Draws the whole window.
pub fn render(m: &Model, s: u32) -> (scene: Scene)
    requires
        m.wf(),
        1 <= s <= 2,
    ensures
        scene@ == window_marks(m@, s as int),
{
    let mut scene = Scene::new();
    scene.rect(0, 0, 700, 440, BG);
    render_sidebar(m, &mut scene);
    render_toolbar(m, &mut scene, s);
    render_breadcrumbs(m, &mut scene, s);
    match m.layout {
        Layout::Details => render_details(m, &mut scene, s),
        Layout::Grid => render_grid(m, &mut scene, s),
    }
    render_rename(m, &mut scene, s);
    render_scrollbar(m, &mut scene);
    render_status(m, &mut scene, s);
    assert(scene@ =~= window_marks(m@, s as int));
    scene
}

} // verus!
