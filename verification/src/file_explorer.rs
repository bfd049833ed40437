//! A GUI file explorer for the desktop: sidebar with quick access and
//! root-folder shortcuts, a toolbar, clickable breadcrumbs, a sortable
//! details view with column headers, and an icon (grid) view. It draws into
//! its own pixel buffer and reports "open this file" actions back to the
//! window manager.
//!
//! After every action the pixels show the new state.

use crate::explorer_model::{
    chosen, clicked, deed, deleted, dropped, item_under, keyed,
    menu_chosen, name_place, paste_went_on, refreshed, rename_done, shows_trash, started, Explorer, Model, Places,
};
use crate::explorer_names::joined_path;
use crate::explorer_view::{render, window_marks, BG};
use crate::fat::{FatError, Mount};
use crate::font::Font;
use crate::gfx::{picture_of, Canvas, Pic, Surface};
use crate::keyboard::Event;
use crate::rtc::DateTime;
use crate::scene::picture;
use crate::text::{chars_of, string_of, views};
use vstd::prelude::*;

pub use crate::explorer_model::{ExplorerMenuAction, FsAction, HEIGHT, WIDTH};

verus! {

/// What is being dragged.
pub struct DragInfo {
    pub path: String,
    pub is_dir: bool,
}

pub struct FileExplorer {
    model: Model,
    canvas: Canvas,
}

impl View for FileExplorer {
    type V = Explorer;

    closed spec fn view(&self) -> Explorer {
        self.model@
    }
}

impl FileExplorer {
    pub closed spec fn wf(&self) -> bool {
        self.model.wf() && self.canvas.ok()
    }

    /// What the window's pixels show.
    pub closed spec fn shown(&self) -> Pic {
        self.canvas.pic()
    }

    /// Whether the pixels show the state.
    pub open spec fn up_to_date(&self, font: &Font) -> bool {
        self.shown() == picture(
            700,
            440,
            BG,
            window_marks(self@, font.factor() as int),
            font.bits(),
            font.factor() as int,
        )
    }

    fn redraw(&mut self, font: &Font)
        requires
            old(self).model.wf(),
            font.wf(),
        ensures
            final(self).wf(),
            final(self)@ == old(self)@,
            final(self).up_to_date(font),
    {
        let scene = render(&self.model, font.scale());
        self.canvas = scene.paint(font, WIDTH, HEIGHT, BG);
    }

    /// An explorer in the user's home directory.
    pub fn new(places: Places, disk: &Mount, font: &Font) -> (r: Self)
        requires
            disk.wf(),
            font.wf(),
        ensures
            r.wf(),
            r@ == started(places@, disk@),
            r.up_to_date(font),
    {
        let model = Model::new(places, disk);
        let mut app = FileExplorer { model, canvas: Canvas::new(0, 0, BG) };
        app.redraw(font);
        app
    }

    pub fn width(&self) -> (r: u32)
        ensures
            r == WIDTH,
    {
        WIDTH
    }

    pub fn height(&self) -> (r: u32)
        ensures
            r == HEIGHT,
    {
        HEIGHT
    }

    pub fn pixels(&self) -> (r: &Vec<u32>)
        requires
            self.wf(),
        ensures
            r@.len() == self.shown().w * self.shown().h,
            self.shown() == picture_of(r@, self.shown().w, self.shown().h),
    {
        self.canvas.pixels()
    }

    /// Redraws if the cursor moved, so hover states track the mouse.
    pub fn render_hover(&mut self, font: &Font, x: i32, y: i32)
        requires
            old(self).wf(),
            font.wf(),
        ensures
            final(self).wf(),
            final(self)@ == (Explorer { cursor: (x, y), ..old(self)@ }),
            old(self).up_to_date(font) || old(self)@.cursor != (x, y) ==> final(self).up_to_date(
                font,
            ),
    {
        if self.model.cursor.0 != x || self.model.cursor.1 != y {
            self.model.cursor = (x, y);
            self.redraw(font);
        }
    }

    /// Returns the entry index under a content-local point.
    pub fn item_at(&self, x: i32, y: i32) -> (r: Option<usize>)
        requires
            self.wf(),
        ensures
            r == item_under(self@, x as int, y as int),
    {
        self.model.item_at(x, y)
    }

    /// Absolute source path and directory flag for an entry index.
    pub fn entry_path(&self, item: usize) -> (r: Option<(String, bool)>)
        ensures
            r is Some <==> item < self@.entries.len(),
            r matches Some((p, d)) ==> p@ == joined_path(self@.path, self@.entries[item as int].name)
                && d == self@.entries[item as int].is_dir,
    {
        match self.model.entry_path(item) {
            Some((p, d)) => Some((string_of(&p), d)),
            None => None,
        }
    }

    /// Returns the item pressed in a drag-capable click; double-clicks are
    /// excluded.
    pub fn drag_candidate(&mut self, item: Option<usize>) -> (r: Option<usize>)
        requires
            old(self).wf(),
        ensures
            final(self).wf(),
            r == if old(self)@.was_double {
                None
            } else {
                item
            },
            final(self)@ == (Explorer { was_double: false, ..old(self)@ }),
            final(self).shown() == old(self).shown(),
    {
        self.model.drag_candidate(item)
    }

    /// Updates the drag visual state.
    pub fn set_drag(&mut self, font: &Font, drag: Option<DragInfo>)
        requires
            old(self).wf(),
            font.wf(),
        ensures
            final(self).wf(),
            final(self)@ == (Explorer {
                drag: match drag {
                    Some(d) => Some((d.path@, d.is_dir)),
                    None => None,
                },
                ..old(self)@
            }),
            final(self).up_to_date(font),
    {
        self.model.drag = match drag {
            Some(d) => Some((chars_of(d.path.as_str()), d.is_dir)),
            None => None,
        };
        self.redraw(font);
    }

    /// Re-reads the current directory.
    pub fn refresh_now(&mut self, font: &Font, disk: &Mount)
        requires
            old(self).wf(),
            font.wf(),
            disk.wf(),
        ensures
            final(self).wf(),
            final(self)@ == refreshed(old(self)@, disk@),
            final(self).up_to_date(font),
    {
        self.model.refresh(disk);
        self.redraw(font);
    }

    /// Handles a drop at a content-local point. Returns `true` when this
    /// explorer was a valid drop surface, even if the move was a no-op or
    /// failed.
    pub fn handle_drop(
        &mut self,
        font: &Font,
        disk: &mut Mount,
        date: DateTime,
        x: i32,
        y: i32,
        src: &str,
        is_dir: bool,
    ) -> (r: bool)
        requires
            old(self).wf(),
            font.wf(),
            old(disk).wf(),
        ensures
            final(self).wf(),
            final(disk).wf(),
            (final(self)@, final(disk)@, r) == dropped(
                old(self)@,
                x as int,
                y as int,
                src@,
                is_dir,
                old(disk)@,
                date,
            ),
            final(self).up_to_date(font),
    {
        let src = chars_of(src);
        let r = self.model.handle_drop(x, y, &src, is_dir, disk, date);
        self.redraw(font);
        r
    }

    /// Whether the clipboard holds entries.
    pub fn has_clipboard(&self) -> (r: bool)
        ensures
            r == (self@.clip.len() > 0),
    {
        self.model.has_clipboard()
    }

    /// Whether the explorer is currently showing the trash directory.
    pub fn in_trash(&self) -> (r: bool)
        ensures
            r == shows_trash(self@),
    {
        self.model.in_trash()
    }

    /// A click; `ctrl` and `shift` tell which keys are held.
    pub fn handle_click(
        &mut self,
        font: &Font,
        disk: &mut Mount,
        now: u64,
        date: DateTime,
        x: i32,
        y: i32,
        ctrl: bool,
        shift: bool,
    ) -> (r: Option<FsAction>)
        requires
            old(self).wf(),
            font.wf(),
            old(disk).wf(),
        ensures
            final(self).wf(),
            final(disk).wf(),
            (final(self)@, final(disk)@, deed(r)) == clicked(
                old(self)@,
                x as int,
                y as int,
                old(disk)@,
                now,
                date,
                ctrl,
                shift,
                font.factor() as int,
            ),
            final(self).up_to_date(font),
    {
        let r = self.model.click(x, y, disk, now, date, ctrl, shift, font.scale());
        self.redraw(font);
        r
    }

    /// A key.
    pub fn handle_key(&mut self, font: &Font, disk: &mut Mount, now: u64, date: DateTime, event: Event) -> (r:
        Option<FsAction>)
        requires
            old(self).wf(),
            font.wf(),
            old(disk).wf(),
        ensures
            final(self).wf(),
            final(disk).wf(),
            (final(self)@, final(disk)@, deed(r)) == keyed(
                old(self)@,
                event,
                old(disk)@,
                now,
                date,
            ),
            final(self).up_to_date(font),
    {
        let r = self.model.key(event, disk, now, date);
        self.redraw(font);
        r
    }

    /// Selects the entry under a content-local point; does nothing on empty
    /// space.
    pub fn select_at(&mut self, font: &Font, x: i32, y: i32)
        requires
            old(self).wf(),
            font.wf(),
        ensures
            final(self).wf(),
            final(self)@ == match item_under(old(self)@, x as int, y as int) {
                Some(i) => chosen(old(self)@, i),
                None => old(self)@,
            },
            final(self).up_to_date(font),
    {
        self.model.select_at(x, y);
        self.redraw(font);
    }

    /// Runs a right-click context-menu action on the current selection.
    pub fn context_action(
        &mut self,
        font: &Font,
        disk: &mut Mount,
        now: u64,
        date: DateTime,
        action: ExplorerMenuAction,
    ) -> (r: Option<FsAction>)
        requires
            old(self).wf(),
            font.wf(),
            old(disk).wf(),
        ensures
            final(self).wf(),
            final(disk).wf(),
            (final(self)@, final(disk)@, deed(r)) == menu_chosen(
                old(self)@,
                action,
                old(disk)@,
                now,
                date,
            ),
            final(self).up_to_date(font),
    {
        let r = self.model.context_action(action, disk, now, date);
        self.redraw(font);
        r
    }

    /// A copy that a paste asked for came out; the next one, if any.
    pub fn copied(&mut self, font: &Font, disk: &Mount, outcome: Result<(), FatError>) -> (r: Option<
        FsAction,
    >)
        requires
            old(self).wf(),
            font.wf(),
            disk.wf(),
        ensures
            final(self).wf(),
            (final(self)@, deed(r)) == paste_went_on(
                old(self)@,
                match outcome {
                    Ok(_) => None,
                    Err(e) => Some(e),
                },
                disk@,
            ),
            final(self).up_to_date(font),
    {
        let r = self.model.copied(outcome, disk);
        self.redraw(font);
        r
    }

    /// The entries that a delete asked to move to the trash are there, or
    /// some are not.
    pub fn trashed(&mut self, font: &Font, disk: &Mount, count: usize, failed: bool)
        requires
            old(self).wf(),
            font.wf(),
            disk.wf(),
        ensures
            final(self).wf(),
            final(self)@ == deleted(old(self)@, count as nat, failed, disk@),
            final(self).up_to_date(font),
    {
        self.model.trashed(count, failed, disk);
        self.redraw(font);
    }

    /// A rename that was asked for came out.
    pub fn renamed(&mut self, font: &Font, disk: &Mount, old_name: &str, name: &str, outcome: Result<
        (),
        FatError,
    >)
        requires
            old(self).wf(),
            font.wf(),
            disk.wf(),
        ensures
            final(self).wf(),
            final(self)@ == rename_done(old(self)@, old_name@, name@, outcome, disk@),
            final(self).up_to_date(font),
    {
        let a = chars_of(old_name);
        let b = chars_of(name);
        self.model.renamed(&a, &b, outcome, disk);
        self.redraw(font);
    }

    /// The number of the selected entry among the names in the trash.
    pub fn restore_from(&mut self, font: &Font, names: &Vec<Vec<char>>) -> (r: Option<usize>)
        requires
            old(self).wf(),
            font.wf(),
        ensures
            final(self).wf(),
            ({
                let x = old(self)@;
                if x.selection >= x.entries.len() {
                    r is None && final(self)@ == x
                } else {
                    let place = name_place(views(names@), x.entries[x.selection as int].name, 0);
                    &&& r == place
                    &&& final(self)@ == if place is Some {
                        x
                    } else {
                        Explorer { status: "cannot restore: entry not found in trash"@, ..x }
                    }
                }
            }),
            final(self).up_to_date(font),
    {
        let r = self.model.restore_from(names);
        self.redraw(font);
        r
    }

    /// The selected trash entry was restored to a path, or why not.
    pub fn restored(&mut self, font: &Font, disk: &Mount, outcome: Result<Vec<char>, Vec<char>>)
        requires
            old(self).wf(),
            font.wf(),
            disk.wf(),
        ensures
            final(self).wf(),
            final(self)@ == match outcome {
                Ok(path) => refreshed(
                    Explorer { status: "restored to "@ + path@, ..old(self)@ },
                    disk@,
                ),
                Err(e) => Explorer { status: "restore failed: "@ + e@, ..old(self)@ },
            },
            final(self).up_to_date(font),
    {
        self.model.restored(outcome, disk);
        self.redraw(font);
    }

    /// The trash was emptied, or why not.
    pub fn trash_emptied(&mut self, font: &Font, disk: &Mount, outcome: Result<(), Vec<char>>)
        requires
            old(self).wf(),
            font.wf(),
            disk.wf(),
        ensures
            final(self).wf(),
            final(self)@ == match outcome {
                Ok(_) => refreshed(Explorer { status: "trash emptied"@, ..old(self)@ }, disk@),
                Err(e) => Explorer { status: "empty trash failed: "@ + e@, ..old(self)@ },
            },
            final(self).up_to_date(font),
    {
        self.model.trash_emptied(outcome, disk);
        self.redraw(font);
    }
}

} // verus!
