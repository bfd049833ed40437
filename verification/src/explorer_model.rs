//! The state of the file explorer and what every action does to it:
//! navigation, selection, sorting, renaming, deleting, searching, copy and
//! paste, and drag and drop.
//!
//! Disk operations that the file layer offers are done at once. For the
//! others (renaming in place, copying, the trash) an action is handed out,
//! and the outcome is handed back.

use crate::explorer_names::{
    base_name, base_of, free_name, fresh_name, image_name, elf_name, is_elf, is_raw,
    item_views, join, joined_path, lowered, names_taken, new_name, parent_of, parent_path,
    size_text, sort_entries, sorted, starts, starts_with, taken_names, text_name, unique_name, Item,
    Listed, SortKey,
};
use crate::fat::{
    dir_at, dir_made, entry_views, file_at, file_written, info, list_dir, make_dir, message_of,
    move_file, moved, read_file, remove, removed, write_file, Entry, FatError, Mount, Volume,
};
use crate::fatname::MAX_NAME;
use crate::keyboard::Event;
use crate::rtc::DateTime;
use crate::text::{
    chars_of, dec, lowercase, part, push_dec, push_str, push_word, same, string_of, trim, trimmed,
    views,
};
use vstd::prelude::*;
use vstd::utf8::encode_utf8;

verus! {

pub const WIDTH: u32 = 700;

pub const HEIGHT: u32 = 440;

/// Breadcrumb bar.
pub const PATH_H: u32 = 24;

pub const TOOLBAR_H: u32 = 26;

/// Details-view column headers.
pub const HEADER_H: u32 = 24;

pub const STATUS_H: u32 = 16;

pub const LIST_Y: u32 = 50;

pub const SIDEBAR_W: u32 = 128;

pub const SCROLLBAR_W: u32 = 10;

pub const LIST_W: u32 = 562;

pub const ROW_H: u32 = 18;

pub const GRID_TILE_W: u32 = 88;

pub const GRID_TILE_H: u32 = 54;

/// About 300 ms at the 100 Hz clock.
pub const DOUBLE_CLICK_TICKS: u64 = 30;

/// About 1.2 s to confirm a delete.
pub const DELETE_ARM_TICKS: u64 = 120;

/// What the explorer asks the window manager to do after a click or key.
pub enum FsAction {
    /// Launch a program in a fresh terminal window.
    RunTerminal(String),
    /// Open a text file's bytes in a fresh Notepad window.
    OpenText(String, Vec<u8>),
    /// Open an image's bytes in a fresh ImageViewer window.
    OpenImage(String, Vec<u8>),
    /// Give the entry at `path` another name; see `renamed`.
    Rename { path: String, name: String },
    /// Copy a file or directory tree; see `copied`.
    Copy { src: String, dst: String },
    /// Move these entries to the trash; see `trashed`.
    Trash(Vec<String>),
    /// List the names in the trash; see `restore_from`.
    ListTrash,
    /// Erase everything in the trash; see `trash_emptied`.
    EmptyTrash,
}

/// A right-click context-menu action.
#[derive(Clone, Copy, Debug, PartialEq, Eq, Structural)]
pub enum ExplorerMenuAction {
    Open,
    Rename,
    Delete,
    Copy,
    Paste,
    /// Restore the selected entry to its original location (trash only).
    Restore,
    /// Physically delete everything in the trash (trash only).
    EmptyTrash,
    Refresh,
    NewFolder,
    NewFile,
}

/// What the explorer asks for, in contracts.
pub enum Deed {
    Nothing,
    Run(Seq<char>),
    Text(Seq<char>, Seq<u8>),
    Image(Seq<char>, Seq<u8>),
    Rename(Seq<char>, Seq<char>),
    Copy(Seq<char>, Seq<char>),
    Trash(Seq<Seq<char>>),
    ListTrash,
    EmptyTrash,
}

pub open spec fn string_views(v: Seq<String>) -> Seq<Seq<char>> {
    Seq::new(v.len(), |i: int| v[i]@)
}

pub open spec fn deed(a: Option<FsAction>) -> Deed {
    match a {
        None => Deed::Nothing,
        Some(FsAction::RunTerminal(p)) => Deed::Run(p@),
        Some(FsAction::OpenText(p, c)) => Deed::Text(p@, c@),
        Some(FsAction::OpenImage(p, c)) => Deed::Image(p@, c@),
        Some(FsAction::Rename { path, name }) => Deed::Rename(path@, name@),
        Some(FsAction::Copy { src, dst }) => Deed::Copy(src@, dst@),
        Some(FsAction::Trash(v)) => Deed::Trash(string_views(v@)),
        Some(FsAction::ListTrash) => Deed::ListTrash,
        Some(FsAction::EmptyTrash) => Deed::EmptyTrash,
    }
}

#[derive(Clone, Copy, Debug, PartialEq, Eq, Structural)]
pub enum Layout {
    Details,
    Grid,
}

#[derive(Clone, Copy, Debug, PartialEq, Eq, Structural)]
pub enum ToolbarAction {
    Up,
    New,
    NewFile,
    Del,
    Refresh,
    ToggleView,
}

/// The directories of the user, and the trash.
pub struct Places {
    pub home: Vec<char>,
    pub desktop: Vec<char>,
    pub documents: Vec<char>,
    pub trash: Vec<char>,
}

/// The directories, in contracts.
pub struct Homes {
    pub home: Seq<char>,
    pub desktop: Seq<char>,
    pub documents: Seq<char>,
    pub trash: Seq<char>,
}

impl View for Places {
    type V = Homes;

    open spec fn view(&self) -> Homes {
        Homes {
            home: self.home@,
            desktop: self.desktop@,
            documents: self.documents@,
            trash: self.trash@,
        }
    }
}

/// An in-progress inline rename: the item's index and the edit buffer with
/// the cursor position in characters. While `select_all` is set, typing
/// replaces the whole name.
pub struct RenameState {
    pub item: usize,
    pub buf: Vec<char>,
    pub cursor: usize,
    pub select_all: bool,
}

/// An inline rename, in contracts.
pub struct Renaming {
    pub item: usize,
    pub buf: Seq<char>,
    pub cursor: usize,
    pub all: bool,
}

impl View for RenameState {
    type V = Renaming;

    open spec fn view(&self) -> Renaming {
        Renaming { item: self.item, buf: self.buf@, cursor: self.cursor, all: self.select_all }
    }
}

/// A paste under way: which entry of the clipboard is being copied and under
/// which name, the lower-case names in use, how many went through, and the
/// first failure.
pub struct PasteState {
    pub index: usize,
    pub name: Vec<char>,
    pub taken: Vec<Vec<char>>,
    pub count: usize,
    pub failed: Option<Vec<char>>,
}

/// A paste under way, in contracts.
pub struct Pasting {
    pub index: usize,
    pub name: Seq<char>,
    pub taken: Seq<Seq<char>>,
    pub count: usize,
    pub failed: Option<Seq<char>>,
}

pub open spec fn maybe(v: Option<Vec<char>>) -> Option<Seq<char>> {
    match v {
        Some(t) => Some(t@),
        None => None,
    }
}

impl View for PasteState {
    type V = Pasting;

    open spec fn view(&self) -> Pasting {
        Pasting {
            index: self.index,
            name: self.name@,
            taken: views(self.taken@),
            count: self.count,
            failed: maybe(self.failed),
        }
    }
}

pub struct Model {
    pub places: Places,
    pub path: Vec<char>,
    pub entries: Vec<Item>,
    pub selection: usize,
    pub scroll: usize,
    pub layout: Layout,
    pub sort: SortKey,
    pub sort_asc: bool,
    /// Cursor position in window content coordinates.
    pub cursor: (i32, i32),
    /// Double-click detection: the item and tick of the previous press.
    pub last_click_item: usize,
    pub last_click_ticks: u64,
    pub last_click_was_double: bool,
    /// Two-step delete confirmation: selection at press time, tick.
    pub pending_delete: Option<(usize, u64)>,
    pub rename: Option<RenameState>,
    /// Selected indices beyond `selection`, and the anchor for ranges.
    pub multi: Vec<usize>,
    pub anchor: usize,
    pub search_mode: bool,
    pub search: Vec<char>,
    pub status: Vec<char>,
    pub free_bytes: u64,
    pub drag: Option<(Vec<char>, bool)>,
    /// Source paths of the copied entries with their directory flags.
    pub clip: Vec<(Vec<char>, bool)>,
    pub paste: Option<PasteState>,
}

/// The state of the explorer.
pub struct Explorer {
    pub homes: Homes,
    pub path: Seq<char>,
    pub entries: Seq<Listed>,
    pub selection: usize,
    pub scroll: usize,
    pub layout: Layout,
    pub sort: SortKey,
    pub asc: bool,
    pub cursor: (i32, i32),
    pub last_item: usize,
    pub last_ticks: u64,
    pub was_double: bool,
    pub pending: Option<(usize, u64)>,
    pub rename: Option<Renaming>,
    pub multi: Seq<usize>,
    pub anchor: usize,
    pub searching: bool,
    pub search: Seq<char>,
    pub status: Seq<char>,
    pub free: u64,
    pub drag: Option<(Seq<char>, bool)>,
    pub clip: Seq<(Seq<char>, bool)>,
    pub paste: Option<Pasting>,
}

pub open spec fn clip_views(v: Seq<(Vec<char>, bool)>) -> Seq<(Seq<char>, bool)> {
    Seq::new(v.len(), |i: int| (v[i].0@, v[i].1))
}

impl View for Model {
    type V = Explorer;

    open spec fn view(&self) -> Explorer {
        Explorer {
            homes: self.places@,
            path: self.path@,
            entries: item_views(self.entries@),
            selection: self.selection,
            scroll: self.scroll,
            layout: self.layout,
            sort: self.sort,
            asc: self.sort_asc,
            cursor: self.cursor,
            last_item: self.last_click_item,
            last_ticks: self.last_click_ticks,
            was_double: self.last_click_was_double,
            pending: self.pending_delete,
            rename: match self.rename {
                Some(r) => Some(r@),
                None => None,
            },
            multi: self.multi@,
            anchor: self.anchor,
            searching: self.search_mode,
            search: self.search@,
            status: self.status@,
            free: self.free_bytes,
            drag: match self.drag {
                Some((p, d)) => Some((p@, d)),
                None => None,
            },
            clip: clip_views(self.clip@),
            paste: match self.paste {
                Some(p) => Some(p@),
                None => None,
            },
        }
    }
}

// ---------------------------------------------------------------------
// Layout
// ---------------------------------------------------------------------

/// How many entries fit: 19 rows, or 6 rows of 6 tiles.
pub open spec fn visible(l: Layout) -> int {
    match l {
        Layout::Details => 19,
        Layout::Grid => 36,
    }
}

pub open spec fn max_scroll(x: Explorer) -> int {
    if x.entries.len() > visible(x.layout) {
        x.entries.len() - visible(x.layout)
    } else {
        0
    }
}

pub open spec fn least(a: int, b: int) -> int {
    if a < b {
        a
    } else {
        b
    }
}

/// The explorer scrolled no further than needed.
pub open spec fn scroll_capped(x: Explorer) -> Explorer {
    Explorer { scroll: least(x.scroll as int, max_scroll(x)) as usize, ..x }
}

/// The explorer scrolled so that the selection shows.
pub open spec fn in_view(x: Explorer) -> Explorer {
    let v = visible(x.layout);
    let s = if x.selection < x.scroll {
        x.selection as int
    } else if x.selection >= x.scroll + v {
        x.selection + 1 - v
    } else {
        x.scroll as int
    };
    Explorer { scroll: least(s, max_scroll(x)) as usize, ..x }
}

/// After scrolling to it, the selected entry is among those that show.
pub proof fn law_selection_shows(x: Explorer)
    requires
        x.selection < x.entries.len(),
        x.entries.len() <= usize::MAX,
    ensures
        in_view(x).scroll <= x.selection < in_view(x).scroll + visible(x.layout),
        in_view(in_view(x)) == in_view(x),
{
}

/// The entry under a point. Right of the grid's sixth column there is none.
pub open spec fn item_under(x: Explorer, px: int, py: int) -> Option<usize> {
    let off = match x.layout {
        Layout::Details => if py < 74 {
            -1
        } else {
            (py - 74) / 18
        },
        Layout::Grid => (py - 50) / 54 * 6 + (px - 128) / 88,
    };
    let beside = x.layout is Grid && (px - 128) / 88 >= 6;
    if px < 128 || px >= 690 || py < 50 || off < 0 || beside || x.scroll + off >= x.entries.len() {
        None
    } else {
        Some((x.scroll + off) as usize)
    }
}

// ---------------------------------------------------------------------
// Directories
// ---------------------------------------------------------------------

pub open spec fn listed(e: Entry) -> Listed {
    Listed { name: e.name, is_dir: e.is_dir, size: e.size }
}

/// What a directory holds, or why it cannot be read.
pub open spec fn contents(disk: Option<Volume>, path: Seq<char>) -> Result<Seq<Listed>, FatError> {
    match disk {
        None => Err(FatError::NoDisk),
        Some(v) => match dir_at(v, path) {
            Ok(es) => Ok(Seq::new(es.len(), |i: int| listed(es[i]))),
            Err(e) => Err(e),
        },
    }
}

pub open spec fn free_space(disk: Option<Volume>) -> u64 {
    match disk {
        Some(v) => (v.free * v.spc * 512) as u64,
        None => 0,
    }
}

/// The indices below `n`, in their order.
pub open spec fn below(m: Seq<usize>, n: int) -> Seq<usize>
    decreases m.len(),
{
    if m.len() == 0 {
        m
    } else {
        let rest = below(m.drop_last(), n);
        if m.last() < n {
            rest.push(m.last())
        } else {
            rest
        }
    }
}

/// The explorer with its directory read again. Selection and layout are
/// kept as far as the new listing has them.
pub open spec fn refreshed(x: Explorer, disk: Option<Volume>) -> Explorer {
    let (entries, status) = match contents(disk, x.path) {
        Ok(items) => (sorted(items, x.sort, x.asc), x.status),
        Err(e) => (
            Seq::empty(),
            "cannot read "@ + x.path + ": "@ + message_of(e)@,
        ),
    };
    scroll_capped(
        Explorer {
            entries,
            status,
            selection: if x.selection >= entries.len() {
                0
            } else {
                x.selection
            },
            multi: below(x.multi, entries.len() as int),
            free: free_space(disk),
            ..x
        },
    )
}

/// The explorer in another directory.
pub open spec fn navigated(x: Explorer, path: Seq<char>, disk: Option<Volume>) -> Explorer {
    refreshed(
        Explorer {
            path,
            selection: 0,
            scroll: 0,
            pending: None,
            rename: None,
            multi: Seq::empty(),
            anchor: 0,
            searching: false,
            search: Seq::empty(),
            status: Seq::empty(),
            ..x
        },
        disk,
    )
}

/// An explorer in the home directory.
pub open spec fn started(homes: Homes, disk: Option<Volume>) -> Explorer {
    navigated(
        Explorer {
            homes,
            path: homes.home,
            entries: Seq::empty(),
            selection: 0,
            scroll: 0,
            layout: Layout::Details,
            sort: SortKey::Name,
            asc: true,
            cursor: (i32::MAX, i32::MAX),
            last_item: usize::MAX,
            last_ticks: 0,
            was_double: false,
            pending: None,
            rename: None,
            multi: Seq::empty(),
            anchor: 0,
            searching: false,
            search: Seq::empty(),
            status: Seq::empty(),
            free: 0,
            drag: None,
            clip: Seq::empty(),
            paste: None,
        },
        homes.home,
        disk,
    )
}

/// The explorer with one entry selected and scrolled to.
pub open spec fn chosen(x: Explorer, item: usize) -> Explorer {
    in_view(Explorer { selection: item, multi: Seq::empty(), anchor: item, ..x })
}

/// The selection moved by some entries.
pub open spec fn selection_moved(x: Explorer, delta: int) -> Explorer {
    if x.entries.len() == 0 {
        x
    } else {
        let to = x.selection + delta;
        chosen(
            x,
            (if to < 0 {
                0
            } else {
                least(to, x.entries.len() - 1)
            }) as usize,
        )
    }
}

impl Model {
    /// The listing is not scrolled past its end, the selection is in it, and a
    /// paste counts no more copies than it made.
    pub open spec fn wf(&self) -> bool {
        &&& self.scroll <= max_scroll(self@)
        &&& self.selection < self.entries@.len() || self.selection == 0
        &&& self.paste matches Some(p) ==> p.count <= p.index
    }

    fn visible_items(&self) -> (r: usize)
        ensures
            r == visible(self.layout),
    {
        match self.layout {
            Layout::Details => 19,
            Layout::Grid => 36,
        }
    }

    fn scroll_limit(&self) -> (r: usize)
        ensures
            r == max_scroll(self@),
    {
        let v = self.visible_items();
        if self.entries.len() > v {
            self.entries.len() - v
        } else {
            0
        }
    }

    fn cap_scroll(&mut self)
        requires
            old(self).selection < old(self).entries@.len() || old(self).selection == 0,
            old(self).paste matches Some(p) ==> p.count <= p.index,
        ensures
            final(self).wf(),
            final(self)@ == scroll_capped(old(self)@),
    {
        let limit = self.scroll_limit();
        if self.scroll > limit {
            self.scroll = limit;
        }
    }

    fn ensure_selection_visible(&mut self)
        requires
            old(self).wf(),
        ensures
            final(self).wf(),
            final(self).entries == old(self).entries,
            final(self)@ == in_view(old(self)@),
    {
        let v = self.visible_items();
        let limit = self.scroll_limit();
        if self.selection < self.scroll {
            self.scroll = self.selection;
        } else if self.selection - self.scroll >= v {
            self.scroll = self.selection - (v - 1);
        }
        if self.scroll > limit {
            self.scroll = limit;
        }
    }

    /// Returns the entry index under a content-local point.
    pub fn item_at(&self, x: i32, y: i32) -> (r: Option<usize>)
        requires
            self.wf(),
        ensures
            r == item_under(self@, x as int, y as int),
            r matches Some(i) ==> i < self.entries@.len(),
    {
        if x < 128 || x >= 690 || y < 50 {
            return None;
        }
        let off = match self.layout {
            Layout::Details => {
                if y < 74 {
                    return None;
                }
                (y as u32 - 74) / 18
            },
            Layout::Grid => {
                let column = (x as u32 - 128) / 88;
                if column >= 6 {
                    return None;
                }
                (y as u32 - 50) / 54 * 6 + column
            },
        };
        if off as u64 >= (self.entries.len() - self.scroll) as u64 {
            None
        } else {
            Some(self.scroll + off as usize)
        }
    }

    /// Absolute source path and directory flag for an entry index.
    pub fn entry_path(&self, item: usize) -> (r: Option<(Vec<char>, bool)>)
        ensures
            r is Some <==> item < self.entries@.len(),
            r matches Some((p, d)) ==> p@ == joined_path(self@.path, self@.entries[item as int].name)
                && d == self@.entries[item as int].is_dir,
    {
        if item < self.entries.len() {
            Some((join(&self.path, &self.entries[item].name), self.entries[item].is_dir))
        } else {
            None
        }
    }

    /// Reloads the entry list for the current path.
    pub fn refresh(&mut self, disk: &Mount)
        requires
            disk.wf(),
            old(self).paste matches Some(p) ==> p.count <= p.index,
        ensures
            final(self).wf(),
            final(self)@ == refreshed(old(self)@, disk@),
    {
        let path = string_of(&self.path);
        match list_dir(disk, path.as_str()) {
            Ok(es) => {
                let items = items_of(es);
                self.entries = sort_entries(items, self.sort, self.sort_asc);
            },
            Err(e) => {
                let mut t: Vec<char> = Vec::new();
                push_str(&mut t, "cannot read ");
                push_word(&mut t, true, &self.path);
                push_str(&mut t, ": ");
                push_str(&mut t, e.message());
                assert(t@ =~= "cannot read "@ + self.path@ + ": "@ + message_of(e)@);
                self.status = t;
                self.entries = Vec::new();
                assert(item_views(self.entries@) =~= Seq::<Listed>::empty());
            },
        }
        let n = self.entries.len();
        if self.selection >= n {
            self.selection = 0;
        }
        keep_below(&mut self.multi, n);
        self.free_bytes = match info(disk) {
            Some(i) => {
                let (f, s) = (i.free_clusters as u64, i.sectors_per_cluster as u64);
                assert(f * s <= 0xFFFF_FFFF * 255) by (nonlinear_arith)
                    requires
                        f <= 0xFFFF_FFFF,
                        s <= 255,
                ;
                f * s * 512
            },
            None => 0,
        };
        assert(item_views(self.entries@).len() == n);
        self.cap_scroll();
    }

    /// Goes to another directory.
    pub fn navigate(&mut self, path: Vec<char>, disk: &Mount)
        requires
            disk.wf(),
            old(self).paste matches Some(p) ==> p.count <= p.index,
        ensures
            final(self).wf(),
            final(self)@ == navigated(old(self)@, path@, disk@),
    {
        self.path = path;
        self.selection = 0;
        self.scroll = 0;
        self.pending_delete = None;
        self.rename = None;
        self.multi = Vec::new();
        self.anchor = 0;
        self.search_mode = false;
        self.search = Vec::new();
        self.status = Vec::new();
        assert(self.multi@ =~= Seq::<usize>::empty());
        assert(self.search@ =~= Seq::<char>::empty());
        assert(self.status@ =~= Seq::<char>::empty());
        self.refresh(disk);
    }

    /// An explorer in the home directory.
    pub fn new(places: Places, disk: &Mount) -> (r: Self)
        requires
            disk.wf(),
        ensures
            r.wf(),
            r@ == started(places@, disk@),
    {
        let home = part(&places.home, 0, places.home.len());
        let first = part(&places.home, 0, places.home.len());
        assert(home@ =~= places.home@);
        assert(first@ =~= places.home@);
        let mut m = Model {
            places,
            path: first,
            entries: Vec::new(),
            selection: 0,
            scroll: 0,
            layout: Layout::Details,
            sort: SortKey::Name,
            sort_asc: true,
            cursor: (i32::MAX, i32::MAX),
            last_click_item: usize::MAX,
            last_click_ticks: 0,
            last_click_was_double: false,
            pending_delete: None,
            rename: None,
            multi: Vec::new(),
            anchor: 0,
            search_mode: false,
            search: Vec::new(),
            status: Vec::new(),
            free_bytes: 0,
            drag: None,
            clip: Vec::new(),
            paste: None,
        };
        proof {
            assert(m@.entries =~= Seq::<Listed>::empty());
            assert(m@.multi =~= Seq::<usize>::empty());
            assert(m@.search =~= Seq::<char>::empty());
            assert(m@.status =~= Seq::<char>::empty());
            assert(m@.clip =~= Seq::<(Seq<char>, bool)>::empty());
        }
        m.navigate(home, disk);
        m
    }

    /// Selects one entry alone and scrolls to it.
    fn pick(&mut self, item: usize)
        requires
            old(self).wf(),
            item < old(self).entries@.len(),
        ensures
            final(self).wf(),
            final(self)@ == chosen(old(self)@, item),
    {
        self.selection = item;
        self.multi = Vec::new();
        assert(self.multi@ =~= Seq::<usize>::empty());
        self.anchor = item;
        self.ensure_selection_visible();
    }

    /// Moves the selection up or down.
    fn move_selection(&mut self, up: bool, by: usize)
        requires
            old(self).wf(),
            by <= 36,
        ensures
            final(self).wf(),
            final(self)@ == selection_moved(
                old(self)@,
                if up {
                    -(by as int)
                } else {
                    by as int
                },
            ),
    {
        let n = self.entries.len();
        if n == 0 {
            return;
        }
        let to = if up {
            self.selection.saturating_sub(by)
        } else if self.selection >= n - 1 {
            n - 1
        } else if by > n - 1 - self.selection {
            n - 1
        } else {
            self.selection + by
        };
        self.pick(to);
    }
}

fn items_of(es: Vec<crate::fat::DirEntry>) -> (r: Vec<Item>)
    ensures
        item_views(r@) == Seq::new(es@.len(), |i: int| listed(entry_views(es@)[i])),
{
    let mut out: Vec<Item> = Vec::new();
    let mut i: usize = 0;
    while i < es.len()
        invariant
            i <= es@.len(),
            out@.len() == i,
            forall|k: int| 0 <= k < i ==> #[trigger] out@[k]@ == listed(es@[k]@),
        decreases es@.len() - i,
    {
        out.push(
            Item {
                name: chars_of(es[i].name.as_str()),
                is_dir: es[i].is_dir,
                size: es[i].size,
            },
        );
        i += 1;
    }
    assert(item_views(out@) =~= Seq::new(es@.len(), |i: int| listed(entry_views(es@)[i])));
    out
}

fn keep_below(m: &mut Vec<usize>, n: usize)
    ensures
        final(m)@ == below(old(m)@, n as int),
{
    let mut out: Vec<usize> = Vec::new();
    let ghost all = m@;
    let mut i: usize = 0;
    assert(all.take(0) =~= Seq::<usize>::empty());
    while i < m.len()
        invariant
            i <= m@.len(),
            all == m@,
            out@ == below(all.take(i as int), n as int),
        decreases m@.len() - i,
    {
        assert(all.take(i + 1).drop_last() =~= all.take(i as int));
        assert(all.take(i + 1).last() == all[i as int]);
        if m[i] < n {
            out.push(m[i]);
        }
        i += 1;
    }
    assert(all.take(i as int) =~= all);
    *m = out;
}

// ---------------------------------------------------------------------
// Selected entries
// ---------------------------------------------------------------------

/// Whether an entry is part of the selection.
pub open spec fn is_picked(x: Explorer, i: int) -> bool {
    i == x.selection || exists|k: int| 0 <= k < x.multi.len() && #[trigger] x.multi[k] == i
}

/// The selected ones of the first `n` entries, in order.
pub open spec fn picks(x: Explorer, n: nat) -> Seq<int>
    decreases n,
{
    if n == 0 {
        Seq::empty()
    } else {
        let rest = picks(x, (n - 1) as nat);
        if is_picked(x, n - 1) {
            rest.push(n - 1)
        } else {
            rest
        }
    }
}

pub open spec fn picked(x: Explorer) -> Seq<int> {
    picks(x, x.entries.len())
}

/// The path of an entry.
pub open spec fn path_of(x: Explorer, i: int) -> Seq<char> {
    joined_path(x.path, x.entries[i].name)
}

pub open spec fn plural(n: int) -> Seq<char> {
    if n == 1 {
        ""@
    } else {
        "s"@
    }
}

/// The explorer with the selected entries on its clipboard.
pub open spec fn copied_selection(x: Explorer) -> Explorer {
    let p = picked(x);
    if p.len() == 0 {
        x
    } else {
        Explorer {
            clip: Seq::new(p.len(), |k: int| (path_of(x, p[k]), x.entries[p[k]].is_dir)),
            status: "copied "@ + dec(p.len()) + " item"@ + plural(p.len() as int),
            ..x
        }
    }
}

impl Model {
    /// Whether `index` is part of the current selection.
    pub fn is_selected(&self, index: usize) -> (r: bool)
        ensures
            r == is_picked(self@, index as int),
    {
        if index == self.selection {
            return true;
        }
        let mut k: usize = 0;
        while k < self.multi.len()
            invariant
                k <= self.multi@.len(),
                forall|j: int| 0 <= j < k ==> #[trigger] self.multi@[j] != index,
            decreases self.multi@.len() - k,
        {
            if self.multi[k] == index {
                assert(self@.multi[k as int] == index);
                return true;
            }
            k += 1;
        }
        false
    }

    /// All selected indices, in order.
    pub fn selected_indices(&self) -> (r: Vec<usize>)
        ensures
            r@.len() == picked(self@).len(),
            forall|k: int|
                0 <= k < r@.len() ==> #[trigger] r@[k] == picked(self@)[k] && r@[k]
                    < self.entries@.len(),
    {
        let mut out: Vec<usize> = Vec::new();
        let ghost x = self@;
        let mut i: usize = 0;
        while i < self.entries.len()
            invariant
                i <= self.entries@.len(),
                x == self@,
                out@.len() == picks(x, i as nat).len(),
                forall|k: int|
                    0 <= k < out@.len() ==> #[trigger] out@[k] == picks(x, i as nat)[k] && out@[k]
                        < i,
            decreases self.entries@.len() - i,
        {
            if self.is_selected(i) {
                out.push(i);
            }
            i += 1;
        }
        out
    }

    /// Copies the selected entries' paths into the clipboard.
    pub fn copy_selected(&mut self)
        requires
            old(self).wf(),
        ensures
            final(self).wf(),
            final(self)@ == copied_selection(old(self)@),
    {
        let p = self.selected_indices();
        if p.len() == 0 {
            return;
        }
        let ghost x = self@;
        let mut clip: Vec<(Vec<char>, bool)> = Vec::new();
        let mut k: usize = 0;
        while k < p.len()
            invariant
                k <= p@.len(),
                x == self@,
                p@.len() == picked(x).len(),
                forall|j: int|
                    0 <= j < p@.len() ==> #[trigger] p@[j] == picked(x)[j] && p@[j]
                        < self.entries@.len(),
                clip@.len() == k,
                forall|j: int|
                    0 <= j < k ==> (#[trigger] clip@[j]).0@ == path_of(x, picked(x)[j]) && clip@[j].1
                        == x.entries[picked(x)[j]].is_dir,
            decreases p@.len() - k,
        {
            let i = p[k];
            clip.push((join(&self.path, &self.entries[i].name), self.entries[i].is_dir));
            k += 1;
        }
        let mut t: Vec<char> = Vec::new();
        push_str(&mut t, "copied ");
        push_dec(&mut t, p.len() as u64);
        push_str(&mut t, " item");
        push_str(&mut t, if p.len() == 1 { "" } else { "s" });
        assert(t@ =~= copied_selection(x).status);
        self.clip = clip;
        self.status = t;
        assert(self@.clip =~= copied_selection(x).clip);
    }

    /// Whether the clipboard holds entries.
    pub fn has_clipboard(&self) -> (r: bool)
        ensures
            r == (self@.clip.len() > 0),
    {
        self.clip.len() > 0
    }
}

// ---------------------------------------------------------------------
// Paste
// ---------------------------------------------------------------------

/// The next copy of a paste, or its end.
pub open spec fn paste_next(x: Explorer, p: Pasting, disk: Option<Volume>) -> (Explorer, Deed) {
    if p.index < x.clip.len() {
        let src = x.clip[p.index as int].0;
        let name = free_name(base_of(src), p.taken);
        (
            Explorer { paste: Some(Pasting { name, ..p }), ..x },
            Deed::Copy(src, joined_path(x.path, name)),
        )
    } else {
        let done = "pasted "@ + dec(p.count as nat) + " item"@ + plural(p.count as int);
        let missing = if x.clip.len() >= p.count {
            x.clip.len() - p.count
        } else {
            0
        };
        let status = match p.failed {
            Some(e) => done + ", "@ + dec(missing as nat) + " failed ("@ + e + ")"@,
            None => done,
        };
        (refreshed(Explorer { status, paste: None, ..x }, disk), Deed::Nothing)
    }
}

/// A paste of the clipboard begins.
pub open spec fn paste_begun(x: Explorer, disk: Option<Volume>) -> (Explorer, Deed) {
    if x.clip.len() == 0 {
        (
            Explorer { status: "clipboard is empty \u{2014} copy a file first"@, ..x },
            Deed::Nothing,
        )
    } else {
        paste_next(
            x,
            Pasting {
                index: 0,
                name: Seq::empty(),
                taken: taken_names(x.entries),
                count: 0,
                failed: None,
            },
            disk,
        )
    }
}

/// A copy of the paste under way came out; the next one.
pub open spec fn paste_went_on(x: Explorer, e: Option<FatError>, disk: Option<Volume>) -> (
    Explorer,
    Deed,
) {
    match x.paste {
        None => (x, Deed::Nothing),
        Some(p) => if p.index >= x.clip.len() {
            (x, Deed::Nothing)
        } else {
            let next = match e {
                None => Pasting {
                    index: (p.index + 1) as usize,
                    count: (p.count + 1) as usize,
                    taken: p.taken.push(lowercase(p.name)),
                    ..p
                },
                Some(e) => Pasting {
                    index: (p.index + 1) as usize,
                    failed: match p.failed {
                        Some(f) => Some(f),
                        None => Some(
                            base_of(x.clip[p.index as int].0) + ": "@ + message_of(e)@,
                        ),
                    },
                    ..p
                },
            };
            paste_next(x, next, disk)
        },
    }
}

impl Model {
    fn next_copy(&mut self, p: PasteState, disk: &Mount) -> (r: Option<FsAction>)
        requires
            old(self).wf(),
            disk.wf(),
            p.count <= p.index,
        ensures
            final(self).wf(),
            (final(self)@, deed(r)) == paste_next(old(self)@, p@, disk@),
    {
        let mut p = p;
        let ghost x = self@;
        let ghost q = p@;
        if p.index < self.clip.len() {
            let src = &self.clip[p.index].0;
            let base = base_name(src);
            let name = unique_name(&base, &p.taken);
            let dst = join(&self.path, &name);
            p.name = name;
            let action = FsAction::Copy { src: string_of(src), dst: string_of(&dst) };
            self.paste = Some(p);
            return Some(action);
        }
        let mut t: Vec<char> = Vec::new();
        push_str(&mut t, "pasted ");
        push_dec(&mut t, p.count as u64);
        push_str(&mut t, " item");
        push_str(&mut t, if p.count == 1 { "" } else { "s" });
        if let Some(e) = &p.failed {
            push_str(&mut t, ", ");
            push_dec(&mut t, self.clip.len().saturating_sub(p.count) as u64);
            push_str(&mut t, " failed (");
            push_word(&mut t, true, e);
            push_str(&mut t, ")");
        }
        proof {
            let done = "pasted "@ + dec(q.count as nat) + " item"@ + plural(q.count as int);
            match q.failed {
                Some(e) => {
                    let missing = if x.clip.len() >= q.count {
                        x.clip.len() - q.count
                    } else {
                        0
                    };
                    assert(t@ =~= done + ", "@ + dec(missing as nat) + " failed ("@ + e + ")"@);
                },
                None => {
                    assert(t@ =~= done);
                },
            }
        }
        self.status = t;
        self.paste = None;
        self.refresh(disk);
        None
    }

    /// Begins to paste every entry of the clipboard into the current
    /// directory, under names that are free here.
    pub fn paste_clipboard(&mut self, disk: &Mount) -> (r: Option<FsAction>)
        requires
            old(self).wf(),
            disk.wf(),
        ensures
            final(self).wf(),
            (final(self)@, deed(r)) == paste_begun(old(self)@, disk@),
    {
        if self.clip.len() == 0 {
            self.status = chars_of("clipboard is empty \u{2014} copy a file first");
            return None;
        }
        let p = PasteState {
            index: 0,
            name: Vec::new(),
            taken: names_taken(&self.entries),
            count: 0,
            failed: None,
        };
        assert(p@.name =~= Seq::<char>::empty());
        self.next_copy(p, disk)
    }

    /// A copy that the paste asked for came out.
    pub fn copied(&mut self, outcome: Result<(), FatError>, disk: &Mount) -> (r: Option<FsAction>)
        requires
            old(self).wf(),
            disk.wf(),
        ensures
            final(self).wf(),
            (final(self)@, deed(r)) == paste_went_on(
                old(self)@,
                match outcome {
                    Ok(_) => None,
                    Err(e) => Some(e),
                },
                disk@,
            ),
    {
        let ghost x = self@;
        let mut state: Option<PasteState> = None;
        let index = match &self.paste {
            Some(p) => p.index,
            None => {
                return None;
            },
        };
        if index >= self.clip.len() {
            return None;
        }
        std::mem::swap(&mut self.paste, &mut state);
        let mut p = match state {
            Some(p) => p,
            None => {
                return None;
            },
        };
        let ghost q = p@;
        match outcome {
            Ok(_) => {
                let low = lowered(&p.name);
                let ghost before = views(p.taken@);
                p.taken.push(low);
                assert(views(p.taken@) =~= before.push(lowercase(q.name)));
                p.count = p.count + 1;
            },
            Err(e) => {
                if p.failed.is_none() {
                    let base = base_name(&self.clip[index].0);
                    let mut t: Vec<char> = Vec::new();
                    push_word(&mut t, true, &base);
                    push_str(&mut t, ": ");
                    push_str(&mut t, e.message());
                    assert(t@ =~= base_of(x.clip[index as int].0) + ": "@ + message_of(e)@);
                    p.failed = Some(t);
                }
            },
        }
        p.index = index + 1;
        self.next_copy(p, disk)
    }
}

// ---------------------------------------------------------------------
// Opening
// ---------------------------------------------------------------------

/// A file's bytes, or why they cannot be read.
pub open spec fn bytes_of(disk: Option<Volume>, path: Seq<char>) -> Result<Seq<u8>, FatError> {
    match disk {
        None => Err(FatError::NoDisk),
        Some(v) => file_at(v, path),
    }
}

/// Opening the selected entry: a directory is entered, a program run, an
/// image or a text read and shown; other files have no viewer.
pub open spec fn opened(x: Explorer, disk: Option<Volume>) -> (Explorer, Deed) {
    if x.selection >= x.entries.len() {
        (x, Deed::Nothing)
    } else {
        let e = x.entries[x.selection as int];
        let path = path_of(x, x.selection as int);
        if e.is_dir {
            (navigated(x, path, disk), Deed::Nothing)
        } else if elf_name(e.name) {
            (Explorer { status: "launching "@ + e.name, ..x }, Deed::Run(path))
        } else if image_name(e.name) || text_name(e.name) {
            match bytes_of(disk, path) {
                Ok(b) => (
                    Explorer {
                        status: "opened "@ + e.name + " ("@ + dec(b.len()) + " bytes)"@,
                        ..x
                    },
                    if image_name(e.name) {
                        Deed::Image(path, b)
                    } else {
                        Deed::Text(path, b)
                    },
                ),
                Err(err) => (
                    Explorer {
                        status: "cannot read "@ + e.name + ": "@ + message_of(err)@,
                        ..x
                    },
                    Deed::Nothing,
                ),
            }
        } else {
            (
                Explorer {
                    status: e.name + ": no viewer ("@ + size_text(e.size as nat) + ")"@,
                    ..x
                },
                Deed::Nothing,
            )
        }
    }
}

impl Model {
    pub fn open_selected(&mut self, disk: &Mount) -> (r: Option<FsAction>)
        requires
            old(self).wf(),
            disk.wf(),
        ensures
            final(self).wf(),
            (final(self)@, deed(r)) == opened(old(self)@, disk@),
    {
        if self.selection >= self.entries.len() {
            return None;
        }
        let ghost x = self@;
        let e = &self.entries[self.selection];
        let path = join(&self.path, &e.name);
        if e.is_dir {
            self.navigate(path, disk);
            return None;
        }
        let full = string_of(&path);
        let mut t: Vec<char> = Vec::new();
        if is_elf(&e.name) {
            push_str(&mut t, "launching ");
            push_word(&mut t, true, &e.name);
            assert(t@ =~= opened(x, disk@).0.status);
            self.status = t;
            return Some(FsAction::RunTerminal(full));
        }
        let image = is_raw(&e.name);
        if image || crate::explorer_names::is_text(&e.name) {
            match read_file(disk, full.as_str()) {
                Ok(content) => {
                    push_str(&mut t, "opened ");
                    push_word(&mut t, true, &e.name);
                    push_str(&mut t, " (");
                    push_dec(&mut t, content.len() as u64);
                    push_str(&mut t, " bytes)");
                    assert(t@ =~= opened(x, disk@).0.status);
                    self.status = t;
                    if image {
                        Some(FsAction::OpenImage(full, content))
                    } else {
                        Some(FsAction::OpenText(full, content))
                    }
                },
                Err(err) => {
                    push_str(&mut t, "cannot read ");
                    push_word(&mut t, true, &e.name);
                    push_str(&mut t, ": ");
                    push_str(&mut t, err.message());
                    assert(t@ =~= opened(x, disk@).0.status);
                    self.status = t;
                    None
                },
            }
        } else {
            push_word(&mut t, true, &e.name);
            push_str(&mut t, ": no viewer (");
            let size = crate::explorer_names::fmt_size(e.size as u64);
            push_word(&mut t, true, &size);
            push_str(&mut t, ")");
            assert(t@ =~= opened(x, disk@).0.status);
            self.status = t;
            None
        }
    }
}

// ---------------------------------------------------------------------
// Deleting
// ---------------------------------------------------------------------

/// Whether the trash is shown.
pub open spec fn shows_trash(x: Explorer) -> bool {
    x.path == x.homes.trash
}

/// The paths of the selected entries.
pub open spec fn picked_paths(x: Explorer) -> Seq<Seq<char>> {
    Seq::new(picked(x).len(), |k: int| path_of(x, picked(x)[k]))
}

/// Removing the first `n` paths: whether one failed, and the volume.
pub open spec fn removed_all(disk: Option<Volume>, paths: Seq<Seq<char>>, n: nat) -> (
    bool,
    Option<Volume>,
)
    decreases n,
{
    if n == 0 {
        (false, disk)
    } else {
        let (failed, d) = removed_all(disk, paths, (n - 1) as nat);
        match d {
            None => (true, None),
            Some(v) => (failed || removed(v, paths[n - 1]).0 is Err, Some(removed(v, paths[n - 1]).1)),
        }
    }
}

/// The end of a delete of `n` entries.
pub open spec fn deleted(x: Explorer, n: nat, failed: bool, disk: Option<Volume>) -> Explorer {
    refreshed(
        Explorer {
            status: if failed {
                "delete failed (some entries)"@
            } else if shows_trash(x) {
                "permanently deleted "@ + dec(n) + " items"@
            } else {
                "moved "@ + dec(n) + " items to trash"@
            },
            multi: Seq::empty(),
            ..x
        },
        disk,
    )
}

/// Whether a delete was armed, on the same selection and not long ago.
pub open spec fn delete_armed(x: Explorer, now: u64) -> bool {
    x.pending matches Some((sel, tick)) && sel == x.selection && now <= tick + DELETE_ARM_TICKS
}

/// A press of delete: the first one asks, a second one soon after does it.
/// In the trash entries are erased, elsewhere they go to the trash.
pub open spec fn delete_pressed(x: Explorer, disk: Option<Volume>, now: u64) -> (
    Explorer,
    Option<Volume>,
    Deed,
) {
    let n = picked(x).len();
    if n == 0 {
        (x, disk, Deed::Nothing)
    } else if delete_armed(x, now) {
        let y = Explorer { pending: None, ..x };
        if shows_trash(x) {
            let (failed, d) = removed_all(disk, picked_paths(x), n);
            (deleted(y, n, failed, d), d, Deed::Nothing)
        } else {
            (y, disk, Deed::Trash(picked_paths(x)))
        }
    } else {
        (
            Explorer {
                pending: Some((x.selection, now)),
                status: if shows_trash(x) {
                    "permanently delete "@ + dec(n) + " items? press Del again to confirm"@
                } else {
                    "move "@ + dec(n) + " items to trash? press Del again to confirm"@
                },
                ..x
            },
            disk,
            Deed::Nothing,
        )
    }
}

/// Nothing is deleted by a single press.
pub proof fn law_delete_needs_two_presses(x: Explorer, disk: Option<Volume>, now: u64)
    requires
        x.pending is None,
    ensures
        delete_pressed(x, disk, now).1 == disk,
        delete_pressed(x, disk, now).2 is Nothing,
{
}

impl Model {
    /// Whether the explorer is currently showing the trash directory.
    pub fn in_trash(&self) -> (r: bool)
        ensures
            r == shows_trash(self@),
    {
        same(&self.path, &self.places.trash)
    }

    fn finish_delete(&mut self, n: usize, failed: bool, disk: &Mount)
        requires
            old(self).wf(),
            disk.wf(),
        ensures
            final(self).wf(),
            final(self)@ == deleted(old(self)@, n as nat, failed, disk@),
    {
        let ghost x = self@;
        let mut t: Vec<char> = Vec::new();
        if failed {
            push_str(&mut t, "delete failed (some entries)");
            assert(t@ =~= "delete failed (some entries)"@);
        } else if self.in_trash() {
            push_str(&mut t, "permanently deleted ");
            push_dec(&mut t, n as u64);
            push_str(&mut t, " items");
            assert(t@ =~= "permanently deleted "@ + dec(n as nat) + " items"@);
        } else {
            push_str(&mut t, "moved ");
            push_dec(&mut t, n as u64);
            push_str(&mut t, " items to trash");
            assert(t@ =~= "moved "@ + dec(n as nat) + " items to trash"@);
        }
        self.status = t;
        self.multi = Vec::new();
        assert(self.multi@ =~= Seq::<usize>::empty());
        self.refresh(disk);
    }

    fn paths_of(&self, p: &Vec<usize>) -> (r: Vec<String>)
        requires
            p@.len() == picked(self@).len(),
            forall|k: int|
                0 <= k < p@.len() ==> #[trigger] p@[k] == picked(self@)[k] && p@[k]
                    < self.entries@.len(),
        ensures
            string_views(r@) == picked_paths(self@),
    {
        let ghost x = self@;
        let mut out: Vec<String> = Vec::new();
        let mut k: usize = 0;
        while k < p.len()
            invariant
                k <= p@.len(),
                x == self@,
                p@.len() == picked(x).len(),
                forall|j: int|
                    0 <= j < p@.len() ==> #[trigger] p@[j] == picked(x)[j] && p@[j]
                        < self.entries@.len(),
                out@.len() == k,
                forall|j: int| 0 <= j < k ==> #[trigger] out@[j]@ == path_of(x, picked(x)[j]),
            decreases p@.len() - k,
        {
            let path = join(&self.path, &self.entries[p[k]].name);
            out.push(string_of(&path));
            k += 1;
        }
        assert(string_views(out@) =~= picked_paths(x));
        out
    }

    /// Delete armed on the first press, executed on a second press while
    /// still armed.
    pub fn delete_selected(&mut self, disk: &mut Mount, now: u64) -> (r: Option<FsAction>)
        requires
            old(self).wf(),
            old(disk).wf(),
        ensures
            final(self).wf(),
            final(disk).wf(),
            (final(self)@, final(disk)@, deed(r)) == delete_pressed(
                old(self)@,
                old(disk)@,
                now,
            ),
    {
        let ghost x = self@;
        let p = self.selected_indices();
        let n = p.len();
        if n == 0 {
            return None;
        }
        let armed = match self.pending_delete {
            Some((sel, tick)) => sel == self.selection && now.saturating_sub(tick)
                <= DELETE_ARM_TICKS,
            None => false,
        };
        let trash = self.in_trash();
        if armed {
            let paths = self.paths_of(&p);
            self.pending_delete = None;
            if !trash {
                return Some(FsAction::Trash(paths));
            }
            let mut failed = false;
            let mut k: usize = 0;
            let ghost all = string_views(paths@);
            while k < paths.len()
                invariant
                    k <= paths@.len(),
                    disk.wf(),
                    all == string_views(paths@),
                    (failed, disk@) == removed_all(old(disk)@, all, k as nat),
                decreases paths@.len() - k,
            {
                match remove(disk, paths[k].as_str()) {
                    Ok(_) => {},
                    Err(_) => {
                        failed = true;
                    },
                }
                k += 1;
            }
            assert(all.len() == paths@.len());
            assert(picked_paths(x).len() == n);
            self.finish_delete(n, failed, disk);
            return None;
        }
        self.pending_delete = Some((self.selection, now));
        let mut t: Vec<char> = Vec::new();
        push_str(&mut t, if trash { "permanently delete " } else { "move " });
        push_dec(&mut t, n as u64);
        push_str(
            &mut t,
            if trash {
                " items? press Del again to confirm"
            } else {
                " items to trash? press Del again to confirm"
            },
        );
        assert(t@ =~= delete_pressed(x, old(disk)@, now).0.status);
        self.status = t;
        None
    }

    /// The entries that a delete asked to move to the trash are there, or
    /// some are not.
    pub fn trashed(&mut self, count: usize, failed: bool, disk: &Mount)
        requires
            old(self).wf(),
            disk.wf(),
        ensures
            final(self).wf(),
            final(self)@ == deleted(old(self)@, count as nat, failed, disk@),
    {
        self.finish_delete(count, failed, disk);
    }
}

// ---------------------------------------------------------------------
// Creating
// ---------------------------------------------------------------------

/// Where an entry of a name is, from `i` on.
pub open spec fn place_named(items: Seq<Listed>, name: Seq<char>, i: int) -> Option<usize>
    decreases items.len() - i,
{
    if i >= items.len() {
        None
    } else if items[i].name == name {
        Some(i as usize)
    } else {
        place_named(items, name, i + 1)
    }
}

/// The explorer with the entry of a name selected, if there is one.
pub open spec fn named_chosen(x: Explorer, name: Seq<char>) -> Explorer {
    match place_named(x.entries, name, 0) {
        Some(i) => in_view(Explorer { selection: i, ..x }),
        None => x,
    }
}

/// The end of creating an entry.
pub open spec fn created(x: Explorer, name: Seq<char>, r: Result<(), FatError>, disk: Option<Volume>) -> Explorer {
    match r {
        Ok(_) => named_chosen(refreshed(Explorer { status: "created "@ + name, ..x }, disk), name),
        Err(e) => Explorer { status: "create failed: "@ + message_of(e)@, ..x },
    }
}

pub open spec fn folder_name(x: Explorer) -> Seq<char> {
    new_name("New Folder"@, ""@, taken_names(x.entries), "New Folder"@ + ""@, 2)
}

pub open spec fn file_name(x: Explorer) -> Seq<char> {
    new_name("New File"@, ".txt"@, taken_names(x.entries), "New File"@ + ".txt"@, 2)
}

/// Creating a folder with a free name.
pub open spec fn folder_created(x: Explorer, disk: Option<Volume>, date: DateTime) -> (
    Explorer,
    Option<Volume>,
) {
    let name = folder_name(x);
    match disk {
        None => (created(x, name, Err(FatError::NoDisk), disk), disk),
        Some(v) => {
            let (r, w) = dir_made(v, joined_path(x.path, name), date);
            (created(x, name, r, Some(w)), Some(w))
        },
    }
}

/// Creating an empty text file with a free name.
pub open spec fn file_created(x: Explorer, disk: Option<Volume>, date: DateTime) -> (
    Explorer,
    Option<Volume>,
) {
    let name = file_name(x);
    match disk {
        None => (created(x, name, Err(FatError::NoDisk), disk), disk),
        Some(v) => {
            let (r, w) = file_written(v, joined_path(x.path, name), Seq::empty(), date);
            (created(x, name, r, Some(w)), Some(w))
        },
    }
}

impl Model {
    fn select_named(&mut self, name: &Vec<char>)
        requires
            old(self).wf(),
        ensures
            final(self).wf(),
            final(self)@ == named_chosen(old(self)@, name@),
    {
        let ghost x = self@;
        let mut i: usize = 0;
        while i < self.entries.len()
            invariant
                *self == *old(self),
                self.wf(),
                x == self@,
                i <= self.entries@.len(),
                place_named(x.entries, name@, 0) == place_named(x.entries, name@, i as int),
            decreases self.entries@.len() - i,
        {
            if same(&self.entries[i].name, name) {
                self.selection = i;
                self.ensure_selection_visible();
                return;
            }
            i += 1;
        }
    }

    fn finish_create(&mut self, name: &Vec<char>, r: Result<(), FatError>, disk: &Mount)
        requires
            old(self).wf(),
            disk.wf(),
        ensures
            final(self).wf(),
            final(self)@ == created(old(self)@, name@, r, disk@),
    {
        let mut t: Vec<char> = Vec::new();
        match r {
            Ok(_) => {
                push_str(&mut t, "created ");
                push_word(&mut t, true, name);
                assert(t@ =~= "created "@ + name@);
                self.status = t;
                self.refresh(disk);
                self.select_named(name);
            },
            Err(e) => {
                push_str(&mut t, "create failed: ");
                push_str(&mut t, e.message());
                assert(t@ =~= "create failed: "@ + message_of(e)@);
                self.status = t;
            },
        }
    }

    pub fn create_folder(&mut self, disk: &mut Mount, date: DateTime)
        requires
            old(self).wf(),
            old(disk).wf(),
        ensures
            final(self).wf(),
            final(disk).wf(),
            (final(self)@, final(disk)@) == folder_created(old(self)@, old(disk)@, date),
    {
        let taken = names_taken(&self.entries);
        let name = fresh_name("New Folder", "", &taken);
        let path = join(&self.path, &name);
        let path = string_of(&path);
        let r = make_dir(disk, path.as_str(), date);
        self.finish_create(&name, r, disk);
    }

    pub fn create_file(&mut self, disk: &mut Mount, date: DateTime)
        requires
            old(self).wf(),
            old(disk).wf(),
        ensures
            final(self).wf(),
            final(disk).wf(),
            (final(self)@, final(disk)@) == file_created(old(self)@, old(disk)@, date),
    {
        let taken = names_taken(&self.entries);
        let name = fresh_name("New File", ".txt", &taken);
        let path = join(&self.path, &name);
        let path = string_of(&path);
        let none: Vec<u8> = Vec::new();
        assert(none@ =~= Seq::<u8>::empty());
        let r = write_file(disk, path.as_str(), none.as_slice(), date);
        self.finish_create(&name, r, disk);
    }
}

// ---------------------------------------------------------------------
// Renaming
// ---------------------------------------------------------------------

/// Inline rename of the selected item begins; the whole name is selected.
pub open spec fn rename_started(x: Explorer) -> Explorer {
    if x.selection >= x.entries.len() {
        x
    } else {
        let name = x.entries[x.selection as int].name;
        Explorer {
            rename: Some(
                Renaming {
                    item: x.selection,
                    buf: name,
                    cursor: name.len() as usize,
                    all: true,
                },
            ),
            pending: None,
            status: "rename "@ + name + " \u{2014} Enter to confirm, Esc to cancel"@,
            ..x
        }
    }
}

/// The inline rename is done: an empty or unchanged name is dropped.
pub open spec fn rename_committed(x: Explorer) -> (Explorer, Deed) {
    match x.rename {
        None => (x, Deed::Nothing),
        Some(r) => {
            let y = Explorer { rename: None, ..x };
            let name = trimmed(r.buf);
            if r.item >= x.entries.len() || name.len() == 0 || x.entries[r.item as int].name
                == name {
                (y, Deed::Nothing)
            } else {
                (y, Deed::Rename(path_of(x, r.item as int), name))
            }
        },
    }
}

/// The end of a rename.
pub open spec fn rename_done(
    x: Explorer,
    old_name: Seq<char>,
    name: Seq<char>,
    r: Result<(), FatError>,
    disk: Option<Volume>,
) -> Explorer {
    match r {
        Ok(_) => named_chosen(
            refreshed(Explorer { status: "renamed "@ + old_name + " to "@ + name, ..x }, disk),
            name,
        ),
        Err(e) => Explorer { status: "rename failed: "@ + message_of(e)@, ..x },
    }
}

/// A character that a name cannot have.
pub open spec fn unfit(c: char) -> bool {
    c == '/' || c == '\\' || (c as u32) < 32 || c as u32 == 127
}

/// The edit buffer after a key.
pub open spec fn edited(r: Renaming, e: Event) -> Renaming {
    match e {
        Event::Backspace => if r.all {
            Renaming { all: false, buf: Seq::empty(), cursor: 0, ..r }
        } else if 0 < r.cursor <= r.buf.len() {
            Renaming { buf: r.buf.remove(r.cursor - 1), cursor: (r.cursor - 1) as usize, ..r }
        } else {
            r
        },
        Event::Left => Renaming {
            all: false,
            cursor: if r.cursor > 0 {
                (r.cursor - 1) as usize
            } else {
                0
            },
            ..r
        },
        Event::Right => Renaming {
            all: false,
            cursor: if r.cursor < r.buf.len() {
                (r.cursor + 1) as usize
            } else {
                r.cursor
            },
            ..r
        },
        Event::Char(c) => if unfit(c) {
            r
        } else {
            let q = if r.all {
                Renaming { all: false, buf: Seq::empty(), cursor: 0, ..r }
            } else {
                r
            };
            if encode_utf8(q.buf).len() >= MAX_NAME || q.cursor > q.buf.len() {
                q
            } else {
                Renaming {
                    buf: q.buf.insert(q.cursor as int, c),
                    cursor: (q.cursor + 1) as usize,
                    ..q
                }
            }
        },
        _ => r,
    }
}

/// A key while renaming: Escape drops the rename, Enter applies it, others
/// edit.
pub open spec fn rename_keyed(x: Explorer, e: Event) -> (Explorer, Deed) {
    match e {
        Event::Escape => (Explorer { rename: None, ..x }, Deed::Nothing),
        Event::Enter => rename_committed(x),
        _ => match x.rename {
            Some(r) => (Explorer { rename: Some(edited(r, e)), ..x }, Deed::Nothing),
            None => (x, Deed::Nothing),
        },
    }
}

/// The cursor stays in the name that is edited.
pub proof fn law_rename_cursor_stays_inside(r: Renaming, e: Event)
    requires
        r.cursor <= r.buf.len(),
    ensures
        edited(r, e).cursor <= edited(r, e).buf.len(),
{
}

/// The first character typed replaces the whole name.
pub proof fn law_typing_replaces_name(r: Renaming, c: char)
    requires
        r.all,
        !unfit(c),
    ensures
        edited(r, Event::Char(c)).buf == seq![c],
{
    let none = Seq::<char>::empty();
    assert(encode_utf8(none).len() == 0) by {
        reveal_with_fuel(encode_utf8, 2);
    }
    assert(none.insert(0, c) =~= seq![c]);
}

impl RenameState {
    fn edit(&mut self, e: Event)
        ensures
            final(self)@ == edited(old(self)@, e),
    {
        match e {
            Event::Backspace => {
                if self.select_all {
                    self.select_all = false;
                    self.buf = Vec::new();
                    assert(self.buf@ =~= Seq::<char>::empty());
                    self.cursor = 0;
                } else if self.cursor > 0 && self.cursor <= self.buf.len() {
                    self.buf.remove(self.cursor - 1);
                    self.cursor = self.cursor - 1;
                }
            },
            Event::Left => {
                self.select_all = false;
                self.cursor = self.cursor.saturating_sub(1);
            },
            Event::Right => {
                self.select_all = false;
                if self.cursor < self.buf.len() {
                    self.cursor = self.cursor + 1;
                }
            },
            Event::Char(c) => {
                if c == '/' || c == '\\' || (c as u32) < 32 || c as u32 == 127 {
                    return;
                }
                if self.select_all {
                    self.select_all = false;
                    self.buf = Vec::new();
                    assert(self.buf@ =~= Seq::<char>::empty());
                    self.cursor = 0;
                }
                if byte_len_at_least(&self.buf, MAX_NAME) || self.cursor > self.buf.len() {
                    return;
                }
                self.buf.insert(self.cursor, c);
                self.cursor = self.cursor + 1;
            },
            _ => {},
        }
    }
}

/// Whether a text has at least `n` bytes.
fn byte_len_at_least(s: &Vec<char>, n: usize) -> (r: bool)
    ensures
        r == (encode_utf8(s@).len() >= n),
        !r ==> s@.len() < n,
{
    let text = string_of(s);
    let b = text.as_str().as_bytes();
    proof {
        assert(b@.len() == b.len());
        lemma_bytes_cover_chars(s@);
    }
    b.len() >= n
}

proof fn lemma_bytes_cover_chars(s: Seq<char>)
    ensures
        encode_utf8(s).len() >= s.len(),
    decreases s.len(),
{
    if s.len() > 0 {
        reveal_with_fuel(encode_utf8, 2);
        lemma_bytes_cover_chars(s.drop_first());
    }
}

impl Model {
    /// Enters inline rename mode for the selected item.
    pub fn start_rename(&mut self)
        requires
            old(self).wf(),
        ensures
            final(self).wf(),
            final(self)@ == rename_started(old(self)@),
    {
        if self.selection >= self.entries.len() {
            return;
        }
        let ghost x = self@;
        let name = &self.entries[self.selection].name;
        let buf = part(name, 0, name.len());
        assert(buf@ =~= name@);
        let mut t: Vec<char> = Vec::new();
        push_str(&mut t, "rename ");
        push_word(&mut t, true, name);
        push_str(&mut t, " \u{2014} Enter to confirm, Esc to cancel");
        assert(t@ =~= rename_started(x).status);
        let cursor = buf.len();
        self.rename = Some(RenameState { item: self.selection, buf, cursor, select_all: true });
        self.pending_delete = None;
        self.status = t;
    }

    /// Applies the inline rename.
    fn commit_rename(&mut self) -> (r: Option<FsAction>)
        requires
            old(self).wf(),
        ensures
            final(self).wf(),
            (final(self)@, deed(r)) == rename_committed(old(self)@),
    {
        let mut state: Option<RenameState> = None;
        std::mem::swap(&mut self.rename, &mut state);
        let state = match state {
            None => {
                return None;
            },
            Some(s) => s,
        };
        let name = trim(&state.buf);
        if state.item >= self.entries.len() {
            return None;
        }
        let old_name = &self.entries[state.item].name;
        if name.len() == 0 || same(old_name, &name) {
            return None;
        }
        let path = join(&self.path, old_name);
        Some(FsAction::Rename { path: string_of(&path), name: string_of(&name) })
    }

    /// A rename that was asked for came out.
    pub fn renamed(
        &mut self,
        old_name: &Vec<char>,
        name: &Vec<char>,
        r: Result<(), FatError>,
        disk: &Mount,
    )
        requires
            old(self).wf(),
            disk.wf(),
        ensures
            final(self).wf(),
            final(self)@ == rename_done(old(self)@, old_name@, name@, r, disk@),
    {
        let mut t: Vec<char> = Vec::new();
        match r {
            Ok(_) => {
                push_str(&mut t, "renamed ");
                push_word(&mut t, true, old_name);
                push_str(&mut t, " to ");
                push_word(&mut t, true, name);
                assert(t@ =~= "renamed "@ + old_name@ + " to "@ + name@);
                self.status = t;
                self.refresh(disk);
                self.select_named(name);
            },
            Err(e) => {
                push_str(&mut t, "rename failed: ");
                push_str(&mut t, e.message());
                assert(t@ =~= "rename failed: "@ + message_of(e)@);
                self.status = t;
            },
        }
    }

    /// Routes a key event to the rename edit buffer.
    pub fn rename_key(&mut self, event: Event) -> (r: Option<FsAction>)
        requires
            old(self).wf(),
        ensures
            final(self).wf(),
            (final(self)@, deed(r)) == rename_keyed(old(self)@, event),
    {
        match event {
            Event::Escape => {
                self.rename = None;
                None
            },
            Event::Enter => self.commit_rename(),
            _ => {
                if let Some(state) = &mut self.rename {
                    state.edit(event);
                }
                None
            },
        }
    }
}

// ---------------------------------------------------------------------
// Sidebar, toolbar and breadcrumbs
// ---------------------------------------------------------------------

/// The rows of the sidebar: labels and targets. A row without a target is a
/// header.
pub open spec fn sidebar_rows(h: Homes) -> Seq<(Seq<char>, Seq<char>)> {
    seq![
        ("QUICK ACCESS"@, ""@),
        ("Home"@, h.home),
        ("Desktop"@, h.desktop),
        ("Documents"@, h.documents),
        ("Downloads"@, h.home + "/Downloads"@),
        ("Pictures"@, h.home + "/Pictures"@),
        ("Music"@, h.home + "/Music"@),
        (""@, ""@),
        ("SYSTEM"@, ""@),
        ("Trash"@, h.trash),
        ("Applications"@, "/bin"@),
        ("System"@, "/system"@),
        ("Users"@, "/users"@),
    ]
}

/// The target of the row under `y`, from row `i` at `ry` on.
pub open spec fn side_under(rows: Seq<(Seq<char>, Seq<char>)>, i: int, ry: int, y: int) -> Option<
    Seq<char>,
>
    decreases rows.len() - i,
{
    if i >= rows.len() {
        None
    } else if rows[i].1.len() == 0 {
        side_under(rows, i + 1, ry + 14, y)
    } else if ry <= y < ry + 16 {
        Some(rows[i].1)
    } else {
        side_under(rows, i + 1, ry + 18, y)
    }
}

pub struct SidebarEntry {
    pub label: Vec<char>,
    /// Empty for headers.
    pub target: Vec<char>,
}

pub open spec fn side_views(v: Seq<SidebarEntry>) -> Seq<(Seq<char>, Seq<char>)> {
    Seq::new(v.len(), |i: int| (v[i].label@, v[i].target@))
}

fn side(label: &str, target: &str) -> (r: SidebarEntry)
    ensures
        r.label@ == label@,
        r.target@ == target@,
{
    SidebarEntry { label: chars_of(label), target: chars_of(target) }
}

fn side_at(label: &str, base: &Vec<char>, more: &str) -> (r: SidebarEntry)
    ensures
        r.label@ == label@,
        r.target@ == base@ + more@,
{
    let mut target: Vec<char> = Vec::new();
    push_word(&mut target, true, base);
    push_str(&mut target, more);
    assert(target@ =~= base@ + more@);
    SidebarEntry { label: chars_of(label), target }
}

/// The sidebar: a real user's home first, then the system-level folders.
pub fn build_sidebar(p: &Places) -> (r: Vec<SidebarEntry>)
    ensures
        side_views(r@) == sidebar_rows(p@),
{
    proof {
        reveal_strlit("");
        assert(p.home@ + ""@ =~= p.home@);
        assert(p.desktop@ + ""@ =~= p.desktop@);
        assert(p.documents@ + ""@ =~= p.documents@);
        assert(p.trash@ + ""@ =~= p.trash@);
    }
    let mut out: Vec<SidebarEntry> = Vec::new();
    out.push(side("QUICK ACCESS", ""));
    out.push(side_at("Home", &p.home, ""));
    out.push(side_at("Desktop", &p.desktop, ""));
    out.push(side_at("Documents", &p.documents, ""));
    out.push(side_at("Downloads", &p.home, "/Downloads"));
    out.push(side_at("Pictures", &p.home, "/Pictures"));
    out.push(side_at("Music", &p.home, "/Music"));
    out.push(side("", ""));
    out.push(side("SYSTEM", ""));
    out.push(side_at("Trash", &p.trash, ""));
    out.push(side("Applications", "/bin"));
    out.push(side("System", "/system"));
    out.push(side("Users", "/users"));
    assert(side_views(out@) =~= sidebar_rows(p@));
    out
}

/// Sidebar item hit test: skips header rows.
pub fn sidebar_item_at(sidebar: &Vec<SidebarEntry>, y: u32) -> (r: Option<Vec<char>>)
    ensures
        maybe(r) == side_under(side_views(sidebar@), 0, 56, y as int),
{
    let ghost rows = side_views(sidebar@);
    let y_wide = y as u128;
    let mut ry: u128 = 56;
    let mut i: usize = 0;
    while i < sidebar.len()
        invariant
            i <= sidebar@.len(),
            y_wide == y,
            ry <= 56 + 18 * i,
            rows == side_views(sidebar@),
            side_under(rows, 0, 56, y as int) == side_under(rows, i as int, ry as int, y as int),
        decreases sidebar@.len() - i,
    {
        let e = &sidebar[i];
        if e.target.len() == 0 {
            ry += 14;
        } else {
            if y_wide >= ry && y_wide < ry + 16 {
                let t = part(&e.target, 0, e.target.len());
                assert(t@ =~= e.target@);
                return Some(t);
            }
            ry += 18;
        }
        i += 1;
    }
    None
}

/// Where a toolbar button starts, and its width.
pub open spec fn button_span(a: ToolbarAction) -> (u32, u32) {
    match a {
        ToolbarAction::Up => (6, 48),
        ToolbarAction::New => (58, 48),
        ToolbarAction::NewFile => (110, 48),
        ToolbarAction::Del => (162, 48),
        ToolbarAction::Refresh => (214, 64),
        ToolbarAction::ToggleView => (624, 70),
    }
}

/// Toolbar button x-range.
pub fn toolbar_button_rect(action: ToolbarAction) -> (r: (u32, u32))
    ensures
        r == button_span(action),
{
    match action {
        ToolbarAction::Up => (6, 48),
        ToolbarAction::New => (58, 48),
        ToolbarAction::NewFile => (110, 48),
        ToolbarAction::Del => (162, 48),
        ToolbarAction::Refresh => (214, 64),
        ToolbarAction::ToggleView => (624, 70),
    }
}

pub open spec fn on_button(x: int, a: ToolbarAction) -> bool {
    button_span(a).0 <= x < button_span(a).0 + button_span(a).1
}

/// The toolbar button under a point.
pub fn toolbar_button_at(x: u32) -> (r: Option<ToolbarAction>)
    ensures
        r == button_under(x as int),
{
    if x >= 6 && x < 54 {
        Some(ToolbarAction::Up)
    } else if x >= 58 && x < 106 {
        Some(ToolbarAction::New)
    } else if x >= 110 && x < 158 {
        Some(ToolbarAction::NewFile)
    } else if x >= 162 && x < 210 {
        Some(ToolbarAction::Del)
    } else if x >= 214 && x < 278 {
        Some(ToolbarAction::Refresh)
    } else if x >= 624 && x < 694 {
        Some(ToolbarAction::ToggleView)
    } else {
        None
    }
}

/// The button under a point.
pub open spec fn button_under(x: int) -> Option<ToolbarAction> {
    if on_button(x, ToolbarAction::Up) {
        Some(ToolbarAction::Up)
    } else if on_button(x, ToolbarAction::New) {
        Some(ToolbarAction::New)
    } else if on_button(x, ToolbarAction::NewFile) {
        Some(ToolbarAction::NewFile)
    } else if on_button(x, ToolbarAction::Del) {
        Some(ToolbarAction::Del)
    } else if on_button(x, ToolbarAction::Refresh) {
        Some(ToolbarAction::Refresh)
    } else if on_button(x, ToolbarAction::ToggleView) {
        Some(ToolbarAction::ToggleView)
    } else {
        None
    }
}

/// Places beyond any screen are all the same.
pub const FAR: u32 = 0x4000_0000;

/// The parts of a path, each with the path that it leads to.
pub open spec fn segments(ps: Seq<Seq<char>>, n: nat) -> Seq<(Seq<char>, Seq<char>)>
    decreases n,
{
    if n == 0 {
        seq![(seq!['/'], seq!['/'])]
    } else {
        let rest = segments(ps, (n - 1) as nat);
        if ps[n - 1].len() == 0 {
            rest
        } else {
            let so_far = if rest.len() == 1 {
                Seq::empty()
            } else {
                rest.last().1
            };
            rest.push((ps[n - 1], so_far + seq!['/'] + ps[n - 1]))
        }
    }
}

pub open spec fn path_segments(path: Seq<char>) -> Seq<(Seq<char>, Seq<char>)> {
    segments(crate::text::pieces(path, '/'), crate::text::pieces(path, '/').len())
}

/// A crumb's width: that of its label, at most a width beyond any screen,
/// and a margin.
pub open spec fn crumb_width(label: Seq<char>, s: int) -> int {
    least(encode_utf8(label).len() as int, 0x1_0000) * (8 * s) + 16
}

/// The width of the segments from `i` on.
pub open spec fn width_from(segs: Seq<(Seq<char>, Seq<char>)>, i: int, s: int) -> int
    decreases segs.len() - i,
{
    if i >= segs.len() {
        0
    } else {
        least(crumb_width(segs[i].0, s) + width_from(segs, i + 1, s), FAR as int)
    }
}

/// The first segment shown: as many of the last ones as fit, at least two.
pub open spec fn first_shown(segs: Seq<(Seq<char>, Seq<char>)>, i: int, max_w: int, s: int) -> int
    decreases segs.len() - i,
{
    if i + 2 >= segs.len() || width_from(segs, i, s) <= max_w {
        i
    } else {
        first_shown(segs, i + 1, max_w, s)
    }
}

/// A breadcrumb, in contracts.
pub struct Bread {
    pub x: u32,
    pub w: u32,
    pub label: Seq<char>,
    pub path: Seq<char>,
}

/// The crumbs of the segments from `i` on, from `x` on.
pub open spec fn crumbs_from(segs: Seq<(Seq<char>, Seq<char>)>, i: int, x: int, s: int) -> Seq<Bread>
    decreases segs.len() - i,
{
    if i >= segs.len() {
        Seq::empty()
    } else {
        let w = crumb_width(segs[i].0, s);
        seq![Bread { x: x as u32, w: w as u32, label: segs[i].0, path: segs[i].1 }] + crumbs_from(
            segs,
            i + 1,
            least(x + w + 2, FAR as int),
            s,
        )
    }
}

/// The breadcrumbs of a path: the deepest segments that fit; in front of
/// those left out a crumb that leads to the root.
pub open spec fn crumbs(path: Seq<char>, max_w: int, s: int) -> Seq<Bread> {
    let segs = path_segments(path);
    let k = first_shown(segs, 0, max_w, s);
    if k > 0 {
        seq![Bread { x: 6, w: 24, label: "..."@, path: seq!['/'] }] + crumbs_from(segs, k, 36, s)
    } else {
        crumbs_from(segs, 0, 6, s)
    }
}

/// The crumb under a point, from the `i`-th on.
pub open spec fn crumb_under(cs: Seq<Bread>, x: int, i: int) -> Option<Seq<char>>
    decreases cs.len() - i,
{
    if i >= cs.len() {
        None
    } else if cs[i].x <= x < cs[i].x + cs[i].w {
        Some(cs[i].path)
    } else {
        crumb_under(cs, x, i + 1)
    }
}

pub struct Crumb {
    pub x: u32,
    pub w: u32,
    pub label: Vec<char>,
    pub path: Vec<char>,
}

pub open spec fn crumb_views(v: Seq<Crumb>) -> Seq<Bread> {
    Seq::new(
        v.len(),
        |i: int| Bread { x: v[i].x, w: v[i].w, label: v[i].label@, path: v[i].path@ },
    )
}

pub open spec fn pair_views(v: Seq<(Vec<char>, Vec<char>)>) -> Seq<(Seq<char>, Seq<char>)> {
    Seq::new(v.len(), |i: int| (v[i].0@, v[i].1@))
}

fn split_path(path: &Vec<char>) -> (r: Vec<(Vec<char>, Vec<char>)>)
    ensures
        pair_views(r@) == path_segments(path@),
        r@.len() >= 1,
{
    let ps = crate::text::split_at_each(path, '/');
    let ghost all = views(ps@);
    let mut out: Vec<(Vec<char>, Vec<char>)> = Vec::new();
    out.push((vec!['/'], vec!['/']));
    assert(out@[0].0@ =~= seq!['/'] && out@[0].1@ =~= seq!['/']);
    assert(pair_views(out@) =~= segments(all, 0));
    let mut i: usize = 0;
    while i < ps.len()
        invariant
            i <= ps@.len(),
            all == views(ps@),
            out@.len() >= 1,
            pair_views(out@) == segments(all, i as nat),
        decreases ps@.len() - i,
    {
        let ghost before = pair_views(out@);
        if ps[i].len() > 0 {
            let mut target: Vec<char> = Vec::new();
            if out.len() > 1 {
                push_word(&mut target, true, &out[out.len() - 1].1);
                assert(before.last().1 == out@[out@.len() - 1].1@);
            }
            target.push('/');
            push_word(&mut target, true, &ps[i]);
            let ghost so_far = if before.len() == 1 {
                Seq::empty()
            } else {
                before.last().1
            };
            assert(target@ =~= so_far + seq!['/'] + all[i as int]);
            let label = part(&ps[i], 0, ps[i].len());
            assert(label@ =~= all[i as int]);
            out.push((label, target));
            assert(pair_views(out@) =~= before.push(
                (all[i as int], so_far + seq!['/'] + all[i as int]),
            ));
        }
        i += 1;
    }
    out
}

fn width_of(label: &Vec<char>, s: u32) -> (r: u32)
    requires
        1 <= s <= 2,
    ensures
        r == crumb_width(label@, s as int),
        16 <= r <= 0x10_0010,
{
    let text = string_of(label);
    let n = text.as_str().as_bytes().len();
    let n: u32 = if n > 0x1_0000 { 0x1_0000 } else { n as u32 };
    assert(0 <= n * (8 * s) <= 0x1_0000 * 16) by (nonlinear_arith)
        requires
            0 <= n <= 0x1_0000,
            0 <= 8 * s <= 16,
    ;
    n * (8 * s) + 16
}

/// The widths of the segments from each one on.
fn widths_from(segs: &Vec<(Vec<char>, Vec<char>)>, s: u32) -> (r: Vec<u32>)
    requires
        1 <= s <= 2,
    ensures
        r@.len() == segs@.len(),
        forall|i: int|
            0 <= i < r@.len() ==> #[trigger] r@[i] == width_from(
                pair_views(segs@),
                i,
                s as int,
            ),
{
    let ghost all = pair_views(segs@);
    let mut out: Vec<u32> = Vec::new();
    out.resize(segs.len(), 0);
    let mut i: usize = segs.len();
    let mut sum: u32 = 0;
    while i > 0
        invariant
            1 <= s <= 2,
            i <= segs@.len(),
            all == pair_views(segs@),
            out@.len() == segs@.len(),
            sum <= FAR,
            sum == width_from(all, i as int, s as int),
            forall|k: int| i <= k < segs@.len() ==> #[trigger] out@[k] == width_from(all, k, s as int),
        decreases i,
    {
        i -= 1;
        let w = width_of(&segs[i].0, s);
        assert(all[i as int].0 == segs@[i as int].0@);
        sum = if sum + w > FAR { FAR } else { sum + w };
        out.set(i, sum);
    }
    out
}

/// Clickable breadcrumb segments for `path`.
pub fn crumb_layout(path: &Vec<char>, max_w: u32, s: u32) -> (r: Vec<Crumb>)
    requires
        1 <= s <= 2,
    ensures
        crumb_views(r@) == crumbs(path@, max_w as int, s as int),
        forall|i: int|
            0 <= i < r@.len() ==> (#[trigger] r@[i]).x <= FAR && 16 <= r@[i].w <= 0x10_0010,
{
    let segs = split_path(path);
    let ghost all = pair_views(segs@);
    let widths = widths_from(&segs, s);
    let n = segs.len();
    let mut start: usize = 0;
    while n - start > 2 && widths[start] > max_w
        invariant
            start < n,
            n == segs@.len() == all.len(),
            widths@.len() == n,
            all == pair_views(segs@),
            forall|i: int| 0 <= i < n ==> #[trigger] widths@[i] == width_from(all, i, s as int),
            first_shown(all, 0, max_w as int, s as int) == first_shown(
                all,
                start as int,
                max_w as int,
                s as int,
            ),
        decreases n - start,
    {
        start += 1;
    }
    let mut out: Vec<Crumb> = Vec::new();
    let mut x: u32 = 6;
    if start > 0 {
        let root = vec!['/'];
        assert(root@ =~= seq!['/']);
        out.push(Crumb { x, w: 24, label: chars_of("..."), path: root });
        x = 36;
    }
    let ghost whole = crumbs(path@, max_w as int, s as int);
    let ghost front = if start > 0 {
        seq![Bread { x: 6, w: 24, label: "..."@, path: seq!['/'] }]
    } else {
        Seq::<Bread>::empty()
    };
    assert(crumb_views(out@) =~= front);
    assert(whole =~= front + crumbs_from(all, start as int, x as int, s as int));
    let mut i = start;
    while i < n
        invariant
            1 <= s <= 2,
            start <= i <= n,
            n == segs@.len() == all.len(),
            all == pair_views(segs@),
            x <= FAR,
            forall|k: int|
                0 <= k < out@.len() ==> (#[trigger] out@[k]).x <= FAR && 16 <= out@[k].w
                    <= 0x10_0010,
            whole == crumb_views(out@) + crumbs_from(all, i as int, x as int, s as int),
        decreases n - i,
    {
        let w = width_of(&segs[i].0, s);
        let ghost before = crumb_views(out@);
        let label = part(&segs[i].0, 0, segs[i].0.len());
        let target = part(&segs[i].1, 0, segs[i].1.len());
        assert(label@ =~= all[i as int].0);
        assert(target@ =~= all[i as int].1);
        let ghost b = Bread { x, w, label: label@, path: target@ };
        out.push(Crumb { x, w, label, path: target });
        x = if x + w + 2 > FAR { FAR } else { x + w + 2 };
        i += 1;
        proof {
            assert(crumb_views(out@) =~= before.push(b));
            let rest = crumbs_from(all, i as int, x as int, s as int);
            assert(before + (seq![b] + rest) =~= before.push(b) + rest);
        }
    }
    assert(whole =~= crumb_views(out@));
    out
}

// ---------------------------------------------------------------------
// Layout and order
// ---------------------------------------------------------------------

pub open spec fn layout_toggled(x: Explorer) -> Explorer {
    in_view(
        scroll_capped(
            Explorer {
                layout: match x.layout {
                    Layout::Details => Layout::Grid,
                    Layout::Grid => Layout::Details,
                },
                ..x
            },
        ),
    )
}

/// The same key again turns the order round.
pub open spec fn sort_toggled(x: Explorer, key: SortKey, disk: Option<Volume>) -> Explorer {
    refreshed(
        if x.sort == key {
            Explorer { asc: !x.asc, ..x }
        } else {
            Explorer { sort: key, asc: true, ..x }
        },
        disk,
    )
}

/// The scrollbar's thumb: where it is, and its height.
pub open spec fn thumb(x: Explorer) -> (int, int) {
    let share = 374 * visible(x.layout) / x.entries.len() as int;
    let h = if share < 12 {
        12
    } else {
        share
    };
    (50 + (374 - h) * x.scroll / max_scroll(x), h)
}

/// A click on the scrollbar: half a page toward the point.
pub open spec fn bar_clicked(x: Explorer, y: int) -> Explorer {
    let limit = max_scroll(x);
    let page = visible(x.layout) / 2;
    let (top, h) = thumb(x);
    if limit == 0 {
        x
    } else if y < top {
        Explorer {
            scroll: (if x.scroll < page {
                0
            } else {
                x.scroll - page
            }) as usize,
            ..x
        }
    } else if y >= top + h {
        Explorer { scroll: least(x.scroll + page, limit) as usize, ..x }
    } else {
        x
    }
}

impl Model {
    pub fn toggle_view(&mut self)
        requires
            old(self).wf(),
        ensures
            final(self).wf(),
            final(self)@ == layout_toggled(old(self)@),
    {
        self.layout = match self.layout {
            Layout::Details => Layout::Grid,
            Layout::Grid => Layout::Details,
        };
        self.cap_scroll();
        self.ensure_selection_visible();
    }

    fn toggle_sort(&mut self, key: SortKey, disk: &Mount)
        requires
            old(self).wf(),
            disk.wf(),
        ensures
            final(self).wf(),
            final(self)@ == sort_toggled(old(self)@, key, disk@),
    {
        if self.sort == key {
            self.sort_asc = !self.sort_asc;
        } else {
            self.sort = key;
            self.sort_asc = true;
        }
        self.refresh(disk);
    }

    /// The scrollbar's thumb, where there is one.
    pub fn thumb(&self) -> (r: (u64, u64))
        requires
            self.wf(),
            max_scroll(self@) > 0,
        ensures
            (r.0 as int, r.1 as int) == thumb(self@),
            12 <= r.1 <= 374,
            50 <= r.0,
            r.0 + r.1 <= 424,
    {
        let visible = self.visible_items() as u128;
        let n = self.entries.len() as u128;
        let limit = self.scroll_limit() as u128;
        let scroll = self.scroll as u128;
        let share = 374 * visible / n;
        proof {
            vstd::arithmetic::div_mod::lemma_div_is_ordered_by_denominator(
                374 * visible as int,
                visible as int,
                n as int,
            );
            assert(374 * visible as int / visible as int == 374) by (nonlinear_arith)
                requires
                    visible > 0,
            ;
        }
        let h = if share < 12 { 12 } else { share };
        proof {
            assert(0 <= (374 - h) * scroll <= (374 - h) * limit) by (nonlinear_arith)
                requires
                    0 <= scroll <= limit,
                    h <= 374,
            ;
            assert((374 - h) * scroll <= 374 * 0xFFFF_FFFF_FFFF_FFFF) by (nonlinear_arith)
                requires
                    0 <= scroll <= 0xFFFF_FFFF_FFFF_FFFF,
                    12 <= h <= 374,
            ;
            vstd::arithmetic::div_mod::lemma_div_is_ordered(
                (374 - h) * scroll,
                (374 - h) * limit,
                limit as int,
            );
            vstd::arithmetic::div_mod::lemma_div_multiples_vanish(374 - h, limit as int);
            vstd::arithmetic::div_mod::lemma_div_pos_is_pos((374 - h) * scroll, limit as int);
            assert((374 - h) * limit == limit * (374 - h)) by (nonlinear_arith);
        }
        ((50 + (374 - h) * scroll / limit) as u64, h as u64)
    }

    fn scroll_click(&mut self, y: u32)
        requires
            old(self).wf(),
        ensures
            final(self).wf(),
            final(self)@ == bar_clicked(old(self)@, y as int),
    {
        let limit = self.scroll_limit();
        if limit == 0 {
            return;
        }
        let (top, h) = self.thumb();
        let page = self.visible_items() / 2;
        if (y as u64) < top {
            self.scroll = self.scroll.saturating_sub(page);
        } else if y as u64 >= top + h {
            self.scroll = if page > limit - self.scroll { limit } else { self.scroll + page };
        }
    }
}

// ---------------------------------------------------------------------
// Pressing an entry
// ---------------------------------------------------------------------

/// Where an index first is in a list, from `k` on.
pub open spec fn index_place(m: Seq<usize>, item: usize, k: int) -> int
    decreases m.len() - k,
{
    if k >= m.len() || m[k] == item {
        k
    } else {
        index_place(m, item, k + 1)
    }
}

/// The selection after a press. With Ctrl the entry joins or leaves the
/// further selected ones; with Shift everything from the anchor to it is
/// selected; else it alone.
pub open spec fn press_selected(x: Explorer, item: usize, ctrl: bool, shift: bool) -> Explorer {
    if ctrl {
        let k = index_place(x.multi, item, 0);
        if item == x.selection {
            x
        } else if k < x.multi.len() {
            Explorer { multi: x.multi.remove(k), ..x }
        } else {
            Explorer { multi: x.multi.push(item), ..x }
        }
    } else if shift {
        Explorer {
            multi: if x.anchor <= item {
                Seq::new((item - x.anchor) as nat, |i: int| (x.anchor + i) as usize)
            } else {
                Seq::new((x.anchor - item) as nat, |i: int| (item + 1 + i) as usize)
            },
            selection: item,
            ..x
        }
    } else {
        Explorer { multi: Seq::empty(), selection: item, anchor: item, ..x }
    }
}

/// After a press with Shift exactly the entries from the anchor to the
/// pressed one are selected.
pub proof fn law_shift_selects_range(x: Explorer, item: usize, i: usize)
    ensures
        is_picked(press_selected(x, item, false, true), i as int) <==> (if x.anchor <= item {
            x.anchor <= i <= item
        } else {
            item <= i <= x.anchor
        }),
{
    let y = press_selected(x, item, false, true);
    if x.anchor <= item {
        if x.anchor <= i < item {
            assert(y.multi[i - x.anchor] == i);
        }
    } else {
        if item < i <= x.anchor {
            assert(y.multi[i - item - 1] == i);
        }
    }
}

/// The line about an entry.
pub open spec fn entry_line(e: Listed) -> Seq<char> {
    if e.is_dir {
        e.name + " (folder)"@
    } else {
        e.name + " \u{B7} "@ + size_text(e.size as nat)
    }
}

/// A press on an entry; a second one soon after opens it.
pub open spec fn item_pressed(
    x: Explorer,
    item: int,
    now: u64,
    ctrl: bool,
    shift: bool,
    disk: Option<Volume>,
) -> (Explorer, Deed) {
    if item >= x.entries.len() {
        (Explorer { pending: None, ..x }, Deed::Nothing)
    } else {
        let double = !ctrl && !shift && x.last_item == item && now <= x.last_ticks
            + DOUBLE_CLICK_TICKS;
        let y = Explorer {
            pending: None,
            was_double: double,
            last_item: item as usize,
            last_ticks: now,
            ..in_view(press_selected(x, item as usize, ctrl, shift))
        };
        if double {
            opened(y, disk)
        } else {
            (Explorer { status: entry_line(y.entries[item]), ..y }, Deed::Nothing)
        }
    }
}

impl Model {
    fn toggle_multi(&mut self, item: usize)
        requires
            old(self).wf(),
        ensures
            final(self).wf(),
            final(self).entries == old(self).entries,
            final(self)@ == press_selected(old(self)@, item, true, false),
    {
        if item == self.selection {
            return;
        }
        let ghost x = self@;
        let mut k: usize = 0;
        while k < self.multi.len() && self.multi[k] != item
            invariant
                *self == *old(self),
                x == self@,
                k <= self.multi@.len(),
                index_place(x.multi, item, 0) == index_place(x.multi, item, k as int),
            decreases self.multi@.len() - k,
        {
            k += 1;
        }
        if k < self.multi.len() {
            self.multi.remove(k);
        } else {
            self.multi.push(item);
        }
    }

    fn select_range(&mut self, item: usize)
        requires
            old(self).wf(),
            item < old(self).entries@.len(),
        ensures
            final(self).wf(),
            final(self).entries == old(self).entries,
            final(self)@ == press_selected(old(self)@, item, false, true),
    {
        let ghost x = self@;
        let mut out: Vec<usize> = Vec::new();
        let anchor = self.anchor;
        if anchor <= item {
            let mut i = anchor;
            while i < item
                invariant
                    anchor <= i <= item,
                    out@.len() == i - anchor,
                    forall|k: int| 0 <= k < out@.len() ==> #[trigger] out@[k] == anchor + k,
                decreases item - i,
            {
                out.push(i);
                i += 1;
            }
        } else {
            let mut i = item;
            while i < anchor
                invariant
                    item <= i <= anchor,
                    out@.len() == i - item,
                    forall|k: int| 0 <= k < out@.len() ==> #[trigger] out@[k] == item + 1 + k,
                decreases anchor - i,
            {
                i += 1;
                out.push(i);
            }
        }
        self.multi = out;
        self.selection = item;
        assert(self@.multi =~= press_selected(x, item, false, true).multi);
    }

    fn select_item(&mut self, item: usize, now: u64, ctrl: bool, shift: bool, disk: &Mount) -> (r:
        Option<FsAction>)
        requires
            old(self).wf(),
            disk.wf(),
        ensures
            final(self).wf(),
            (final(self)@, deed(r)) == item_pressed(
                old(self)@,
                item as int,
                now,
                ctrl,
                shift,
                disk@,
            ),
    {
        if item >= self.entries.len() {
            self.pending_delete = None;
            return None;
        }
        let double = !ctrl && !shift && self.last_click_item == item && now.saturating_sub(
            self.last_click_ticks,
        ) <= DOUBLE_CLICK_TICKS;
        self.press(item, ctrl, shift);
        self.pending_delete = None;
        self.last_click_was_double = double;
        self.last_click_item = item;
        self.last_click_ticks = now;
        if double {
            self.open_selected(disk)
        } else {
            self.show_entry(item);
            None
        }
    }

    /// Selects by a press, and scrolls to the selection.
    fn press(&mut self, item: usize, ctrl: bool, shift: bool)
        requires
            old(self).wf(),
            item < old(self).entries@.len(),
        ensures
            final(self).wf(),
            final(self).entries == old(self).entries,
            final(self)@ == in_view(press_selected(old(self)@, item, ctrl, shift)),
    {
        if ctrl {
            self.toggle_multi(item);
        } else if shift {
            self.select_range(item);
        } else {
            self.multi = Vec::new();
            assert(self.multi@ =~= Seq::<usize>::empty());
            self.selection = item;
            self.anchor = item;
        }
        self.ensure_selection_visible();
    }

    /// Describes an entry in the status line.
    fn show_entry(&mut self, item: usize)
        requires
            old(self).wf(),
            item < old(self).entries@.len(),
        ensures
            final(self).wf(),
            final(self)@ == (Explorer {
                status: entry_line(old(self)@.entries[item as int]),
                ..old(self)@
            }),
    {
        let mut t: Vec<char> = Vec::new();
        let e = &self.entries[item];
        push_word(&mut t, true, &e.name);
        if e.is_dir {
            push_str(&mut t, " (folder)");
        } else {
            push_str(&mut t, " \u{B7} ");
            let size = crate::explorer_names::fmt_size(e.size as u64);
            push_word(&mut t, true, &size);
        }
        assert(t@ =~= entry_line(e@));
        self.status = t;
    }
}

// ---------------------------------------------------------------------
// Clicks
// ---------------------------------------------------------------------

/// The column header under a point.
pub open spec fn column_under(px: int) -> Option<SortKey> {
    if 128 <= px < 320 {
        Some(SortKey::Name)
    } else if 320 <= px < 460 {
        Some(SortKey::Size)
    } else if 460 <= px < 690 {
        Some(SortKey::Type)
    } else {
        None
    }
}

/// A click in the list.
pub open spec fn list_clicked(
    x: Explorer,
    px: int,
    py: int,
    now: u64,
    ctrl: bool,
    shift: bool,
    disk: Option<Volume>,
) -> (Explorer, Deed) {
    match x.layout {
        Layout::Details => if py < 74 {
            match column_under(px) {
                Some(key) => (sort_toggled(x, key, disk), Deed::Nothing),
                None => (x, Deed::Nothing),
            }
        } else {
            item_pressed(x, x.scroll + (py - 74) / 18, now, ctrl, shift, disk)
        },
        Layout::Grid => item_pressed(
            x,
            x.scroll + (py - 50) / 54 * 6 + (px - 128) / 88,
            now,
            ctrl,
            shift,
            disk,
        ),
    }
}

/// A click on the toolbar.
pub open spec fn toolbar_clicked(
    x: Explorer,
    px: int,
    disk: Option<Volume>,
    now: u64,
    date: DateTime,
) -> (Explorer, Option<Volume>, Deed) {
    match button_under(px) {
        Some(ToolbarAction::Up) => (navigated(x, parent_of(x.path), disk), disk, Deed::Nothing),
        Some(ToolbarAction::New) => {
            let (y, d) = folder_created(x, disk, date);
            (y, d, Deed::Nothing)
        },
        Some(ToolbarAction::NewFile) => {
            let (y, d) = file_created(x, disk, date);
            (y, d, Deed::Nothing)
        },
        Some(ToolbarAction::Del) => delete_pressed(x, disk, now),
        Some(ToolbarAction::Refresh) => (
            refreshed(Explorer { status: Seq::empty(), ..x }, disk),
            disk,
            Deed::Nothing,
        ),
        Some(ToolbarAction::ToggleView) => (layout_toggled(x), disk, Deed::Nothing),
        None => (x, disk, Deed::Nothing),
    }
}

/// A click anywhere in the window.
pub open spec fn clicked(
    x: Explorer,
    px: int,
    py: int,
    disk: Option<Volume>,
    now: u64,
    date: DateTime,
    ctrl: bool,
    shift: bool,
    s: int,
) -> (Explorer, Option<Volume>, Deed) {
    let y = Explorer { rename: None, was_double: false, ..x };
    if px < 0 || py < 0 {
        (y, disk, Deed::Nothing)
    } else if py < 24 {
        match crumb_under(crumbs(y.path, 556, s), px, 0) {
            Some(path) => (navigated(y, path, disk), disk, Deed::Nothing),
            None => (y, disk, Deed::Nothing),
        }
    } else if py < 50 {
        toolbar_clicked(y, px, disk, now, date)
    } else if py >= 424 {
        (y, disk, Deed::Nothing)
    } else if px < 128 {
        match side_under(sidebar_rows(y.homes), 0, 56, py) {
            Some(path) => (navigated(y, path, disk), disk, Deed::Nothing),
            None => (y, disk, Deed::Nothing),
        }
    } else if px >= 690 {
        (bar_clicked(y, py), disk, Deed::Nothing)
    } else {
        let (z, d) = list_clicked(y, px, py, now, ctrl, shift, disk);
        (z, disk, d)
    }
}

impl Model {
    fn click_breadcrumb(&mut self, x: u32, disk: &Mount, s: u32)
        requires
            old(self).wf(),
            disk.wf(),
            1 <= s <= 2,
        ensures
            final(self).wf(),
            final(self)@ == match crumb_under(crumbs(old(self)@.path, 556, s as int), x as int, 0) {
                Some(path) => navigated(old(self)@, path, disk@),
                None => old(self)@,
            },
    {
        let cs = crumb_layout(&self.path, 556, s);
        let ghost all = crumb_views(cs@);
        let mut i: usize = 0;
        while i < cs.len()
            invariant
                *self == *old(self),
                self.wf(),
                disk.wf(),
                i <= cs@.len(),
                all == crumb_views(cs@),
                all == crumbs(old(self)@.path, 556, s as int),
                crumb_under(all, x as int, 0) == crumb_under(all, x as int, i as int),
            decreases cs@.len() - i,
        {
            let c = &cs[i];
            if x >= c.x && x as u64 - (c.x as u64) < c.w as u64 {
                let path = part(&c.path, 0, c.path.len());
                assert(path@ =~= c.path@);
                self.navigate(path, disk);
                return;
            }
            i += 1;
        }
    }

    fn click_toolbar(&mut self, x: u32, disk: &mut Mount, now: u64, date: DateTime) -> (r: Option<
        FsAction,
    >)
        requires
            old(self).wf(),
            old(disk).wf(),
        ensures
            final(self).wf(),
            final(disk).wf(),
            (final(self)@, final(disk)@, deed(r)) == toolbar_clicked(
                old(self)@,
                x as int,
                old(disk)@,
                now,
                date,
            ),
    {
        match toolbar_button_at(x) {
            Some(ToolbarAction::Up) => {
                let up = parent_path(&self.path);
                self.navigate(up, disk);
                None
            },
            Some(ToolbarAction::New) => {
                self.create_folder(disk, date);
                None
            },
            Some(ToolbarAction::NewFile) => {
                self.create_file(disk, date);
                None
            },
            Some(ToolbarAction::Del) => self.delete_selected(disk, now),
            Some(ToolbarAction::Refresh) => {
                self.reload(disk);
                None
            },
            Some(ToolbarAction::ToggleView) => {
                self.toggle_view();
                None
            },
            None => None,
        }
    }

    /// Clears the status line and reads the directory again.
    fn reload(&mut self, disk: &Mount)
        requires
            old(self).wf(),
            disk.wf(),
        ensures
            final(self).wf(),
            final(self)@ == refreshed(Explorer { status: Seq::empty(), ..old(self)@ }, disk@),
    {
        self.status = Vec::new();
        assert(self.status@ =~= Seq::<char>::empty());
        self.refresh(disk);
    }

    fn click_list(&mut self, x: u32, y: u32, now: u64, ctrl: bool, shift: bool, disk: &Mount) -> (r:
        Option<FsAction>)
        requires
            old(self).wf(),
            disk.wf(),
            128 <= x < 690,
            50 <= y < 424,
        ensures
            final(self).wf(),
            (final(self)@, deed(r)) == list_clicked(
                old(self)@,
                x as int,
                y as int,
                now,
                ctrl,
                shift,
                disk@,
            ),
    {
        let off: usize = match self.layout {
            Layout::Details => {
                if y < 74 {
                    let key = if x < 320 {
                        SortKey::Name
                    } else if x < 460 {
                        SortKey::Size
                    } else {
                        SortKey::Type
                    };
                    self.toggle_sort(key, disk);
                    return None;
                }
                ((y - 74) / 18) as usize
            },
            Layout::Grid => ((y - 50) / 54 * 6 + (x - 128) / 88) as usize,
        };
        let n = self.entries.len();
        let item = if off >= n - self.scroll { n } else { self.scroll + off };
        self.select_item(item, now, ctrl, shift, disk)
    }

    /// A click anywhere in the window; `ctrl` and `shift` tell which keys
    /// are held, `s` is the font scale.
    pub fn click(
        &mut self,
        x: i32,
        y: i32,
        disk: &mut Mount,
        now: u64,
        date: DateTime,
        ctrl: bool,
        shift: bool,
        s: u32,
    ) -> (r: Option<FsAction>)
        requires
            old(self).wf(),
            old(disk).wf(),
            1 <= s <= 2,
        ensures
            final(self).wf(),
            final(disk).wf(),
            (final(self)@, final(disk)@, deed(r)) == clicked(
                old(self)@,
                x as int,
                y as int,
                old(disk)@,
                now,
                date,
                ctrl,
                shift,
                s as int,
            ),
    {
        self.rename = None;
        self.last_click_was_double = false;
        if x < 0 || y < 0 {
            return None;
        }
        let (x, y) = (x as u32, y as u32);
        if y < PATH_H {
            self.click_breadcrumb(x, disk, s);
            return None;
        }
        if y < LIST_Y {
            return self.click_toolbar(x, disk, now, date);
        }
        if y >= HEIGHT - STATUS_H {
            return None;
        }
        if x < SIDEBAR_W {
            let rows = build_sidebar(&self.places);
            assert(side_views(rows@).len() == 13);
            if let Some(target) = sidebar_item_at(&rows, y) {
                self.navigate(target, disk);
            }
            return None;
        }
        if x >= SIDEBAR_W + LIST_W {
            self.scroll_click(y);
            return None;
        }
        self.click_list(x, y, now, ctrl, shift, disk)
    }
}

// ---------------------------------------------------------------------
// Keys
// ---------------------------------------------------------------------

/// The index `offset` entries behind the start of a search, going round.
pub open spec fn search_index(n: int, start: int, offset: int) -> int {
    if start + offset < n {
        start + offset
    } else {
        start + offset - n
    }
}

/// The first match from `offset` on.
pub open spec fn match_from(x: Explorer, needle: Seq<char>, start: int, offset: int) -> Option<usize>
    decreases x.entries.len() - offset,
{
    let n = x.entries.len() as int;
    if offset >= n {
        None
    } else {
        let i = search_index(n, start, offset);
        if starts(lowercase(x.entries[i].name), needle) {
            Some(i as usize)
        } else {
            match_from(x, needle, start, offset + 1)
        }
    }
}

/// The first entry whose name starts with the searched text is selected,
/// from the selection on, going round.
pub open spec fn jumped(x: Explorer) -> Explorer {
    let needle = lowercase(x.search);
    let n = x.entries.len();
    if needle.len() == 0 || n == 0 {
        x
    } else {
        let start = least(x.selection as int, n - 1);
        match match_from(x, needle, start, 0) {
            Some(i) => Explorer {
                status: "\u{691C}\u{7D22}: "@ + x.search + " \u{2014} "@ + x.entries[i as int].name,
                ..chosen(x, i)
            },
            None => Explorer {
                status: "\u{898B}\u{3064}\u{304B}\u{308A}\u{307E}\u{305B}\u{3093}: "@ + x.search,
                ..x
            },
        }
    }
}

/// A key while searching.
pub open spec fn search_keyed(x: Explorer, e: Event) -> Explorer {
    match e {
        Event::Char(c) => jumped(
            if encode_utf8(x.search).len() < 64 {
                Explorer { search: x.search.push(c), ..x }
            } else {
                x
            },
        ),
        Event::Backspace => jumped(
            Explorer {
                search: if x.search.len() > 0 {
                    x.search.drop_last()
                } else {
                    x.search
                },
                ..x
            },
        ),
        Event::Enter => jumped(x),
        Event::Escape => Explorer { searching: false, status: Seq::empty(), ..x },
        _ => x,
    }
}

/// A key: it goes to the rename box while renaming, to the search while
/// searching, and is a command otherwise.
pub open spec fn keyed(x: Explorer, e: Event, disk: Option<Volume>, now: u64, date: DateTime) -> (
    Explorer,
    Option<Volume>,
    Deed,
) {
    if x.rename is Some {
        let (y, d) = rename_keyed(x, e);
        (y, disk, d)
    } else if x.searching {
        (search_keyed(x, e), disk, Deed::Nothing)
    } else {
        match e {
            Event::Up => (selection_moved(x, -1), disk, Deed::Nothing),
            Event::Down => (selection_moved(x, 1), disk, Deed::Nothing),
            Event::Left => (
                if x.layout == Layout::Grid {
                    selection_moved(x, -6)
                } else {
                    x
                },
                disk,
                Deed::Nothing,
            ),
            Event::Right => (
                if x.layout == Layout::Grid {
                    selection_moved(x, 6)
                } else {
                    x
                },
                disk,
                Deed::Nothing,
            ),
            Event::Enter => {
                let (y, d) = opened(x, disk);
                (y, disk, d)
            },
            Event::Backspace => (navigated(x, parent_of(x.path), disk), disk, Deed::Nothing),
            Event::Char(c) => if c == 'd' {
                delete_pressed(x, disk, now)
            } else if c == 'r' {
                (refreshed(Explorer { status: Seq::empty(), ..x }, disk), disk, Deed::Nothing)
            } else if c == 'n' {
                let (y, d) = folder_created(x, disk, date);
                (y, d, Deed::Nothing)
            } else if c == 'f' {
                let (y, d) = file_created(x, disk, date);
                (y, d, Deed::Nothing)
            } else if c == 'v' {
                (layout_toggled(x), disk, Deed::Nothing)
            } else {
                (x, disk, Deed::Nothing)
            },
            Event::Ctrl(c) => if c == 'c' {
                (copied_selection(x), disk, Deed::Nothing)
            } else if c == 'v' {
                let (y, d) = paste_begun(x, disk);
                (y, disk, d)
            } else if c == 'f' {
                (Explorer { searching: true, status: search_hint()@, ..x }, disk, Deed::Nothing)
            } else {
                (x, disk, Deed::Nothing)
            },
            Event::Escape => (
                Explorer { searching: false, search: Seq::empty(), status: Seq::empty(), ..x },
                disk,
                Deed::Nothing,
            ),
            Event::F(n) => (
                if n == 2 {
                    rename_started(x)
                } else {
                    x
                },
                disk,
                Deed::Nothing,
            ),
            _ => (x, disk, Deed::Nothing),
        }
    }
}

/// What the status line says when a search begins.
pub open spec fn search_hint() -> &'static str {
    "\u{691C}\u{7D22}\u{30E2}\u{30FC}\u{30C9}: \u{540D}\u{524D}\u{306E}\u{4E00}\u{90E8}\u{3092}\u{5165}\u{529B} / Esc \u{3067}\u{7D42}\u{4E86}"
}

impl Model {
    fn jump_to_match(&mut self)
        requires
            old(self).wf(),
        ensures
            final(self).wf(),
            final(self)@ == jumped(old(self)@),
    {
        let ghost x = self@;
        let needle = lowered(&self.search);
        let n = self.entries.len();
        if needle.len() == 0 || n == 0 {
            return;
        }
        let start = if self.selection < n - 1 { self.selection } else { n - 1 };
        let mut t: Vec<char> = Vec::new();
        let mut offset: usize = 0;
        while offset < n
            invariant
                *self == *old(self),
                self.wf(),
                x == self@,
                n == self.entries@.len(),
                offset <= n,
                start < n,
                start == least(x.selection as int, n - 1),
                needle@ == lowercase(x.search),
                needle@.len() > 0,
                t@ == Seq::<char>::empty(),
                match_from(x, needle@, start as int, 0) == match_from(
                    x,
                    needle@,
                    start as int,
                    offset as int,
                ),
            decreases n - offset,
        {
            let i = if offset < n - start { start + offset } else { offset - (n - start) };
            let low = lowered(&self.entries[i].name);
            if starts_with(&low, &needle) {
                push_str(&mut t, "\u{691C}\u{7D22}: ");
                push_word(&mut t, true, &self.search);
                push_str(&mut t, " \u{2014} ");
                push_word(&mut t, true, &self.entries[i].name);
                assert(t@ =~= jumped(x).status);
                self.pick(i);
                self.status = t;
                return;
            }
            offset += 1;
        }
        push_str(&mut t, "\u{898B}\u{3064}\u{304B}\u{308A}\u{307E}\u{305B}\u{3093}: ");
        push_word(&mut t, true, &self.search);
        assert(t@ =~= jumped(x).status);
        self.status = t;
    }

    fn search_key(&mut self, event: Event)
        requires
            old(self).wf(),
        ensures
            final(self).wf(),
            final(self)@ == search_keyed(old(self)@, event),
    {
        match event {
            Event::Char(c) => {
                if !byte_len_at_least(&self.search, 64) {
                    self.search.push(c);
                }
                self.jump_to_match();
            },
            Event::Backspace => {
                let ghost before = self.search@;
                if self.search.len() > 0 {
                    self.search.pop();
                    assert(self.search@ =~= before.drop_last());
                }
                self.jump_to_match();
            },
            Event::Enter => self.jump_to_match(),
            Event::Escape => {
                self.search_mode = false;
                self.status = Vec::new();
                assert(self.status@ =~= Seq::<char>::empty());
            },
            _ => {},
        }
    }

    /// A key.
    pub fn key(&mut self, event: Event, disk: &mut Mount, now: u64, date: DateTime) -> (r: Option<
        FsAction,
    >)
        requires
            old(self).wf(),
            old(disk).wf(),
        ensures
            final(self).wf(),
            final(disk).wf(),
            (final(self)@, final(disk)@, deed(r)) == keyed(
                old(self)@,
                event,
                old(disk)@,
                now,
                date,
            ),
    {
        if self.rename.is_some() {
            return self.rename_key(event);
        }
        if self.search_mode {
            self.search_key(event);
            return None;
        }
        match event {
            Event::Up => self.move_selection(true, 1),
            Event::Down => self.move_selection(false, 1),
            Event::Left => {
                if self.layout == Layout::Grid {
                    self.move_selection(true, 6);
                }
            },
            Event::Right => {
                if self.layout == Layout::Grid {
                    self.move_selection(false, 6);
                }
            },
            Event::Enter => {
                return self.open_selected(disk);
            },
            Event::Backspace => {
                let up = parent_path(&self.path);
                self.navigate(up, disk);
            },
            Event::Char(c) => {
                if c == 'd' {
                    return self.delete_selected(disk, now);
                } else if c == 'r' {
                    self.reload(disk);
                } else if c == 'n' {
                    self.create_folder(disk, date);
                } else if c == 'f' {
                    self.create_file(disk, date);
                } else if c == 'v' {
                    self.toggle_view();
                }
            },
            Event::Ctrl(c) => {
                if c == 'c' {
                    self.copy_selected();
                } else if c == 'v' {
                    return self.paste_clipboard(disk);
                } else if c == 'f' {
                    self.search_mode = true;
                    self.status = chars_of(
                        "\u{691C}\u{7D22}\u{30E2}\u{30FC}\u{30C9}: \u{540D}\u{524D}\u{306E}\u{4E00}\u{90E8}\u{3092}\u{5165}\u{529B} / Esc \u{3067}\u{7D42}\u{4E86}",
                    );
                }
            },
            Event::Escape => {
                self.search_mode = false;
                self.search = Vec::new();
                self.status = Vec::new();
                assert(self.search@ =~= Seq::<char>::empty());
                assert(self.status@ =~= Seq::<char>::empty());
            },
            Event::F(n) => {
                if n == 2 {
                    self.start_rename();
                }
            },
            _ => {},
        }
        None
    }

    /// Selects the entry under a point; nothing on empty space.
    pub fn select_at(&mut self, x: i32, y: i32)
        requires
            old(self).wf(),
        ensures
            final(self).wf(),
            final(self)@ == match item_under(old(self)@, x as int, y as int) {
                Some(i) => chosen(old(self)@, i),
                None => old(self)@,
            },
    {
        if let Some(i) = self.item_at(x, y) {
            self.pick(i);
        }
    }
}

// ---------------------------------------------------------------------
// Context menu and trash
// ---------------------------------------------------------------------

/// A context-menu action on the current selection.
pub open spec fn menu_chosen(
    x: Explorer,
    a: ExplorerMenuAction,
    disk: Option<Volume>,
    now: u64,
    date: DateTime,
) -> (Explorer, Option<Volume>, Deed) {
    match a {
        ExplorerMenuAction::Open => {
            let (y, d) = opened(x, disk);
            (y, disk, d)
        },
        ExplorerMenuAction::Rename => (rename_started(x), disk, Deed::Nothing),
        ExplorerMenuAction::Delete => delete_pressed(x, disk, now),
        ExplorerMenuAction::Copy => (copied_selection(x), disk, Deed::Nothing),
        ExplorerMenuAction::Paste => {
            let (y, d) = paste_begun(x, disk);
            (y, disk, d)
        },
        ExplorerMenuAction::Restore => (
            x,
            disk,
            if x.selection < x.entries.len() {
                Deed::ListTrash
            } else {
                Deed::Nothing
            },
        ),
        ExplorerMenuAction::EmptyTrash => (x, disk, Deed::EmptyTrash),
        ExplorerMenuAction::Refresh => (
            refreshed(Explorer { status: Seq::empty(), ..x }, disk),
            disk,
            Deed::Nothing,
        ),
        ExplorerMenuAction::NewFolder => {
            let (y, d) = folder_created(x, disk, date);
            (y, d, Deed::Nothing)
        },
        ExplorerMenuAction::NewFile => {
            let (y, d) = file_created(x, disk, date);
            (y, d, Deed::Nothing)
        },
    }
}

/// Where a name first is in a list.
pub open spec fn name_place(names: Seq<Seq<char>>, name: Seq<char>, i: int) -> Option<usize>
    decreases names.len() - i,
{
    if i >= names.len() {
        None
    } else if names[i] == name {
        Some(i as usize)
    } else {
        name_place(names, name, i + 1)
    }
}

impl Model {
    /// Runs a right-click context-menu action on the current selection.
    pub fn context_action(
        &mut self,
        action: ExplorerMenuAction,
        disk: &mut Mount,
        now: u64,
        date: DateTime,
    ) -> (r: Option<FsAction>)
        requires
            old(self).wf(),
            old(disk).wf(),
        ensures
            final(self).wf(),
            final(disk).wf(),
            (final(self)@, final(disk)@, deed(r)) == menu_chosen(
                old(self)@,
                action,
                old(disk)@,
                now,
                date,
            ),
    {
        match action {
            ExplorerMenuAction::Open => self.open_selected(disk),
            ExplorerMenuAction::Rename => {
                self.start_rename();
                None
            },
            ExplorerMenuAction::Delete => self.delete_selected(disk, now),
            ExplorerMenuAction::Copy => {
                self.copy_selected();
                None
            },
            ExplorerMenuAction::Paste => self.paste_clipboard(disk),
            ExplorerMenuAction::Restore => {
                if self.selection < self.entries.len() {
                    Some(FsAction::ListTrash)
                } else {
                    None
                }
            },
            ExplorerMenuAction::EmptyTrash => Some(FsAction::EmptyTrash),
            ExplorerMenuAction::Refresh => {
                self.reload(disk);
                None
            },
            ExplorerMenuAction::NewFolder => {
                self.create_folder(disk, date);
                None
            },
            ExplorerMenuAction::NewFile => {
                self.create_file(disk, date);
                None
            },
        }
    }

    /// The number of the selected entry among the names in the trash; one
    /// that is not there cannot be restored.
    pub fn restore_from(&mut self, names: &Vec<Vec<char>>) -> (r: Option<usize>)
        requires
            old(self).wf(),
        ensures
            final(self).wf(),
            ({
                let x = old(self)@;
                if x.selection >= x.entries.len() {
                    r is None && final(self)@ == x
                } else {
                    let place = name_place(views(names@), x.entries[x.selection as int].name, 0);
                    &&& r == place
                    &&& final(self)@ == if place is Some {
                        x
                    } else {
                        Explorer { status: "cannot restore: entry not found in trash"@, ..x }
                    }
                }
            }),
    {
        if self.selection >= self.entries.len() {
            return None;
        }
        let ghost all = views(names@);
        let ghost name = self@.entries[self.selection as int].name;
        let mut i: usize = 0;
        while i < names.len()
            invariant
                *self == *old(self),
                self.wf(),
                self.selection < self.entries@.len(),
                name == self@.entries[self.selection as int].name,
                i <= names@.len(),
                all == views(names@),
                name_place(all, name, 0) == name_place(all, name, i as int),
            decreases names@.len() - i,
        {
            if same(&names[i], &self.entries[self.selection].name) {
                return Some(i);
            }
            i += 1;
        }
        self.status = chars_of("cannot restore: entry not found in trash");
        None
    }

    /// The selected trash entry was restored to `path`, or why not.
    pub fn restored(&mut self, outcome: Result<Vec<char>, Vec<char>>, disk: &Mount)
        requires
            old(self).wf(),
            disk.wf(),
        ensures
            final(self).wf(),
            final(self)@ == match outcome {
                Ok(path) => refreshed(
                    Explorer { status: "restored to "@ + path@, ..old(self)@ },
                    disk@,
                ),
                Err(e) => Explorer { status: "restore failed: "@ + e@, ..old(self)@ },
            },
    {
        let mut t: Vec<char> = Vec::new();
        match &outcome {
            Ok(path) => {
                push_str(&mut t, "restored to ");
                push_word(&mut t, true, path);
                assert(t@ =~= "restored to "@ + path@);
                self.status = t;
                self.refresh(disk);
            },
            Err(e) => {
                push_str(&mut t, "restore failed: ");
                push_word(&mut t, true, e);
                assert(t@ =~= "restore failed: "@ + e@);
                self.status = t;
            },
        }
    }

    /// The trash was emptied, or why not.
    pub fn trash_emptied(&mut self, outcome: Result<(), Vec<char>>, disk: &Mount)
        requires
            old(self).wf(),
            disk.wf(),
        ensures
            final(self).wf(),
            final(self)@ == match outcome {
                Ok(_) => refreshed(Explorer { status: "trash emptied"@, ..old(self)@ }, disk@),
                Err(e) => Explorer { status: "empty trash failed: "@ + e@, ..old(self)@ },
            },
    {
        match &outcome {
            Ok(_) => {
                self.status = chars_of("trash emptied");
                self.refresh(disk);
            },
            Err(e) => {
                let mut t: Vec<char> = Vec::new();
                push_str(&mut t, "empty trash failed: ");
                push_word(&mut t, true, e);
                assert(t@ =~= "empty trash failed: "@ + e@);
                self.status = t;
            },
        }
    }
}

// ---------------------------------------------------------------------
// Drag and drop
// ---------------------------------------------------------------------

/// The directory that a drop at a point goes to: a sidebar row's, a listed
/// directory, else the current one.
pub open spec fn drop_target(x: Explorer, px: int, py: int) -> Option<Seq<char>> {
    if px < 0 || py < 0 || py >= 424 {
        None
    } else if px < 128 {
        side_under(sidebar_rows(x.homes), 0, 56, py)
    } else if px >= 690 || py < 50 {
        None
    } else {
        match item_under(x, px, py) {
            Some(i) => if x.entries[i as int].is_dir {
                Some(path_of(x, i as int))
            } else {
                Some(x.path)
            },
            None => Some(x.path),
        }
    }
}

/// What moving comes to.
pub open spec fn move_done(disk: Option<Volume>, src: Seq<char>, dst: Seq<char>, date: DateTime) -> (
    Result<(), FatError>,
    Option<Volume>,
) {
    match disk {
        None => (
            if src == dst {
                Ok(())
            } else {
                Err(FatError::NoDisk)
            },
            None,
        ),
        Some(v) => (moved(v, src, dst, date).0, Some(moved(v, src, dst, date).1)),
    }
}

/// Whether a drop would move an entry to where it is, or into itself.
pub open spec fn pointless(target: Seq<char>, src: Seq<char>, is_dir: bool) -> bool {
    target == parent_of(src) || target == src || is_dir && starts(target, src + seq!['/'])
}

/// A drop at a point.
pub open spec fn dropped(
    x: Explorer,
    px: int,
    py: int,
    src: Seq<char>,
    is_dir: bool,
    disk: Option<Volume>,
    date: DateTime,
) -> (Explorer, Option<Volume>, bool) {
    match drop_target(x, px, py) {
        None => (x, disk, false),
        Some(target) => if pointless(target, src, is_dir) {
            (
                Explorer { status: base_of(src) + " is already in "@ + target, ..x },
                disk,
                true,
            )
        } else {
            let (r, d) = move_done(disk, src, joined_path(target, base_of(src)), date);
            match r {
                Ok(_) => (
                    refreshed(
                        Explorer { status: "moved "@ + base_of(src) + " to "@ + target, ..x },
                        d,
                    ),
                    d,
                    true,
                ),
                Err(e) => (
                    Explorer { status: "move failed: "@ + message_of(e)@, ..x },
                    d,
                    true,
                ),
            }
        },
    }
}

/// A directory is never moved into itself.
pub proof fn law_no_move_into_itself(x: Explorer, px: int, py: int, src: Seq<char>, disk: Option<Volume>, date: DateTime)
    requires
        drop_target(x, px, py) matches Some(t) && starts(t, src + seq!['/']),
    ensures
        dropped(x, px, py, src, true, disk, date).1 == disk,
{
}

impl Model {
    pub fn drop_target_at(&self, x: i32, y: i32) -> (r: Option<Vec<char>>)
        requires
            self.wf(),
        ensures
            maybe(r) == drop_target(self@, x as int, y as int),
    {
        if x < 0 || y < 0 || y >= 424 {
            return None;
        }
        if x < 128 {
            let rows = build_sidebar(&self.places);
            assert(side_views(rows@).len() == 13);
            return sidebar_item_at(&rows, y as u32);
        }
        if x >= 690 || y < 50 {
            return None;
        }
        if let Some(i) = self.item_at(x, y) {
            if self.entries[i].is_dir {
                return Some(join(&self.path, &self.entries[i].name));
            }
        }
        let here = part(&self.path, 0, self.path.len());
        assert(here@ =~= self.path@);
        Some(here)
    }

    /// Handles a drop at a content-local point: `true` when this was a valid
    /// drop surface, even if the move was a no-op or failed.
    pub fn handle_drop(&mut self, x: i32, y: i32, src: &Vec<char>, is_dir: bool, disk: &mut Mount, date: DateTime) -> (r:
        bool)
        requires
            old(self).wf(),
            old(disk).wf(),
        ensures
            final(self).wf(),
            final(disk).wf(),
            (final(self)@, final(disk)@, r) == dropped(
                old(self)@,
                x as int,
                y as int,
                src@,
                is_dir,
                old(disk)@,
                date,
            ),
    {
        let target = match self.drop_target_at(x, y) {
            None => {
                return false;
            },
            Some(t) => t,
        };
        let parent = parent_path(src);
        let name = base_name(src);
        let mut inside = part(src, 0, src.len());
        inside.push('/');
        assert(inside@ =~= src@ + seq!['/']);
        let mut t: Vec<char> = Vec::new();
        if same(&target, &parent) || same(&target, src) || (is_dir && starts_with(
            &target,
            &inside,
        )) {
            push_word(&mut t, true, &name);
            push_str(&mut t, " is already in ");
            push_word(&mut t, true, &target);
            assert(t@ =~= base_of(src@) + " is already in "@ + target@);
            self.status = t;
            return true;
        }
        let dst = join(&target, &name);
        let from = string_of(src);
        let to = string_of(&dst);
        match move_file(disk, from.as_str(), to.as_str(), date) {
            Ok(_) => {
                push_str(&mut t, "moved ");
                push_word(&mut t, true, &name);
                push_str(&mut t, " to ");
                push_word(&mut t, true, &target);
                assert(t@ =~= "moved "@ + base_of(src@) + " to "@ + target@);
                self.status = t;
                self.refresh(disk);
            },
            Err(e) => {
                push_str(&mut t, "move failed: ");
                push_str(&mut t, e.message());
                assert(t@ =~= "move failed: "@ + message_of(e)@);
                self.status = t;
            },
        }
        true
    }

    /// The item pressed in a drag-capable click; a double-click is none.
    pub fn drag_candidate(&mut self, item: Option<usize>) -> (r: Option<usize>)
        ensures
            r == if old(self)@.was_double {
                None
            } else {
                item
            },
            final(self)@ == (Explorer { was_double: false, ..old(self)@ }),
            old(self).wf() ==> final(self).wf(),
    {
        let was_double = self.last_click_was_double;
        self.last_click_was_double = false;
        if was_double {
            None
        } else {
            item
        }
    }
}

} // verus!
