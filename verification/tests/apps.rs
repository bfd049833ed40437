use machaos::ata::AtaDevice;
use machaos::disk::Disk;
use machaos::explorer_model::{ExplorerMenuAction, FsAction, Layout, Model, Places};
use machaos::explorer_names::{self as names, Item, SortKey};
use machaos::fat::{self, Mount};
use machaos::file_explorer::{DragInfo, FileExplorer};
use machaos::font::Font;
use machaos::keyboard::Event;
use machaos::paint::{PaintAction, PaintApp};
use machaos::rtc::DateTime;
use machaos::settings::Settings;
use machaos::settings_app::{build_about_lines, Machine, SettingsApp, SettingsChange};
use machaos::text;

const NOW: DateTime = DateTime { year: 2025, month: 1, day: 2, hour: 3, minute: 4, second: 6 };

/// Every glyph is a full block, the space is empty.
fn font() -> Font {
    let mut rows = vec![0xFFu8; 2048];
    for b in &mut rows[32 * 8..33 * 8] {
        *b = 0;
    }
    Font::new(rows)
}

/// A FAT32 volume of 1500 clusters of one sector each.
fn mounted() -> Mount {
    let mut m = vec![0u8; 512 * 1600];
    m[11..13].copy_from_slice(&512u16.to_le_bytes());
    m[13] = 1;
    m[14..16].copy_from_slice(&2u16.to_le_bytes());
    m[16] = 1;
    m[32..36].copy_from_slice(&1514u32.to_le_bytes());
    m[36..40].copy_from_slice(&12u32.to_le_bytes());
    m[44..48].copy_from_slice(&2u32.to_le_bytes());
    m[82..90].copy_from_slice(b"FAT32   ");
    m[510] = 0x55;
    m[511] = 0xAA;
    for (i, e) in [0x0FFF_FFF8u32, 0x0FFF_FFFF, 0x0FFF_FFFF].iter().enumerate() {
        m[1024 + 4 * i..1028 + 4 * i].copy_from_slice(&e.to_le_bytes());
    }
    let dev = AtaDevice {
        base: 0x1F0,
        master: true,
        present: true,
        atapi: false,
        lba48: true,
        sectors: 1600,
        model: [b' '; 40],
        media: m,
    };
    let mut disk = Mount::new();
    assert!(fat::mount(&mut disk, Some(Disk::Ata(dev))).is_ok());
    disk
}

fn chars(s: &str) -> Vec<char> {
    s.chars().collect()
}

fn string(v: &Vec<char>) -> String {
    v.iter().collect()
}

fn places() -> Places {
    Places {
        home: chars("/"),
        desktop: chars("/desk"),
        documents: chars("/docs"),
        trash: chars("/.trash"),
    }
}

fn stocked() -> Mount {
    let mut disk = mounted();
    fat::make_dir(&mut disk, "/docs", NOW).ok();
    fat::make_dir(&mut disk, "/desk", NOW).ok();
    fat::write_file(&mut disk, "/Beta.txt", b"bb", NOW).ok();
    fat::write_file(&mut disk, "/alpha.elf", b"a", NOW).ok();
    fat::write_file(&mut disk, "/c.raw", b"ccc", NOW).ok();
    disk
}

fn listed(m: &Model) -> Vec<String> {
    m.entries.iter().map(|e| string(&e.name)).collect()
}

#[test]
fn lower_case_names_are_told_apart() {
    assert!(names::ends_like_text(&chars("notes.md")));
    assert!(!names::ends_like_text(&chars("notes.MD")));
    assert!(names::ends_like_image(&chars("a.png")));
    assert!(!names::ends_like_image(&chars("a.jpg")));
    let taken = vec![chars("a.txt"), chars("b")];
    assert!(names::low_taken(&taken, &chars("b")));
    assert!(!names::low_taken(&taken, &chars("B")));
    assert!(names::chars_before(&chars("a"), &chars("ab")));
    assert!(names::chars_before(&chars("ab"), &chars("b")));
    assert!(!names::chars_before(&chars("b"), &chars("b")));
}

#[test]
fn sizes_and_types_as_text() {
    assert_eq!(string(&names::fmt_size(1023)), "1023 B");
    assert_eq!(string(&names::fmt_size(1536)), "1.5 KiB");
    assert_eq!(string(&names::fmt_size(5 * 1024 * 1024 + 200_000)), "5.1 MiB");
    assert!(names::is_elf(&chars("A.ELF")));
    assert!(names::is_text(&chars("x.Txt")));
    assert!(!names::is_raw(&chars("raw")));
}

#[test]
fn paths_join_and_part() {
    assert_eq!(string(&names::join(&chars("/"), &chars("a"))), "/a");
    assert_eq!(string(&names::join(&chars("/a"), &chars("b"))), "/a/b");
    assert_eq!(string(&names::parent_path(&chars("/a/b"))), "/a");
    assert_eq!(string(&names::parent_path(&chars("/a"))), "/");
    assert_eq!(string(&names::base_name(&chars("/a/b.txt"))), "b.txt");
}

#[test]
fn copies_get_free_names() {
    let taken = vec![chars("a.txt"), chars("a (2).txt"), chars("\u{e4}")];
    assert_eq!(string(&names::unique_name(&chars("b.txt"), &taken)), "b.txt");
    assert_eq!(string(&names::unique_name(&chars("A.TXT"), &taken)), "A (3).TXT");
    assert_eq!(string(&names::unique_name(&chars("\u{c4}"), &taken)), "\u{c4} (2)");
    assert_eq!(string(&names::lowered(&chars("MiX\u{130}"))), "mixi\u{307}");
}

#[test]
fn sorting_puts_directories_first() {
    let item = |n: &str, d: bool, s: u32| Item { name: chars(n), is_dir: d, size: s };
    let all = || vec![item("b", false, 1), item("A", false, 9), item("z", true, 0), item("c", false, 5)];
    let order = |k: SortKey, asc: bool| {
        names::sort_entries(all(), k, asc).iter().map(|e| string(&e.name)).collect::<Vec<_>>().concat()
    };
    assert_eq!(order(SortKey::Name, true), "zAbc");
    assert_eq!(order(SortKey::Name, false), "zcbA");
    assert_eq!(order(SortKey::Size, true), "zbcA");
    let tied = || vec![item("y", false, 1), item("x", false, 1), item("w", false, 0)];
    let down = names::sort_entries(tied(), SortKey::Size, false);
    assert_eq!(down.iter().map(|e| string(&e.name)).collect::<Vec<_>>().concat(), "yxw");
    let up = names::sort_entries(tied(), SortKey::Size, true);
    assert_eq!(up.iter().map(|e| string(&e.name)).collect::<Vec<_>>().concat(), "wyx");
}

#[test]
fn explorer_lists_and_navigates() {
    let mut disk = stocked();
    let mut m = Model::new(places(), &disk);
    assert_eq!(listed(&m), vec!["desk", "docs", "alpha.elf", "Beta.txt", "c.raw"]);
    m.key(Event::Down, &mut disk, 0, NOW);
    assert_eq!(m.selection, 1);
    assert!(m.key(Event::Enter, &mut disk, 0, NOW).is_none());
    assert_eq!(string(&m.path), "/docs");
    assert!(m.entries.is_empty());
    m.key(Event::Backspace, &mut disk, 0, NOW);
    assert_eq!(string(&m.path), "/");
    m.toggle_view();
    assert!(matches!(m.layout, Layout::Grid));
    assert_eq!(m.item_at(128 + 88, 50), Some(1));
    assert_eq!(m.item_at(128 + 5 * 88, 50), None);
    assert_eq!(m.item_at(656, 50), None);
    assert_eq!(m.item_at(689, 50 + 80), None);
    m.toggle_view();
    assert_eq!(m.item_at(130, 50 + 24 + 18), Some(1));
    assert_eq!(m.item_at(127, 100), None);
    assert_eq!(m.item_at(130, 50), None);
}

#[test]
fn opening_files_asks_for_the_right_program() {
    let mut disk = stocked();
    let mut m = Model::new(places(), &disk);
    m.selection = 2;
    assert!(matches!(m.open_selected(&disk), Some(FsAction::RunTerminal(c)) if c.contains("/alpha.elf")));
    m.selection = 3;
    assert!(matches!(m.open_selected(&disk), Some(FsAction::OpenText(p, d)) if p == "/Beta.txt" && d == b"bb"));
    m.selection = 4;
    assert!(matches!(m.open_selected(&disk), Some(FsAction::OpenImage(p, d)) if p == "/c.raw" && d == b"ccc"));
    let y = 50 + 24 + 18 * 3 + 2;
    assert!(m.click(200, y, &mut disk, 100, NOW, false, false, 1).is_none());
    assert!(matches!(m.click(200, y, &mut disk, 120, NOW, false, false, 1), Some(FsAction::OpenText(..))));
    assert!(m.click(200, y, &mut disk, 500, NOW, false, false, 1).is_none());
}

#[test]
fn delete_takes_two_presses() {
    let mut disk = stocked();
    let mut m = Model::new(places(), &disk);
    m.selection = 3;
    assert!(m.delete_selected(&mut disk, 10).is_none());
    assert_eq!(string(&m.status), "move 1 items to trash? press Del again to confirm");
    match m.delete_selected(&mut disk, 131) {
        None => {}
        _ => panic!(),
    }
    match m.delete_selected(&mut disk, 200) {
        Some(FsAction::Trash(v)) => assert_eq!(v, vec!["/Beta.txt".to_string()]),
        _ => panic!(),
    }
    m.trashed(1, false, &disk);
    assert_eq!(string(&m.status), "moved 1 items to trash");
}

#[test]
fn renaming_edits_in_place() {
    let mut disk = stocked();
    let mut m = Model::new(places(), &disk);
    m.selection = 4;
    m.key(Event::F(2), &mut disk, 0, NOW);
    assert_eq!(string(&m.rename.as_ref().unwrap().buf), "c.raw");
    for e in [Event::Char('n'), Event::Char('x'), Event::Left, Event::Char('e')] {
        assert!(m.key(e, &mut disk, 0, NOW).is_none());
    }
    assert_eq!(string(&m.rename.as_ref().unwrap().buf), "nex");
    match m.key(Event::Enter, &mut disk, 0, NOW) {
        Some(FsAction::Rename { path, name }) => assert_eq!((path.as_str(), name.as_str()), ("/c.raw", "nex")),
        _ => panic!(),
    }
    assert!(m.rename.is_none());
}

#[test]
fn ranges_and_copies() {
    let mut disk = stocked();
    let mut m = Model::new(places(), &disk);
    let y = |i: i32| 50 + 24 + 18 * i + 2;
    m.click(200, y(2), &mut disk, 0, NOW, false, false, 1);
    m.click(200, y(4), &mut disk, 100, NOW, false, true, 1);
    assert_eq!(m.selected_indices(), vec![2, 3, 4]);
    m.click(200, y(3), &mut disk, 200, NOW, true, false, 1);
    assert!(!m.is_selected(3));
    m.copy_selected();
    assert!(m.has_clipboard());
    match m.paste_clipboard(&disk) {
        Some(FsAction::Copy { src, dst }) => {
            assert_eq!((src.as_str(), dst.as_str()), ("/alpha.elf", "/alpha (2).elf"));
        }
        _ => panic!(),
    }
    match m.copied(Ok(()), &disk) {
        Some(FsAction::Copy { src, dst }) => {
            assert_eq!((src.as_str(), dst.as_str()), ("/c.raw", "/c (2).raw"));
        }
        _ => panic!(),
    }
    assert!(m.copied(Ok(()), &disk).is_none());
    assert_eq!(string(&m.status), "pasted 2 items");
}

#[test]
fn explorer_creates_and_drops() {
    let mut disk = stocked();
    let f = font();
    let mut e = FileExplorer::new(places(), &disk, &f);
    assert_eq!((e.width(), e.height(), e.pixels().len()), (700, 440, 700 * 440));
    assert!(e.context_action(&f, &mut disk, 0, NOW, ExplorerMenuAction::NewFolder).is_none());
    assert_eq!(fat::is_dir(&disk, "/New folder").ok(), Some(true));
    e.context_action(&f, &mut disk, 0, NOW, ExplorerMenuAction::NewFile);
    assert_eq!(fat::is_dir(&disk, "/New file.txt").ok(), Some(false));
    e.set_drag(&f, Some(DragInfo { path: "/c.raw".to_string(), is_dir: false }));
    let row = (0..10).find(|i| matches!(e.entry_path(*i), Some((p, true)) if p == "/docs")).unwrap();
    let y = 50 + 24 + 18 * row as i32 + 2;
    assert!(e.handle_drop(&f, &mut disk, NOW, 200, y, "/c.raw", false));
    assert_eq!(fat::read_file(&disk, "/docs/c.raw").ok(), Some(b"ccc".to_vec()));
    assert!(fat::read_file(&disk, "/c.raw").is_err());
    assert!(e.handle_drop(&f, &mut disk, NOW, 200, y, "/docs", true));
    assert_eq!(fat::is_dir(&disk, "/docs").ok(), Some(true));
    assert!(!e.handle_drop(&f, &mut disk, NOW, 695, y, "/Beta.txt", false));
    assert!(!e.in_trash());
    assert!(e.entry_path(7).is_none());
    fat::write_file(&mut disk, "/late.txt", b"", NOW).ok();
    fat::write_file(&mut disk, "/later.txt", b"", NOW).ok();
    e.refresh_now(&f, &disk);
    assert!(e.entry_path(7).is_some());
}

#[test]
fn searching_jumps_to_a_name() {
    let mut disk = stocked();
    let mut m = Model::new(places(), &disk);
    m.key(Event::Ctrl('f'), &mut disk, 0, NOW);
    assert!(m.search_mode);
    m.key(Event::Char('B'), &mut disk, 0, NOW);
    m.key(Event::Char('E'), &mut disk, 0, NOW);
    assert_eq!(string(&m.search), "BE");
    assert_eq!(m.selection, 3);
    m.key(Event::Escape, &mut disk, 0, NOW);
    assert!(!m.search_mode);
}

#[test]
fn paint_draws_saves_and_loads() {
    let f = font();
    let mut disk = mounted();
    for d in ["/users", "/users/macha", "/users/macha/Pictures"] {
        assert!(fat::make_dir(&mut disk, d, NOW).is_ok());
    }
    let mut p = PaintApp::new(&f);
    p.handle_click(&f, 10, 50);
    p.handle_mouse_move(&f, 13, 50, true);
    p.handle_release();
    p.handle_mouse_move(&f, 50, 60, true);
    let px = |p: &PaintApp, x: usize, y: usize| p.pixels()[(y + 40) * 320 + x];
    assert_eq!((px(&p, 10, 10), px(&p, 13, 10), px(&p, 14, 10)), (0, 0, 0xFFFFFF));
    assert!(p.handle_key(&f, &mut disk, Event::Ctrl('s'), NOW).is_none());
    let saved = fat::read_file(&disk, "/users/macha/Pictures/painting.raw").ok().unwrap();
    assert_eq!(saved.len(), 320 * 240 * 4);
    assert_eq!(&saved[4 * (10 * 320 + 9)..4 * (10 * 320 + 11)], &[0xFF, 0xFF, 0xFF, 0, 0, 0, 0, 0]);
    p.handle_key(&f, &mut disk, Event::Char('2'), NOW);
    p.handle_click(&f, 10, 50);
    assert_eq!(px(&p, 10, 10), 0xFFFFFF);
    p.load_image(&f, "/x.raw", &saved);
    assert_eq!(px(&p, 10, 10), 0);
    p.load_image(&f, "/y.raw", &[0; 5]);
    assert_eq!(px(&p, 10, 10), 0);
    assert!(matches!(p.handle_key(&f, &mut disk, Event::Ctrl('o'), NOW), Some(PaintAction::Load)));
}

#[test]
fn settings_window_changes_settings() {
    let f = font();
    let mut disk = mounted();
    fat::make_dir(&mut disk, "/system", NOW).ok();
    let mut a = SettingsApp::new(Settings::defaults(), vec![], (1024, 768), &f, &mut disk, NOW);
    assert!(matches!(a.handle_click(&f, &mut disk, NOW, -1, 5), SettingsChange::Nothing));
    let mut seen = vec![];
    for y in 0..a.height(&f) as i32 {
        match a.handle_click(&f, &mut disk, NOW, 200, y) {
            SettingsChange::Resolution(w, h) => seen.push((w, h)),
            SettingsChange::FontScale(s) => seen.push((s as u32, 0)),
            _ => {}
        }
    }
    assert!(seen.contains(&(800, 600)));
    assert!(seen.contains(&(2, 0)));
    assert_eq!(a.settings().font_scale_percent, 200);
    assert_eq!(Settings::load(&disk, (1024, 768)).font_scale_percent, 200);
    a.handle_click(&f, &mut disk, NOW, 20, 60);
    let click = |a: &mut SettingsApp, disk: &mut Mount, x: i32, y: i32| {
        matches!(a.handle_click(&f, disk, NOW, x, y), SettingsChange::Reload)
    };
    assert!(!click(&mut a, &mut disk, 300, 50));
    assert!(click(&mut a, &mut disk, 340, 50));
    assert_ne!(a.settings().accent_color, "blue");
    let (wallpaper, tasks) = (a.settings().wallpaper, a.settings().show_bg_tasks);
    assert!(click(&mut a, &mut disk, 430, 100));
    assert_eq!(a.settings().wallpaper, !wallpaper);
    assert!(click(&mut a, &mut disk, 430, 130));
    assert_eq!(a.settings().show_bg_tasks, !tasks);
    assert!(!click(&mut a, &mut disk, 430, 200));
}

#[test]
fn about_lines_describe_the_machine() {
    let m = Machine {
        vendor: *b"GenuineIntel",
        brand: None,
        memory_lower_kb: Some(640),
        memory_upper_kb: Some(131072),
        display: (800, 600),
        heap_used: 1024,
        heap_total: 4096,
    };
    let lines = build_about_lines(&m);
    assert!(lines.iter().any(|l| l.contains("GenuineIntel")));
    assert!(lines.iter().any(|l| l.contains("800x600")));
}

#[test]
fn numbers_and_words() {
    assert_eq!(text::parse_uint(&chars("+17"), 255), Some(17));
    assert_eq!(text::parse_uint(&chars("256"), 255), None);
    assert_eq!(text::parse_uint(&chars(""), 255), None);
    assert_eq!(text::parse_i32(&chars("-2147483648")), Some(i32::MIN));
    assert_eq!(text::parse_i32(&chars("2147483648")), None);
    assert_eq!(text::parse_i64(&chars("-5")), Some(-5));
    let mut out = vec![];
    text::push_dec_signed(&mut out, i64::MIN);
    assert_eq!(string(&out), "-9223372036854775808");
    let words = text::split_words(&chars("  a \t bc "));
    assert_eq!(words, vec![chars("a"), chars("bc")]);
    let mut joined = vec![];
    text::push_joined(&mut joined, &words);
    assert_eq!(string(&joined), "a bc");
    assert_eq!(text::split_at_each(&chars("a,,b"), ','), vec![chars("a"), vec![], chars("b")]);
    assert_eq!(text::split_once(&chars("k=v=w"), '='), Some((chars("k"), chars("v=w"))));
    assert_eq!(text::trim(&chars(" x ")), chars("x"));
    let mut hex = vec![];
    text::push_hex(&mut hex, 0xDEAD);
    assert_eq!(string(&hex), "0xdead");
}
