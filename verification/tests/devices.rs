use machaos::address_space::Arena;
use machaos::allocator::FreeListAllocator;
use machaos::clipboard::{self, Clipboard};
use machaos::cpuid::{self, Leaf};
use machaos::font::Font;
use machaos::gfx;
use machaos::keyboard::{self, Event, Keyboard};
use machaos::mouse::{self, Mouse};
use machaos::multiboot::{MemoryRegion, MultibootInfo};
use machaos::paging::is_identity_mapped;
use machaos::pci::{self, config_address, find_device, Bus};
use machaos::pipe::{self, Pipes, Transfer};
use machaos::pmm::{self, FrameMap};
use machaos::queue::EventQueue;
use machaos::rtc::{self, Registers};

#[test]
fn queue_is_first_in_first_out_and_drops_when_full() {
    let mut q: EventQueue<u8> = EventQueue::new(0, 4);
    q.push(1);
    q.push(2);
    q.push(3);
    q.push(4);
    assert_eq!(q.pop(), Some(1));
    assert_eq!(q.pop(), Some(2));
    assert_eq!(q.pop(), Some(3));
    assert_eq!(q.pop(), None);
}

#[test]
fn keyboard_shift_and_caps() {
    let mut k = Keyboard::new();
    keyboard::irq(&mut k, 0x1E);
    keyboard::irq(&mut k, 0x2A);
    keyboard::irq(&mut k, 0x1E);
    keyboard::irq(&mut k, 0xAA);
    keyboard::irq(&mut k, 0x3A);
    keyboard::irq(&mut k, 0x1E);
    keyboard::irq(&mut k, 0x1C);
    keyboard::irq(&mut k, 0x0E);
    keyboard::irq(&mut k, 0x0F);
    keyboard::irq(&mut k, 0x39);
    assert_eq!(keyboard::next_event(&mut k), Some(Event::Char('a')));
    assert_eq!(keyboard::next_event(&mut k), Some(Event::Char('A')));
    assert_eq!(keyboard::next_event(&mut k), Some(Event::Char('A')));
    assert_eq!(keyboard::next_event(&mut k), Some(Event::Enter));
    assert_eq!(keyboard::next_event(&mut k), Some(Event::Backspace));
    assert_eq!(keyboard::next_event(&mut k), Some(Event::Tab));
    assert_eq!(keyboard::next_event(&mut k), Some(Event::Char(' ')));
    assert_eq!(keyboard::next_event(&mut k), None);
}

#[test]
fn keyboard_releases_are_silent() {
    let mut k = Keyboard::new();
    keyboard::irq(&mut k, 0x9E);
    keyboard::irq(&mut k, 0x3A);
    keyboard::irq(&mut k, 0xBA);
    keyboard::irq(&mut k, 0x3A);
    keyboard::irq(&mut k, 0x1E);
    assert_eq!(keyboard::next_event(&mut k), Some(Event::Char('a')));
    assert_eq!(keyboard::next_event(&mut k), None);
}

#[test]
fn mouse_packets() {
    let mut m = Mouse::new();
    for b in [0x08, 0, 0] {
        mouse::irq(&mut m, b);
    }
    assert!(mouse::next_event(&mut m).is_none());
    mouse::irq(&mut m, 0x00);
    for b in [0x39, 0xFE, 0xFD] {
        mouse::irq(&mut m, b);
    }
    let e = mouse::next_event(&mut m).unwrap();
    assert_eq!((e.dx, e.dy, e.left, e.right, e.middle), (-2, 3, true, false, false));
    assert!(mouse::next_event(&mut m).is_none());
}

fn boot_memory() -> Vec<u8> {
    let mut m = vec![0u8; 1024];
    let base = 100;
    let put = |m: &mut Vec<u8>, at: usize, v: u32| {
        m[at..at + 4].copy_from_slice(&v.to_le_bytes());
    };
    put(&mut m, base, 0x1 | 0x4 | 0x40 | 0x200 | 0x1000);
    put(&mut m, base + 4, 640);
    put(&mut m, base + 8, 65536);
    put(&mut m, base + 16, 400);
    put(&mut m, base + 44, 48);
    put(&mut m, base + 48, 504);
    put(&mut m, base + 64, 450);
    m[400..408].copy_from_slice(b"selftest");
    m[450..454].copy_from_slice(b"GRUB");
    for (i, (b, l, t)) in [(0u64, 0x9_0000u64, 1u32), (0x10_0000, 0x400_0000, 1)].iter().enumerate() {
        let at = 504 + 24 * i;
        put(&mut m, at, 20);
        m[at + 4..at + 12].copy_from_slice(&b.to_le_bytes());
        m[at + 12..at + 20].copy_from_slice(&l.to_le_bytes());
        put(&mut m, at + 20, *t);
    }
    m[base + 88..base + 96].copy_from_slice(&0xE000_0000u64.to_le_bytes());
    put(&mut m, base + 96, 4096);
    put(&mut m, base + 100, 1024);
    put(&mut m, base + 104, 768);
    m[base + 108] = 32;
    m
}

#[test]
fn multiboot_fields() {
    let m = boot_memory();
    let info = MultibootInfo::new(&m, 100);
    assert_eq!(info.memory_lower_kb(), Some(640));
    assert_eq!(info.memory_upper_kb(), Some(65536));
    assert_eq!(info.cmdline(), Some(&b"selftest"[..]));
    assert_eq!(info.boot_loader_name(), Some(&b"GRUB"[..]));
    let fb = info.framebuffer().unwrap();
    assert_eq!((fb.addr, fb.pitch, fb.width, fb.height, fb.bpp), (0xE000_0000, 4096, 1024, 768, 32));
    let mut map = info.memory_map();
    let a = map.next().unwrap();
    assert_eq!((a.base, a.length, a.kind_name()), (0, 0x9_0000, "usable"));
    let b = map.next().unwrap();
    assert_eq!((b.base, b.length), (0x10_0000, 0x400_0000));
    assert!(map.next().is_none());
}

#[test]
fn framebuffer_comes_up_with_black_pictures() {
    let m = boot_memory();
    let info = MultibootInfo::new(&m, 100);
    let fb = machaos::fb::init(&info);
    assert!(machaos::fb::is_graphics_mode(&fb));
    assert_eq!(machaos::fb::dimensions(&fb), (1024, 768));
    assert_eq!(machaos::fb::virtual_dimensions(&fb), (1024, 768));
    let fb = fb.unwrap();
    assert_eq!(fb.get_pixel(1023, 767), Some(0));
    assert_eq!(fb.get_pixel(1024, 0), None);
    assert_eq!(fb.pixel_address(3, 2), Some(0xE000_0000 + 2 * 4096 + 12));
    let mut narrow = boot_memory();
    narrow[200..204].copy_from_slice(&1u32.to_le_bytes());
    let fb = machaos::fb::init(&MultibootInfo::new(&narrow, 100));
    assert_eq!(machaos::fb::dimensions(&fb), (1, 768));
    narrow[208] = 24;
    assert!(machaos::fb::init(&MultibootInfo::new(&narrow, 100)).is_none());
}

#[test]
fn frames_are_handed_out_lowest_first_and_come_back() {
    let regions = [MemoryRegion { base: 0x10_0000, length: 0x1000_0000, region_type: 1 }];
    let mut map = FrameMap::new();
    pmm::init(&mut map, &regions, 0x10_0000, 0x20_0000);
    let total = pmm::free_frames(&map);
    let a = pmm::frame_alloc(&mut map).unwrap();
    let b = pmm::frame_alloc(&mut map).unwrap();
    assert!(a < b);
    assert_eq!(a % 4096, 0);
    let run = pmm::alloc_contiguous(&mut map, 3).unwrap();
    assert!(run > b);
    assert_eq!(pmm::free_frames(&map), total - 5);
    pmm::frame_free(&mut map, a);
    assert_eq!(pmm::frame_alloc(&mut map), Some(a));
    assert_eq!(pmm::alloc_contiguous(&mut map, 0), None);
}

#[test]
fn reaped_frames_can_be_had_again() {
    let regions = [MemoryRegion { base: 0x10_0000, length: 0x1000_0000, region_type: 1 }];
    let mut map = FrameMap::new();
    pmm::init(&mut map, &regions, 0x10_0000, 0x20_0000);
    let before = pmm::free_frames(&map);
    let frames = vec![pmm::frame_alloc(&mut map).unwrap(), pmm::frame_alloc(&mut map).unwrap()];
    machaos::spawn::reap(&mut map, &frames);
    assert_eq!(pmm::free_frames(&map), before);
}

#[test]
fn clock_in_bcd_and_binary() {
    let bcd = Registers {
        status_b: 0x02,
        second: 0x59,
        minute: 0x07,
        hour: 0x23,
        day: 0x31,
        month: 0x12,
        year: 0x25,
        century: 0x20,
    };
    let t = rtc::now(&bcd);
    assert_eq!((t.year, t.month, t.day, t.hour, t.minute, t.second), (2025, 12, 31, 23, 7, 59));
    let binary = Registers {
        status_b: 0x04,
        second: 1,
        minute: 2,
        hour: 0x80 + 3,
        day: 4,
        month: 5,
        year: 6,
        century: 99,
    };
    let t = rtc::now(&binary);
    assert_eq!((t.year, t.hour), (2006, 15));
    let evening = Registers { status_b: 0, hour: 0x81, ..bcd };
    assert_eq!(rtc::now(&evening).hour, 13);
    let late = Registers { status_b: 0, hour: 0x91, ..bcd };
    assert_eq!(rtc::now(&late).hour, 23);
    let noon = Registers { status_b: 0, hour: 0x92, ..bcd };
    assert_eq!(rtc::now(&noon).hour, 12);
    let midnight = Registers { status_b: 0, hour: 0x12, ..bcd };
    assert_eq!(rtc::now(&midnight).hour, 0);
    assert!(rtc::update_in_progress(0x80));
    assert!(!rtc::update_in_progress(0x7F));
}

#[test]
fn clipboard_keeps_one_thing() {
    let mut c = Clipboard::new();
    assert!(!clipboard::has_text(&c));
    clipboard::copy_text(&mut c, "hi".to_string());
    assert_eq!(clipboard::paste_text(&c), Some("hi".to_string()));
    assert!(clipboard::paste_image(&c).is_none());
    clipboard::copy_image(&mut c, 1, 1, vec![7]);
    assert_eq!(clipboard::paste_image(&c), Some((1, 1, vec![7])));
    assert_eq!(clipboard::paste_text(&c), None);
}

#[test]
fn identity_map_bounds() {
    assert!(is_identity_mapped(0, 0));
    assert!(is_identity_mapped(0x1000, 0x1000));
    assert!(!is_identity_mapped(u64::MAX, 1));
}

#[test]
fn pci_scan_finds_first_function() {
    let mut bus = Bus { ids: vec![0xFFFF_FFFF; 256], headers: vec![0; 32] };
    bus.ids[5 * 8] = 0x100E_8086;
    bus.ids[7 * 8] = 0x100E_8086;
    assert_eq!(find_device(&bus, 0x8086, 0x100E), Some((0, 5, 0)));
    assert_eq!(find_device(&bus, 0x8086, 0x2922), None);
    assert_eq!(config_address(0, 5, 0, 0x10), 0x8000_2810);
    assert!(machaos::ahci::locate(&bus).is_err());
    bus.ids[3 * 8] = 0x7000_8086;
    bus.ids[3 * 8 + 2] = 0x100E_8086;
    assert_eq!(find_device(&bus, 0x8086, 0x100E), Some((0, 5, 0)));
    bus.headers[3] = 0x80_0000;
    assert_eq!(find_device(&bus, 0x8086, 0x100E), Some((0, 3, 2)));
}

#[test]
fn cpuid_strings_and_features() {
    let leaf0 = Leaf { eax: 1, ebx: 0x756E_6547, ecx: 0x6C65_746E, edx: 0x4965_6E69 };
    assert_eq!(&cpuid::vendor_id(leaf0), b"GenuineIntel");
    let leaf1 = Leaf { eax: 0, ebx: 0x0003_0000, ecx: 1, edx: 0x0200_0001 };
    assert_eq!(cpuid::cores(leaf1), 4);
    assert_eq!(cpuid::features(leaf1), vec!["FPU", "SSE", "SSE3"]);
    let none = Leaf { eax: 0x8000_0000, ebx: 0, ecx: 0, edx: 0 };
    assert!(cpuid::brand_string(none, [leaf0, leaf0, leaf0]).is_none());
}

#[test]
fn heap_blocks_do_not_overlap_and_free_merges() {
    let mut h = FreeListAllocator::new();
    h.init(0x1000, 0x2000);
    let a = h.allocate(10).unwrap();
    let b = h.allocate(100).unwrap();
    assert_eq!(a, 0x1010);
    assert!(b >= a + 16);
    assert_eq!(h.block_size(a), Some(16));
    assert_eq!(h.allocated_bytes(), 16 + 112);
    h.deallocate(a);
    h.deallocate(b);
    assert_eq!(h.allocated_bytes(), 0);
    assert_eq!(h.allocate(0x1000 - 16), Some(0x1010));
    assert_eq!(h.allocate(1), None);
    assert_eq!(h.total_bytes(), 0x1000);
}

#[test]
fn pipe_is_fifo_and_reports_end() {
    let mut p = Pipes::new();
    let id = pipe::create(&mut p);
    assert!(matches!(pipe::write(&mut p, id, b"hello"), Transfer::Moved { count: 5, .. }));
    assert_eq!(pipe::buffered(&p, id), 5);
    let mut out = vec![0u8; 3];
    assert!(matches!(pipe::read(&mut p, id, &mut out), Transfer::Moved { count: 3, .. }));
    assert_eq!(&out, b"hel");
    let mut rest = vec![0u8; 8];
    assert!(matches!(pipe::read(&mut p, id, &mut rest), Transfer::Moved { count: 2, .. }));
    assert_eq!(&rest[..2], b"lo");
    assert!(matches!(pipe::read(&mut p, id, &mut rest), Transfer::Wait { .. }));
    pipe::close_end(&mut p, id, false);
    assert!(matches!(pipe::read(&mut p, id, &mut rest), Transfer::Closed));
}

#[test]
fn port_programming() {
    let w = machaos::pic::eoi(3);
    assert_eq!(w.len(), 1);
    assert_eq!((w[0].port, w[0].value), (0x20, 0x20));
    assert_eq!(machaos::pic::eoi(9).len(), 2);
    assert_eq!(machaos::pic::remap().len(), 10);
    let pit: Vec<(u16, u8)> = machaos::pit::init().iter().map(|w| (w.port, w.value)).collect();
    assert_eq!(pit, vec![(0x43, 0x36), (0x40, 0x9B), (0x40, 0x2E)]);
    assert_eq!(machaos::serial::init().len(), 7);
    assert!(machaos::serial::tx_ready(0x20));
    assert!(!machaos::serial::tx_ready(0x40));
    let s = machaos::serial::write_str("ok");
    assert_eq!((s[1].port, s[1].value), (0x3F8, b'k'));
}

#[test]
fn segment_tables() {
    let mut tss = machaos::gdt::TaskStateSegment::new();
    let t = machaos::gdt::init(&mut tss, 0x9000, 0xA000, 0x1122_3344_5566_7788);
    assert_eq!(tss.rsp0, 0x9000);
    assert_eq!(tss.ist[0], 0xA000);
    assert_eq!(t[1], 0x0020_9A00_0000_0000);
    assert_eq!(t[3], 0x5500_8966_7788_0067);
    assert_eq!(t[4], 0x1122_3344);
    let mut handlers = [0u64; 256];
    handlers[8] = 0x1234_5678_9ABC_DEF0;
    let idt = machaos::idt::Idt::new(&handlers);
    let g = idt.entries[8];
    assert_eq!((g.offset_low, g.offset_mid, g.offset_high), (0xDEF0, 0x9ABC, 0x1234_5678));
    assert_eq!((g.selector, g.ist, g.type_attr), (8, 1, 0x8E));
    assert_eq!(idt.entries[7].ist, 0);
    assert_eq!(idt.limit(), 4095);
}

#[test]
fn copied_page_tables_keep_ring_3_out() {
    let pt = machaos::address_space::copy_page_table(&vec![0x1007, 0x2003, 0x3006]);
    assert_eq!(pt, vec![0x1003, 0x2003, 0x3006]);
    let pd = machaos::address_space::copy_page_directory(
        &vec![0x20_0087, 0, 0x5007],
        &vec![0x9000],
    );
    assert_eq!(pd, vec![0x20_0083, 0, 0x9003]);
    let top = machaos::address_space::copy_pml4(&vec![0x1003; 512], 0x4000);
    assert_eq!((top[0], top[1]), (0x4003, 0x1003));
}

/// A map at 0 whose table of directories holds `pdpte`, and `frames` free
/// frames from 64 MiB on.
fn arena(pdpte: u64, frames: u64) -> Arena {
    let end = 0x400_0000 + frames * 4096;
    let mut map = FrameMap::new();
    let regions = [MemoryRegion { base: 0x10_0000, length: end - 0x10_0000, region_type: 1 }];
    pmm::init(&mut map, &regions, 0x10_0000, 0x20_0000);
    let mut memory = vec![0u64; end as usize / 8];
    memory[0] = 0x1007;
    memory[512] = pdpte;
    memory[1024] = 0x3007;
    memory[1024 + 1] = 0x20_0087;
    memory[1536 + 5] = 0x5007;
    memory[1536 + 6] = 0x6006;
    Arena { memory, map, frames: vec![1] }
}

#[test]
fn address_space_is_a_private_copy() {
    let mut a = arena(0x2007, 5);
    a.memory[0x400_2000 / 8 + 9] = 77;
    assert_eq!(a.build_address_space(0), Ok(0x400_0000));
    assert_eq!(a.frames, vec![1, 0x400_0000, 0x400_1000, 0x400_2000, 0x400_3000]);
    let at = |base: usize, k: usize| a.memory[base / 8 + k];
    assert_eq!((at(0x400_0000, 0), at(0x400_0000, 1)), (0x400_1003, 0));
    assert_eq!((at(0x400_1000, 0), at(0x400_1000, 1)), (0x400_2003, 0));
    assert_eq!((at(0x400_2000, 0), at(0x400_2000, 1)), (0x400_3003, 0x20_0083));
    assert_eq!((at(0x400_3000, 5), at(0x400_3000, 6)), (0x5003, 0x6006));
    assert_eq!(at(0x400_2000, 9), 0);
    assert_eq!((at(0, 0), at(0x1000, 0), at(0x3000, 5)), (0x1007, 0x2007, 0x5007));
    assert_eq!(pmm::free_frames(&a.map), 1);
    assert_eq!(machaos::address_space::read_pte_flags(&a.memory, 0x400_0000, 5 * 4096), 3);
    assert_eq!(machaos::address_space::read_pte_flags(&a.memory, 0, 5 * 4096), 7);
}

#[test]
fn address_space_failures() {
    assert_eq!(arena(0x2007, 3).build_address_space(0), Err("out of memory"));
    assert_eq!(arena(0x87, 1).build_address_space(0), Err("out of memory"));
    assert_eq!(
        arena(0x87, 2).build_address_space(0),
        Err("unexpected 1 GiB page in boot map")
    );
}

#[test]
fn page_walk_reads_flags() {
    let mut m = vec![0u64; 4 * 512];
    m[0] = 0x1003;
    m[512] = 0x2003;
    m[1024] = 0x3003;
    m[1536 + 5] = 0x7_7007;
    assert_eq!(machaos::address_space::read_pte_flags(&m, 0, 5 * 4096), 7);
    assert_eq!(machaos::address_space::read_pte_flags(&m, 0, 6 * 4096), 0);
    m[1024] = 0x83;
    assert_eq!(machaos::address_space::read_pte_flags(&m, 0, 5 * 4096), 0);
}

#[test]
fn mouse_is_turned_on() {
    assert_eq!(mouse::init(), [mouse::Step::Command(0xA8), mouse::Step::Command(0x20), mouse::Step::Read]);
    let rest = mouse::init_with(0x65);
    assert_eq!(rest[..2], [mouse::Step::Command(0x60), mouse::Step::Data(0x47)]);
    assert_eq!(rest[6], mouse::Step::Data(0xF4));
    assert!(mouse::input_clear(0x1D) && !mouse::input_clear(2));
    assert!(mouse::output_full(1) && !mouse::output_full(2));
}

#[test]
fn pci_configuration_words() {
    let w = pci::config_read(0, 3, 1, 0x13);
    assert_eq!((w.port, w.value), (0xCF8, 0x8000_1910));
    let (a, d) = pci::config_write(0, 3, 1, 0x04, 7);
    assert_eq!((a.value, d.port, d.value), (0x8000_1904, 0xCFC, 7));
}

#[test]
fn framebuffer_shows_the_desktop() {
    let m = boot_memory();
    let mut fb = machaos::fb::init(&MultibootInfo::new(&m, 100)).unwrap();
    gfx::fill_rect(fb.with_surface(), 1, 1, 2, 2, 0x123456);
    assert_eq!(fb.get_pixel(2, 2), Some(0));
    assert_eq!(fb.screen_pixels()[1025], 0);
    let saved = fb.snapshot_region(1, 1, 2, 1);
    assert_eq!(saved, vec![0x123456, 0x123456]);
    gfx::fill_rect(fb.with_surface(), 1, 1, 2, 1, 7);
    fb.restore_region(1, 1, 2, 1, &saved);
    assert_eq!(fb.snapshot_region(1, 1, 1, 1), vec![0x123456]);
    fb.present_region(0, 0, 2, 2);
    assert_eq!((fb.screen_pixels()[1025], fb.screen_pixels()[1026]), (0x123456, 0));
    fb.present();
    assert_eq!(fb.get_pixel(2, 2), Some(0x123456));
    assert_eq!(fb.screen_pixels()[1026], 0x123456);
    fb.emergency_put_pixel(5, 0, 9);
    assert_eq!(fb.screen_pixels()[5], 9);
    fb.emergency_fill(3);
    assert!(fb.screen_pixels().iter().all(|p| *p == 3));
    fb.emergency_draw_string(&Font::new(vec![0xFF; 2048]), 0, 0, b"A", 4);
    assert_eq!((fb.screen_pixels()[7], fb.screen_pixels()[8]), (4, 3));
    assert!(!fb.set_virtual_resolution(1025, 10));
    assert!(fb.set_virtual_resolution(512, 384));
    assert_eq!(fb.snapshot_region(511, 0, 2, 1), vec![0, 0]);
    gfx::fill_rect(fb.with_surface(), 0, 0, 512, 384, 0xABCDEF);
    fb.present();
    assert!(fb.screen_pixels().iter().all(|p| *p == 0xABCDEF));
}

#[test]
fn pipe_readiness() {
    let mut p = Pipes::new();
    let id = pipe::create(&mut p);
    assert!(!pipe::read_ready(&p, id) && pipe::write_ready(&p, id) && !pipe::no_readers(&p, id));
    let big = vec![1u8; 70000];
    assert!(matches!(pipe::write(&mut p, id, &big), Transfer::Moved { count: 65535, .. }));
    assert!(pipe::read_ready(&p, id) && !pipe::write_ready(&p, id));
    assert!(matches!(pipe::write(&mut p, id, b"x"), Transfer::Wait { .. }));
    pipe::close_end(&mut p, id, true);
    assert!(pipe::no_readers(&p, id));
    assert!(pipe::read_ready(&p, 77) && !pipe::write_ready(&p, 77) && pipe::no_readers(&p, 77));
}

#[test]
fn frame_counts_add_up() {
    let map = FrameMap::new();
    assert_eq!(pmm::free_frames(&map) + pmm::used_frames(&map), pmm::total_frames(&map));
}

#[test]
fn exceptions_always_reach_the_serial_line() {
    let (writes, screen) = machaos::io::exception_print("no", false);
    assert_eq!(writes.iter().map(|w| (w.port, w.value)).collect::<Vec<_>>(), vec![(0x3F8, b'n'), (0x3F8, b'o')]);
    assert!(!screen);
    assert!(machaos::io::exception_print("", true).1);
}
