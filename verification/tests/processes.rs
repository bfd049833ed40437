use machaos::address_space::Arena;
use machaos::elf;
use machaos::fork::{self, PageRun};
use machaos::interrupts::{self, Clock, Handler, Handlers, InterruptFrame, Outcome};
use machaos::keyboard::{self, Keyboard};
use machaos::linux_abi::{self as abi, Action, Caller, Object, SeekFrom, VfsError, WritevStep};
use machaos::load;
use machaos::multiboot::MemoryRegion;
use machaos::pipe::Pipes;
use machaos::pmm::{self, FrameMap};
use machaos::process::{
    self, Abi, Delivery, ExitInfo, FdEntry, ForkPlan, Mapping, Process, Release, UserStore,
    WaitStep,
};
use machaos::spawn::{self, Executable, Room};

fn executable() -> Vec<u8> {
    let mut d = vec![0u8; 0x200];
    d[..6].copy_from_slice(&[0x7F, b'E', b'L', b'F', 2, 1]);
    d[16..18].copy_from_slice(&2u16.to_le_bytes());
    d[18..20].copy_from_slice(&0x3Eu16.to_le_bytes());
    d[24..32].copy_from_slice(&0x300_0010u64.to_le_bytes());
    d[32..40].copy_from_slice(&64u64.to_le_bytes());
    d[54..56].copy_from_slice(&56u16.to_le_bytes());
    d[56..58].copy_from_slice(&1u16.to_le_bytes());
    let p = 64;
    d[p..p + 4].copy_from_slice(&1u32.to_le_bytes());
    d[p + 4..p + 8].copy_from_slice(&6u32.to_le_bytes());
    d[p + 8..p + 16].copy_from_slice(&0x100u64.to_le_bytes());
    d[p + 16..p + 24].copy_from_slice(&0x300_0010u64.to_le_bytes());
    d[p + 32..p + 40].copy_from_slice(&4u64.to_le_bytes());
    d[p + 40..p + 48].copy_from_slice(&0x1800u64.to_le_bytes());
    d[0x100..0x104].copy_from_slice(&[1, 2, 3, 4]);
    d
}

const ROOM: Room = Room { heap_start: 0x400_0000, heap_end: 0x480_0000, limit: 0x100_0000 };

#[test]
fn elf_files_are_parsed_and_checked() {
    let good = executable();
    let p = elf::parse(&good).unwrap();
    assert_eq!(p.entry, 0x300_0010);
    assert_eq!(p.segments.len(), 1);
    assert_eq!((p.segments[0].vaddr, p.segments[0].filesz, p.segments[0].memsz), (0x300_0010, 4, 0x1800));
    assert!(p.segments[0].writable);
    assert_eq!(elf::parse(&good[..40]).err(), Some("truncated ELF header"));
    let mut bad = good.clone();
    bad[0] = 0;
    assert_eq!(elf::parse(&bad).err(), Some("not an ELF file"));
    let mut bad = good.clone();
    bad[4] = 1;
    assert_eq!(elf::parse(&bad).err(), Some("not a 64-bit ELF"));
    let mut bad = good.clone();
    bad[16] = 3;
    assert_eq!(elf::parse(&bad).err(), Some("not an executable (ET_EXEC)"));
    let mut bad = good.clone();
    bad[64 + 32] = 0xFF;
    bad[64 + 33] = 0xFF;
    assert_eq!(elf::parse(&bad).err(), Some("segment data outside file"));
    let mut bad = good;
    bad[56] = 0;
    assert_eq!(elf::parse(&bad).err(), Some("no loadable segments"));
}

#[test]
fn native_programs_are_laid_out() {
    let l = spawn::spawn(&executable(), ROOM).unwrap();
    assert_eq!(l.image.start, 0x300_0000);
    assert_eq!(l.image.bytes.len(), 0x2000);
    assert_eq!(&l.image.bytes[0x0E..0x15], &[0, 0, 1, 2, 3, 4, 0]);
    assert_eq!(l.image.writable, vec![true, true]);
    assert_eq!(l.stack.rsp, 0x1000_0000 - 8);
    assert_eq!(l.stack.bytes, 0x1000_0000u64.to_le_bytes().to_vec());
    let p = l.place(0x10_0000, 0, 0x20_0000, 0x30_0000);
    assert_eq!(p.mappings.len(), 3);
    assert_eq!(process::translate(&p.mappings, 0x300_0010, 4), Some(0x10_0010));
    assert_eq!(process::translate(&p.mappings, 0x1000_0000, 1), Some(0x30_0000));
    let tight = Room { limit: 0x1000, ..ROOM };
    assert_eq!(spawn::spawn(&executable(), tight).err(), Some("out of memory"));
    let clash = Room { heap_start: 0x300_0000, ..ROOM };
    assert_eq!(spawn::spawn(&executable(), clash).err(), Some("segment overlaps kernel heap"));
    assert_eq!(spawn::syscall_stubs(60, 15)[16..18], [0xB8, 15]);
}

#[test]
fn linux_programs_get_their_arguments() {
    let argv = vec![b"prog".to_vec(), b"-x".to_vec()];
    let envp = vec![b"A=1".to_vec()];
    let l = spawn::spawn_linux(&executable(), &argv, &envp, 7, ROOM).unwrap();
    assert_eq!(l.heap_start, 0x300_3000);
    assert_eq!(l.stack.rsp % 16, 0);
    let word = |i: usize| u64::from_le_bytes(l.stack.bytes[8 * i..8 * i + 8].try_into().unwrap());
    assert_eq!(word(0), 2);
    let text = |addr: u64| {
        let from = (addr - l.stack.rsp) as usize;
        let end = from + l.stack.bytes[from..].iter().position(|b| *b == 0).unwrap();
        l.stack.bytes[from..end].to_vec()
    };
    assert_eq!(text(word(1)), b"prog");
    assert_eq!(text(word(2)), b"-x");
    assert_eq!(word(3), 0);
    assert_eq!(text(word(4)), b"A=1");
    assert_eq!(word(5), 0);
}

#[test]
fn lowest_free_descriptor_is_used() {
    let mut p = Process::new(0, Abi::Linux, 0x1000);
    assert_eq!(p.alloc_fd(FdEntry::File(1)), 3);
    assert_eq!(p.alloc_fd(FdEntry::File(2)), 4);
    let mut pipes = Pipes::new();
    assert_eq!(p.close_fd(3, &mut pipes), Some(Release::File(1)));
    assert_eq!(p.close_fd(3, &mut pipes), None);
    assert_eq!(p.close_fd(1, &mut pipes), None);
    assert_eq!(p.alloc_fd(FdEntry::Socket(5)), 3);
    assert!(p.set_cloexec(4, true));
    assert!(p.cloexec(4));
    let closed = p.close_cloexec_fds();
    assert_eq!(closed.len(), 5);
    assert!(closed[3].is_none());
    assert!(matches!(closed[4], Some(FdEntry::File(2))));
    assert!(p.fd(4).is_none());
    assert!(p.fd(3).is_some());
    assert!(matches!(p.take_fd(3), Some(FdEntry::Socket(5))));
    assert!(p.take_fd(3).is_none());
    assert!(p.take_fd(0).is_none());
}

#[test]
fn closing_a_write_end_lets_the_reader_go() {
    let mut pipes = Pipes::new();
    let id = machaos::pipe::create(&mut pipes);
    let mut p = Process::new(0, Abi::Linux, 0x1000);
    let reader = p.alloc_fd(FdEntry::Pipe(id, true));
    let writer = p.alloc_fd(FdEntry::Pipe(id, false));
    let mut buf = vec![0u8; 4];
    let waiting = machaos::pipe::read(&mut pipes, id, &mut buf);
    assert!(matches!(waiting, machaos::pipe::Transfer::Wait { .. }));
    assert_eq!(p.close_fd(writer, &mut pipes), Some(Release::Nothing));
    let ended = machaos::pipe::read(&mut pipes, id, &mut buf);
    assert!(matches!(ended, machaos::pipe::Transfer::Closed));
    assert!(p.fd(reader).is_some());
    let (fd, before) = p.set_fd(reader, FdEntry::Dev(0));
    assert_eq!(fd, reader);
    assert!(matches!(before, Some(FdEntry::Pipe(i, true)) if i == id));
    assert!(matches!(p.fd_mut(reader, FdEntry::Dev(1)), Some(FdEntry::Dev(0))));
    assert!(p.fd_mut(writer, FdEntry::Dev(1)).is_none());
}

#[test]
fn close_hands_the_entry_on() {
    let mut c = caller();
    c.process.alloc_fd(FdEntry::Pipe(7, false));
    assert!(matches!(abi::sys_close(&mut c, 1), Action::Return(0)));
    assert!(matches!(abi::sys_close(&mut c, 3), Action::Close(FdEntry::Pipe(7, false))));
    assert!(c.process.fd(3).is_none());
    assert!(matches!(abi::sys_close(&mut c, 3), Action::Return(v) if v == fail(9)));
    c.process.alloc_fd(FdEntry::Shm(0, 5));
    let closed = abi::syscall_dispatch(&mut c, 3, &[3, 0, 0, 0, 0, 0]);
    assert!(matches!(closed, Action::Close(FdEntry::Shm(0, 5))));
}

#[test]
fn a_freed_process_hands_its_files_on() {
    let mut map = FrameMap::new();
    let regions = [MemoryRegion { base: 0x10_0000, length: 0x1000_0000, region_type: 1 }];
    pmm::init(&mut map, &regions, 0x10_0000, 0x20_0000);
    let before = pmm::free_frames(&map);
    let frame = pmm::frame_alloc(&mut map).unwrap();
    let mut p = Process::new(0, Abi::Linux, 0x1000);
    p.alloc_fd(FdEntry::Net(6));
    let files = spawn::free_process(p, &mut map, &vec![frame]);
    assert_eq!(pmm::free_frames(&map), before);
    assert_eq!(process::release_fds(&files, &mut Pipes::new())[3], Release::Net(6));
}

#[test]
fn newest_mapping_wins() {
    let ms = vec![
        Mapping { vaddr: 0x1000, phys: 0x9000, len: 0x2000, shm_id: None },
        Mapping { vaddr: 0x1000, phys: 0x5000, len: 0x1000, shm_id: None },
    ];
    assert_eq!(process::translate(&ms, 0x1004, 4), Some(0x5004));
    assert_eq!(process::translate(&ms, 0x1FFE, 4), Some(0x9FFE));
    assert_eq!(process::translate(&ms, 0x3000, 1), None);
    assert_eq!(process::translate(&ms, u64::MAX, 2), None);
}

#[test]
fn heap_and_mappings_grow() {
    let mut p = Process::new(0, Abi::Linux, 0x10_0000);
    assert_eq!(p.brk(0).err(), Some(0x10_0000));
    let r = p.brk(0x10_1001).unwrap();
    assert_eq!((r.vaddr, r.len), (0x10_0000, 0x2000));
    assert_eq!(p.brk_mapped(0x10_1001, r, Some(0x50_0000)), 0x10_1001);
    assert_eq!(process::translate(&p.mappings, 0x10_1000, 1), Some(0x50_1000));
    let a = p.mmap_anon(None, 1, true, false).unwrap();
    assert_eq!((a.vaddr, a.len), (0x4000_0000, 0x1000));
    assert_eq!(p.mmap_done(a, 0x60_0000, None), 0x4000_0000);
    let b = p.mmap_anon(None, 1, true, false).unwrap();
    assert_eq!(b.vaddr, 0x4000_1000);
    assert_eq!(p.munmap(0x4000_0000, 0x1000).len(), 1);
    assert_eq!(process::translate(&p.mappings, 0x4000_0000, 1), None);
    assert!(p.mprotect(0x4000_0000, 1).is_none());
}

#[test]
fn a_heap_that_shrank_keeps_its_pages() {
    let mut p = Process::new(0, Abi::Linux, 0x10_0000);
    let r = p.brk(0x10_2000).unwrap();
    assert_eq!(p.brk_mapped(0x10_2000, r, Some(0x50_0000)), 0x10_2000);
    assert_eq!(p.brk(0x10_0800).err(), Some(0x10_0800));
    assert_eq!(p.brk(0x10_1800).err(), Some(0x10_1800));
    assert_eq!(p.mappings.len(), 1);
    let more = p.brk(0x10_3000).unwrap();
    assert_eq!((more.vaddr, more.len), (0x10_2000, 0x1000));
    assert_eq!(p.brk_mapped(0x10_3000, more, Some(0x60_0000)), 0x10_3000);
    assert_eq!(process::translate(&p.mappings, 0x10_1FFF, 1), Some(0x50_1FFF));
    assert_eq!(process::translate(&p.mappings, 0x10_2000, 1), Some(0x60_0000));
}

#[test]
fn ignored_signals_do_not_kill() {
    for sig in [17u8, 18, 23, 28] {
        let mut p = Process::new(0, Abi::Linux, 0);
        assert_eq!(process::deliver_signal(&mut p, sig), Ok(()));
        let mut f = frame();
        let before = f.rip;
        let _ = process::deliver_pending_signals(&mut p, &mut f);
        assert!(!p.is_exited());
        assert_eq!(p.sig_pending, 0);
        assert_eq!(f.rip, before);
    }
}

#[test]
fn stack_grows_inside_its_region() {
    let mut p = Process::new(0, Abi::Native, 0);
    let m = process::handle_fault(&mut p, 0x0FFF_7123).unwrap();
    assert_eq!((m.vaddr, m.len), (0x0FFF_7000, 0x1000));
    assert!(process::handle_fault(&mut p, 0x0FEF_FFFF).is_none());
    assert!(process::handle_fault(&mut p, 0x0FFF_7123).is_none());
}

fn frame() -> InterruptFrame {
    InterruptFrame {
        r15: 15, r14: 14, r13: 13, r12: 12, r11: 11, r10: 10, r9: 9, r8: 8, rbp: 7, rdi: 6,
        rsi: 5, rdx: 4, rcx: 3, rax: 2, rbx: 1, vector: 32, error_code: 0, rip: 0x300_0000,
        cs: 0x23, rflags: 0x202, rsp: 0x0FFF_F000, ss: 0x1B,
    }
}

#[test]
fn signals_run_handlers_and_return() {
    let mut p = Process::new(0, Abi::Linux, 0);
    p.init_stack_backing(0x100_0000);
    p.sigactions[10].handler = 0x300_1000;
    assert_eq!(process::deliver_signal(&mut p, 10), Ok(()));
    let before = frame();
    let mut f = before;
    let words = match process::deliver_pending_signals(&mut p, &mut f) {
        Delivery::Handler { words, .. } => words,
        _ => panic!(),
    };
    assert_eq!((f.rip, f.rdi), (0x300_1000, 10));
    process::sigreturn(&mut p, &mut f, &words[1..].to_vec());
    assert_eq!(f.rip, before.rip);
    assert_eq!(f.rsp, before.rsp);
    assert_eq!(f.rax, before.rax);
}

#[test]
fn kill_cannot_be_caught() {
    let mut p = Process::new(0, Abi::Linux, 0);
    p.sigactions[9].handler = 1;
    assert_eq!(process::deliver_signal(&mut p, 9), Ok(()));
    let mut f = frame();
    let _ = process::deliver_pending_signals(&mut p, &mut f);
    assert!(p.is_exited());
    assert_eq!(process::describe_exit(&ExitInfo::Normal), "exited normally");
    assert!(process::signal_default_ignored(17));
}

#[test]
fn forks_copy_what_can_be_shared() {
    let mut pipes = Pipes::new();
    let id = machaos::pipe::create(&mut pipes);
    let mut p = Process::new(0, Abi::Linux, 0);
    p.alloc_fd(FdEntry::Pipe(id, true));
    p.alloc_fd(FdEntry::Socket(1));
    let child = process::fork_copy(&p, &mut pipes, &vec![], 42);
    assert!(child.fd(3).is_some());
    assert!(child.fd(4).is_none());
    assert_eq!(child.parent, Some(42));
    let plan = process::handle_forkish(true, 57, &[0; 6], 0x1000, 0x77);
    assert!(matches!(plan, ForkPlan::Fork { stack: 0x1000, fs_base: 0x77 }));
    assert!(process::forkish_stores(&plan, &p.mappings, 9).unwrap().is_empty());
    let plan = process::handle_forkish(false, 57, &[0; 6], 0, 0);
    assert!(matches!(plan, ForkPlan::Failed("not a process")));
    assert_eq!(process::forkish_stores(&plan, &p.mappings, 9).err(), Some("not a process"));
    let ms = vec![Mapping { vaddr: 0x1000, phys: 0x5000, len: 0x1000, shm_id: None }];
    let args = [0x100 | 0x100000 | 0x1000000, 0x3000, 0x1010, 0x1FF9, 0, 0];
    let plan = process::handle_forkish(true, 56, &args, 0, 0x55);
    assert!(matches!(plan, ForkPlan::Thread { stack: 0x3000, fs_base: 0x55, clear_tid: None, .. }));
    let stores = process::forkish_stores(&plan, &ms, 9).unwrap();
    assert_eq!(stores, vec![UserStore { phys: 0x5010, value: 9 }]);
    assert!(matches!(process::wait(None, 10, 10), WaitStep::TimedOut));
    assert!(matches!(process::wait(None, 10, 9), WaitStep::Wait));
    assert!(matches!(process::wait(Some(ExitInfo::Normal), 0, 9), WaitStep::Exited(ExitInfo::Normal)));
}

/// A kernel's map of one 2 MiB page at 0, and `frames` free frames from
/// 64 MiB on.
fn arena(frames: u64) -> Arena {
    let end = 0x400_0000 + frames * 4096;
    let mut map = FrameMap::new();
    let regions = [MemoryRegion { base: 0x10_0000, length: end - 0x10_0000, region_type: 1 }];
    pmm::init(&mut map, &regions, 0x10_0000, 0x20_0000);
    let mut memory = vec![0u64; end as usize / 8];
    memory[0] = 0x1003;
    memory[512] = 0x2003;
    memory[1024] = 0x83;
    Arena { memory, map, frames: vec![] }
}

fn byte(a: &Arena, at: usize) -> u8 {
    a.memory[at / 8].to_le_bytes()[at % 8]
}

#[test]
fn loaded_program_is_in_memory() {
    let room = Room { heap_start: 0x800_0000, heap_end: 0x900_0000, limit: 0x100_0000 };
    let launch = spawn::spawn(&executable(), room).ok().unwrap();
    let mut a = arena(262);
    a.memory[0x400_3000 / 8] = u64::MAX;
    let stubs = spawn::syscall_stubs(60, 15);
    let loaded = launch.load(&mut a, 0, &stubs).ok().unwrap();
    assert_eq!(loaded.pml4, 0x400_0000);
    assert_eq!(a.frames.len(), 262);
    assert_eq!(pmm::free_frames(&a.map), 0);
    assert_eq!(loaded.process.user_rsp, 0x0FFF_FFF8);
    assert_eq!(loaded.process.stack_phys_base, 0x400_5000);
    assert_eq!(
        loaded.process.mappings[0],
        Mapping { vaddr: 0x300_0000, phys: 0x400_3000, len: 0x2000, shm_id: None }
    );
    assert_eq!(loaded.pages.len(), 4);
    assert_eq!(
        loaded.pages[0],
        PageRun { vaddr: 0x300_0000, phys: 0x400_3000, len: 4096, flags: 7 }
    );
    assert_eq!(
        loaded.pages[2],
        PageRun {
            vaddr: 0x0FFF_8000,
            phys: 0x400_5000 + 0xF_8000,
            len: 0x8000,
            flags: 0x8000_0000_0000_0007,
        }
    );
    assert_eq!(
        loaded.pages[3],
        PageRun { vaddr: 0x1000_0000, phys: 0x410_5000, len: 4096, flags: 5 }
    );
    let file = executable();
    assert_eq!(byte(&a, 0x400_3000), 0);
    assert_eq!(byte(&a, 0x400_3010), file[0x100]);
    assert_eq!(a.memory[(0x400_5000 + 0xF_FFF8) / 8], 0x1000_0000);
    assert_eq!((byte(&a, 0x410_5000), byte(&a, 0x410_5001)), (0xB8, 60));
}

#[test]
fn process_gets_memory_while_it_runs() {
    let mut a = arena(4);
    let mut p = Process::new(0, Abi::Linux, 0x100_0000);
    a.memory[0x400_0000 / 8 + 1] = u64::MAX;
    let content = [1u8; 4097];
    let page = load::mmap_with_content(&mut a, &mut p, None, 4096, false, true, &content);
    assert_eq!(
        page,
        Some(PageRun { vaddr: 0x4000_0000, phys: 0x400_0000, len: 4096, flags: 5 })
    );
    assert_eq!((byte(&a, 0x400_0000), byte(&a, 0x400_0FFF)), (1, 1));
    let page = load::mmap_with_content(&mut a, &mut p, Some(0x50_0123), 10, true, false, &[7]);
    assert_eq!(
        page,
        Some(PageRun { vaddr: 0x50_0000, phys: 0x400_1000, len: 4096, flags: 1 << 63 | 7 })
    );
    assert_eq!((byte(&a, 0x400_1000), byte(&a, 0x400_1001)), (7, 0));
    assert_eq!(p.mmap_next, 0x4000_1000);
    assert_eq!(load::brk(&mut a, &mut p, 0), (0x100_0000, None));
    assert_eq!(
        load::brk(&mut a, &mut p, 0x100_0001),
        (
            0x100_0001,
            Some(PageRun { vaddr: 0x100_0000, phys: 0x400_2000, len: 4096, flags: 1 << 63 | 7 })
        )
    );
    assert_eq!(load::brk(&mut a, &mut p, 0x100_1000), (0x100_1000, None));
    assert_eq!(load::brk(&mut a, &mut p, 0x100_2001), (0x100_1000, None));
    assert_eq!(load::mmap_with_content(&mut a, &mut p, None, 4097, true, true, &[]), None);
    assert_eq!(p.mappings.len(), 3);
    assert_eq!(a.frames, vec![0x400_0000, 0x400_1000, 0x400_2000]);
}

#[test]
fn program_without_room_gives_frames_back() {
    let room = Room { heap_start: 0x800_0000, heap_end: 0x900_0000, limit: 0x100_0000 };
    let stubs = spawn::syscall_stubs(60, 15);
    let launch = spawn::spawn(&executable(), room).ok().unwrap();
    for frames in [2, 4, 260, 261] {
        let mut a = arena(frames);
        assert!(matches!(launch.load(&mut a, 0, &stubs), Err("out of memory")));
        assert_eq!(pmm::free_frames(&a.map), frames);
        assert!(a.frames.is_empty());
    }
    let linux = spawn::spawn_linux(&executable(), &vec![b"a".to_vec()], &vec![], 0, room);
    let mut a = arena(261);
    assert!(matches!(linux.ok().unwrap().load(&mut a, 0, &stubs), Err("out of memory")));
    assert_eq!(a.frames.len(), 261);
}

#[test]
fn forked_child_has_its_own_frames() {
    let mut arena = arena(7);
    let memory = &mut arena.memory;
    // the parent's map at 0x4000, with two of three pages present
    memory[2048] = 0x5007;
    memory[2560] = 0x6007;
    memory[3072 + 2] = 0x7007;
    memory[3584] = 0x20_0005;
    memory[3584 + 2] = 0x20_2007;
    memory[0x20_0000 / 8] = 11;
    memory[0x20_2000 / 8 + 511] = 22;
    let mut p = Process::new(0, Abi::Linux, 0);
    p.mappings.push(Mapping { vaddr: 0x40_0000, phys: 0x20_0000, len: 0x3000, shm_id: None });
    p.mappings.push(Mapping { vaddr: 0x50_0000, phys: 0x9000, len: 0x1000, shm_id: Some(3) });
    let mut pipes = Pipes::new();
    let child = match fork::fork(&mut arena, 0, 0x4000, &p, &mut pipes, 9) {
        Ok(c) => c,
        Err(e) => panic!("{e}"),
    };
    assert_eq!(child.pml4, 0x400_0000);
    assert_eq!(
        child.process.mappings,
        vec![
            Mapping { vaddr: 0x40_0000, phys: 0x400_3000, len: 0x3000, shm_id: None },
            Mapping { vaddr: 0x50_0000, phys: 0x9000, len: 0x1000, shm_id: Some(3) },
        ]
    );
    assert_eq!(
        child.pages,
        vec![
            PageRun { vaddr: 0x40_0000, phys: 0x400_3000, len: 4096, flags: 5 },
            PageRun { vaddr: 0x40_2000, phys: 0x400_5000, len: 4096, flags: 7 },
            PageRun { vaddr: 0x50_0000, phys: 0x9000, len: 4096, flags: 1 },
        ]
    );
    assert_eq!(arena.memory[0x400_3000 / 8], 11);
    assert_eq!(arena.memory[0x400_5000 / 8 + 511], 22);
    assert_eq!(arena.memory[0x400_2000 / 8], 0x83);
    assert_eq!(arena.frames.len(), 6);
    assert_eq!(child.process.parent, Some(9));
    // one frame is left: a second child cannot be had
    assert!(matches!(
        fork::fork(&mut arena, 0, 0x4000, &p, &mut pipes, 9),
        Err("out of memory")
    ));
}

#[test]
fn interrupt_table_and_clock() {
    let mut h = Handlers::new();
    interrupts::register_default_handlers(&mut h);
    assert!(matches!(interrupts::isr_dispatch(&h, 14), Some(Handler::PageFault)));
    interrupts::set_handler(&mut h, 14, None);
    assert!(interrupts::isr_dispatch(&h, 14).is_none());
    let mut c = Clock::new();
    interrupts::timer(&mut c);
    interrupts::timer(&mut c);
    assert_eq!(interrupts::ticks(&c), 2);
    let mut p = Some(Process::new(0, Abi::Native, 0));
    let f = frame();
    assert!(matches!(interrupts::page_fault(&mut p, 0x0FFF_0000, 5, &f), Outcome::Grow(_)));
    assert!(matches!(interrupts::page_fault(&mut p, 0x10, 5, &f), Outcome::KillFault));
    assert!(matches!(interrupts::handle(Handler::DivideError, &mut p, 0, 5, &f), Outcome::KillException));
    assert!(matches!(interrupts::handle(Handler::Timer, &mut p, 0, 5, &f), Outcome::Tick));
    match interrupts::handle(Handler::Breakpoint, &mut p, 0, 5, &f) {
        Outcome::Print(line) => assert_eq!(line, b"[BREAKPOINT] hit at RIP=0x3000000\n"),
        _ => panic!(),
    }
}

#[test]
fn kernel_faults_are_reported() {
    let f = InterruptFrame { error_code: 3, ..frame() };
    let mut none = None;
    match interrupts::handle(Handler::PageFault, &mut none, 0xDEAD, 7, &f) {
        Outcome::Fatal(c) => {
            let head = String::from_utf8(c.head).unwrap();
            assert_eq!(
                head,
                "\n===== EXCEPTION: #PF Page fault =====\nfaulting address (CR2): 0xdead\n\
                 error code: 0x3 (present=true, write=true, user=false)\n"
            );
            let entry = String::from_utf8(c.entry).unwrap();
            assert!(entry.starts_with("===== EXCEPTION: #PF @ tick 7 =====\nCR2: 0xdead  error code: 0x3 ("));
            assert!(entry.contains("RIP: 0x3000000  CS: 0x23  RFLAGS: 0x202\n"));
        }
        _ => panic!(),
    }
    match interrupts::handle(Handler::GeneralProtection, &mut none, 0, 7, &f) {
        Outcome::Fatal(c) => {
            assert_eq!(c.head, b"\n===== EXCEPTION: #GP General protection fault =====\n");
            assert!(c.entry.starts_with(b"===== EXCEPTION: #GP General protection fault @ tick 7 =====\nvector: 32\n"));
            assert_eq!(c.registers, interrupts::format_registers(&f));
        }
        _ => panic!(),
    }
}

#[test]
fn killed_processes_leave_through_the_exit() {
    let mut p = Process::new(0, Abi::Linux, 0);
    p.alloc_fd(FdEntry::Socket(4));
    let mut f = frame();
    let k = process::kill_current(&mut p, "demo", 0xBAD, &mut f, 0x1234);
    assert_eq!(k.files.len(), 4);
    assert!(k.message.starts_with(b"[PROC] demo killed by page fault at 0xbad (error 0x0, rip=0x3000000, r8=0x8,"));
    assert!(k.message.ends_with(b", rsp=0xffff000)\n"));
    assert_eq!((f.rip, f.cs, f.ss), (0x1234, 0x08, 0x10));
    assert!(p.is_exited());
    assert_eq!(p.exit_info, Some(ExitInfo::PageFault { cr2: 0xBAD }));
    let m = process::kill_current_exception(&mut p, 6, &mut frame(), 1);
    assert_eq!(m, b"[PROC] killed by exception vector 6 at rip=0x3000000\n");
    assert_eq!(p.exit_info, Some(ExitInfo::PageFault { cr2: 0xBAD }));
}

#[test]
fn exits_release_what_was_open() {
    let mut pipes = Pipes::new();
    let id = machaos::pipe::create(&mut pipes);
    let mut p = Process::new(0, Abi::Linux, 0);
    p.parent = Some(9);
    p.alloc_fd(FdEntry::Pipe(id, false));
    p.alloc_fd(FdEntry::Net(2));
    let (files, parent) = process::exit_self(&mut p);
    assert_eq!(parent, Some(9));
    let released = process::release_fds(&files, &mut pipes);
    assert_eq!(released[3..], [Release::Nothing, Release::Net(2)]);
    assert_eq!(p.exit_info, Some(ExitInfo::Normal));
    let mut t = Process::new(0, Abi::Linux, 0);
    t.mappings.push(Mapping { vaddr: 0x1000, phys: 0x9000, len: 0x1000, shm_id: None });
    let e = process::thread_exit_self(&mut t, Some(0x1008), 0x70_0000, false);
    assert_eq!(e.joined, Some((0x9008, 0x70_0000 ^ 0x1008)));
    assert!(e.files.is_none() && !t.is_exited());
    let e = process::thread_exit_self(&mut t, None, 0, true);
    assert!(e.joined.is_none() && e.files.is_some() && t.is_exited());
}

#[test]
fn relative_programs_start_in_their_interpreter() {
    let data = executable();
    let mut low = executable();
    low[24..32].copy_from_slice(&0x10u64.to_le_bytes());
    low[64 + 16..64 + 24].copy_from_slice(&0x10u64.to_le_bytes());
    let main = Executable { program: elf::parse(&low).unwrap(), is_pie: true, data: &low };
    let interp = Executable { program: elf::parse(&low).unwrap(), is_pie: true, data: &low };
    let l = spawn::load_linux_process(main, Some(Ok(interp)), &vec![], &vec![], 1, ROOM).unwrap();
    assert_eq!(l.entry, 0x3800_0010);
    assert_eq!(l.image.start, 0x2000_0000);
    assert_eq!(l.interp.as_ref().unwrap().start, 0x3800_0000);
    assert_eq!(l.heap_start, 0x2000_3000);
    let words: Vec<u64> =
        l.stack.bytes.chunks(8).map(|c| u64::from_le_bytes(c.try_into().unwrap())).collect();
    let base = words.iter().position(|w| *w == process::AT_BASE).unwrap();
    assert_eq!(words[base + 1], 0x3800_0000);
    let entry = words.iter().position(|w| *w == process::AT_ENTRY).unwrap();
    assert_eq!(words[entry + 1], 0x2000_0010);
    let p = l.place(0x10_0000, 0x40_0000, 0x20_0000, 0x30_0000);
    assert_eq!(process::translate(&p.mappings, 0x3800_0010, 4), Some(0x40_0010));
    let main = Executable { program: elf::parse(&data).unwrap(), is_pie: false, data: &data };
    assert_eq!(
        spawn::load_linux_process(main, Some(Err("interpreter not found")), &vec![], &vec![], 1, ROOM).err(),
        Some("interpreter not found")
    );
    assert_eq!(
        spawn::read_interpreter(&machaos::fat::Mount::new(), "/lib/ld.so").err(),
        Some("interpreter not found")
    );
}

/// A process with one page of memory at 0x4000_0000, backed by physical page 1.
fn caller() -> Caller {
    let mut p = Process::new(0, Abi::Linux, 0x10_0000);
    p.mappings.push(Mapping { vaddr: 0x4000_0000, phys: 0x1000, len: 0x1000, shm_id: None });
    Caller {
        process: p,
        memory: vec![0; 0x4000],
        shm: vec![Some(Object { phys: 0x3000, size: 16, pages: 1 })],
        keyboard: Keyboard::new(),
        pid: 3,
        ticks: 250,
        total_ram: 1 << 20,
        free_ram: 1 << 19,
    }
}

const BASE: u64 = 0x4000_0000;

fn fail(errno: i64) -> u64 {
    (-errno) as u64
}

fn put(c: &mut Caller, at: usize, bytes: &[u8]) {
    c.memory[0x1000 + at..0x1000 + at + bytes.len()].copy_from_slice(bytes);
}

#[test]
fn writes_to_streams_files_and_nothing() {
    let mut c = caller();
    put(&mut c, 0, b"hi");
    match abi::sys_write(&mut c, 1, BASE, 2) {
        Action::Print { phys, len } => assert_eq!(abi::text_at(&c.memory, phys, len), "hi"),
        _ => panic!(),
    }
    assert!(matches!(abi::sys_write(&mut c, 1, 0x1234, 2), Action::Return(v) if v == fail(14)));
    assert!(matches!(abi::sys_write(&mut c, 0, BASE, 2), Action::Return(v) if v == fail(9)));
    assert!(matches!(abi::sys_write(&mut c, 7, BASE, 2), Action::Return(v) if v == fail(9)));
    assert_eq!(abi::opened(&mut c, Ok(12)), 3);
    assert!(matches!(abi::sys_write(&mut c, 3, BASE, 2), Action::FileWrite { handle: 12, phys: 0x1000, len: 2 }));
    assert_eq!(abi::opened(&mut c, Err(VfsError::NotFound)), fail(2));
    assert_eq!(abi::written(Err(VfsError::IsDir)), fail(20));
    assert_eq!(abi::written(Err(VfsError::AlreadyExists)), fail(17));
    assert_eq!(abi::written(Err(VfsError::Other)), fail(5));
    assert_eq!(abi::sent(None), fail(32));
}

#[test]
fn shared_memory_reads_after_writes() {
    let mut c = caller();
    put(&mut c, 0, b"0123456789abcdefXYZ");
    assert_eq!(abi::memfd_created(&mut c, 0), 3);
    assert!(matches!(abi::sys_write(&mut c, 3, BASE, 19), Action::Return(16)));
    assert!(matches!(abi::sys_lseek(&mut c, 3, 4, 0), Action::Return(4)));
    assert!(matches!(abi::sys_read(&mut c, 3, BASE + 100, 5), Action::Return(5)));
    assert_eq!(&c.memory[0x1064..0x1069], b"45678");
    assert!(matches!(abi::sys_lseek(&mut c, 3, fail(2), 2), Action::Return(14)));
    assert!(matches!(abi::sys_lseek(&mut c, 3, 0, 9), Action::Return(v) if v == fail(22)));
    assert!(matches!(abi::sys_lseek(&mut c, 1, 0, 0), Action::Return(v) if v == fail(29)));
    assert_eq!(abi::seek_cursor(5, 9, SeekFrom::Current(-9)), 0);
}

#[test]
fn typed_characters_are_read() {
    let mut c = caller();
    for code in [0x1E, 0x1C, 0x30, 0x2E] {
        keyboard::irq(&mut c.keyboard, code);
    }
    assert!(matches!(abi::sys_read(&mut c, 0, BASE, 2), Action::Return(2)));
    assert_eq!(&c.memory[0x1000..0x1002], b"ab");
    assert!(matches!(abi::sys_read(&mut c, 0, BASE, 9), Action::Return(1)));
    assert!(matches!(abi::sys_read(&mut c, 0, BASE, 9), Action::Return(0)));
}

#[test]
fn paths_come_out_of_user_memory() {
    let mut c = caller();
    put(&mut c, 0, b"etc/x\0");
    match abi::sys_openat(&c, BASE, 0o1101) {
        Action::Open { path, flags } => {
            assert_eq!(path, "/etc/x");
            assert!(flags.write_only && flags.create && flags.truncate && !flags.append && !flags.read_write);
        }
        _ => panic!(),
    }
    put(&mut c, 0, &[0xFF, 0]);
    assert!(matches!(abi::sys_access(&c, BASE), Action::Return(v) if v == fail(14)));
    assert!(matches!(abi::sys_access(&c, 0), Action::Return(v) if v == fail(14)));
    assert_eq!(abi::normalize_path("/a"), "/a");
    assert_eq!(abi::accessed(Err(VfsError::NotFound)), fail(2));
}

#[test]
fn stat_fills_the_buffer() {
    let mut c = caller();
    assert!(matches!(abi::sys_fstat(&mut c, 1, BASE), Action::Return(0)));
    assert_eq!(&c.memory[0x1018..0x101C], &0o020666u32.to_le_bytes());
    assert_eq!(abi::stat_done(&mut c, BASE, Ok((false, 513))), 0);
    assert_eq!(&c.memory[0x1018..0x101C], &0o100644u32.to_le_bytes());
    assert_eq!(c.memory[0x1030], 1);
    assert_eq!(c.memory[0x1031], 2);
    assert_eq!(c.memory[0x1040], 2);
    assert_eq!(abi::stat_done(&mut c, 0, Ok((true, 0))), fail(14));
}

#[test]
fn vectored_writes_step_through() {
    let mut c = caller();
    put(&mut c, 0, &BASE.to_le_bytes());
    put(&mut c, 24, &0u64.to_le_bytes());
    put(&mut c, 32, &(BASE + 8).to_le_bytes());
    put(&mut c, 40, &5u64.to_le_bytes());
    let mut w = match abi::syscall_dispatch(&mut c, 20, &[1, BASE + 16, 2, 0, 0, 0]) {
        Action::Vector(w) => w,
        _ => panic!(),
    };
    assert_eq!(w.step(&c, 0), WritevStep::Write { base: BASE + 8, len: 5 });
    assert_eq!(w.step(&c, 5), WritevStep::Done(5));
    let mut bad = abi::Writev { fd: 1, iov: 0, iovcnt: 1, next: 0, total: 0 };
    assert_eq!(bad.step(&c, 0), WritevStep::Done(fail(14)));
    assert_eq!(bad.step(&c, fail(32)), WritevStep::Done(fail(32)));
}

#[test]
fn memory_calls_plan_mappings() {
    let mut c = caller();
    match abi::sys_mmap(&c, 0, 10, 3, 0x22, fail(1), 0) {
        Action::MapAnon { request } => {
            assert_eq!((request.vaddr, request.len, request.writable), (0x4000_0000, 0x1000, true));
            assert_eq!(abi::mapped(&mut c, request, Some(0x2000), None), 0x4000_0000);
        }
        _ => panic!(),
    }
    assert!(matches!(abi::sys_mmap(&c, 0, 0, 3, 0x22, 0, 0), Action::Return(v) if v == fail(22)));
    assert!(matches!(abi::sys_mmap(&c, 0, 5, 3, 0, 9, 0), Action::Return(v) if v == fail(9)));
    abi::memfd_created(&mut c, 0);
    assert!(matches!(abi::sys_mmap(&c, 0, 5, 3, 1, 3, 0), Action::MapShared { shm_id: 0, .. }));
    assert!(matches!(abi::sys_mmap(&c, 0, 5, 3, 2, 3, 0), Action::Return(v) if v == fail(22)));
    assert!(matches!(abi::sys_brk(&mut c, 0), Action::Return(0x10_0000)));
    assert!(matches!(abi::sys_brk(&mut c, 0x10_0001), Action::GrowHeap { .. }));
    match abi::sys_munmap(&mut c, BASE, 0x1000) {
        Action::Unmap(v) => assert_eq!(v.len(), 2),
        _ => panic!(),
    }
    assert!(matches!(abi::sys_mprotect(&c, BASE, 1, 2), Action::Return(v) if v == fail(22)));
}

fn message(c: &mut Caller, data_len: u64, control_len: u64) {
    put(c, 16, &(BASE + 64).to_le_bytes());
    put(c, 24, &1u64.to_le_bytes());
    put(c, 32, &(BASE + 128).to_le_bytes());
    put(c, 40, &control_len.to_le_bytes());
    put(c, 64, &(BASE + 256).to_le_bytes());
    put(c, 72, &data_len.to_le_bytes());
}

#[test]
fn messages_carry_shared_memory() {
    let mut c = caller();
    assert_eq!(abi::memfd_created(&mut c, 0), 3);
    assert_eq!(abi::socket_created(&mut c, 8), 4);
    message(&mut c, 3, 24);
    put(&mut c, 256, b"abc");
    put(&mut c, 128, &24u64.to_le_bytes());
    put(&mut c, 136, &1u32.to_le_bytes());
    put(&mut c, 140, &1u32.to_le_bytes());
    put(&mut c, 144, &3u32.to_le_bytes());
    put(&mut c, 148, &9u32.to_le_bytes());
    match abi::sys_sendmsg(&c, 4, BASE) {
        Action::Send { id, bytes, objects } => assert_eq!((id, bytes, objects), (8, b"abc".to_vec(), vec![0])),
        _ => panic!(),
    }
    assert!(matches!(abi::sys_sendmsg(&c, 3, BASE), Action::Return(v) if v == fail(9)));
    let m = match abi::sys_recvmsg(&c, 4, BASE) {
        Action::Receive { id: 8, msg_phys } => msg_phys,
        _ => panic!(),
    };
    assert_eq!(abi::recvmsg_buffer(&c, m, false), Err(fail(11)));
    let inbound = abi::recvmsg_buffer(&c, m, true).unwrap();
    assert_eq!((inbound.buffer, inbound.len), (Some(0x1100), 3));
    let rest = abi::recvmsg_done(&mut c, m, inbound, &vec![5, 6, 7]);
    assert_eq!(rest, vec![7]);
    assert_eq!(&c.memory[0x1080..0x1088], &24u64.to_le_bytes());
    assert_eq!(&c.memory[0x1090..0x1098], &[5, 0, 0, 0, 6, 0, 0, 0]);
    assert_eq!(&c.memory[0x1028..0x1030], &24u64.to_le_bytes());
    assert!(matches!(c.process.fd(5), Some(FdEntry::Shm(5, 0))));
}

#[test]
fn sockets_connect_by_path() {
    let mut c = caller();
    assert!(matches!(abi::sys_socket(&c, 2, 1), Action::Return(v) if v == fail(97)));
    assert!(matches!(abi::sys_socket(&c, 1, 0x801), Action::NewSocket));
    abi::socket_created(&mut c, 6);
    put(&mut c, 0, &[1, 0, b'/', b'w', 0, b'x']);
    match abi::sys_connect(&c, 3, BASE, 6) {
        Action::Connect { id: 6, path } => assert_eq!(path, "/w"),
        _ => panic!(),
    }
    put(&mut c, 0, &[2, 0]);
    assert!(matches!(abi::sys_connect(&c, 3, BASE, 6), Action::Return(v) if v == fail(22)));
    assert_eq!(abi::connected(false), fail(111));
}

#[test]
fn startup_calls() {
    let mut c = caller();
    assert!(matches!(abi::sys_uname(&mut c, BASE), Action::Return(0)));
    assert_eq!(&c.memory[0x1000..0x1006], b"Linux\0");
    assert_eq!(&c.memory[0x1000 + 65..0x1000 + 72], b"machaos");
    assert_eq!(&c.memory[0x1000 + 260..0x1000 + 266], b"x86_64");
    assert!(matches!(abi::sys_clock_gettime(&mut c, BASE), Action::Return(0)));
    assert_eq!(&c.memory[0x1000..0x1008], &2u64.to_le_bytes());
    assert_eq!(&c.memory[0x1008..0x1010], &500_000_000u64.to_le_bytes());
    put(&mut c, 0, &7u32.to_le_bytes());
    assert!(matches!(abi::sys_futex(&c, BASE, 128, 7), Action::Return(0)));
    assert!(matches!(abi::sys_futex(&c, BASE, 0, 8), Action::Return(0)));
    assert!(matches!(abi::sys_futex(&c, 0, 0, 8), Action::Return(v) if v == fail(14)));
    assert!(matches!(abi::sys_futex(&c, BASE, 5, 8), Action::Return(v) if v == fail(38)));
    assert!(matches!(abi::sys_sched_getaffinity(&mut c, 16, BASE), Action::Return(8)));
    assert_eq!(&c.memory[0x1000..0x1002], &[1, 0]);
    assert!(matches!(abi::sys_prlimit64(&mut c, BASE), Action::Return(0)));
    assert_eq!(c.memory[0x100F], 0xFF);
    assert!(matches!(abi::sys_sysinfo(&mut c, BASE), Action::Return(0)));
    assert_eq!(&c.memory[0x1020..0x1028], &(1u64 << 20).to_le_bytes());
    assert!(matches!(abi::sys_arch_prctl(&c, 0x1002, 5), Action::SetFsBase(5)));
    assert!(matches!(abi::sys_arch_prctl(&c, 1, 5), Action::Return(v) if v == fail(22)));
}

#[test]
fn random_bytes_follow_the_generator() {
    let mut c = caller();
    assert!(matches!(abi::sys_getrandom(&mut c, BASE, 3), Action::Return(3)));
    let mut seed = 250u64 ^ BASE;
    for i in 0..3u64 {
        seed = seed.wrapping_mul(0x9E37_79B9_7F4A_7C15).wrapping_add(i);
        assert_eq!(c.memory[0x1000 + i as usize], (seed >> 33) as u8);
    }
}

#[test]
fn dispatch_by_number() {
    let mut c = caller();
    assert!(matches!(abi::syscall_dispatch(&mut c, 39, &[0; 6]), Action::Return(3)));
    assert!(matches!(abi::syscall_dispatch(&mut c, 16, &[0; 6]), Action::Return(v) if v == fail(25)));
    assert!(matches!(abi::syscall_dispatch(&mut c, 9999, &[0; 6]), Action::Unknown(9999)));
    assert!(matches!(abi::syscall_dispatch(&mut c, 334, &[0; 6]), Action::Return(v) if v == fail(22)));
    assert!(matches!(abi::syscall_dispatch(&mut c, 319, &[0; 6]), Action::NewShm));
    assert!(matches!(abi::syscall_dispatch(&mut c, 13, &[0; 6]), Action::Return(0)));
}

#[test]
fn boot_decisions() {
    assert!(machaos::boot::selftest_mode("quiet selftest x"));
    assert!(!machaos::boot::selftest_mode("selftests"));
    assert_eq!(machaos::boot::magic_line(0x2BAD_B002), "[OK] multiboot boot protocol (magic 0x2badb002)");
    assert_eq!(machaos::boot::magic_line(1), "[WARN] invalid multiboot magic: 0x1");
}

#[test]
fn boot_log_lines() {
    let f = machaos::boot::BootFacts {
        magic: 0x2BAD_B002,
        loader: Some("GRUB".to_string()),
        cmdline: None,
        lower_kb: Some(639),
        upper_kb: Some(1024),
        regions: 6,
    };
    assert_eq!(
        machaos::boot::boot_report(&f),
        vec![
            "[OK] multiboot boot protocol (magic 0x2badb002)",
            "[OK] boot loader: GRUB",
            "[OK] memory: 639 KiB lower, 1024 KiB upper",
            "[OK] memory map: 6 regions",
        ]
    );
    assert_eq!(machaos::boot::cpu_line("GenuineIntel", 4), "[OK] CPU: GenuineIntel (4 logical cores)");
    let (head, place, last) = machaos::boot::panic_report("oops", Some(("a.rs", 12)));
    assert_eq!(head, b"\nKERNEL PANIC: oops\n");
    assert_eq!(place.unwrap(), b"  at a.rs:12\n");
    assert_eq!(last, "System halted.\n");
    let long = "x".repeat(400);
    assert_eq!(machaos::boot::panic_report(&long, None).0.len(), 256);
}

#[test]
fn pointers_grow_the_stack() {
    let mut p = Process::new(0, Abi::Linux, 0);
    p.init_stack_backing(0x100_0000);
    assert_eq!(process::resolve_syscall_ptr(&mut p, 0x0FFF_0010, 8), (Some(0x100_0000 + 0xF_0010), None));
    let mut bare = Process::new(0, Abi::Linux, 0);
    let (phys, grown) = process::resolve_syscall_ptr(&mut bare, 0x0FFF_0010, 8);
    assert_eq!(phys, None);
    assert_eq!(grown.unwrap().vaddr, 0x0FFF_0000);
    assert_eq!(process::resolve_syscall_ptr(&mut bare, 0x10, 8), (None, None));
    let ms = vec![Mapping { vaddr: 0x2FF_0000, phys: 0x7000, len: 0x1000, shm_id: None }];
    assert_eq!(process::read_result(&ms), Some(0x7000));
}

#[test]
fn mappings_with_content() {
    let p = Process::new(0, Abi::Linux, 0);
    let (req, bytes) = p.mmap_file(Some(0x5000_0123), 5, false, true, b"abcdefgh").unwrap();
    assert_eq!((req.vaddr, req.len, req.fixed), (0x5000_0000, 0x1000, true));
    assert_eq!(bytes.len(), 0x1000);
    assert_eq!(&bytes[..9], b"abcdefgh\0");
    let shared = p.mmap_shared(None, 2, true, false).unwrap();
    assert_eq!((shared.vaddr, shared.len), (0x4000_0000, 0x2000));
    assert!(p.mmap_shared(None, 0, true, false).is_none());
}

#[test]
fn exec_keeps_identity() {
    let mut old = Process::new(1, Abi::Linux, 0x1000);
    old.parent = Some(4);
    old.sig_blocked = 6;
    old.set_fd(5, FdEntry::File(1));
    old.alloc_fd(FdEntry::File(2));
    assert!(old.set_cloexec(5, true));
    let (new, closed) = process::execve_into_current(old, Process::new(9, Abi::Linux, 0x2000));
    assert_eq!(closed.len(), 6);
    assert!(matches!(closed[5], Some(FdEntry::File(1))));
    assert!(closed[..5].iter().all(|e| e.is_none()));
    assert_eq!((new.entry, new.parent, new.sig_blocked, new.heap_start), (9, Some(4), 6, 0x2000));
    assert!(new.fd(5).is_none());
    assert!(matches!(new.fd(3), Some(FdEntry::File(2))));
    assert_eq!(new.state_label(), "running");
}
