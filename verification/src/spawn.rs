//! Starting and ending processes: from an executable's bytes to the memory
//! image, the initial stack and the process record, and back to free
//! frames.

use crate::bytes::{get_le16, get_le64, le16, le64, le64_bytes, push_le64};
use crate::elf::{header_error, law_segments_inside_file, parse, program, Program, Segment};
use crate::fat::{file_at, read_file, Mount, Volume};
use crate::paging::IDENTITY_MAP_END;
use crate::pmm::{frame_free, FrameMap, Frames, MAX_PHYS_MEM};
use crate::process::{
    first_fault, fits, heap_start_for, image_byte, image_end, image_start, load_segments,
    page_of, page_writable, phdr_len, phdrs_mapped, segment_fault, setup_linux_stack, stack_data,
    stack_fault, stack_pointer, stack_words, table_len, texts, validate_segments, words_bytes, Abi,
    FdEntry, Image, Mapping, Process, ProcessState, ProgramFacts, SigAction, MMAP_BASE,
    USER_EXIT_STUB_VIRT, USER_STACK_BASE, USER_STACK_LOW_LIMIT, USER_STACK_TOP,
};
use vstd::prelude::*;

verus! {

/// Where a position-independent program is loaded.
pub const PIE_LOAD_BASE: u64 = 0x2000_0000;

/// Where a position-independent interpreter is loaded: clear of a program
/// at `PIE_LOAD_BASE` and below the region that `mmap` hands out.
pub const INTERP_LOAD_BASE: u64 = 0x3800_0000;

/// The ring-3 stack that a program starts on.
pub struct UserStack {
    pub rsp: u64,
    /// The lowest address that has to be mapped.
    pub low: u64,
    /// The bytes from the stack pointer up.
    pub bytes: Vec<u8>,
}

/// A program ready to be placed in memory.
pub struct Launch {
    pub entry: u64,
    pub abi: Abi,
    pub heap_start: u64,
    pub image: Image,
    /// The program's interpreter, where it has one.
    pub interp: Option<Image>,
    pub stack: UserStack,
}

impl Launch {
    /// Whether the program can be placed: its images consist of whole pages,
    /// and its stack lies in the stack region.
    pub open spec fn ready(&self) -> bool {
        &&& self.heap_start % 4096 == 0
        &&& self.image.wf()
        &&& self.interp matches Some(i) ==> i.wf()
        &&& USER_STACK_LOW_LIMIT <= self.stack.low <= self.stack.rsp
        &&& self.stack.low % 4096 == 0
        &&& self.stack.rsp + self.stack.bytes@.len() <= USER_STACK_TOP
    }
}

/// Where the kernel's heap is, and how much memory a program may take.
#[derive(Clone, Copy, Debug, PartialEq, Eq, Structural)]
pub struct Room {
    pub heap_start: u64,
    pub heap_end: u64,
    pub limit: u64,
}

impl Room {
    pub open spec fn wf(&self) -> bool {
        self.heap_end <= u64::MAX - 0x10_0000 && self.limit <= usize::MAX
    }
}

/// Whether an image is that of a program's segments.
pub open spec fn is_image(image: Image, ss: Seq<Segment>, data: Seq<u8>) -> bool {
    let start = image_start(ss, ss.len());
    let len = image_end(ss, ss.len()) - start;
    &&& image.start == start
    &&& image.bytes@.len() == len
    &&& forall|k: int|
        0 <= k < len ==> #[trigger] image.bytes@[k] == image_byte(ss, ss.len(), data, start + k)
    &&& image.writable@.len() == len / 4096
    &&& forall|k: int|
        0 <= k < len / 4096 ==> #[trigger] image.writable@[k] == page_writable(
            ss,
            start + k * 4096,
        )
}

/// An executable to be loaded.
pub struct Executable<'a> {
    pub program: Program,
    /// Whether its addresses are relative to a load base.
    pub is_pie: bool,
    pub data: &'a [u8],
}

/// What an executable holds.
#[verifier::ext_equal]
pub struct Binary {
    pub entry: u64,
    pub segments: Seq<Segment>,
    pub is_pie: bool,
    pub data: Seq<u8>,
}

impl<'a> View for Executable<'a> {
    type V = Binary;

    open spec fn view(&self) -> Binary {
        Binary {
            entry: self.program.entry,
            segments: self.program.segments@,
            is_pie: self.is_pie,
            data: self.data@,
        }
    }
}

impl Binary {
    /// What parsing has made sure of: there are segments, and their data
    /// lies inside the file.
    pub open spec fn wf(&self) -> bool {
        &&& self.segments.len() > 0
        &&& forall|i: int|
            0 <= i < self.segments.len() ==> {
                let s = #[trigger] self.segments[i];
                s.filesz <= s.memsz && s.file_offset + s.filesz <= self.data.len()
            }
    }

    /// Whether the program header table lies inside the file.
    pub open spec fn has_headers(&self) -> bool {
        &&& self.data.len() >= 64
        &&& le16(self.data, 54) == 56
        &&& le64(self.data, 32) + le16(self.data, 56) * 56 <= self.data.len()
    }
}

/// A segment moved up by `base`.
pub open spec fn moved(s: Segment, base: u64) -> Segment {
    Segment { vaddr: s.vaddr.wrapping_add(base), ..s }
}

/// An executable as it is loaded: one whose addresses are relative, moved
/// to `base`.
pub open spec fn biased(b: Binary, base: u64) -> Binary {
    if b.is_pie {
        Binary {
            entry: b.entry.wrapping_add(base),
            segments: b.segments.map_values(|s: Segment| moved(s, base)),
            ..b
        }
    } else {
        b
    }
}

/// Adds `base` to the entry point and to every segment's address of an
/// executable whose addresses are relative; leaves any other alone.
pub fn apply_pie_bias(exe: &mut Executable, base: u64)
    ensures
        final(exe)@ == biased(old(exe)@, base),
{
    if !exe.is_pie {
        return;
    }
    let mut up: Vec<Segment> = Vec::new();
    let mut i: usize = 0;
    while i < exe.program.segments.len()
        invariant
            exe@ == old(exe)@,
            i <= exe@.segments.len(),
            up@ == old(exe)@.segments.take(i as int).map_values(|s: Segment| moved(s, base)),
        decreases exe@.segments.len() - i,
    {
        let s = exe.program.segments[i];
        up.push(
            Segment {
                vaddr: s.vaddr.wrapping_add(base),
                file_offset: s.file_offset,
                filesz: s.filesz,
                memsz: s.memsz,
                writable: s.writable,
            },
        );
        i += 1;
        assert(up@ =~= old(exe)@.segments.take(i as int).map_values(|s: Segment| moved(s, base)));
    }
    assert(exe@.segments.take(i as int) =~= exe@.segments);
    exe.program.entry = exe.program.entry.wrapping_add(base);
    exe.program.segments = up;
    assert(exe@ =~= biased(old(exe)@, base));
}

/// How much memory an executable's image takes.
pub open spec fn image_len(b: Binary) -> int {
    image_end(b.segments, b.segments.len()) - image_start(b.segments, b.segments.len())
}

/// Why an executable cannot be laid out in `limit` bytes of memory.
pub open spec fn layout_error(b: Binary, room: Room, limit: int) -> Option<&'static str> {
    match first_fault(b.segments, 0, room.heap_start, room.heap_end) {
        Some(e) => Some(e),
        None => if image_len(b) > limit {
            Some("out of memory")
        } else {
            None
        },
    }
}

/// Validates an executable's segments and lays them out.
fn lay_out(exe: &Executable, room: Room, limit: u64) -> (r: Result<Image, &'static str>)
    requires
        room.wf(),
        limit <= room.limit,
        exe@.wf(),
    ensures
        match layout_error(exe@, room, limit as int) {
            Some(e) => r is Err && r->Err_0 == e,
            None => r matches Ok(image) && is_image(image, exe@.segments, exe@.data) && image.wf(),
        },
        r is Ok ==> forall|i: int|
            0 <= i < exe@.segments.len() ==> fits(#[trigger] exe@.segments[i], exe@.data.len()),
{
    match validate_segments(&exe.program.segments, room.heap_start, room.heap_end) {
        Err(e) => {
            return Err(e);
        },
        Ok(_) => {},
    }
    let ghost ss = exe@.segments;
    proof {
        assert forall|i: int| 0 <= i < ss.len() implies fits(#[trigger] ss[i], exe@.data.len()) by {
            assert(segment_fault(ss[i], room.heap_start, room.heap_end) is None);
        }
    }
    load_segments(&exe.program.segments, exe.data, limit)
}

/// A file that parses, as an executable.
pub open spec fn binary_of(elf: Seq<u8>) -> Binary {
    let (entry, segments) = program(elf)->Ok_0;
    Binary { entry, segments, is_pie: false, data: elf }
}

/// Parses a file as an executable.
fn parsed<'a>(elf: &'a [u8]) -> (r: Result<Executable<'a>, &'static str>)
    ensures
        match program(elf@) {
            Err(e) => r is Err && r->Err_0 == e,
            Ok(_) => r matches Ok(exe) && exe@ == binary_of(elf@) && exe@.wf()
                && exe@.has_headers(),
        },
{
    match parse(elf) {
        Err(e) => Err(e),
        Ok(program) => {
            proof {
                law_segments_inside_file(elf@);
                assert(header_error(elf@) is None);
            }
            Ok(Executable { program, is_pie: false, data: elf })
        },
    }
}

/// Why a file cannot be loaded.
pub open spec fn load_error(elf: Seq<u8>, room: Room) -> Option<&'static str> {
    match program(elf) {
        Err(e) => Some(e),
        Ok(_) => layout_error(binary_of(elf), room, room.limit as int),
    }
}

/// The stack of a native program: one slot with the address of the exit
/// stub, on which the program's closing return lands.
pub open spec fn native_stack(s: UserStack) -> bool {
    s.rsp == USER_STACK_TOP - 8 && s.low == USER_STACK_BASE && s.bytes@ == le64_bytes(
        USER_EXIT_STUB_VIRT,
    )
}

/// Parses and loads an executable as a new native process.
pub fn spawn(elf: &[u8], room: Room) -> (r: Result<Launch, &'static str>)
    requires
        room.wf(),
    ensures
        match load_error(elf@, room) {
            Some(e) => r is Err && r->Err_0 == e,
            None => r matches Ok(l) && l.entry == program(elf@)->Ok_0.0 && l.abi == Abi::Native
                && l.heap_start == 0 && is_image(l.image, program(elf@)->Ok_0.1, elf@)
                && l.interp is None && native_stack(l.stack) && l.ready(),
        },
{
    let mut exe = match parsed(elf) {
        Err(e) => {
            return Err(e);
        },
        Ok(exe) => exe,
    };
    apply_pie_bias(&mut exe, PIE_LOAD_BASE);
    match lay_out(&exe, room, room.limit) {
        Err(e) => Err(e),
        Ok(image) => {
            let mut bytes: Vec<u8> = Vec::new();
            push_le64(&mut bytes, USER_EXIT_STUB_VIRT);
            assert(bytes@ =~= le64_bytes(USER_EXIT_STUB_VIRT));
            Ok(
                Launch {
                    entry: exe.program.entry,
                    abi: Abi::Native,
                    heap_start: 0,
                    image,
                    interp: None,
                    stack: UserStack { rsp: USER_STACK_TOP - 8, low: USER_STACK_BASE, bytes },
                },
            )
        },
    }
}

/// What the initial stack needs to know of a program and its interpreter.
pub open spec fn facts_of(b: Binary, at_base: u64, ticks: u64) -> ProgramFacts {
    ProgramFacts {
        entry: b.entry,
        phoff: le64(b.data, 32),
        phentsize: le16(b.data, 54),
        phnum: le16(b.data, 56),
        at_base,
        ticks,
    }
}

/// A program and what became of the interpreter that it names, if any.
pub struct Linked {
    pub main: Binary,
    pub interp: Option<Result<Binary, &'static str>>,
}

/// The interpreter's contents, or why there is none.
pub open spec fn interp_view(i: Option<Result<Executable, &'static str>>) -> Option<
    Result<Binary, &'static str>,
> {
    match i {
        None => None,
        Some(Err(e)) => Some(Err(e)),
        Some(Ok(exe)) => Some(Ok(exe@)),
    }
}

impl Linked {
    pub open spec fn wf(&self) -> bool {
        &&& self.main.wf()
        &&& self.main.has_headers()
        &&& self.interp matches Some(Ok(i)) ==> i.wf()
    }

    /// The program where it is loaded.
    pub open spec fn placed(&self) -> Binary {
        biased(self.main, PIE_LOAD_BASE)
    }

    /// The interpreter where it is loaded.
    pub open spec fn placed_interp(&self) -> Option<Binary> {
        match self.interp {
            Some(Ok(i)) => Some(biased(i, INTERP_LOAD_BASE)),
            _ => None,
        }
    }

    /// The load base that the interpreter was moved to, or 0.
    pub open spec fn at_base(&self) -> u64 {
        match self.interp {
            Some(Ok(i)) => if i.is_pie {
                INTERP_LOAD_BASE
            } else {
                0
            },
            _ => 0,
        }
    }

    /// Where the process starts: in the interpreter, if there is one.
    pub open spec fn start(&self) -> u64 {
        match self.placed_interp() {
            Some(i) => i.entry,
            None => self.placed().entry,
        }
    }

    /// Why the interpreter cannot be loaded beside the program.
    pub open spec fn interp_error(&self, room: Room) -> Option<&'static str> {
        match self.interp {
            None => None,
            Some(Err(e)) => Some(e),
            Some(Ok(i)) => layout_error(
                biased(i, INTERP_LOAD_BASE),
                room,
                room.limit - image_len(self.placed()),
            ),
        }
    }

    pub open spec fn facts(&self, ticks: u64) -> ProgramFacts {
        facts_of(self.placed(), self.at_base(), ticks)
    }

    /// Why the program cannot be started.
    pub open spec fn error(
        &self,
        argv: Seq<Seq<u8>>,
        envp: Seq<Seq<u8>>,
        ticks: u64,
        room: Room,
    ) -> Option<&'static str> {
        match layout_error(self.placed(), room, room.limit as int) {
            Some(e) => Some(e),
            None => match self.interp_error(room) {
                Some(e) => Some(e),
                None => {
                    let f = self.facts(ticks);
                    stack_fault(
                        f,
                        phdrs_mapped(self.placed().segments, f, 0),
                        argv,
                        envp,
                        self.main.data,
                    )
                },
            },
        }
    }

    /// Whether `l` starts this program: its image, that of its interpreter,
    /// a heap behind its segments, and a stack with arguments, environment
    /// and the auxiliary vector.
    pub open spec fn started(
        &self,
        argv: Seq<Seq<u8>>,
        envp: Seq<Seq<u8>>,
        ticks: u64,
        l: Launch,
    ) -> bool {
        let m = self.placed();
        let f = self.facts(ticks);
        let mapped = phdrs_mapped(m.segments, f, 0);
        let data = stack_data(f, mapped, argv, envp, m.data);
        let table = table_len(argv.len(), envp.len());
        let rsp = stack_pointer(table, data.len() as int);
        &&& l.entry == self.start()
        &&& l.abi == Abi::Linux
        &&& l.heap_start == image_end(m.segments, m.segments.len()) + 4096
        &&& is_image(l.image, m.segments, m.data)
        &&& match self.placed_interp() {
            None => l.interp is None,
            Some(i) => l.interp matches Some(image) && is_image(image, i.segments, i.data),
        }
        &&& l.stack.rsp == rsp
        &&& l.stack.low == page_of(rsp as u64)
        &&& l.stack.bytes@ == words_bytes(stack_words(f, mapped, argv, envp, rsp + table)) + data
    }
}

proof fn lemma_biased_wf(b: Binary, base: u64)
    requires
        b.wf(),
    ensures
        biased(b, base).wf(),
        biased(b, base).data == b.data,
{
    let c = biased(b, base);
    assert forall|i: int| 0 <= i < c.segments.len() implies {
        let s = #[trigger] c.segments[i];
        s.filesz <= s.memsz && s.file_offset + s.filesz <= c.data.len()
    } by {
        let s = b.segments[i];
        assert(s.filesz <= s.memsz);
    }
}

/// The initial stack and the heap's start of a laid-out program.
fn linux_stack(
    exe: &Executable,
    at_base: u64,
    argv: &Vec<Vec<u8>>,
    envp: &Vec<Vec<u8>>,
    ticks: u64,
) -> (r: Result<(u64, UserStack), &'static str>)
    requires
        exe@.wf(),
        exe@.has_headers(),
        forall|i: int|
            0 <= i < exe@.segments.len() ==> fits(#[trigger] exe@.segments[i], exe@.data.len()),
    ensures
        ({
            let (ss, d) = (exe@.segments, exe@.data);
            let f = facts_of(exe@, at_base, ticks);
            let mapped = phdrs_mapped(ss, f, 0);
            let (a, e) = (texts(argv@), texts(envp@));
            let data = stack_data(f, mapped, a, e, d);
            let table = table_len(a.len(), e.len());
            let rsp = stack_pointer(table, data.len() as int);
            match stack_fault(f, mapped, a, e, d) {
                Some(x) => r is Err && r->Err_0 == x,
                None => r matches Ok((heap, s)) && heap == image_end(ss, ss.len()) + 4096 && s.rsp
                    == rsp && s.low == page_of(rsp as u64) && s.bytes@ == words_bytes(
                    stack_words(f, mapped, a, e, rsp + table),
                ) + data && heap % 4096 == 0 && USER_STACK_LOW_LIMIT <= s.low <= s.rsp && s.rsp + s.bytes@.len()
                    <= USER_STACK_TOP,
            }
        }),
{
    let f = ProgramFacts {
        entry: exe.program.entry,
        phoff: get_le64(exe.data, 32),
        phentsize: get_le16(exe.data, 54),
        phnum: get_le16(exe.data, 56),
        at_base,
        ticks,
    };
    let ghost ss = exe@.segments;
    proof {
        assert(exe.data@.len() == exe.data.len());
        assert(f == facts_of(exe@, at_base, ticks));
        assert(phdr_len(f) == f.phnum * 56) by (nonlinear_arith)
            requires
                phdr_len(f) == f.phentsize * f.phnum,
                f.phentsize == 56,
        ;
        assert forall|i: int| 0 <= i < ss.len() implies #[trigger] ss[i].file_offset + ss[i].filesz
            <= u64::MAX && ss[i].vaddr + ss[i].filesz <= u64::MAX by {
            assert(fits(ss[i], exe@.data.len()));
        }
        assert forall|i: int| 0 <= i < ss.len() implies #[trigger] ss[i].vaddr + ss[i].memsz
            <= IDENTITY_MAP_END by {
            assert(fits(ss[i], exe@.data.len()));
        }
    }
    let heap_start = heap_start_for(&exe.program.segments);
    match setup_linux_stack(&exe.program.segments, f, exe.data, argv, envp) {
        Err(e) => Err(e),
        Ok(s) => {
            let mut bytes = s.table;
            let ghost table = bytes@;
            bytes.extend_from_slice(s.data.as_slice());
            assert(bytes@ =~= table + s.data@);
            Ok((heap_start, UserStack { rsp: s.rsp, low: s.region_start, bytes }))
        },
    }
}

/// Loads a parsed program as a Linux process. A program that names an
/// interpreter starts there, and finds itself through the auxiliary vector.
pub fn load_linux_process(
    main: Executable,
    interp: Option<Result<Executable, &'static str>>,
    argv: &Vec<Vec<u8>>,
    envp: &Vec<Vec<u8>>,
    ticks: u64,
    room: Room,
) -> (r: Result<Launch, &'static str>)
    requires
        room.wf(),
        (Linked { main: main@, interp: interp_view(interp) }).wf(),
    ensures
        ({
            let p = Linked { main: main@, interp: interp_view(interp) };
            match p.error(texts(argv@), texts(envp@), ticks, room) {
                Some(e) => r is Err && r->Err_0 == e,
                None => r matches Ok(l) && p.started(texts(argv@), texts(envp@), ticks, l)
                    && l.ready(),
            }
        }),
{
    let ghost p = Linked { main: main@, interp: interp_view(interp) };
    let mut exe = main;
    apply_pie_bias(&mut exe, PIE_LOAD_BASE);
    proof {
        lemma_biased_wf(main@, PIE_LOAD_BASE);
    }
    let image = match lay_out(&exe, room, room.limit) {
        Err(e) => {
            return Err(e);
        },
        Ok(image) => image,
    };
    let mut entry = exe.program.entry;
    let mut at_base: u64 = 0;
    let mut interp_image: Option<Image> = None;
    match interp {
        None => {},
        Some(Err(e)) => {
            return Err(e);
        },
        Some(Ok(loader)) => {
            let ghost given = loader@;
            let mut loader = loader;
            if loader.is_pie {
                at_base = INTERP_LOAD_BASE;
            }
            apply_pie_bias(&mut loader, INTERP_LOAD_BASE);
            proof {
                lemma_biased_wf(given, INTERP_LOAD_BASE);
            }
            match lay_out(&loader, room, room.limit - image.bytes.len() as u64) {
                Err(e) => {
                    return Err(e);
                },
                Ok(i) => {
                    interp_image = Some(i);
                },
            }
            entry = loader.program.entry;
        },
    }
    match linux_stack(&exe, at_base, argv, envp, ticks) {
        Err(e) => Err(e),
        Ok((heap_start, stack)) => Ok(
            Launch { entry, abi: Abi::Linux, heap_start, image, interp: interp_image, stack },
        ),
    }
}

/// The interpreter at `path` on the mounted volume, or why it cannot be
/// had.
pub open spec fn interpreter_at(disk: Option<Volume>, path: Seq<char>) -> Result<
    (u64, Seq<Segment>, Seq<u8>),
    &'static str,
> {
    match disk {
        None => Err("interpreter not found"),
        Some(v) => match file_at(v, path) {
            Err(_) => Err("interpreter not found"),
            Ok(d) => match program(d) {
                Err(e) => Err(e),
                Ok((entry, ss)) => Ok((entry, ss, d)),
            },
        },
    }
}

/// Reads and parses the interpreter that a program names.
pub fn read_interpreter(disk: &Mount, path: &str) -> (r: Result<(Program, Vec<u8>), &'static str>)
    requires
        disk.wf(),
    ensures
        match interpreter_at(disk@, path@) {
            Err(e) => r is Err && r->Err_0 == e,
            Ok((entry, ss, d)) => r matches Ok((p, bytes)) && p.entry == entry && p.segments@ == ss
                && bytes@ == d,
        },
{
    let bytes = match read_file(disk, path) {
        Err(_) => {
            return Err("interpreter not found");
        },
        Ok(bytes) => bytes,
    };
    match parse(bytes.as_slice()) {
        Err(e) => Err(e),
        Ok(p) => Ok((p, bytes)),
    }
}

/// Parses and loads an executable as a new Linux process: with an argv,
/// envp and auxv stack, and a heap behind its segments.
pub fn spawn_linux(
    elf: &[u8],
    argv: &Vec<Vec<u8>>,
    envp: &Vec<Vec<u8>>,
    ticks: u64,
    room: Room,
) -> (r: Result<Launch, &'static str>)
    requires
        room.wf(),
    ensures
        match program(elf@) {
            Err(e) => r is Err && r->Err_0 == e,
            Ok(_) => {
                let p = Linked { main: binary_of(elf@), interp: None };
                match p.error(texts(argv@), texts(envp@), ticks, room) {
                    Some(e) => r is Err && r->Err_0 == e,
                    None => r matches Ok(l) && p.started(texts(argv@), texts(envp@), ticks, l)
                        && l.ready(),
                }
            },
        },
{
    match parsed(elf) {
        Err(e) => Err(e),
        Ok(exe) => load_linux_process(exe, None, argv, envp, ticks, room),
    }
}

/// Where a program's parts are mapped: its image, its interpreter's, the
/// stack region and the stub page, each where it was placed.
pub open spec fn placements(
    l: Launch,
    image_phys: u64,
    interp_phys: u64,
    stack_phys: u64,
    stub_phys: u64,
) -> Seq<Mapping> {
    seq![
        Mapping {
            vaddr: l.image.start,
            phys: image_phys,
            len: l.image.bytes@.len() as u64,
            shm_id: None,
        },
    ] + (match l.interp {
        None => Seq::<Mapping>::empty(),
        Some(i) => seq![
            Mapping {
                vaddr: i.start,
                phys: interp_phys,
                len: i.bytes@.len() as u64,
                shm_id: None,
            },
        ],
    }) + seq![
        Mapping { vaddr: USER_STACK_LOW_LIMIT, phys: stack_phys, len: 0x10_0000, shm_id: None },
        Mapping { vaddr: USER_EXIT_STUB_VIRT, phys: stub_phys, len: 4096, shm_id: None },
    ]
}

impl Launch {
    /// Whether `p` is the process of this program, placed at these
    /// addresses: nothing is open, and it starts with its stack pointer.
    pub open spec fn is_placed(
        &self,
        p: Process,
        image_phys: u64,
        interp_phys: u64,
        stack_phys: u64,
        stub_phys: u64,
    ) -> bool {
        &&& p.entry == self.entry
        &&& p.abi == self.abi
        &&& p.state == ProcessState::Running
        &&& p.exit_info is None
        &&& p.user_rsp == self.stack.rsp
        &&& p.stack_low == self.stack.low
        &&& p.stack_phys_base == stack_phys
        &&& p.heap_start == self.heap_start
        &&& p.heap_end == self.heap_start
        &&& p.heap_mapped == self.heap_start
        &&& p.mmap_next == MMAP_BASE
        &&& p.fds@.len() == 3
        &&& forall|i: int| 0 <= i < 3 ==> #[trigger] p.fds@[i] is None
        &&& p.cloexec@.len() == 0
        &&& p.parent is None
        &&& p.sig_blocked == 0
        &&& p.sig_pending == 0
        &&& forall|i: int|
            0 <= i < 65 ==> #[trigger] p.sigactions@[i] == (SigAction {
                handler: 0,
                flags: 0,
                mask: 0,
            })
        &&& p.mappings@ == placements(*self, image_phys, interp_phys, stack_phys, stub_phys)
    }

    /// The process, once its images, its stack region and its stub page have
    /// their frames: what was mapped where, and the initial stack pointer.
    pub fn place(&self, image_phys: u64, interp_phys: u64, stack_phys: u64, stub_phys: u64) -> (r:
        Process)
        requires
            self.heap_start % 4096 == 0,
            self.image.start + self.image.bytes@.len() <= u64::MAX,
            image_phys + self.image.bytes@.len() <= u64::MAX,
            self.interp matches Some(i) ==> i.start + i.bytes@.len() <= u64::MAX && interp_phys
                + i.bytes@.len() <= u64::MAX,
            stack_phys <= u64::MAX - 0x10_0000,
            stub_phys <= u64::MAX - 4096,
            USER_STACK_LOW_LIMIT <= self.stack.low <= USER_STACK_TOP,
            self.stack.low % 4096 == 0,
        ensures
            r.wf(),
            self.is_placed(r, image_phys, interp_phys, stack_phys, stub_phys),
    {
        let mut p = Process::new(self.entry, self.abi, self.heap_start);
        p.mappings.push(
            Mapping {
                vaddr: self.image.start,
                phys: image_phys,
                len: self.image.bytes.len() as u64,
                shm_id: None,
            },
        );
        if let Some(i) = &self.interp {
            p.mappings.push(
                Mapping {
                    vaddr: i.start,
                    phys: interp_phys,
                    len: i.bytes.len() as u64,
                    shm_id: None,
                },
            );
        }
        p.init_stack_backing(stack_phys);
        p.mappings.push(
            Mapping { vaddr: USER_EXIT_STUB_VIRT, phys: stub_phys, len: 4096, shm_id: None },
        );
        p.user_rsp = self.stack.rsp;
        p.stack_low = self.stack.low;
        assert(p.mappings@ =~= placements(
            *self,
            image_phys,
            interp_phys,
            stack_phys,
            stub_phys,
        ));
        p
    }
}

/// The two ring-3 system-call stubs: exit at the start of their page, and
/// the return from a signal handler 16 bytes behind.
pub fn syscall_stubs(exit: u8, sigreturn: u8) -> (r: Vec<u8>)
    ensures
        r@ == seq![
            0xB8u8, exit, 0u8, 0u8, 0u8, 0x0Fu8, 0x05u8, 0xEBu8, 0xFEu8,
            0u8, 0u8, 0u8, 0u8, 0u8, 0u8, 0u8,
            0xB8u8, sigreturn, 0u8, 0u8, 0u8, 0x0Fu8, 0x05u8, 0xEBu8, 0xFEu8,
        ],
{
    let r = vec![
        0xB8u8, exit, 0, 0, 0, 0x0F, 0x05, 0xEB, 0xFE,
        0, 0, 0, 0, 0, 0, 0,
        0xB8, sigreturn, 0, 0, 0, 0x0F, 0x05, 0xEB, 0xFE,
    ];
    assert(r@ =~= seq![
        0xB8u8, exit, 0u8, 0u8, 0u8, 0x0Fu8, 0x05u8, 0xEBu8, 0xFEu8,
        0u8, 0u8, 0u8, 0u8, 0u8, 0u8, 0u8,
        0xB8u8, sigreturn, 0u8, 0u8, 0u8, 0x0Fu8, 0x05u8, 0xEBu8, 0xFEu8,
    ]);
    r
}

/// The frames after the first `n` of a list were given back.
pub open spec fn freed(f: Frames, frames: Seq<u64>, n: nat) -> Frames
    decreases n,
{
    if n == 0 {
        f
    } else {
        let rest = freed(f, frames, (n - 1) as nat);
        let phys = frames[n - 1];
        if phys % 4096 != 0 || phys >= MAX_PHYS_MEM {
            rest
        } else {
            Frames { free: rest.free.insert(phys as int / 4096), ..rest }
        }
    }
}

/// Returns every frame that a process owned to the physical memory manager.
pub fn reap(map: &mut FrameMap, frames: &Vec<u64>)
    requires
        old(map).wf(),
    ensures
        final(map).wf(),
        final(map)@ == freed(old(map)@, frames@, frames@.len()),
{
    let mut i: usize = 0;
    while i < frames.len()
        invariant
            map.wf(),
            i <= frames@.len(),
            map@ == freed(old(map)@, frames@, i as nat),
        decreases frames@.len() - i,
    {
        frame_free(map, frames[i]);
        i += 1;
    }
}

/// Frees a process that is gone: every frame it owned is given back, and
/// what stands behind the fds it still has open is returned, to be released.
pub fn free_process(process: Process, map: &mut FrameMap, frames: &Vec<u64>) -> (r: Vec<
    Option<FdEntry>,
>)
    requires
        old(map).wf(),
    ensures
        final(map).wf(),
        final(map)@ == freed(old(map)@, frames@, frames@.len()),
        r@ == process.fds@,
{
    reap(map, frames);
    process.fds
}

/// After a process is gone, each of its frames can be handed out again.
pub proof fn law_reaped_frames_are_free(f: Frames, frames: Seq<u64>, n: nat, i: int)
    requires
        n <= frames.len(),
        0 <= i < n,
        frames[i] % 4096 == 0,
        frames[i] < MAX_PHYS_MEM,
    ensures
        freed(f, frames, n).free.contains(frames[i] as int / 4096),
    decreases n,
{
    if i < n - 1 {
        law_reaped_frames_are_free(f, frames, (n - 1) as nat, i);
    }
}

/// A frame is free after a list was given back exactly if it was free
/// before or is on the list.
pub(crate) proof fn lemma_freed(f: Frames, frames: Seq<u64>, n: nat, g: int)
    requires
        n <= frames.len(),
        forall|k: int|
            0 <= k < n ==> #[trigger] frames[k] % 4096 == 0 && frames[k] < MAX_PHYS_MEM,
    ensures
        freed(f, frames, n).last == f.last,
        freed(f, frames, n).free.contains(g) <==> f.free.contains(g) || exists|k: int|
            0 <= k < n && #[trigger] frames[k] as int / 4096 == g,
    decreases n,
{
    if n > 0 {
        lemma_freed(f, frames, (n - 1) as nat, g);
        assert(frames[n - 1] % 4096 == 0);
        if frames[n - 1] as int / 4096 == g {
            assert(freed(f, frames, n).free.contains(g));
        }
        if exists|k: int| 0 <= k < n - 1 && #[trigger] frames[k] as int / 4096 == g {
            let k = choose|k: int| 0 <= k < n - 1 && #[trigger] frames[k] as int / 4096 == g;
            assert(0 <= k < n && frames[k] as int / 4096 == g);
        }
    }
}

} // verus!
