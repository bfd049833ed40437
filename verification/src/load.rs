//! Placing a program in memory: an address space of its own, frames for its
//! image, its interpreter, its stack region and the system-call stubs, and
//! the process record. If one of them cannot be had, the frames go back.

use crate::address_space::{
    available, base_of, first_huge, frames_for, kept, lemma_map_stays, lemma_took_on,
    lemma_took_self, lowest, lowest_taken, map_copied, map_held, own, table, took, Arena,
};
use crate::bytes::{get_le64, le32, le32_bytes, le64, le64_bytes};
use crate::fork::{first_run, lemma_run_written, run_frames, PageRun};
use crate::pmm::{lemma_free_is_covered, run_taken, Frames, MAX_PHYS_MEM};
use crate::process::{
    heap_growth, mmap_plan, page_of, translated, whole_pages, Abi, Image, MapRequest, Mapping, Process,
    USER_EXIT_STUB_VIRT, USER_STACK_LOW_LIMIT, USER_STACK_TOP,
};
use crate::spawn::{lemma_freed, reap, Launch};
use vstd::prelude::*;
use vstd::slice::slice_subrange;

verus! {

/// A byte of physical memory.
pub open spec fn byte_at(memory: Seq<u64>, addr: int) -> u8 {
    le64_bytes(memory[addr / 8])[addr % 8]
}

/// A byte of a region that is zero but for `bytes` at `at`.
pub open spec fn region_byte(at: int, bytes: Seq<u8>, k: int) -> u8 {
    if at <= k < at + bytes.len() {
        bytes[k - at]
    } else {
        0
    }
}

/// Whether the `count` frames from `phys` on hold `bytes` at `at`, and
/// zeros around them.
pub open spec fn region_filled(
    memory: Seq<u64>,
    phys: u64,
    count: int,
    at: int,
    bytes: Seq<u8>,
) -> bool {
    forall|k: int|
        0 <= k < count * 4096 ==> #[trigger] byte_at(memory, phys + k) == region_byte(
            at,
            bytes,
            k,
        )
}

/// Laying out the bytes of a half word that was read gives them back.
proof fn lemma_half_bytes(a: u8, b: u8, c: u8, d: u8, v: u32)
    requires
        v == a + b * 0x100 + c * 0x1_0000 + d * 0x100_0000,
    ensures
        le32_bytes(v) == seq![a, b, c, d],
{
    let v = v as int;
    assert(v % 0x100 == a);
    assert(v / 0x100 == b + c * 0x100 + d * 0x1_0000);
    assert(v / 0x100 % 0x100 == b);
    assert(v / 0x1_0000 == c + d * 0x100);
    assert(v / 0x1_0000 % 0x100 == c);
    assert(v / 0x100_0000 == d);
    assert(le32_bytes(v as u32) =~= seq![a, b, c, d]);
}

/// Laying out the bytes of a word that was read gives them back.
proof fn lemma_word_bytes(s: Seq<u8>)
    requires
        s.len() == 8,
    ensures
        le64_bytes(le64(s, 0)) == s,
{
    let v = le64(s, 0);
    let lo = le32(s, 0);
    let hi = le32(s, 4);
    lemma_half_bytes(s[0], s[1], s[2], s[3], lo);
    lemma_half_bytes(s[4], s[5], s[6], s[7], hi);
    assert(v == lo + hi * 0x1_0000_0000);
    assert(v % 0x1_0000_0000 == lo);
    assert(v / 0x1_0000_0000 == hi);
    assert(le64_bytes(v) == le32_bytes(lo) + le32_bytes(hi));
    assert(le64_bytes(v) =~= s);
}

impl Arena {
    /// Fills the `count` frames from `phys` on with zeros, and `bytes` at
    /// `at`.
    fn fill_run(&mut self, phys: u64, count: u64, at: u64, bytes: &Vec<u8>)
        requires
            phys % 4096 == 0,
            phys + count * 4096 <= old(self).memory@.len() * 8,
            old(self).memory@.len() <= 0x2_0000_0000_0000,
            at + bytes@.len() <= count * 4096,
        ensures
            final(self).map == old(self).map,
            final(self).frames == old(self).frames,
            kept(old(self).memory@, final(self).memory@, run_frames(phys, count as int)),
            region_filled(final(self).memory@, phys, count as int, at as int, bytes@),
    {
        let ghost m0 = self.memory@;
        let ghost run = run_frames(phys, count as int);
        assert(self.memory@.len() == self.memory.len());
        let first: usize = (phys / 8) as usize;
        let n: usize = (count * 512) as usize;
        let mut w: usize = 0;
        while w < n
            invariant
                w <= n,
                n == count * 512,
                first == phys / 8,
                phys % 4096 == 0,
                count <= 0x200_0000_0000,
                first + n <= self.memory@.len() == m0.len(),
                at + bytes@.len() <= count * 4096,
                run == run_frames(phys, count as int),
                self.map == old(self).map,
                self.frames == old(self).frames,
                kept(m0, self.memory@, run),
                forall|k: int|
                    0 <= k < w * 8 ==> #[trigger] byte_at(self.memory@, phys + k) == region_byte(
                        at as int,
                        bytes@,
                        k,
                    ),
            decreases n - w,
        {
            assert(self.memory@.len() == self.memory.len());
            assert(bytes@.len() == bytes.len());
            let mut eight: Vec<u8> = Vec::new();
            let mut i: u64 = 0;
            while i < 8
                invariant
                    i <= 8,
                    w < n,
                    n == count * 512,
                    count <= 0x200_0000_0000,
                    at + bytes@.len() <= count * 4096,
                    bytes@.len() == bytes.len(),
                    eight@.len() == i,
                    forall|j: int|
                        0 <= j < i ==> #[trigger] eight@[j] == region_byte(
                            at as int,
                            bytes@,
                            w * 8 + j,
                        ),
                decreases 8 - i,
            {
                let k: u64 = w as u64 * 8 + i;
                let b: u8 = if at <= k && k - at < bytes.len() as u64 {
                    bytes[(k - at) as usize]
                } else {
                    0
                };
                eight.push(b);
                i += 1;
            }
            let value = get_le64(eight.as_slice(), 0);
            let ghost before = self.memory@;
            assert((first + w) / 512 == phys as int / 4096 + w as int / 512);
            self.memory.set(first + w, value);
            proof {
                lemma_word_bytes(eight@);
                assert forall|k: int| 0 <= k < (w + 1) * 8 implies #[trigger] byte_at(
                    self.memory@,
                    phys + k,
                ) == region_byte(at as int, bytes@, k) by {
                    assert((phys + k) / 8 == first + k / 8);
                    assert((phys + k) % 8 == k % 8);
                    if k < w * 8 {
                        assert(byte_at(before, phys + k) == region_byte(at as int, bytes@, k));
                    } else {
                        assert(k / 8 == w);
                        assert(eight@[k % 8] == region_byte(at as int, bytes@, w * 8 + k % 8));
                    }
                }
            }
            w += 1;
        }
    }
}

/// A filled region stays so while frames are taken.
proof fn lemma_region_stays(
    b: Arena,
    c: Arena,
    phys: u64,
    count: int,
    at: int,
    bytes: Seq<u8>,
)
    requires
        took(b, c),
        region_filled(b.memory@, phys, count, at, bytes),
        phys % 4096 == 0,
        phys + count * 4096 <= b.memory@.len() * 8,
        forall|f: int| phys / 4096 <= f < phys / 4096 + count ==> !b.free().contains(f),
    ensures
        region_filled(c.memory@, phys, count, at, bytes),
{
    assert forall|k: int| 0 <= k < count * 4096 implies #[trigger] byte_at(c.memory@, phys + k)
        == region_byte(at, bytes, k) by {
        let w = (phys + k) / 8;
        assert(byte_at(b.memory@, phys + k) == region_byte(at, bytes, k));
        assert(w / 512 == phys as int / 4096 + k / 4096);
        assert(0 <= k / 4096 < count);
        assert(c.memory@[w] == b.memory@[w]);
    }
}

/// Where the parts of a program are placed.
#[derive(Clone, Copy, Debug, PartialEq, Eq, Structural)]
pub struct Places {
    pub image: u64,
    pub interp: u64,
    pub stack: u64,
    pub stub: u64,
}

/// What comes of looking for frames for a program.
pub enum Placing {
    /// There is no run of frames for an image or the stack region.
    NoRoom,
    /// There is no frame left for the stubs.
    NoStub,
    /// The frames that are left, and where the parts go.
    Placed { frames: Frames, at: Places },
}

pub open spec fn pages_of(i: Image) -> int {
    i.bytes@.len() as int / 4096
}

/// Looks for the stack region and the stub page, once the images have their
/// frames.
pub open spec fn placing_stack(f: Frames, image: int, interp: int) -> Placing {
    match first_run(f, 256, 0) {
        None => Placing::NoRoom,
        Some(s) => {
            let g = run_taken(f, s, 256);
            if available(g) == 0 {
                Placing::NoStub
            } else {
                Placing::Placed {
                    frames: lowest_taken(g, 1),
                    at: Places {
                        image: (image * 4096) as u64,
                        interp: (interp * 4096) as u64,
                        stack: (s * 4096) as u64,
                        stub: (lowest(g.free, g.last, 0) * 4096) as u64,
                    },
                }
            }
        },
    }
}

/// Looks for frames for a program: its image, its interpreter's, the stack
/// region, and the stub page, each as low as there is room.
pub open spec fn placing(f: Frames, l: Launch) -> Placing {
    match first_run(f, pages_of(l.image), 0) {
        None => Placing::NoRoom,
        Some(i) => {
            let g = run_taken(f, i, pages_of(l.image));
            match l.interp {
                None => placing_stack(g, i, 0),
                Some(x) => match first_run(g, pages_of(x), 0) {
                    None => Placing::NoRoom,
                    Some(n) => placing_stack(run_taken(g, n, pages_of(x)), i, n),
                },
            }
        },
    }
}

/// The first `n` pages of an image: present, for ring 3, and writable where
/// a writable segment touches them.
pub open spec fn image_pages(i: Image, phys: u64, n: nat) -> Seq<PageRun>
    decreases n,
{
    if n == 0 {
        Seq::empty()
    } else {
        image_pages(i, phys, (n - 1) as nat).push(
            PageRun {
                vaddr: (i.start + (n - 1) * 4096) as u64,
                phys: (phys + (n - 1) * 4096) as u64,
                len: 4096,
                flags: if i.writable@[n - 1] {
                    7
                } else {
                    5
                },
            },
        )
    }
}

/// The pages that a program starts with: those of its images, the used part
/// of the stack, which is not executable, and the stubs, which are
/// read-only.
pub open spec fn launch_pages(l: Launch, at: Places) -> Seq<PageRun> {
    image_pages(l.image, at.image, pages_of(l.image) as nat) + (match l.interp {
        None => Seq::empty(),
        Some(i) => image_pages(i, at.interp, pages_of(i) as nat),
    }) + seq![
        PageRun {
            vaddr: l.stack.low,
            phys: (at.stack + (l.stack.low - USER_STACK_LOW_LIMIT)) as u64,
            len: (USER_STACK_TOP - l.stack.low) as u64,
            flags: STACK_FLAGS,
        },
        PageRun { vaddr: USER_EXIT_STUB_VIRT, phys: at.stub, len: 4096, flags: 5 },
    ]
}

/// Present, writable, for ring 3, not executable.
pub const STACK_FLAGS: u64 = 0x8000_0000_0000_0007;

/// Whether the parts of a program are in memory where they were placed.
pub open spec fn contents_placed(memory: Seq<u64>, l: Launch, stubs: Seq<u8>, at: Places) -> bool {
    &&& region_filled(memory, at.image, pages_of(l.image), 0, l.image.bytes@)
    &&& l.interp matches Some(i) ==> region_filled(memory, at.interp, pages_of(i), 0, i.bytes@)
    &&& region_filled(
        memory,
        at.stack,
        256,
        l.stack.rsp - USER_STACK_LOW_LIMIT,
        l.stack.bytes@,
    )
    &&& region_filled(memory, at.stub, 1, 0, stubs)
}

/// Puts the pages of an image on the list.
fn push_image_pages(out: &mut Vec<PageRun>, i: &Image, phys: u64)
    requires
        i.wf(),
        phys + i.bytes@.len() <= u64::MAX,
    ensures
        final(out)@ == old(out)@ + image_pages(*i, phys, pages_of(*i) as nat),
{
    let ghost had = out@;
    assert(out@ =~= had + image_pages(*i, phys, 0));
    let mut k: usize = 0;
    while k < i.writable.len()
        invariant
            k <= i.writable@.len(),
            i.wf(),
            phys + i.bytes@.len() <= u64::MAX,
            out@ == had + image_pages(*i, phys, k as nat),
        decreases i.writable@.len() - k,
    {
        out.push(
            PageRun {
                vaddr: i.start + k as u64 * 4096,
                phys: phys + k as u64 * 4096,
                len: 4096,
                flags: if i.writable[k] { 7 } else { 5 },
            },
        );
        assert(out@ =~= had + image_pages(*i, phys, (k + 1) as nat));
        k += 1;
    }
}

/// Whether a region has its frames: they are in memory, and in use.
pub open spec fn region_held(a: Arena, phys: u64, count: int) -> bool {
    &&& phys % 4096 == 0
    &&& phys + count * 4096 <= a.memory@.len() * 8
    &&& forall|f: int| phys / 4096 <= f < phys / 4096 + count ==> !a.free().contains(f)
}

impl Arena {
    /// Takes `count` frames and fills them with zeros, and `bytes` at `at`.
    fn place_region(&mut self, count: u64, at: u64, bytes: &Vec<u8>) -> (r: Option<u64>)
        requires
            old(self).wf(),
            at + bytes@.len() <= count * 4096,
        ensures
            took(*old(self), *final(self)),
            match r {
                Some(phys) => {
                    &&& region_held(*final(self), phys, count as int)
                    &&& first_run(old(self).map@, count as int, 0) == Some(phys as int / 4096)
                    &&& final(self).map@ == run_taken(
                        old(self).map@,
                        phys as int / 4096,
                        count as int,
                    )
                    &&& region_filled(final(self).memory@, phys, count as int, at as int, bytes@)
                },
                None => first_run(old(self).map@, count as int, 0) is None && *final(self) == *old(
                    self,
                ),
            },
    {
        let ghost a = *self;
        match self.alloc_run(count) {
            None => None,
            Some(phys) => {
                let ghost b = *self;
                self.fill_run(phys, count, at, bytes);
                proof {
                    lemma_run_written(a, b, *self, phys, count as int);
                }
                Some(phys)
            },
        }
    }

    /// Takes a frame for the stubs.
    fn place_stub(&mut self, stubs: &Vec<u8>) -> (r: Option<u64>)
        requires
            old(self).wf(),
            stubs@.len() <= 4096,
        ensures
            took(*old(self), *final(self)),
            match r {
                Some(phys) => {
                    &&& available(old(self).map@) > 0
                    &&& region_held(*final(self), phys, 1)
                    &&& phys == lowest(old(self).map@.free, old(self).map@.last, 0) * 4096
                    &&& final(self).map@ == lowest_taken(old(self).map@, 1)
                    &&& region_filled(final(self).memory@, phys, 1, 0, stubs@)
                },
                None => available(old(self).map@) == 0,
            },
    {
        let ghost a = *self;
        match self.alloc_frame() {
            Err(_) => None,
            Ok(phys) => {
                let ghost b = *self;
                proof {
                    reveal_with_fuel(lowest_taken, 2);
                    assert(b.frames@.len() == a.frames@.len() + 1);
                    assert(a.free().contains(phys as int / 4096) && !b.free().contains(
                        phys as int / 4096,
                    ));
                }
                self.fill_run(phys, 1, 0, stubs);
                proof {
                    lemma_run_written(a, b, *self, phys, 1);
                }
                Some(phys)
            },
        }
    }

    /// Gives every frame on the list back.
    fn give_back(&mut self, Ghost(a): Ghost<Arena>)
        requires
            took(a, *old(self)),
            a.frames@.len() == 0,
        ensures
            final(self).wf(),
            final(self).memory == old(self).memory,
            final(self).map@ == a.map@,
            final(self).frames@.len() == 0,
    {
        proof {
            lemma_free_is_covered(&a.map);
        }
        let ghost b = *self;
        proof {
            assert forall|k: int| 0 <= k < b.frames@.len() implies #[trigger] b.frames@[k] % 4096
                == 0 && b.frames@[k] < MAX_PHYS_MEM by {
                assert(own(
                    b.memory@,
                    a.free(),
                    b.free(),
                    b.frames@[k] as int,
                ));
                assert(a.map@.free.contains(b.frames@[k] as int / 4096));
            }
        }
        reap(&mut self.map, &self.frames);
        proof {
            assert forall|g: int| #[trigger] self.map@.free.contains(g) <==> a.map@.free.contains(
                g,
            ) by {
                lemma_freed(b.map@, b.frames@, b.frames@.len(), g);
                if self.map@.free.contains(g) && !b.map@.free.contains(g) {
                    let k = choose|k: int|
                        0 <= k < b.frames@.len() && #[trigger] b.frames@[k] as int / 4096 == g;
                    assert(own(
                        b.memory@,
                        a.free(),
                        b.free(),
                        b.frames@[k] as int,
                    ));
                }
                if a.map@.free.contains(g) && !b.map@.free.contains(g) {
                    assert(!b.free().contains(g));
                    assert(b.frames@.contains((g * 4096) as u64));
                    let k = choose|k: int|
                        0 <= k < b.frames@.len() && b.frames@[k] == (g * 4096) as u64;
                    assert(b.frames@[k] as int / 4096 == g);
                }
            }
            assert(self.map@.free =~= a.map@.free);
            lemma_freed(b.map@, b.frames@, b.frames@.len(), 0);
        }
        self.frames = Vec::new();
    }
}

/// Whether the addresses that the parts were placed at are those of memory.
pub open spec fn places_fit(l: Launch, at: Places) -> bool {
    &&& at.image + l.image.bytes@.len() <= 0x10_0000_0000_0000
    &&& l.interp matches Some(i) ==> at.interp + i.bytes@.len() <= 0x10_0000_0000_0000
    &&& at.stack + 0x10_0000 <= 0x10_0000_0000_0000
    &&& at.stub + 4096 <= 0x10_0000_0000_0000
}

impl Arena {
    /// Places a program's stack and stubs behind its images.
    fn place_stack(&mut self, l: &Launch, stubs: &Vec<u8>, image: u64, interp: u64) -> (r: Result<
        Places,
        bool,
    >)
        requires
            old(self).wf(),
            l.ready(),
            stubs@.len() <= 4096,
            image % 4096 == 0,
            interp % 4096 == 0,
        ensures
            took(*old(self), *final(self)),
            match r {
                Ok(at) => {
                    &&& placing_stack(old(self).map@, image as int / 4096, interp as int / 4096)
                        == (Placing::Placed { frames: final(self).map@, at })
                    &&& at.image == image
                    &&& at.interp == interp
                    &&& at.stack + 0x10_0000 <= 0x10_0000_0000_0000
                    &&& at.stub + 4096 <= 0x10_0000_0000_0000
                    &&& region_filled(
                        final(self).memory@,
                        at.stack,
                        256,
                        l.stack.rsp - USER_STACK_LOW_LIMIT,
                        l.stack.bytes@,
                    )
                    &&& region_filled(final(self).memory@, at.stub, 1, 0, stubs@)
                },
                Err(no_stub) => placing_stack(
                    old(self).map@,
                    image as int / 4096,
                    interp as int / 4096,
                ) == if no_stub {
                    Placing::NoStub
                } else {
                    Placing::NoRoom
                },
            },
    {
        let ghost a = *self;
        let stack = match self.place_region(
            256,
            l.stack.rsp - USER_STACK_LOW_LIMIT,
            &l.stack.bytes,
        ) {
            None => {
                return Err(false);
            },
            Some(p) => p,
        };
        let ghost b = *self;
        match self.place_stub(stubs) {
            None => {
                proof {
                    lemma_took_on(a, b, *self);
                }
                Err(true)
            },
            Some(stub) => {
                proof {
                    lemma_took_on(a, b, *self);
                    lemma_region_stays(
                        b,
                        *self,
                        stack,
                        256,
                        l.stack.rsp - USER_STACK_LOW_LIMIT,
                        l.stack.bytes@,
                    );
                }
                Ok(Places { image, interp, stack, stub })
            },
        }
    }

    /// Places the parts of a program. The error says whether only the stubs
    /// found no room.
    fn place_parts(&mut self, l: &Launch, stubs: &Vec<u8>) -> (r: Result<Places, bool>)
        requires
            old(self).wf(),
            l.ready(),
            stubs@.len() <= 4096,
        ensures
            took(*old(self), *final(self)),
            match r {
                Ok(at) => {
                    &&& placing(old(self).map@, *l) == (Placing::Placed {
                        frames: final(self).map@,
                        at,
                    })
                    &&& contents_placed(final(self).memory@, *l, stubs@, at)
                    &&& places_fit(*l, at)
                },
                Err(no_stub) => placing(old(self).map@, *l) == if no_stub {
                    Placing::NoStub
                } else {
                    Placing::NoRoom
                },
            },
    {
        let ghost a = *self;
        let image = match self.place_region(
            l.image.bytes.len() as u64 / 4096,
            0,
            &l.image.bytes,
        ) {
            None => {
                return Err(false);
            },
            Some(p) => p,
        };
        let ghost b = *self;
        let mut interp: u64 = 0;
        proof {
            lemma_took_self(b);
        }
        if let Some(i) = &l.interp {
            match self.place_region(i.bytes.len() as u64 / 4096, 0, &i.bytes) {
                None => {
                    proof {
                        lemma_took_on(a, b, *self);
                    }
                    return Err(false);
                },
                Some(p) => {
                    interp = p;
                },
            }
        }
        let ghost c = *self;
        let r = self.place_stack(l, stubs, image, interp);
        proof {
            lemma_took_on(b, c, *self);
            lemma_took_on(a, b, *self);
            lemma_region_stays(b, *self, image, pages_of(l.image), 0, l.image.bytes@);
            if l.interp is Some {
                let i = l.interp->0;
                lemma_region_stays(c, *self, interp, pages_of(i), 0, i.bytes@);
            }
        }
        r
    }
}

/// A process that can be run: the top-level table of its address space, and
/// what is to be mapped in it.
pub struct Loaded {
    pub process: Process,
    pub pml4: u64,
    pub pages: Vec<PageRun>,
}

/// Why a program cannot be loaded, if the frames `f` are free.
pub open spec fn place_error(
    memory: Seq<u64>,
    f: Frames,
    kernel: int,
    l: Launch,
) -> Option<&'static str> {
    let pdpt = base_of(table(memory, kernel)[0]);
    let stop = first_huge(memory, pdpt, 0);
    if available(f) < 2 + frames_for(memory, pdpt, stop as nat) {
        Some("out of memory")
    } else if stop < 512 {
        Some("unexpected 1 GiB page in boot map")
    } else if placing(lowest_taken(f, 2 + frames_for(memory, pdpt, 512)), l) is Placed {
        None
    } else {
        Some("out of memory")
    }
}

/// Whether only the stubs of a program found no room.
pub open spec fn stub_missing(memory: Seq<u64>, f: Frames, kernel: int, l: Launch) -> bool {
    let pdpt = base_of(table(memory, kernel)[0]);
    &&& first_huge(memory, pdpt, 0) == 512
    &&& available(f) >= 2 + frames_for(memory, pdpt, 512)
    &&& placing(lowest_taken(f, 2 + frames_for(memory, pdpt, 512)), l) is NoStub
}

impl Launch {
    /// Places the program in memory, in an address space of its own. If
    /// there is no room, the frames that were taken are free again; only a
    /// Linux program whose stubs found no room keeps them on the list.
    pub fn load(&self, arena: &mut Arena, kernel: u64, stubs: &Vec<u8>) -> (r: Result<
        Loaded,
        &'static str,
    >)
        requires
            self.ready(),
            stubs@.len() <= 4096,
            old(arena).wf(),
            old(arena).frames@.len() == 0,
            map_held(old(arena).memory@, old(arena).free(), kernel as int),
        ensures
            final(arena).wf(),
            kept(old(arena).memory@, final(arena).memory@, old(arena).free()),
            ({
                let m = old(arena).memory@;
                let f = old(arena).map@;
                let pdpt = base_of(table(m, kernel as int)[0]);
                match r {
                    Ok(x) => {
                        let places = placing(lowest_taken(f, 2 + frames_for(m, pdpt, 512)), *self);
                        let at = places->at;
                        &&& place_error(m, f, kernel as int, *self) is None
                        &&& took(*old(arena), *final(arena))
                        &&& final(arena).map@ == places->frames
                        &&& map_copied(
                            m,
                            kernel as int,
                            final(arena).memory@,
                            x.pml4 as int,
                            old(arena).free(),
                            final(arena).free(),
                        )
                        &&& contents_placed(final(arena).memory@, *self, stubs@, at)
                        &&& places_fit(*self, at)
                        &&& x.process.wf()
                        &&& self.is_placed(x.process, at.image, at.interp, at.stack, at.stub)
                        &&& x.pages@ == launch_pages(*self, at)
                    },
                    Err(e) => {
                        &&& place_error(m, f, kernel as int, *self) == Some(e)
                        &&& if self.abi == Abi::Linux && stub_missing(m, f, kernel as int, *self) {
                            took(*old(arena), *final(arena))
                        } else {
                            final(arena).map@ == f && final(arena).frames@.len() == 0
                        }
                    },
                }
            }),
    {
        let ghost a = *arena;
        let pml4 = match arena.build_address_space(kernel) {
            Err(e) => {
                arena.give_back(Ghost(a));
                return Err(e);
            },
            Ok(t) => t,
        };
        let ghost b = *arena;
        let at = match arena.place_parts(self, stubs) {
            Err(no_stub) => {
                proof {
                    lemma_took_on(a, b, *arena);
                }
                if !(no_stub && self.abi == Abi::Linux) {
                    arena.give_back(Ghost(a));
                }
                return Err("out of memory");
            },
            Ok(at) => at,
        };
        proof {
            lemma_took_on(a, b, *arena);
            lemma_map_stays(a.memory@, kernel as int, b, pml4 as int, *arena, a.free());
        }
        let process = self.place(at.image, at.interp, at.stack, at.stub);
        let mut pages: Vec<PageRun> = Vec::new();
        push_image_pages(&mut pages, &self.image, at.image);
        if let Some(i) = &self.interp {
            push_image_pages(&mut pages, i, at.interp);
        }
        pages.push(
            PageRun {
                vaddr: self.stack.low,
                phys: at.stack + (self.stack.low - USER_STACK_LOW_LIMIT),
                len: USER_STACK_TOP - self.stack.low,
                flags: STACK_FLAGS,
            },
        );
        pages.push(
            PageRun { vaddr: USER_EXIT_STUB_VIRT, phys: at.stub, len: 4096, flags: 5 },
        );
        assert(pages@ =~= launch_pages(*self, at));
        Ok(Loaded { process, pml4, pages })
    }
}

/// Whether a range of addresses lies clear of an image.
pub open spec fn clear_of(i: Image, vaddr: int, len: int) -> bool {
    vaddr + len <= i.start || i.start + i.bytes@.len() <= vaddr
}

/// A loaded program finds the bytes of its image at the addresses that it
/// was linked for, and what was put on its stack from the stack pointer up.
pub proof fn law_program_finds_its_bytes(
    memory: Seq<u64>,
    l: Launch,
    p: Process,
    stubs: Seq<u8>,
    at: Places,
    vaddr: u64,
)
    requires
        l.ready(),
        places_fit(l, at),
        l.is_placed(p, at.image, at.interp, at.stack, at.stub),
        contents_placed(memory, l, stubs, at),
        clear_of(l.image, USER_STACK_LOW_LIMIT as int, 0x10_1000),
        l.interp matches Some(i) ==> clear_of(
            i,
            l.image.start as int,
            l.image.bytes@.len() as int,
        ),
    ensures
        l.image.start <= vaddr < l.image.start + l.image.bytes@.len() ==> (translated(
            p.mappings@,
            p.mappings@.len(),
            vaddr,
            1,
        ) matches Some(a) && byte_at(memory, a as int) == l.image.bytes@[vaddr - l.image.start]),
        l.stack.rsp <= vaddr < l.stack.rsp + l.stack.bytes@.len() ==> (translated(
            p.mappings@,
            p.mappings@.len(),
            vaddr,
            1,
        ) matches Some(a) && byte_at(memory, a as int) == l.stack.bytes@[vaddr - l.stack.rsp]),
{
    let ms = p.mappings@;
    let n = ms.len();
    reveal_with_fuel(translated, 5);
    assert(ms[n - 1].vaddr == USER_EXIT_STUB_VIRT);
    assert(ms[n - 2].vaddr == USER_STACK_LOW_LIMIT);
    assert(ms[0].vaddr == l.image.start);
    if l.image.start <= vaddr < l.image.start + l.image.bytes@.len() {
        let k = vaddr - l.image.start;
        assert(byte_at(memory, at.image + k) == region_byte(0, l.image.bytes@, k));
    }
    if l.stack.rsp <= vaddr < l.stack.rsp + l.stack.bytes@.len() {
        let k = vaddr - USER_STACK_LOW_LIMIT;
        assert(byte_at(memory, at.stack + k) == region_byte(
            l.stack.rsp - USER_STACK_LOW_LIMIT,
            l.stack.bytes@,
            k,
        ));
    }
}

// ---------------------------------------------------------------------
// Memory for a running process
// ---------------------------------------------------------------------

/// The pages that a request maps onto `phys`: present, for ring 3, writable
/// and executable as it says.
pub open spec fn request_pages(m: MapRequest, phys: u64) -> PageRun {
    PageRun {
        vaddr: m.vaddr,
        phys,
        len: m.len,
        flags: if m.writable {
            if m.executable {
                7
            } else {
                0x8000_0000_0000_0007
            }
        } else {
            if m.executable {
                5
            } else {
                0x8000_0000_0000_0005
            }
        },
    }
}

/// As much of some contents as `len` bytes hold.
pub open spec fn cut_to(content: Seq<u8>, len: int) -> Seq<u8> {
    if content.len() <= len {
        content
    } else {
        content.take(len)
    }
}

impl Arena {
    /// Takes frames for a request and fills them with `content`, and zeros
    /// behind it.
    fn back(&mut self, m: MapRequest, content: &[u8]) -> (r: Option<PageRun>)
        requires
            old(self).wf(),
            m.len % 4096 == 0,
        ensures
            took(*old(self), *final(self)),
            match r {
                Some(p) => {
                    &&& p == request_pages(m, p.phys)
                    &&& p.phys + m.len <= 0x10_0000_0000_0000
                    &&& first_run(old(self).map@, m.len as int / 4096, 0) == Some(
                        p.phys as int / 4096,
                    )
                    &&& p.phys % 4096 == 0
                    &&& final(self).map@ == run_taken(
                        old(self).map@,
                        p.phys as int / 4096,
                        m.len as int / 4096,
                    )
                    &&& region_filled(
                        final(self).memory@,
                        p.phys,
                        m.len as int / 4096,
                        0,
                        cut_to(content@, m.len as int),
                    )
                },
                None => first_run(old(self).map@, m.len as int / 4096, 0) is None && *final(self)
                    == *old(self),
            },
    {
        let mut bytes: Vec<u8> = Vec::new();
        assert(content@.len() == content.len());
        if content.len() as u64 <= m.len {
            bytes.extend_from_slice(content);
        } else {
            bytes.extend_from_slice(slice_subrange(content, 0, m.len as usize));
        }
        assert(bytes@ =~= cut_to(content@, m.len as int));
        match self.place_region(m.len / 4096, 0, &bytes) {
            None => None,
            Some(phys) => {
                let flags: u64 = if m.writable {
                    if m.executable { 7 } else { 0x8000_0000_0000_0007 }
                } else {
                    if m.executable { 5 } else { 0x8000_0000_0000_0005 }
                };
                Some(PageRun { vaddr: m.vaddr, phys, len: m.len, flags })
            },
        }
    }
}

/// Linux `mmap` of memory of the process's own, with `content` at its start
/// and zeros behind it. Gives the pages to map; they start at the address
/// that `mmap` returns. Nothing if the arena of addresses or memory is used
/// up.
pub fn mmap_with_content(
    arena: &mut Arena,
    process: &mut Process,
    at: Option<u64>,
    len: u64,
    writable: bool,
    executable: bool,
    content: &[u8],
) -> (r: Option<PageRun>)
    requires
        old(arena).wf(),
        old(process).wf(),
        len + 4095 <= u64::MAX,
        at matches Some(a) ==> page_of(a) + whole_pages(len as int) + 4096 <= u64::MAX,
    ensures
        took(*old(arena), *final(arena)),
        final(process).wf(),
        ({
            let plan = mmap_plan(old(process).mmap_next, at, len, writable, executable);
            let run = first_run(old(arena).map@, (plan->0).len as int / 4096, 0);
            match r {
                Some(p) => {
                    &&& plan is Some && run == Some(p.phys as int / 4096) && p.phys % 4096 == 0
                    &&& p == request_pages(plan->0, p.phys)
                    &&& region_filled(
                        final(arena).memory@,
                        p.phys,
                        p.len as int / 4096,
                        0,
                        cut_to(content@, p.len as int),
                    )
                    &&& final(process).mappings@ == old(process).mappings@.push(
                        Mapping { vaddr: p.vaddr, phys: p.phys, len: p.len, shm_id: None },
                    )
                    &&& *final(process) == (Process {
                        mappings: final(process).mappings,
                        mmap_next: if at is Some {
                            old(process).mmap_next
                        } else {
                            (p.vaddr + p.len) as u64
                        },
                        ..*old(process)
                    })
                },
                None => {
                    &&& plan is None || run is None
                    &&& *final(process) == *old(process)
                    &&& *final(arena) == *old(arena)
                },
            }
        }),
{
    proof {
        lemma_took_self(*arena);
    }
    let m = match process.mmap_anon(at, len, writable, executable) {
        None => {
            return None;
        },
        Some(m) => m,
    };
    match arena.back(m, content) {
        None => None,
        Some(p) => {
            process.mmap_done(m, p.phys, None);
            Some(p)
        },
    }
}

/// Linux `brk`: gives the break, and the zeroed pages to map for it if it
/// grew. If memory is used up, the break stays.
pub fn brk(arena: &mut Arena, process: &mut Process, requested: u64) -> (r: (u64, Option<PageRun>))
    requires
        old(arena).wf(),
        old(process).wf(),
        requested <= u64::MAX - 4095,
    ensures
        took(*old(arena), *final(arena)),
        final(process).wf(),
        ({
            let p = *old(process);
            let m = heap_growth(p, requested);
            let run = first_run(old(arena).map@, m.len as int / 4096, 0);
            if requested < p.heap_start {
                r == (p.heap_end, None::<PageRun>) && *final(process) == p && *final(arena)
                    == *old(arena)
            } else if requested <= p.heap_mapped {
                r == (requested, None::<PageRun>) && *final(process) == (Process {
                    heap_end: requested,
                    ..p
                }) && *final(arena) == *old(arena)
            } else if run is None {
                r == (p.heap_end, None::<PageRun>) && *final(process) == p && *final(arena)
                    == *old(arena)
            } else {
                let page = request_pages(m, (run->0 * 4096) as u64);
                &&& r == (requested, Some(page))
                &&& region_filled(
                    final(arena).memory@,
                    page.phys,
                    page.len as int / 4096,
                    0,
                    Seq::empty(),
                )
                &&& final(process).mappings@ == p.mappings@.push(
                    Mapping { vaddr: page.vaddr, phys: page.phys, len: page.len, shm_id: None },
                )
                &&& *final(process) == (Process {
                    heap_end: requested,
                    heap_mapped: (m.vaddr + m.len) as u64,
                    mappings: final(process).mappings,
                    ..p
                })
            }
        }),
{
    proof {
        lemma_took_self(*arena);
    }
    let m = match process.brk(requested) {
        Err(end) => {
            return (end, None);
        },
        Ok(m) => m,
    };
    let none: [u8; 0] = [];
    match arena.back(m, &none) {
        None => {
            let end = process.brk_mapped(requested, m, None);
            (end, None)
        },
        Some(p) => {
            let end = process.brk_mapped(requested, m, Some(p.phys));
            (end, Some(p))
        },
    }
}

} // verus!
