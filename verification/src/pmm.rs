//! Physical memory manager: a bitmap over 4 KiB frames, fed from the
//! Multiboot memory map. Everything outside the "usable" regions (and
//! below the 1 MiB mark) starts out marked in use, so a missing region can
//! never be handed out by accident. Memory beyond `MAX_PHYS_MEM` is
//! ignored.

use crate::multiboot::MemoryRegion;
use vstd::prelude::*;

verus! {

pub const FRAME_SIZE: u64 = 4096;

pub const MAX_PHYS_MEM: u64 = 16 * 1024 * 1024 * 1024;

pub const FRAME_COUNT: u64 = 4194304;

const BITMAP_BYTES: usize = 524288;

/// Never handed out below this physical address, on top of the kernel
/// image itself: programs are linked to load down here, and the
/// identity-mapped heap must not land on it.
pub const LOW_RESERVED_END: u64 = 64 * 1024 * 1024;

const ONE_MIB: u64 = 1024 * 1024;

/// The frame bitmap; a set bit marks a frame in use.
pub struct FrameMap {
    bitmap: Vec<u8>,
    /// Highest frame index (inclusive) that came from a usable region.
    last: u64,
}

/// Which frames are free, and the last frame that is real RAM.
pub struct Frames {
    pub free: Set<int>,
    pub last: int,
}

impl View for FrameMap {
    type V = Frames;

    closed spec fn view(&self) -> Frames {
        Frames {
            free: Set::new(
                |f: int|
                    0 <= f < 4194304 && self.bitmap@[f / 8] & (1u8 << ((f % 8) as u8)) == 0,
            ),
            last: self.last as int,
        }
    }
}

/// Whether a frame and a range of bytes share a byte.
pub open spec fn overlaps(frame: int, base: int, len: int) -> bool {
    len > 0 && frame * 4096 < base + len && base < (frame + 1) * 4096
}

/// The free frames without those that a range touches.
pub open spec fn without(free: Set<int>, base: int, len: int) -> Set<int> {
    Set::new(|f: int| free.contains(f) && !overlaps(f, base, len))
}

/// Whether the map counts a region as RAM.
pub open spec fn counts(r: MemoryRegion) -> bool {
    r.region_type == 1 && r.base >= 0x10_0000
}

/// Whether the whole frame lies in a usable region at or above 1 MiB.
pub open spec fn usable(r: MemoryRegion, frame: int) -> bool {
    &&& counts(r)
    &&& r.base <= frame * 4096
    &&& (frame + 1) * 4096 <= r.base + r.length
    &&& 0 <= frame < 4194304
}

/// Whether one of the first `n` regions holds the whole frame.
pub open spec fn usable_in(regions: Seq<MemoryRegion>, n: int, frame: int) -> bool {
    exists|i: int| 0 <= i < n && usable(#[trigger] regions[i], frame)
}

/// One past the last whole frame below the region's end.
pub open spec fn frame_end(r: MemoryRegion) -> int {
    let end = (r.base + r.length) / 4096;
    if end < 4194304 {
        end
    } else {
        4194304
    }
}

/// The highest last frame among the first `n` regions that count.
pub open spec fn last_frame(regions: Seq<MemoryRegion>, n: int) -> int
    decreases n,
{
    if n <= 0 {
        0
    } else {
        let before = last_frame(regions, n - 1);
        let r = regions[n - 1];
        if counts(r) && frame_end(r) - 1 > before {
            frame_end(r) - 1
        } else {
            before
        }
    }
}

/// How many of the frames `0..n` are free.
pub open spec fn free_below(free: Set<int>, n: int) -> nat
    decreases n,
{
    if n <= 0 {
        0
    } else {
        free_below(free, n - 1) + if free.contains(n - 1) {
            1nat
        } else {
            0
        }
    }
}

/// Whether `count` frames from `start` on are free and real RAM.
pub open spec fn free_run(m: Frames, start: int, count: int) -> bool {
    &&& 0 <= start
    &&& start + count <= m.last + 1
    &&& forall|f: int| start <= f < start + count ==> m.free.contains(f)
}

proof fn lemma_bits(b: u8, i: u8, j: u8)
    requires
        i < 8,
        j < 8,
    ensures
        (b | (1u8 << i)) & (1u8 << j) != 0 <==> i == j || b & (1u8 << j) != 0,
        (b & !(1u8 << i)) & (1u8 << j) != 0 <==> i != j && b & (1u8 << j) != 0,
{
    assert(i < 8 && j < 8 ==> ((b | (1u8 << i)) & (1u8 << j) != 0 <==> i == j || b & (1u8 << j)
        != 0)) by (bit_vector);
    assert(i < 8 && j < 8 ==> ((b & !(1u8 << i)) & (1u8 << j) != 0 <==> i != j && b & (1u8 << j)
        != 0)) by (bit_vector);
}

impl FrameMap {
    pub closed spec fn wf(&self) -> bool {
        self.bitmap@.len() == 524288 && self.last < 4194304
    }

    /// A map with every frame in use.
    pub fn new() -> (r: Self)
        ensures
            r.wf(),
            r@ == (Frames { free: Set::empty(), last: 0 }),
    {
        let mut bitmap: Vec<u8> = Vec::new();
        bitmap.resize(BITMAP_BYTES, 0xFF);
        let r = FrameMap { bitmap, last: 0 };
        assert forall|f: int| !r@.free.contains(f) by {
            if 0 <= f < 4194304 {
                let k = (f % 8) as u8;
                assert(k < 8 ==> 0xFFu8 & (1u8 << k) != 0) by (bit_vector);
                assert(r.bitmap@[f / 8] == 0xFF);
            }
        }
        assert(r@.free =~= Set::empty());
        r
    }

    fn set_frame(&mut self, frame: u64)
        requires
            old(self).wf(),
            frame < 4194304,
        ensures
            final(self).wf(),
            final(self)@ == (Frames { free: old(self)@.free.remove(frame as int), ..old(self)@ }),
    {
        let b = self.bitmap[(frame / 8) as usize];
        self.bitmap.set((frame / 8) as usize, b | (1u8 << ((frame % 8) as u8)));
        proof {
            assert forall|f: int| self@.free.contains(f) <==> old(self)@.free.remove(
                frame as int,
            ).contains(f) by {
                if f / 8 == frame as int / 8 {
                    lemma_bits(b, (frame % 8) as u8, (f % 8) as u8);
                }
            }
            assert(self@.free =~= old(self)@.free.remove(frame as int));
        }
    }

    fn clear_frame(&mut self, frame: u64)
        requires
            old(self).wf(),
            frame < 4194304,
        ensures
            final(self).wf(),
            final(self)@ == (Frames { free: old(self)@.free.insert(frame as int), ..old(self)@ }),
    {
        let b = self.bitmap[(frame / 8) as usize];
        self.bitmap.set((frame / 8) as usize, b & !(1u8 << ((frame % 8) as u8)));
        proof {
            assert forall|f: int| self@.free.contains(f) <==> old(self)@.free.insert(
                frame as int,
            ).contains(f) by {
                if 0 <= f < 4194304 && f / 8 == frame as int / 8 {
                    lemma_bits(b, (frame % 8) as u8, (f % 8) as u8);
                }
            }
            assert(self@.free =~= old(self)@.free.insert(frame as int));
        }
    }

    fn frame_is_free(&self, frame: u64) -> (r: bool)
        requires
            self.wf(),
            frame < 4194304,
        ensures
            r == self@.free.contains(frame as int),
    {
        self.bitmap[(frame / 8) as usize] & (1u8 << ((frame % 8) as u8)) == 0
    }
}

fn align_up(value: u64, align: u64) -> (r: u64)
    requires
        align == 4096,
        value + 4095 <= u64::MAX,
    ensures
        r == (value + 4095) / 4096 * 4096,
{
    (value + (align - 1)) / align * align
}

fn align_down(value: u64, align: u64) -> (r: u64)
    requires
        align == 4096,
    ensures
        r == value as int / 4096 * 4096,
{
    value / align * align
}

/// Marks the half-open range `[base, base + len)` as in use. Used by the
/// boot path to protect the kernel image and the linear framebuffer.
pub fn mark_reserved(map: &mut FrameMap, base: u64, len: u64)
    requires
        old(map).wf(),
        base + len + 4095 <= u64::MAX,
    ensures
        final(map).wf(),
        final(map)@ == (Frames {
            free: without(old(map)@.free, base as int, len as int),
            ..old(map)@
        }),
{
    if len == 0 {
        assert(map@.free =~= without(old(map)@.free, base as int, len as int));
        return;
    }
    let start = align_down(base, FRAME_SIZE);
    let up = align_up(base + len, FRAME_SIZE);
    let end: u64 = if up < MAX_PHYS_MEM { up } else { MAX_PHYS_MEM };
    let first: u64 = start / FRAME_SIZE;
    let mut frame: u64 = first;
    let stop: u64 = end / FRAME_SIZE;
    assert(map@.free =~= Set::new(
        |f: int| old(map)@.free.contains(f) && !(first <= f < frame),
    ));
    while frame < stop
        invariant
            map.wf(),
            stop <= 4194304,
            first <= frame,
            frame <= stop || frame == first,
            map@.last == old(map)@.last,
            map@.free == Set::new(|f: int| old(map)@.free.contains(f) && !(first <= f < frame)),
        decreases stop - frame,
    {
        let ghost before = map@.free;
        map.set_frame(frame);
        frame += 1;
        assert(map@.free =~= Set::new(
            |f: int| old(map)@.free.contains(f) && !(first <= f < frame),
        ));
    }
    proof {
        assert forall|f: int| old(map)@.free.contains(f) implies (first <= f < frame
            <==> overlaps(f, base as int, len as int)) by {
            assert(0 <= f < 4194304);
        }
        assert(map@.free =~= without(old(map)@.free, base as int, len as int));
    }
}

/// Scans the memory map and marks every usable frame (at or above 1 MiB)
/// as free, then re-protects the kernel image and the low range.
pub fn init(
    map: &mut FrameMap,
    regions: &[MemoryRegion],
    kernel_start: u64,
    kernel_end: u64,
)
    requires
        old(map).wf(),
        kernel_start <= kernel_end,
        kernel_end + 4095 <= u64::MAX,
        forall|i: int|
            0 <= i < regions@.len() && counts(#[trigger] regions@[i]) ==> regions@[i].base
                + regions@[i].length + 4095 <= u64::MAX,
    ensures
        final(map).wf(),
        final(map)@.last == last_frame(regions@, regions@.len() as int),
        forall|f: int| #[trigger]
            final(map)@.free.contains(f) <==> (old(map)@.free.contains(f) || usable_in(
                regions@,
                regions@.len() as int,
                f,
            )) && !overlaps(f, kernel_start as int, kernel_end - kernel_start) && !overlaps(
                f,
                0,
                0x400_0000,
            ),
{
    let mut last: u64 = 0;
    let mut i: usize = 0;
    while i < regions.len()
        invariant
            map.wf(),
            i <= regions@.len(),
            forall|i: int|
                0 <= i < regions@.len() && counts(#[trigger] regions@[i]) ==> regions@[i].base
                    + regions@[i].length + 4095 <= u64::MAX,
            0 <= last < 4194304,
            last == last_frame(regions@, i as int),
            forall|f: int| #[trigger]
                map@.free.contains(f) <==> old(map)@.free.contains(f) || usable_in(
                    regions@,
                    i as int,
                    f,
                ),
        decreases regions@.len() - i,
    {
        let region = regions[i];
        let ghost before = map@.free;
        if region.region_type == 1 && region.base >= ONE_MIB {
            let start = region.base;
            let end = region.base + region.length;
            let start_frame = align_up(start, FRAME_SIZE) / FRAME_SIZE;
            let down = align_down(end, FRAME_SIZE);
            let end_frame: u64 = (if down < MAX_PHYS_MEM { down } else { MAX_PHYS_MEM })
                / FRAME_SIZE;
            assert(end_frame == frame_end(region));
            if end_frame > last {
                last = end_frame - 1;
            }
            let mut frame: u64 = start_frame;
            while frame < end_frame
                invariant
                    map.wf(),
                    start_frame <= frame,
                    end_frame <= 4194304,
                    frame <= end_frame || frame == start_frame,
                    forall|f: int| #[trigger]
                        map@.free.contains(f) <==> before.contains(f) || start_frame <= f < frame,
                decreases end_frame - frame,
            {
                map.clear_frame(frame);
                frame += 1;
            }
            assert forall|f: int| start_frame <= f < frame <==> usable(region, f) by {}
        }
        assert forall|f: int| usable_in(regions@, i + 1, f) <==> usable_in(regions@, i as int, f)
            || usable(region, f) by {
            if usable(region, f) {
                assert(usable(regions@[i as int], f));
            }
        }
        i += 1;
    }
    let ghost found = map@.free;
    map.last = last;
    assert(map@.free =~= found);
    mark_reserved(map, kernel_start, kernel_end - kernel_start);
    mark_reserved(map, 0, LOW_RESERVED_END);
}

/// Only frames that the map covers are free.
pub proof fn lemma_free_is_covered(map: &FrameMap)
    ensures
        forall|f: int| #[trigger] map@.free.contains(f) ==> 0 <= f < 4194304,
{
}

/// Allocates a single 4 KiB frame, returning its physical address: the
/// lowest free one.
pub fn frame_alloc(map: &mut FrameMap) -> (r: Option<u64>)
    requires
        old(map).wf(),
    ensures
        final(map).wf(),
        match r {
            Some(addr) => {
                let frame = addr as int / 4096;
                &&& addr % 4096 == 0
                &&& frame <= old(map)@.last
                &&& old(map)@.free.contains(frame)
                &&& forall|f: int| 0 <= f < frame ==> !old(map)@.free.contains(f)
                &&& final(map)@ == (Frames {
                    free: old(map)@.free.remove(frame),
                    ..old(map)@
                })
            },
            None => {
                &&& forall|f: int| 0 <= f <= old(map)@.last ==> !old(map)@.free.contains(f)
                &&& final(map)@ == old(map)@
            },
        },
{
    let last = map.last;
    let mut frame: u64 = 0;
    while frame <= last
        invariant
            *map == *old(map),
            map.wf(),
            last == map.last,
            frame <= last + 1,
            forall|f: int| 0 <= f < frame ==> !map@.free.contains(f),
        decreases last + 1 - frame,
    {
        if map.frame_is_free(frame) {
            map.set_frame(frame);
            return Some(frame * FRAME_SIZE);
        }
        frame += 1;
    }
    None
}

/// The map with a run of frames taken.
pub open spec fn run_taken(m: Frames, start: int, count: int) -> Frames {
    Frames { free: Set::new(|f: int| m.free.contains(f) && !(start <= f < start + count)), ..m }
}

/// Allocates `count` contiguous 4 KiB frames, returning the physical
/// address of the first one: the lowest run that is free.
pub fn alloc_contiguous(map: &mut FrameMap, count: u64) -> (r: Option<u64>)
    requires
        old(map).wf(),
    ensures
        final(map).wf(),
        match r {
            Some(addr) => {
                let start = addr as int / 4096;
                &&& addr % 4096 == 0
                &&& count > 0
                &&& free_run(old(map)@, start, count as int)
                &&& forall|s: int| 0 <= s < start ==> !free_run(old(map)@, s, count as int)
                &&& final(map)@ == run_taken(old(map)@, start, count as int)
            },
            None => {
                &&& count > 0 ==> forall|s: int| !free_run(old(map)@, s, count as int)
                &&& *final(map) == *old(map)
            },
        },
{
    let last = map.last;
    if count == 0 || count - 1 > last {
        return None;
    }
    let mut run_start: u64 = 0;
    let mut run_len: u64 = 0;
    let mut frame: u64 = 0;
    while frame <= last
        invariant
            *map == *old(map),
            map.wf(),
            last == map.last,
            0 < count,
            frame <= last + 1,
            run_len < count,
            run_len <= frame,
            run_len > 0 ==> run_start == frame - run_len,
            forall|f: int| frame - run_len <= f < frame ==> map@.free.contains(f),
            forall|s: int| 0 <= s < frame - run_len ==> !free_run(map@, s, count as int),
        decreases last + 1 - frame,
    {
        if map.frame_is_free(frame) {
            if run_len == 0 {
                run_start = frame;
            }
            run_len += 1;
            if run_len == count {
                let ghost m = map@;
                assert(free_run(m, run_start as int, count as int));
                let mut f: u64 = run_start;
                let stop: u64 = run_start + count;
                assert(map@.free =~= run_taken(m, run_start as int, f - run_start).free);
                while f < stop
                    invariant
                        map.wf(),
                        run_start <= f <= stop <= 4194304,
                        map@ == run_taken(m, run_start as int, f - run_start),
                    decreases stop - f,
                {
                    map.set_frame(f);
                    f += 1;
                    assert(map@.free =~= run_taken(m, run_start as int, f - run_start).free);
                }
                return Some(run_start * FRAME_SIZE);
            }
        } else {
            proof {
                assert forall|s: int| 0 <= s < frame + 1 implies !free_run(
                    map@,
                    s,
                    count as int,
                ) by {
                    if s >= frame - run_len {
                        assert(s <= frame < s + count);
                        assert(!map@.free.contains(frame as int));
                    }
                }
            }
            run_len = 0;
        }
        frame += 1;
    }
    None
}

/// Releases a frame previously returned by `frame_alloc`/`alloc_contiguous`.
/// An address that is not the start of a frame below the limit is ignored.
pub fn frame_free(map: &mut FrameMap, phys: u64)
    requires
        old(map).wf(),
    ensures
        final(map).wf(),
        final(map)@ == if phys % 4096 != 0 || phys >= MAX_PHYS_MEM {
            old(map)@
        } else {
            Frames { free: old(map)@.free.insert(phys as int / 4096), ..old(map)@ }
        },
{
    if phys % FRAME_SIZE != 0 || phys >= MAX_PHYS_MEM {
        return;
    }
    map.clear_frame(phys / FRAME_SIZE);
}

pub fn free_frames(map: &FrameMap) -> (r: u64)
    requires
        map.wf(),
    ensures
        r == free_below(map@.free, map@.last + 1),
{
    count_free(map)
}

fn count_free(map: &FrameMap) -> (r: u64)
    requires
        map.wf(),
    ensures
        r == free_below(map@.free, map@.last + 1),
        r <= map@.last + 1,
{
    let mut free: u64 = 0;
    let mut frame: u64 = 0;
    while frame <= map.last
        invariant
            map.wf(),
            frame <= map.last + 1,
            free <= frame,
            free == free_below(map@.free, frame as int),
        decreases map.last + 1 - frame,
    {
        if map.frame_is_free(frame) {
            free += 1;
        }
        frame += 1;
    }
    free
}

pub fn used_frames(map: &FrameMap) -> (r: u64)
    requires
        map.wf(),
    ensures
        r == map@.last + 1 - free_below(map@.free, map@.last + 1),
{
    let total = map.last + 1;
    total - count_free(map)
}

pub fn total_frames(map: &FrameMap) -> (r: u64)
    requires
        map.wf(),
    ensures
        r == map@.last + 1,
{
    map.last + 1
}

/// Taking a free frame lowers the count of free frames by one.
pub proof fn law_taking_a_frame_counts(free: Set<int>, frame: int, n: int)
    requires
        free.contains(frame),
        0 <= frame,
    ensures
        free_below(free.remove(frame), n) == free_below(free, n) - if frame < n {
            1int
        } else {
            0
        },
    decreases n,
{
    if n > 0 {
        law_taking_a_frame_counts(free, frame, n - 1);
    }
}

/// Releasing a frame that was just allocated gives the same map back.
pub proof fn law_release_undoes_allocation(m: Frames, frame: int)
    requires
        m.free.contains(frame),
    ensures
        m.free.remove(frame).insert(frame) == m.free,
        !m.free.remove(frame).contains(frame),
{
    assert(m.free.remove(frame).insert(frame) =~= m.free);
}

/// Frames below the low reserved bound are not free after `init`, whatever
/// the memory map says.
pub proof fn law_low_memory_is_reserved(free: Set<int>, frame: int)
    requires
        0 <= frame,
        frame * 4096 < LOW_RESERVED_END,
    ensures
        !without(free, 0, LOW_RESERVED_END as int).contains(frame),
{
}

} // verus!
