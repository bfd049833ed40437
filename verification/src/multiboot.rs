//! The Multiboot information block that the boot loader leaves in memory.

use crate::bytes::{get_le32, get_le64, le32, le64};
use vstd::prelude::*;

verus! {

pub const MAGIC: u32 = 0x2BADB002;

/// The information block at `addr` in the identity-mapped `memory`.
pub struct MultibootInfo<'a> {
    memory: &'a [u8],
    addr: usize,
}

/// The bytes from `addr` up to the first zero.
pub open spec fn is_cstr(memory: Seq<u8>, addr: int, text: Seq<u8>) -> bool {
    &&& 0 <= addr
    &&& addr + text.len() < memory.len()
    &&& memory[addr + text.len()] == 0
    &&& text == memory.subrange(addr, addr + text.len() as int)
    &&& !text.contains(0)
}

/// Whether a zero byte stands at or behind `addr`.
pub open spec fn terminated(memory: Seq<u8>, addr: int) -> bool {
    exists|i: int| addr <= i < memory.len() && memory[i] == 0
}

impl<'a> MultibootInfo<'a> {
    pub closed spec fn mem(&self) -> Seq<u8> {
        self.memory@
    }

    pub closed spec fn base(&self) -> int {
        self.addr as int
    }

    /// The fixed part of the block lies in memory.
    pub open spec fn wf(&self) -> bool {
        0 <= self.base() && self.base() + 116 <= self.mem().len()
    }

    /// The 32-bit field at `offset`.
    pub open spec fn field(&self, offset: int) -> u32 {
        le32(self.mem(), self.base() + offset)
    }

    /// Whether the loader filled in what `mask` stands for.
    pub open spec fn has(&self, mask: u32) -> bool {
        self.field(0) & mask != 0
    }

    pub fn new(memory: &'a [u8], addr: usize) -> (r: Self)
        ensures
            r.mem() == memory@,
            r.base() == addr,
    {
        MultibootInfo { memory, addr }
    }

    fn read_u32(&self, offset: usize) -> (r: u32)
        requires
            self.wf(),
            offset + 4 <= 116,
        ensures
            r == self.field(offset as int),
    {
        assert(self.memory@.len() == self.memory.len());
        get_le32(self.memory, self.addr + offset)
    }

    fn read_u64(&self, offset: usize) -> (r: u64)
        requires
            self.wf(),
            offset + 8 <= 116,
        ensures
            r == le64(self.mem(), self.base() + offset),
    {
        assert(self.memory@.len() == self.memory.len());
        get_le64(self.memory, self.addr + offset)
    }

    fn read_u8(&self, offset: usize) -> (r: u8)
        requires
            self.wf(),
            offset < 116,
        ensures
            r == self.mem()[self.base() + offset],
    {
        assert(self.memory@.len() == self.memory.len());
        self.memory[self.addr + offset]
    }

    pub fn flags(&self) -> (r: u32)
        requires
            self.wf(),
        ensures
            r == self.field(0),
    {
        self.read_u32(0)
    }

    pub fn memory_lower_kb(&self) -> (r: Option<u32>)
        requires
            self.wf(),
        ensures
            r == if self.has(1) {
                Some(self.field(4))
            } else {
                None
            },
    {
        if self.flags() & 1 != 0 {
            Some(self.read_u32(4))
        } else {
            None
        }
    }

    pub fn memory_upper_kb(&self) -> (r: Option<u32>)
        requires
            self.wf(),
        ensures
            r == if self.has(1) {
                Some(self.field(8))
            } else {
                None
            },
    {
        if self.flags() & 1 != 0 {
            Some(self.read_u32(8))
        } else {
            None
        }
    }

    /// The kernel command line, without its terminating zero.
    pub fn cmdline(&self) -> (r: Option<&'a [u8]>)
        requires
            self.wf(),
            self.has(4) ==> terminated(self.mem(), self.field(16) as int),
        ensures
            r is Some <==> self.has(4),
            r is Some ==> is_cstr(self.mem(), self.field(16) as int, r->0@),
    {
        if self.flags() & 4 == 0 {
            return None;
        }
        Some(cstr(self.memory, self.read_u32(16) as usize))
    }

    /// The boot loader's name, without its terminating zero.
    pub fn boot_loader_name(&self) -> (r: Option<&'a [u8]>)
        requires
            self.wf(),
            self.has(0x200) ==> terminated(self.mem(), self.field(64) as int),
        ensures
            r is Some <==> self.has(0x200),
            r is Some ==> is_cstr(self.mem(), self.field(64) as int, r->0@),
    {
        if self.flags() & 0x200 == 0 {
            return None;
        }
        Some(cstr(self.memory, self.read_u32(64) as usize))
    }

    /// The memory map, as an iterator over its regions.
    pub fn memory_map(&self) -> (r: MemoryMapIter<'a>)
        requires
            self.wf(),
        ensures
            r.mem() == self.mem(),
            self.has(0x40) ==> r.at() == self.field(48) && r.stop() == self.field(48) + self.field(
                44,
            ),
            !self.has(0x40) ==> r.at() == 0 && r.stop() == 0,
    {
        if self.flags() & 0x40 == 0 {
            return MemoryMapIter::empty(self.memory);
        }
        let length = self.read_u32(44) as u64;
        let start = self.read_u32(48) as u64;
        MemoryMapIter { memory: self.memory, current: start, end: start + length }
    }

    /// The framebuffer fields, where the loader set them.
    pub open spec fn shown_framebuffer(&self) -> Option<FramebufferInfo> {
        let info = FramebufferInfo {
            addr: le64(self.mem(), self.base() + 88),
            pitch: self.field(96),
            width: self.field(100),
            height: self.field(104),
            bpp: self.mem()[self.base() + 108],
        };
        if self.has(0x1000) && info.addr != 0 && info.width != 0 && info.height != 0 && info.bpp
            != 0 {
            Some(info)
        } else {
            None
        }
    }

    /// The linear framebuffer, if the loader set one up.
    pub fn framebuffer(&self) -> (r: Option<FramebufferInfo>)
        requires
            self.wf(),
        ensures
            r == self.shown_framebuffer(),
    {
        if self.flags() & 0x1000 == 0 {
            return None;
        }
        let addr = self.read_u64(88);
        let pitch = self.read_u32(96);
        let width = self.read_u32(100);
        let height = self.read_u32(104);
        let bpp = self.read_u8(108);
        if addr == 0 || width == 0 || height == 0 || bpp == 0 {
            return None;
        }
        Some(FramebufferInfo { addr, pitch, width, height, bpp })
    }
}

#[derive(Clone, Copy, Debug, PartialEq, Eq, Structural)]
pub struct FramebufferInfo {
    pub addr: u64,
    pub pitch: u32,
    pub width: u32,
    pub height: u32,
    pub bpp: u8,
}

fn cstr(memory: &[u8], addr: usize) -> (r: &[u8])
    requires
        terminated(memory@, addr as int),
    ensures
        is_cstr(memory@, addr as int, r@),
{
    assert(memory@.len() == memory.len());
    let ghost stop = choose|i: int| addr <= i < memory@.len() && memory@[i] == 0;
    let mut end = addr;
    while memory[end] != 0
        invariant
            addr <= end <= stop < memory@.len(),
            memory@.len() == memory.len(),
            memory@[stop] == 0,
            forall|i: int| addr <= i < end ==> memory@[i] != 0,
        decreases stop - end,
    {
        end += 1;
    }
    let r = vstd::slice::slice_subrange(memory, addr, end);
    assert(r@.len() == end - addr);
    r
}

#[derive(Clone, Copy, Debug, PartialEq, Eq, Structural)]
pub struct MemoryRegion {
    pub base: u64,
    pub length: u64,
    pub region_type: u32,
}

impl MemoryRegion {
    pub fn kind_name(&self) -> (r: &'static str)
        ensures
            r == match self.region_type {
                1 => "usable",
                2 => "reserved",
                3 => "ACPI reclaimable",
                4 => "ACPI NVS",
                5 => "bad RAM",
                _ => "unknown",
            },
    {
        match self.region_type {
            1 => "usable",
            2 => "reserved",
            3 => "ACPI reclaimable",
            4 => "ACPI NVS",
            5 => "bad RAM",
            _ => "unknown",
        }
    }
}

/// The position of a walk over the memory map.
pub struct MemoryMapIter<'a> {
    memory: &'a [u8],
    current: u64,
    end: u64,
}

/// Where the entry behind the one at `at` starts: past its size word and
/// its body, on the next multiple of eight.
pub open spec fn next_entry(memory: Seq<u8>, at: int) -> int {
    (at + le32(memory, at) + 11) / 8 * 8
}

/// The region that the entry at `at` describes.
pub open spec fn region_at(memory: Seq<u8>, at: int) -> MemoryRegion {
    MemoryRegion {
        base: le64(memory, at + 4),
        length: le64(memory, at + 12),
        region_type: le32(memory, at + 20),
    }
}

impl<'a> MemoryMapIter<'a> {
    pub closed spec fn mem(&self) -> Seq<u8> {
        self.memory@
    }

    pub closed spec fn at(&self) -> int {
        self.current as int
    }

    pub closed spec fn stop(&self) -> int {
        self.end as int
    }

    /// A walk over nothing.
    pub fn empty(memory: &'a [u8]) -> (r: Self)
        ensures
            r.mem() == memory@,
            r.at() == 0,
            r.stop() == 0,
    {
        MemoryMapIter { memory, current: 0, end: 0 }
    }

    /// The region at the current position; the walk moves on to the next. An
    /// entry that is not in memory ends it.
    pub fn next(&mut self) -> (r: Option<MemoryRegion>)
        requires
            old(self).mem().len() < 0x1_0000_0000_0000,
        ensures
            final(self).mem() == old(self).mem(),
            final(self).stop() == old(self).stop(),
            old(self).at() >= old(self).stop() || old(self).at() + 24 > old(self).mem().len() ==> r
                is None && final(self).at() == old(self).at(),
            old(self).at() < old(self).stop() && old(self).at() + 24 <= old(self).mem().len() ==> r
                == Some(
                region_at(old(self).mem(), old(self).at()),
            ) && final(self).at() == next_entry(old(self).mem(), old(self).at()),
    {
        assert(self.memory@.len() == self.memory.len());
        let len = self.memory.len() as u64;
        if self.current >= self.end || len < 24 || self.current > len - 24 {
            return None;
        }
        let at = self.current as usize;
        let size = get_le32(self.memory, at) as u64;
        let base = get_le64(self.memory, at + 4);
        let length = get_le64(self.memory, at + 12);
        let region_type = get_le32(self.memory, at + 20);
        self.current = (self.current + size + 11) / 8 * 8;
        Some(MemoryRegion { base, length, region_type })
    }
}

} // verus!
