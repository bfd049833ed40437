//! ELF64 executable parsing. `parse` validates the header and program
//! headers of a 64-bit little-endian ET_EXEC file (no relocations, no
//! dynamic linking) and returns the entry point plus the PT_LOAD
//! segments. All reads are bounds-checked against the input slice; any
//! malformed field yields an error string rather than a panic.

use crate::bytes::{get_le16, get_le32, get_le64, le16, le32, le64};
use vstd::prelude::*;

verus! {

const ELF_HEADER_SIZE: usize = 64;

const PROGRAM_HEADER_SIZE: u16 = 56;

const ELFCLASS64: u8 = 2;

const ELFDATA2LSB: u8 = 1;

const ET_EXEC: u16 = 2;

const EM_X86_64: u16 = 0x3E;

const PT_LOAD: u32 = 1;

const PF_W: u32 = 2;

/// One PT_LOAD segment, ready to be mapped. `memsz` can exceed
/// `filesz` (BSS): the loader zero-fills the difference.
#[derive(Clone, Copy, Debug, PartialEq, Eq, Structural)]
pub struct Segment {
    pub vaddr: u64,
    pub file_offset: u64,
    pub filesz: u64,
    pub memsz: u64,
    pub writable: bool,
}

#[derive(Debug)]
pub struct Program {
    pub entry: u64,
    pub segments: Vec<Segment>,
}

/// What is wrong with the file header, checked in this order.
pub open spec fn header_error(d: Seq<u8>) -> Option<&'static str> {
    if d.len() < 64 {
        Some("truncated ELF header")
    } else if !(d[0] == 0x7F && d[1] == 0x45 && d[2] == 0x4C && d[3] == 0x46) {
        Some("not an ELF file")
    } else if d[4] != 2 {
        Some("not a 64-bit ELF")
    } else if d[5] != 1 {
        Some("not a little-endian ELF")
    } else if le16(d, 16) != 2 {
        Some("not an executable (ET_EXEC)")
    } else if le16(d, 18) != 0x3E {
        Some("not an x86_64 ELF")
    } else if le16(d, 54) != 56 {
        Some("unexpected program header size")
    } else if le64(d, 32) + le16(d, 56) * 56 > u64::MAX {
        Some("program header table overflow")
    } else if le64(d, 32) + le16(d, 56) * 56 > d.len() {
        Some("program header table outside file")
    } else {
        None
    }
}

/// Where program header `i` starts.
pub open spec fn program_header(d: Seq<u8>, i: int) -> int {
    le64(d, 32) + i * 56
}

/// Whether the program header at `off` describes memory to load.
pub open spec fn loadable(d: Seq<u8>, off: int) -> bool {
    le32(d, off) == 1 && le64(d, off + 40) != 0
}

/// What is wrong with the loadable program header at `off`.
pub open spec fn segment_error(d: Seq<u8>, off: int) -> Option<&'static str> {
    if le64(d, off + 8) + le64(d, off + 32) > u64::MAX {
        Some("segment file range overflow")
    } else if le64(d, off + 8) + le64(d, off + 32) > d.len() {
        Some("segment data outside file")
    } else if le64(d, off + 32) > le64(d, off + 40) {
        Some("segment filesz exceeds memsz")
    } else {
        None
    }
}

/// The segment that the program header at `off` describes.
pub open spec fn segment(d: Seq<u8>, off: int) -> Segment {
    Segment {
        vaddr: le64(d, off + 16),
        file_offset: le64(d, off + 8),
        filesz: le64(d, off + 32),
        memsz: le64(d, off + 40),
        writable: le32(d, off + 4) & 2 != 0,
    }
}

/// The segments of the first `n` program headers, or the first fault.
pub open spec fn segments(d: Seq<u8>, n: nat) -> Result<Seq<Segment>, &'static str>
    decreases n,
{
    if n == 0 {
        Ok(Seq::empty())
    } else {
        let off = program_header(d, n - 1);
        match segments(d, (n - 1) as nat) {
            Err(e) => Err(e),
            Ok(s) => if !loadable(d, off) {
                Ok(s)
            } else {
                match segment_error(d, off) {
                    Some(e) => Err(e),
                    None => Ok(s.push(segment(d, off))),
                }
            },
        }
    }
}

/// Entry point and segments of an executable, or what is wrong with it.
pub open spec fn program(d: Seq<u8>) -> Result<(u64, Seq<Segment>), &'static str> {
    match header_error(d) {
        Some(e) => Err(e),
        None => match segments(d, le16(d, 56) as nat) {
            Err(e) => Err(e),
            Ok(s) => if s.len() == 0 {
                Err("no loadable segments")
            } else {
                Ok((le64(d, 24), s))
            },
        },
    }
}

proof fn lemma_segments_fault_persists(d: Seq<u8>, n: nat, m: nat)
    requires
        n <= m,
        segments(d, n) is Err,
    ensures
        segments(d, m) == segments(d, n),
    decreases m,
{
    if n < m {
        lemma_segments_fault_persists(d, n, (m - 1) as nat);
    }
}

fn read_u16(data: &[u8], off: usize) -> (r: Result<u16, &'static str>)
    requires
        off + 2 <= usize::MAX,
    ensures
        r == if off + 2 <= data@.len() {
            Ok(le16(data@, off as int))
        } else {
            Err("truncated ELF header")
        },
{
    if off + 2 <= data.len() {
        Ok(get_le16(data, off))
    } else {
        Err("truncated ELF header")
    }
}

fn read_u32(data: &[u8], off: usize) -> (r: Result<u32, &'static str>)
    requires
        off + 4 <= usize::MAX,
    ensures
        r == if off + 4 <= data@.len() {
            Ok(le32(data@, off as int))
        } else {
            Err("truncated ELF header")
        },
{
    if off + 4 <= data.len() {
        Ok(get_le32(data, off))
    } else {
        Err("truncated ELF header")
    }
}

fn read_u64(data: &[u8], off: usize) -> (r: Result<u64, &'static str>)
    requires
        off + 8 <= usize::MAX,
    ensures
        r == if off + 8 <= data@.len() {
            Ok(le64(data@, off as int))
        } else {
            Err("truncated ELF header")
        },
{
    if off + 8 <= data.len() {
        Ok(get_le64(data, off))
    } else {
        Err("truncated ELF header")
    }
}

pub fn parse(data: &[u8]) -> (r: Result<Program, &'static str>)
    ensures
        match program(data@) {
            Ok((entry, segs)) => r is Ok && r->Ok_0.entry == entry && r->Ok_0.segments@ == segs,
            Err(e) => r is Err && r->Err_0 == e,
        },
{
    if data.len() < ELF_HEADER_SIZE {
        return Err("truncated ELF header");
    }
    if !(data[0] == 0x7F && data[1] == 0x45 && data[2] == 0x4C && data[3] == 0x46) {
        return Err("not an ELF file");
    }
    if data[4] != ELFCLASS64 {
        return Err("not a 64-bit ELF");
    }
    if data[5] != ELFDATA2LSB {
        return Err("not a little-endian ELF");
    }
    if read_u16(data, 16)? != ET_EXEC {
        return Err("not an executable (ET_EXEC)");
    }
    if read_u16(data, 18)? != EM_X86_64 {
        return Err("not an x86_64 ELF");
    }
    let entry = read_u64(data, 24)?;
    let phoff = read_u64(data, 32)?;
    let phentsize = read_u16(data, 54)?;
    let phnum = read_u16(data, 56)?;
    if phentsize != PROGRAM_HEADER_SIZE {
        return Err("unexpected program header size");
    }
    let table_end = match phoff.checked_add(phnum as u64 * 56) {
        Some(end) => end,
        None => {
            return Err("program header table overflow");
        },
    };
    if table_end > data.len() as u64 {
        return Err("program header table outside file");
    }
    let mut found: Vec<Segment> = Vec::new();
    let mut i: u16 = 0;
    while i < phnum
        invariant
            i <= phnum,
            phnum == le16(data@, 56),
            phoff == le64(data@, 32),
            phoff + phnum * 56 <= data@.len(),
            data.len() == data@.len(),
            header_error(data@) is None,
            segments(data@, i as nat) == Ok::<Seq<Segment>, &'static str>(found@),
        decreases phnum - i,
    {
        let off = (phoff + i as u64 * 56) as usize;
        let ghost k = (i + 1) as nat;
        assert(off == program_header(data@, i as int));
        assert(off + 56 <= data@.len());
        i += 1;
        proof {
            if segments(data@, k) is Err {
                lemma_segments_fault_persists(data@, k, phnum as nat);
            }
        }
        let p_type = read_u32(data, off)?;
        if p_type != PT_LOAD {
            continue;
        }
        let p_flags = read_u32(data, off + 4)?;
        let p_offset = read_u64(data, off + 8)?;
        let p_vaddr = read_u64(data, off + 16)?;
        let p_filesz = read_u64(data, off + 32)?;
        let p_memsz = read_u64(data, off + 40)?;
        if p_memsz == 0 {
            continue;
        }
        let file_end = match p_offset.checked_add(p_filesz) {
            Some(end) => end,
            None => {
                return Err("segment file range overflow");
            },
        };
        if file_end > data.len() as u64 {
            return Err("segment data outside file");
        }
        if p_filesz > p_memsz {
            return Err("segment filesz exceeds memsz");
        }
        found.push(
            Segment {
                vaddr: p_vaddr,
                file_offset: p_offset,
                filesz: p_filesz,
                memsz: p_memsz,
                writable: p_flags & PF_W != 0,
            },
        );
    }
    if found.is_empty() {
        return Err("no loadable segments");
    }
    Ok(Program { entry, segments: found })
}

proof fn lemma_segments_well_formed(d: Seq<u8>, n: nat)
    requires
        segments(d, n) is Ok,
    ensures
        segments(d, n)->Ok_0.len() <= n,
        forall|i: int|
            #![trigger segments(d, n)->Ok_0[i]]
            0 <= i < segments(d, n)->Ok_0.len() ==> {
                let s = segments(d, n)->Ok_0[i];
                &&& s.file_offset + s.filesz <= d.len()
                &&& s.filesz <= s.memsz
                &&& s.memsz > 0
            },
    decreases n,
{
    if n > 0 {
        lemma_segments_well_formed(d, (n - 1) as nat);
    }
}

/// Every segment of an accepted file has its data inside the file, fills
/// no less memory than it has data, and is not empty; there is at least one.
pub proof fn law_segments_inside_file(d: Seq<u8>)
    requires
        program(d) is Ok,
    ensures
        program(d)->Ok_0.1.len() > 0,
        forall|i: int|
            #![trigger program(d)->Ok_0.1[i]]
            0 <= i < program(d)->Ok_0.1.len() ==> {
                let s = program(d)->Ok_0.1[i];
                &&& s.file_offset + s.filesz <= d.len()
                &&& s.filesz <= s.memsz
                &&& s.memsz > 0
            },
{
    lemma_segments_well_formed(d, le16(d, 56) as nat);
}

/// The number in the `n` bytes at `i`, low byte first.
pub open spec fn number(d: Seq<u8>, i: int, n: nat) -> int
    decreases n,
{
    if n == 0 {
        0
    } else {
        d[i] + 256 * number(d, i + 1, (n - 1) as nat)
    }
}

proof fn lemma_number(d: Seq<u8>, i: int)
    ensures
        number(d, i, 2) == le16(d, i),
        number(d, i, 4) == le32(d, i),
        number(d, i, 8) == le64(d, i),
{
    reveal_with_fuel(number, 9);
    let lo = d[i] + 256 * d[i + 1] + 65536 * d[i + 2] + 16777216 * d[i + 3];
    let hi = d[i + 4] + 256 * d[i + 5] + 65536 * d[i + 6] + 16777216 * d[i + 7];
    assert(le32(d, i) == lo);
    assert(le32(d, i + 4) == hi);
    assert(number(d, i, 4) == lo);
    assert(number(d, i, 8) == lo + 0x1_0000_0000 * hi);
}

/// Whether the file is a 64-bit little-endian executable for this machine
/// with `n` program headers of 56 bytes at `at`.
pub open spec fn is_executable(d: Seq<u8>, at: int, n: int) -> bool {
    &&& d.len() >= 64
    &&& d[0] == 0x7F && d[1] == 0x45 && d[2] == 0x4C && d[3] == 0x46
    &&& d[4] == 2 && d[5] == 1
    &&& number(d, 16, 2) == 2
    &&& number(d, 18, 2) == 62
    &&& number(d, 32, 8) == at
    &&& number(d, 54, 2) == 56
    &&& number(d, 56, 2) == n
    &&& at + 56 * n <= d.len() <= u64::MAX
}

/// An executable with one program header, of kind 1 and with memory to fill,
/// is that one segment: its place in the file, its address, its lengths in
/// the file and in memory, and whether it may be written to stand in the
/// header; the entry point stands in the file header.
#[verifier::spinoff_prover]
pub proof fn law_one_segment(d: Seq<u8>, at: int, offset: u64, vaddr: u64, filesz: u64, memsz: u64, flags: u32)
    requires
        is_executable(d, at, 1),
        number(d, at, 4) == 1,
        number(d, at + 4, 4) == flags,
        number(d, at + 8, 8) == offset,
        number(d, at + 16, 8) == vaddr,
        number(d, at + 32, 8) == filesz,
        number(d, at + 40, 8) == memsz,
        offset + filesz <= d.len(),
        filesz <= memsz,
        memsz > 0,
    ensures
        program(d) matches Ok((entry, ss)) && entry == number(d, 24, 8) && ss.len() == 1 && ss[0] == (Segment {
            vaddr,
            file_offset: offset,
            filesz,
            memsz,
            writable: flags / 2 % 2 == 1,
        }),
{
    lemma_number(d, 16);
    lemma_number(d, 18);
    lemma_number(d, 24);
    lemma_number(d, 32);
    lemma_number(d, 54);
    lemma_number(d, 56);
    lemma_number(d, at);
    lemma_number(d, at + 4);
    lemma_number(d, at + 8);
    lemma_number(d, at + 16);
    lemma_number(d, at + 32);
    lemma_number(d, at + 40);
    assert((flags & 2 != 0) == (flags / 2 % 2 == 1)) by (bit_vector);
    assert(header_error(d) is None);
    assert(program_header(d, 0) == at);
    assert(segment_error(d, at) is None);
    reveal_with_fuel(segments, 2);
    assert(segments(d, 0) == Ok::<Seq<Segment>, &'static str>(Seq::empty()));
    assert(segments(d, 1) == Ok::<Seq<Segment>, &'static str>(Seq::<Segment>::empty().push(segment(d, at))));
}

} // verus!
