//! The segment descriptors and the task state segment.

use vstd::arithmetic::div_mod::lemma_fundamental_div_mod_converse;
use vstd::prelude::*;

verus! {

pub const KERNEL_CODE: u16 = 0x08;

pub const KERNEL_DATA: u16 = 0x10;

pub const TSS_SELECTOR: u16 = 0x18;

/// The stack slot that a double fault switches to.
pub const DOUBLE_FAULT_IST: u8 = 1;

/// The 64-bit task state segment.
pub struct TaskStateSegment {
    pub rsp0: u64,
    pub rsp1: u64,
    pub rsp2: u64,
    /// The interrupt stacks; the slots count from 1.
    pub ist: [u64; 7],
    pub iomap_base: u16,
}

impl TaskStateSegment {
    pub fn new() -> (r: Self)
        ensures
            r.rsp0 == 0,
            r.rsp1 == 0,
            r.rsp2 == 0,
            r.ist@ == Seq::new(7, |i: int| 0u64),
            r.iomap_base == 0xFFFF,
    {
        let r = TaskStateSegment { rsp0: 0, rsp1: 0, rsp2: 0, ist: [0; 7], iomap_base: 0xFFFF };
        assert(r.ist@ =~= Seq::new(7, |i: int| 0u64));
        r
    }
}

/// The low word of a TSS descriptor: its limit (104 bytes), the type of an
/// available 64-bit TSS, and three pieces of the base address.
pub open spec fn descriptor_low(base: u64) -> u64 {
    (0x67 + base % 0x1_0000 * 0x1_0000 + base / 0x1_0000 % 0x100 * 0x1_0000_0000
        + 0x89 * 0x100_0000_0000 + base / 0x100_0000 % 0x100 * 0x100_0000_0000_0000) as u64
}

/// The base address in a TSS descriptor.
pub open spec fn descriptor_base(low: u64, high: u64) -> int {
    low as int / 0x1_0000 % 0x1_0000 + low as int / 0x1_0000_0000 % 0x100 * 0x1_0000 + low as int
        / 0x100_0000_0000_0000 * 0x100_0000 + high * 0x1_0000_0000
}

/// The processor finds the TSS where it is.
pub proof fn law_descriptor_finds_tss(base: u64)
    ensures
        descriptor_base(descriptor_low(base), (base / 0x1_0000_0000) as u64) == base,
        descriptor_low(base) as int / 0x100_0000_0000 % 0x100 == 0x89,
        descriptor_low(base) as int % 0x1_0000 == 0x67,
{
    let b = base as int;
    let p0 = b % 0x1_0000;
    let p1 = b / 0x1_0000 % 0x100;
    let p2 = b / 0x100_0000 % 0x100;
    let low = descriptor_low(base) as int;
    lemma_pieces(low, p0, p1, p2);
    assert(b == p0 + p1 * 0x1_0000 + p2 * 0x100_0000 + b / 0x1_0000_0000 * 0x1_0000_0000);
}

proof fn lemma_pieces(low: int, p0: int, p1: int, p2: int)
    requires
        0 <= p0 < 0x1_0000,
        0 <= p1 < 0x100,
        0 <= p2 < 0x100,
        low == 0x67 + p0 * 0x1_0000 + p1 * 0x1_0000_0000 + 0x89 * 0x100_0000_0000 + p2
            * 0x100_0000_0000_0000,
    ensures
        low % 0x1_0000 == 0x67,
        low / 0x1_0000 % 0x1_0000 == p0,
        low / 0x1_0000_0000 % 0x100 == p1,
        low / 0x100_0000_0000 % 0x100 == 0x89,
        low / 0x100_0000_0000_0000 == p2,
{
    let a = p0 + p1 * 0x1_0000 + 0x89 * 0x100_0000 + p2 * 0x100_0000_0000;
    let c = p1 + 0x89 * 0x100 + p2 * 0x100_0000;
    let d = 0x89 + p2 * 0x1_0000;
    lemma_fundamental_div_mod_converse(low, 0x1_0000, a, 0x67);
    lemma_fundamental_div_mod_converse(a, 0x1_0000, c, p0);
    lemma_fundamental_div_mod_converse(low, 0x1_0000_0000, c, 0x67 + p0 * 0x1_0000);
    lemma_fundamental_div_mod_converse(c, 0x100, d, p1);
    lemma_fundamental_div_mod_converse(
        low,
        0x100_0000_0000,
        d,
        0x67 + p0 * 0x1_0000 + p1 * 0x1_0000_0000,
    );
    lemma_fundamental_div_mod_converse(d, 0x100, p2 * 0x100, 0x89);
    lemma_fundamental_div_mod_converse(
        low,
        0x100_0000_0000_0000,
        p2,
        0x67 + p0 * 0x1_0000 + p1 * 0x1_0000_0000 + 0x89 * 0x100_0000_0000,
    );
}

/// The global descriptor table: null, kernel code, kernel data, and the two
/// words of the TSS descriptor.
pub open spec fn table(base: u64) -> Seq<u64> {
    seq![
        0u64,
        0x00209A0000000000u64,
        0x0000920000000000u64,
        descriptor_low(base),
        (base / 0x1_0000_0000) as u64,
    ]
}

/// Fills in the TSS: the kernel stack, and the double-fault stack in its
/// slot. Returns the descriptor table for a TSS at `base`.
pub fn init(tss: &mut TaskStateSegment, stack_top: u64, double_fault_top: u64, base: u64) -> (r:
    [u64; 5])
    ensures
        r@ == table(base),
        final(tss).rsp0 == stack_top,
        final(tss).ist@ == old(tss).ist@.update(DOUBLE_FAULT_IST - 1, double_fault_top),
        final(tss).rsp1 == old(tss).rsp1,
        final(tss).rsp2 == old(tss).rsp2,
        final(tss).iomap_base == old(tss).iomap_base,
{
    tss.rsp0 = stack_top;
    tss.ist[(DOUBLE_FAULT_IST - 1) as usize] = double_fault_top;
    let low = 0x67 + base % 0x1_0000 * 0x1_0000 + base / 0x1_0000 % 0x100 * 0x1_0000_0000 + 0x89
        * 0x100_0000_0000 + base / 0x100_0000 % 0x100 * 0x100_0000_0000_0000;
    let r = [0, 0x00209A0000000000, 0x0000920000000000, low, base / 0x1_0000_0000];
    assert(r@ =~= table(base));
    r
}

} // verus!
