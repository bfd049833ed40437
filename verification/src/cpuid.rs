//! What the CPUID leaves say about the processor.

use crate::bytes::le32_bytes;
use vstd::prelude::*;

verus! {

/// The registers that one CPUID leaf returned.
#[derive(Clone, Copy, Debug, PartialEq, Eq, Structural)]
pub struct Leaf {
    pub eax: u32,
    pub ebx: u32,
    pub ecx: u32,
    pub edx: u32,
}

/// The sixteen bytes of a leaf in register order.
pub open spec fn leaf_bytes(l: Leaf) -> Seq<u8> {
    le32_bytes(l.eax) + le32_bytes(l.ebx) + le32_bytes(l.ecx) + le32_bytes(l.edx)
}

fn byte_of(v: u32, i: usize) -> (r: u8)
    requires
        i < 4,
    ensures
        r == le32_bytes(v)[i as int],
{
    if i == 0 {
        (v % 0x100) as u8
    } else if i == 1 {
        (v / 0x100 % 0x100) as u8
    } else if i == 2 {
        (v / 0x1_0000 % 0x100) as u8
    } else {
        (v / 0x100_0000) as u8
    }
}

fn leaf_byte(leaf: Leaf, i: usize) -> (r: u8)
    requires
        i < 16,
    ensures
        r == leaf_bytes(leaf)[i as int],
{
    if i < 4 {
        byte_of(leaf.eax, i)
    } else if i < 8 {
        byte_of(leaf.ebx, i - 4)
    } else if i < 12 {
        byte_of(leaf.ecx, i - 8)
    } else {
        byte_of(leaf.edx, i - 12)
    }
}

/// The vendor string, out of leaf 0.
pub fn vendor_id(leaf0: Leaf) -> (r: [u8; 12])
    ensures
        r@ == le32_bytes(leaf0.ebx) + le32_bytes(leaf0.edx) + le32_bytes(leaf0.ecx),
{
    let (b, d, c) = (leaf0.ebx, leaf0.edx, leaf0.ecx);
    let r = [
        byte_of(b, 0), byte_of(b, 1), byte_of(b, 2), byte_of(b, 3),
        byte_of(d, 0), byte_of(d, 1), byte_of(d, 2), byte_of(d, 3),
        byte_of(c, 0), byte_of(c, 1), byte_of(c, 2), byte_of(c, 3),
    ];
    assert(r@ =~= le32_bytes(leaf0.ebx) + le32_bytes(leaf0.edx) + le32_bytes(leaf0.ecx));
    r
}

/// The highest extended leaf, out of leaf 0x8000_0000.
pub fn max_extended_leaf(extended0: Leaf) -> (r: u32)
    ensures
        r == extended0.eax,
{
    extended0.eax
}

/// The brand string, out of leaf 0x8000_0000 and the three leaves
/// 0x8000_0002 to 0x8000_0004; `None` where the processor lacks them.
pub fn brand_string(extended0: Leaf, leaves: [Leaf; 3]) -> (r: Option<[u8; 48]>)
    ensures
        r is Some <==> extended0.eax >= 0x8000_0004,
        r is Some ==> r->0@ == leaf_bytes(leaves@[0]) + leaf_bytes(leaves@[1]) + leaf_bytes(
            leaves@[2],
        ),
{
    if max_extended_leaf(extended0) < 0x8000_0004 {
        return None;
    }
    let mut brand: [u8; 48] = [0u8; 48];
    let ghost all = leaf_bytes(leaves@[0]) + leaf_bytes(leaves@[1]) + leaf_bytes(leaves@[2]);
    let mut k: usize = 0;
    while k < 48
        invariant
            k <= 48,
            all == leaf_bytes(leaves@[0]) + leaf_bytes(leaves@[1]) + leaf_bytes(leaves@[2]),
            forall|j: int| 0 <= j < k ==> #[trigger] brand@[j] == all[j],
        decreases 48 - k,
    {
        let leaf: usize = if k < 16 { 0 } else if k < 32 { 1 } else { 2 };
        brand[k] = leaf_byte(leaves[leaf], k - leaf * 16);
        assert(leaf_bytes(leaves@[leaf as int])[k - leaf * 16] == all[k as int]);
        k += 1;
    }
    assert(brand@ =~= all);
    Some(brand)
}

/// The number of logical cores, out of leaf 1.
pub fn cores(leaf1: Leaf) -> (r: u32)
    ensures
        r == leaf1.ebx / 0x1_0000 % 0x100 + 1,
{
    let ebx = leaf1.ebx;
    assert((ebx >> 16) & 0xFF == ebx / 0x1_0000 % 0x100) by (bit_vector);
    ((ebx >> 16) & 0xFF) + 1
}

/// The name alone where the bit of `mask` is set in `word`.
pub open spec fn flag(word: u32, mask: u32, name: &'static str) -> Seq<&'static str> {
    if word & mask != 0 {
        seq![name]
    } else {
        Seq::empty()
    }
}

/// The names of the features that leaf 1 reports.
pub open spec fn feature_names(l: Leaf) -> Seq<&'static str> {
    flag(l.edx, 0x1, "FPU") + flag(l.edx, 0x40, "PAE") + flag(l.edx, 0x80, "PGE") + flag(
        l.edx,
        0x200_0000,
        "SSE",
    ) + flag(l.edx, 0x400_0000, "SSE2") + flag(l.edx, 0x2000_0000, "LM") + flag(
        l.ecx,
        0x1,
        "SSE3",
    ) + flag(l.ecx, 0x200, "SSSE3") + flag(l.ecx, 0x8_0000, "SSE4.1") + flag(
        l.ecx,
        0x10_0000,
        "SSE4.2",
    ) + flag(l.ecx, 0x1000_0000, "AVX")
}

fn push_flag(out: &mut Vec<&'static str>, word: u32, mask: u32, name: &'static str)
    ensures
        final(out)@ == old(out)@ + flag(word, mask, name),
{
    if word & mask != 0 {
        out.push(name);
    }
    assert(out@ =~= old(out)@ + flag(word, mask, name));
}

/// The names of the processor's features, out of leaf 1.
pub fn features(leaf1: Leaf) -> (r: Vec<&'static str>)
    ensures
        r@ == feature_names(leaf1),
{
    let mut out: Vec<&'static str> = Vec::new();
    let (ecx, edx) = (leaf1.ecx, leaf1.edx);
    push_flag(&mut out, edx, 0x1, "FPU");
    push_flag(&mut out, edx, 0x40, "PAE");
    push_flag(&mut out, edx, 0x80, "PGE");
    push_flag(&mut out, edx, 0x200_0000, "SSE");
    push_flag(&mut out, edx, 0x400_0000, "SSE2");
    push_flag(&mut out, edx, 0x2000_0000, "LM");
    push_flag(&mut out, ecx, 0x1, "SSE3");
    push_flag(&mut out, ecx, 0x200, "SSSE3");
    push_flag(&mut out, ecx, 0x8_0000, "SSE4.1");
    push_flag(&mut out, ecx, 0x10_0000, "SSE4.2");
    push_flag(&mut out, ecx, 0x1000_0000, "AVX");
    assert(out@ =~= feature_names(leaf1));
    out
}

/// A leaf's bytes are its four registers in order, low byte first.
pub proof fn law_leaf_bytes(l: Leaf)
    ensures
        ({
            let b = leaf_bytes(l);
            &&& b.len() == 16
            &&& b[0] + b[1] * 0x100 + b[2] * 0x1_0000 + b[3] * 0x100_0000 == l.eax
            &&& b[4] + b[5] * 0x100 + b[6] * 0x1_0000 + b[7] * 0x100_0000 == l.ebx
            &&& b[8] + b[9] * 0x100 + b[10] * 0x1_0000 + b[11] * 0x100_0000 == l.ecx
            &&& b[12] + b[13] * 0x100 + b[14] * 0x1_0000 + b[15] * 0x100_0000 == l.edx
        }),
{
    let b = leaf_bytes(l);
    lemma_word(b, 0, l.eax);
    lemma_word(b, 4, l.ebx);
    lemma_word(b, 8, l.ecx);
    lemma_word(b, 12, l.edx);
}

proof fn lemma_word(b: Seq<u8>, at: int, v: u32)
    requires
        b[at] == le32_bytes(v)[0],
        b[at + 1] == le32_bytes(v)[1],
        b[at + 2] == le32_bytes(v)[2],
        b[at + 3] == le32_bytes(v)[3],
    ensures
        b[at] + b[at + 1] * 0x100 + b[at + 2] * 0x1_0000 + b[at + 3] * 0x100_0000 == v,
{
    crate::bytes::lemma_le32_round_trip(v);
}

} // verus!
