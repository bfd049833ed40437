//! The kernel heap: a first-fit free list over one contiguous range, kept
//! in address order, with neighbouring free blocks merged.

use vstd::prelude::*;

verus! {

pub const MIN_ALIGN: usize = 16;

/// The bytes of a block's header.
pub const HEADER: usize = 16;

pub const HEAP_SIZE: usize = 8 * 1024 * 1024;

/// A block: its header at `addr`, then `size` bytes.
#[derive(Clone, Copy, Debug, PartialEq, Eq, Structural)]
pub struct Block {
    pub addr: usize,
    pub size: usize,
}

/// The address behind a block.
pub open spec fn end_of(b: Block) -> int {
    b.addr + 16 + b.size
}

/// The heap's blocks: the free ones in address order, and those handed out.
pub struct FreeListAllocator {
    free: Vec<Block>,
    used: Vec<Block>,
    allocated: usize,
    total: usize,
    start: usize,
}

/// The state of the heap.
pub struct HeapState {
    pub free: Seq<Block>,
    pub used: Seq<Block>,
    pub allocated: nat,
    pub start: int,
    pub total: nat,
}

impl View for FreeListAllocator {
    type V = HeapState;

    closed spec fn view(&self) -> HeapState {
        HeapState {
            free: self.free@,
            used: self.used@,
            allocated: self.allocated as nat,
            start: self.start as int,
            total: self.total as nat,
        }
    }
}

/// A block inside the heap, on the grid of the minimal alignment.
pub open spec fn in_heap(h: HeapState, b: Block) -> bool {
    h.start <= b.addr && end_of(b) <= h.start + h.total && (b.addr - h.start) % 16 == 0 && b.size
        % 16 == 0
}

pub open spec fn apart(a: Block, b: Block) -> bool {
    end_of(a) <= b.addr || end_of(b) <= a.addr
}

/// The bytes of blocks with their headers.
pub open spec fn span(s: Seq<Block>) -> int
    decreases s.len(),
{
    if s.len() == 0 {
        0
    } else {
        span(s.drop_last()) + 16 + s.last().size
    }
}

/// The bytes of blocks without their headers.
pub open spec fn payload(s: Seq<Block>) -> int
    decreases s.len(),
{
    if s.len() == 0 {
        0
    } else {
        payload(s.drop_last()) + s.last().size
    }
}

/// What holds of the heap between calls: blocks lie in the heap and apart
/// from each other, free blocks are in address order with something between
/// any two, and free and used blocks together make up the whole heap.
pub open spec fn heap_ok(h: HeapState) -> bool {
    &&& 0 <= h.start
    &&& h.start + h.total <= usize::MAX
    &&& forall|i: int| 0 <= i < h.free.len() ==> in_heap(h, #[trigger] h.free[i])
    &&& forall|i: int| 0 <= i < h.used.len() ==> in_heap(h, #[trigger] h.used[i])
    &&& forall|i: int, j: int|
        #![trigger h.free[i], h.free[j]]
        0 <= i < j < h.free.len() ==> end_of(h.free[i]) < h.free[j].addr
    &&& forall|i: int, j: int|
        #![trigger h.used[i], h.used[j]]
        0 <= i < j < h.used.len() ==> apart(h.used[i], h.used[j])
    &&& forall|i: int, j: int|
        #![trigger h.free[i], h.used[j]]
        0 <= i < h.free.len() && 0 <= j < h.used.len() ==> apart(h.free[i], h.used[j])
    &&& span(h.free) + span(h.used) == h.total
    &&& h.allocated <= payload(h.used)
}

/// A size rounded up to the minimal alignment.
pub open spec fn rounded(size: int) -> int {
    (size + 15) / 16 * 16
}

/// The first free block from `i` on with at least `n` bytes.
pub open spec fn first_fit(free: Seq<Block>, n: int, i: int) -> int
    decreases free.len() - i,
{
    if i >= free.len() || free[i].size >= n {
        i
    } else {
        first_fit(free, n, i + 1)
    }
}

/// The heap after a request for `size` bytes, and the address handed out.
/// A block that is much larger than needed is split.
pub open spec fn after_alloc(h: HeapState, size: int) -> (Option<usize>, HeapState) {
    let n = rounded(size);
    let i = first_fit(h.free, n, 0);
    if i >= h.free.len() {
        (None, h)
    } else {
        let b = h.free[i];
        let taken = Block { addr: b.addr, size: if b.size >= n + 32 { n as usize } else { b.size } };
        (
            Some((b.addr + 16) as usize),
            HeapState {
                free: if b.size >= n + 32 {
                    h.free.update(
                        i,
                        Block { addr: (b.addr + 16 + n) as usize, size: (b.size - n - 16) as usize },
                    )
                } else {
                    h.free.remove(i)
                },
                used: h.used.push(taken),
                allocated: (h.allocated + n) as nat,
                ..h
            },
        )
    }
}

/// How many of the free blocks from `i` on lie before `addr`.
pub open spec fn place_for(free: Seq<Block>, addr: int, i: int) -> int
    decreases free.len() - i,
{
    if i >= free.len() || free[i].addr >= addr {
        i
    } else {
        place_for(free, addr, i + 1)
    }
}

/// The free list after a block came back: it goes to its place in address
/// order and is merged with the block behind it and the one before it where
/// they touch.
pub open spec fn with_freed(free: Seq<Block>, b: Block) -> Seq<Block> {
    let p = place_for(free, b.addr as int, 0);
    let next = p < free.len() && end_of(b) == free[p].addr;
    let merged = if next {
        Block { addr: b.addr, size: (b.size + 16 + free[p].size) as usize }
    } else {
        b
    };
    let tail = free.skip(if next { p + 1 } else { p });
    if p > 0 && end_of(free[p - 1]) == b.addr {
        free.take(p - 1).push(
            Block {
                addr: free[p - 1].addr,
                size: (free[p - 1].size + 16 + merged.size) as usize,
            },
        ) + tail
    } else {
        free.take(p).push(merged) + tail
    }
}

proof fn lemma_span_append(a: Seq<Block>, b: Seq<Block>)
    ensures
        span(a + b) == span(a) + span(b),
        payload(a + b) == payload(a) + payload(b),
    decreases b.len(),
{
    if b.len() == 0 {
        assert(a + b =~= a);
    } else {
        lemma_span_append(a, b.drop_last());
        assert((a + b).drop_last() =~= a + b.drop_last());
    }
}

proof fn lemma_span_split(s: Seq<Block>, i: int)
    requires
        0 <= i < s.len(),
    ensures
        span(s) == span(s.take(i)) + (16 + s[i].size) + span(s.skip(i + 1)),
        payload(s) == payload(s.take(i)) + s[i].size + payload(s.skip(i + 1)),
{
    let one = seq![s[i]];
    assert(s =~= s.take(i) + one + s.skip(i + 1));
    lemma_span_append(s.take(i) + one, s.skip(i + 1));
    lemma_span_append(s.take(i), one);
    assert(one.drop_last() =~= Seq::<Block>::empty());
    assert(span(one.drop_last()) == 0 && payload(one.drop_last()) == 0);
}

proof fn lemma_span_nonneg(s: Seq<Block>)
    ensures
        span(s) >= 0,
        0 <= payload(s) <= span(s),
    decreases s.len(),
{
    if s.len() > 0 {
        lemma_span_nonneg(s.drop_last());
    }
}

proof fn lemma_first_fit(free: Seq<Block>, n: int, i: int)
    requires
        0 <= i <= free.len(),
    ensures
        i <= first_fit(free, n, i) <= free.len(),
        first_fit(free, n, i) < free.len() ==> free[first_fit(free, n, i)].size >= n,
    decreases free.len() - i,
{
    if i < free.len() && free[i].size < n {
        lemma_first_fit(free, n, i + 1);
    }
}

proof fn lemma_place_for(free: Seq<Block>, addr: int, i: int)
    requires
        0 <= i <= free.len(),
    ensures
        i <= place_for(free, addr, i) <= free.len(),
        forall|k: int| i <= k < place_for(free, addr, i) ==> (#[trigger] free[k]).addr < addr,
        place_for(free, addr, i) < free.len() ==> free[place_for(free, addr, i)].addr >= addr,
    decreases free.len() - i,
{
    if i < free.len() && free[i].addr < addr {
        lemma_place_for(free, addr, i + 1);
    }
}

/// A request keeps the heap in order.
#[verifier::spinoff_prover]
#[verifier::rlimit(60)]
pub proof fn law_alloc_keeps_heap(h: HeapState, size: int)
    requires
        heap_ok(h),
        0 <= size,
    ensures
        heap_ok(after_alloc(h, size).1),
{
    let n = rounded(size);
    let i = first_fit(h.free, n, 0);
    lemma_first_fit(h.free, n, 0);
    if i < h.free.len() {
        let g = after_alloc(h, size).1;
        let b = h.free[i];
        assert(in_heap(h, b));
        let taken = g.used.last();
        assert(g.used.drop_last() =~= h.used);
        lemma_span_split(h.free, i);
        lemma_span_nonneg(h.free);
        lemma_span_nonneg(h.used);
        if b.size >= n + 32 {
            let rest = Block { addr: (b.addr + 16 + n) as usize, size: (b.size - n - 16) as usize };
            assert(g.free =~= h.free.update(i, rest));
            lemma_span_split(g.free, i);
            assert(g.free.take(i) =~= h.free.take(i));
            assert(g.free.skip(i + 1) =~= h.free.skip(i + 1));
            assert(in_heap(g, rest));
            assert forall|j: int, k: int|
                #![trigger g.free[j], g.free[k]]
                0 <= j < k < g.free.len() implies end_of(g.free[j]) < g.free[k].addr by {
                assert(end_of(h.free[j]) < h.free[k].addr);
            }
            assert forall|j: int, k: int|
                #![trigger g.free[j], g.used[k]]
                0 <= j < g.free.len() && 0 <= k < g.used.len() implies apart(
                g.free[j],
                g.used[k],
            ) by {
                if k < h.used.len() {
                    assert(apart(h.free[j], h.used[k]));
                } else if j < i {
                    assert(end_of(h.free[j]) < h.free[i].addr);
                } else if j > i {
                    assert(end_of(h.free[i]) < h.free[j].addr);
                }
            }
            assert forall|j: int, k: int|
                #![trigger g.used[j], g.used[k]]
                0 <= j < k < g.used.len() implies apart(g.used[j], g.used[k]) by {
                if k == h.used.len() {
                    assert(apart(h.free[i], h.used[j]));
                }
            }
        } else {
            let left = h.free.take(i);
            let right = h.free.skip(i + 1);
            assert(g.free =~= left + right);
            lemma_span_append(left, right);
            assert forall|j: int| 0 <= j < g.free.len() implies in_heap(g, #[trigger] g.free[j]) by {
                assert(in_heap(h, h.free[if j < i { j } else { j + 1 }]));
            }
            assert forall|j: int, k: int|
                #![trigger g.free[j], g.free[k]]
                0 <= j < k < g.free.len() implies end_of(g.free[j]) < g.free[k].addr by {
                assert(end_of(h.free[if j < i { j } else { j + 1 }]) < h.free[if k < i {
                    k
                } else {
                    k + 1
                }].addr);
            }
            assert forall|j: int, k: int|
                #![trigger g.free[j], g.used[k]]
                0 <= j < g.free.len() && 0 <= k < g.used.len() implies apart(
                g.free[j],
                g.used[k],
            ) by {
                let jj = if j < i { j } else { j + 1 };
                if k < h.used.len() {
                    assert(apart(h.free[jj], h.used[k]));
                } else if jj < i {
                    assert(end_of(h.free[jj]) < h.free[i].addr);
                } else {
                    assert(end_of(h.free[i]) < h.free[jj].addr);
                }
            }
            assert forall|j: int, k: int|
                #![trigger g.used[j], g.used[k]]
                0 <= j < k < g.used.len() implies apart(g.used[j], g.used[k]) by {
                if k == h.used.len() {
                    assert(apart(h.free[i], h.used[j]));
                }
            }
        }
    }
}

/// An address handed out is aligned to 16 bytes from the heap's start, and
/// its `size` bytes lie in a block that no other block in use shares a byte
/// with.
pub proof fn law_allocations_are_disjoint(h: HeapState, size: int, k: int)
    requires
        heap_ok(h),
        0 <= size,
        after_alloc(h, size).0 is Some,
        0 <= k < h.used.len(),
    ensures
        ({
            let (a, g) = after_alloc(h, size);
            &&& (a->0 - h.start) % 16 == 0
            &&& g.used.last().addr + 16 == a->0
            &&& g.used.last().size >= size
            &&& apart(g.used.last(), h.used[k])
        }),
{
    let n = rounded(size);
    lemma_first_fit(h.free, n, 0);
    let i = first_fit(h.free, n, 0);
    assert(in_heap(h, h.free[i]));
    assert(apart(h.free[i], h.used[k]));
}

/// Giving a block back right after it was handed out leaves the free list
/// as it was.
pub proof fn law_free_undoes_alloc(h: HeapState, size: int)
    requires
        heap_ok(h),
        0 <= size,
        after_alloc(h, size).0 is Some,
    ensures
        with_freed(after_alloc(h, size).1.free, after_alloc(h, size).1.used.last()) == h.free,
{
    let n = rounded(size);
    let i = first_fit(h.free, n, 0);
    lemma_first_fit(h.free, n, 0);
    let g = after_alloc(h, size).1;
    let b = h.free[i];
    let taken = g.used.last();
    assert(in_heap(h, b));
    let p = place_for(g.free, taken.addr as int, 0);
    lemma_place_for(g.free, taken.addr as int, 0);
    if i > 0 {
        assert(end_of(h.free[i - 1]) < b.addr);
        assert(g.free[i - 1] == h.free[i - 1]);
    }
    assert forall|k: int| 0 <= k < i implies (#[trigger] g.free[k]).addr < taken.addr by {
        assert(g.free[k] == h.free[k]);
        assert(end_of(h.free[k]) < h.free[i].addr);
    }
    if b.size >= n + 32 {
        assert(g.free[i].addr >= taken.addr);
        assert(p == i);
        assert(with_freed(g.free, taken) =~= h.free);
    } else {
        if i < g.free.len() {
            assert(g.free[i] == h.free[i + 1]);
            assert(end_of(h.free[i]) < h.free[i + 1].addr);
        }
        assert(p == i);
        assert(with_freed(g.free, taken) =~= h.free);
    }
}

/// The heap after the block in use numbered `k` came back.
pub open spec fn after_free(h: HeapState, k: int) -> HeapState {
    HeapState {
        free: with_freed(h.free, h.used[k]),
        used: h.used.remove(k),
        allocated: (h.allocated - h.used[k].size) as nat,
        ..h
    }
}

/// Free blocks with one more between them stay in order and apart.
proof fn lemma_free_list_with(h: HeapState, g: HeapState, left: int, n: Block, right: int)
    requires
        heap_ok(h),
        0 <= left <= right <= h.free.len(),
        g.free == h.free.take(left).push(n) + h.free.skip(right),
        g.start == h.start,
        g.total == h.total,
        in_heap(h, n),
        left > 0 ==> end_of(h.free[left - 1]) < n.addr,
        right < h.free.len() ==> end_of(n) < h.free[right].addr,
    ensures
        forall|i: int| 0 <= i < g.free.len() ==> in_heap(g, #[trigger] g.free[i]),
        forall|i: int, j: int|
            #![trigger g.free[i], g.free[j]]
            0 <= i < j < g.free.len() ==> end_of(g.free[i]) < g.free[j].addr,
        span(g.free) == span(h.free.take(left)) + 16 + n.size + span(h.free.skip(right)),
{
    let shift = right - left - 1;
    assert forall|i: int| 0 <= i < g.free.len() implies g.free[i] == if i < left {
        h.free[i]
    } else if i == left {
        n
    } else {
        h.free[i + shift]
    } by {}
    assert forall|i: int| 0 <= i < left implies end_of(#[trigger] h.free[i]) < n.addr by {
        if i < left - 1 {
            assert(end_of(h.free[i]) < h.free[left - 1].addr);
        }
    }
    assert forall|i: int| right <= i < h.free.len() implies end_of(n) < (#[trigger] h.free[i]).addr by {
        if i > right {
            assert(end_of(h.free[right]) < h.free[i].addr);
        }
    }
    assert forall|i: int, j: int|
        #![trigger g.free[i], g.free[j]]
        0 <= i < j < g.free.len() implies end_of(g.free[i]) < g.free[j].addr by {
        let a = if i < left { i } else { i + shift };
        let b = if j < left { j } else { j + shift };
        if i != left && j != left {
            assert(end_of(h.free[a]) < h.free[b].addr);
        } else if i == left {
            assert(end_of(n) < h.free[b].addr);
        } else {
            assert(end_of(h.free[a]) < n.addr);
        }
    }
    let l = h.free.take(left).push(n);
    lemma_span_append(l, h.free.skip(right));
    assert(l.drop_last() =~= h.free.take(left));
}

/// Two blocks that touch as one.
spec fn joined(a: Block, b: Block) -> Block {
    Block { addr: a.addr, size: (a.size + 16 + b.size) as usize }
}

proof fn lemma_joined(h: HeapState, a: Block, b: Block)
    requires
        in_heap(h, a),
        in_heap(h, b),
        end_of(a) == b.addr,
        h.start + h.total <= usize::MAX,
        0 <= h.start,
    ensures
        in_heap(h, joined(a, b)),
        joined(a, b).size == a.size + 16 + b.size,
        end_of(joined(a, b)) == end_of(b),
{
}

/// The block that a block in use becomes when it comes back, and between
/// which free blocks it stands.
#[verifier::spinoff_prover]
#[verifier::rlimit(60)]
proof fn lemma_freed_shape(h: HeapState, k: int) -> (r: (int, Block, int))
    requires
        heap_ok(h),
        0 <= k < h.used.len(),
    ensures
        ({
            let (left, n, right) = r;
            let b = h.used[k];
            &&& 0 <= left <= right <= h.free.len()
            &&& with_freed(h.free, b) == h.free.take(left).push(n) + h.free.skip(right)
            &&& in_heap(h, n)
            &&& left > 0 ==> end_of(h.free[left - 1]) < n.addr
            &&& right < h.free.len() ==> end_of(n) < h.free[right].addr
            &&& span(h.free) + 16 + b.size == span(h.free.take(left)) + 16 + n.size + span(
                h.free.skip(right),
            )
            &&& forall|j: int|
                0 <= j < h.used.len() && j != k ==> apart(n, #[trigger] h.used[j])
        }),
{
    let b = h.used[k];
    let p = place_for(h.free, b.addr as int, 0);
    lemma_place_for(h.free, b.addr as int, 0);
    assert(in_heap(h, b));
    let next = p < h.free.len() && end_of(b) == h.free[p].addr;
    let prev = p > 0 && end_of(h.free[p - 1]) == b.addr;
    let left = if prev { p - 1 } else { p };
    let right = if next { p + 1 } else { p };
    if p < h.free.len() {
        assert(in_heap(h, h.free[p]));
        assert(apart(h.free[p], h.used[k]));
    }
    if p > 0 {
        assert(in_heap(h, h.free[p - 1]));
        assert(h.free[p - 1].addr < b.addr);
        assert(apart(h.free[p - 1], h.used[k]));
    }
    let merged = if next { joined(b, h.free[p]) } else { b };
    if next {
        lemma_joined(h, b, h.free[p]);
    }
    let n = if prev { joined(h.free[p - 1], merged) } else { merged };
    if prev {
        lemma_joined(h, h.free[p - 1], merged);
    }
    assert(in_heap(h, n));
    assert(with_freed(h.free, b) =~= h.free.take(left).push(n) + h.free.skip(right));
    if left > 0 && prev {
        assert(end_of(h.free[left - 1]) < h.free[p - 1].addr);
    }
    if right < h.free.len() && next {
        assert(end_of(h.free[p]) < h.free[right].addr);
    }
    lemma_free_span(h.free, left, p, right);
    assert forall|j: int| 0 <= j < h.used.len() && j != k implies apart(
        n,
        #[trigger] h.used[j],
    ) by {
        let u = h.used[j];
        assert(in_heap(h, u));
        if j < k {
            assert(apart(h.used[j], h.used[k]));
        } else {
            assert(apart(h.used[k], h.used[j]));
        }
        if next {
            assert(apart(h.free[p], u));
        }
        if prev {
            assert(apart(h.free[p - 1], u));
        }
    }
    (left, n, right)
}

/// Giving a block back keeps the heap in order, as long as the counter of
/// allocated bytes covers it.
pub proof fn law_free_keeps_heap(h: HeapState, k: int)
    requires
        heap_ok(h),
        0 <= k < h.used.len(),
        h.used[k].size <= h.allocated,
    ensures
        heap_ok(after_free(h, k)),
{
    let g = after_free(h, k);
    let (left, n, right) = lemma_freed_shape(h, k);
    lemma_free_list_with(h, g, left, n, right);
    lemma_span_split(h.used, k);
    let (ul, ur) = (h.used.take(k), h.used.skip(k + 1));
    assert(g.used =~= ul + ur);
    lemma_span_append(ul, ur);
    assert forall|i: int| 0 <= i < g.used.len() implies g.used[i] == h.used[if i < k {
        i
    } else {
        i + 1
    }] by {}
    assert forall|i: int| 0 <= i < g.used.len() implies in_heap(g, #[trigger] g.used[i]) by {
        assert(in_heap(h, h.used[if i < k { i } else { i + 1 }]));
    }
    assert forall|i: int, j: int|
        #![trigger g.used[i], g.used[j]]
        0 <= i < j < g.used.len() implies apart(g.used[i], g.used[j]) by {
        assert(apart(h.used[if i < k { i } else { i + 1 }], h.used[if j < k { j } else { j + 1 }]));
    }
    assert forall|i: int, j: int|
        #![trigger g.free[i], g.used[j]]
        0 <= i < g.free.len() && 0 <= j < g.used.len() implies apart(g.free[i], g.used[j]) by {
        let jj = if j < k { j } else { j + 1 };
        if i < left {
            assert(g.free[i] == h.free[i]);
            assert(apart(h.free[i], h.used[jj]));
        } else if i > left {
            assert(g.free[i] == h.free[i + right - left - 1]);
            assert(apart(h.free[i + right - left - 1], h.used[jj]));
        } else {
            assert(g.free[i] == n);
            assert(apart(n, h.used[jj]));
        }
    }
}

proof fn lemma_free_span(s: Seq<Block>, left: int, p: int, right: int)
    requires
        0 <= left <= p <= right <= s.len(),
        p - 1 <= left,
        right <= p + 1,
    ensures
        span(s) == span(s.take(left)) + (if left < p { 16 + s[left].size as int } else { 0 }) + (
        if p < right { 16 + s[p].size as int } else { 0 }) + span(s.skip(right)),
{
    if left < p {
        lemma_span_split(s, left);
        if p < right {
            let t = s.skip(left + 1);
            lemma_span_split(t, 0);
            assert(t.take(0) =~= Seq::<Block>::empty());
            assert(t.skip(1) =~= s.skip(right));
        }
    } else if p < right {
        lemma_span_split(s, p);
    } else {
        assert(s =~= s.take(p) + s.skip(p));
        lemma_span_append(s.take(p), s.skip(p));
    }
}

impl FreeListAllocator {
    pub closed spec fn wf(&self) -> bool {
        heap_ok(self@)
    }

    /// A heap over nothing.
    pub fn new() -> (r: Self)
        ensures
            r.wf(),
            r@.total == 0,
            r@.allocated == 0,
    {
        let r = FreeListAllocator {
            free: Vec::new(),
            used: Vec::new(),
            allocated: 0,
            total: 0,
            start: 0,
        };
        assert(span(r@.free) == 0 && span(r@.used) == 0 && payload(r@.used) == 0);
        r
    }

    /// Initializes the free list over the half-open range [start, end).
    pub fn init(&mut self, start: usize, end: usize)
        requires
            start + 16 <= end,
            (end - start) % 16 == 0,
        ensures
            final(self).wf(),
            final(self)@ == (HeapState {
                free: seq![Block { addr: start, size: (end - start - 16) as usize }],
                used: Seq::empty(),
                allocated: 0,
                start: start as int,
                total: (end - start) as nat,
            }),
    {
        let total = end - start;
        let mut free: Vec<Block> = Vec::new();
        free.push(Block { addr: start, size: total - HEADER });
        self.free = free;
        self.used = Vec::new();
        self.allocated = 0;
        self.total = total;
        self.start = start;
        proof {
            assert(self@.free =~= seq![Block { addr: start, size: (end - start - 16) as usize }]);
            assert(self@.used =~= Seq::<Block>::empty());
            assert(self@.free.drop_last() =~= Seq::<Block>::empty());
            assert(span(self@.free.drop_last()) == 0);
            assert(span(self@.used) == 0 && payload(self@.used) == 0);
        }
    }

    /// Hands out `size` bytes: the address of the first byte behind the
    /// header of the first free block that is large enough.
    pub fn allocate(&mut self, size: usize) -> (r: Option<usize>)
        requires
            old(self).wf(),
            size <= usize::MAX - 64,
        ensures
            final(self).wf(),
            r == after_alloc(old(self)@, size as int).0,
            final(self)@ == after_alloc(old(self)@, size as int).1,
    {
        let ghost h = self@;
        proof {
            law_alloc_keeps_heap(h, size as int);
            lemma_span_nonneg(h.free);
            lemma_span_nonneg(h.used);
        }
        let n = (size + 15) / 16 * 16;
        let mut i: usize = 0;
        while i < self.free.len()
            invariant
                *self == *old(self),
                h == self@,
                heap_ok(h),
                heap_ok(after_alloc(h, size as int).1),
                span(h.free) >= 0,
                0 <= payload(h.used) <= span(h.used),
                n == rounded(size as int),
                n <= usize::MAX - 49,
                i <= self.free@.len(),
                first_fit(h.free, n as int, 0) == first_fit(h.free, n as int, i as int),
            decreases self.free@.len() - i,
        {
            let b = self.free[i];
            if b.size >= n {
                proof {
                    assert(in_heap(h, h.free[i as int]));
                    lemma_span_split(h.free, i as int);
                    lemma_span_nonneg(h.free.take(i as int));
                    lemma_span_nonneg(h.free.skip(i + 1));
                }
                let mut taken = b;
                if b.size >= n + HEADER + MIN_ALIGN {
                    self.free.set(
                        i,
                        Block { addr: b.addr + HEADER + n, size: b.size - n - HEADER },
                    );
                    taken = Block { addr: b.addr, size: n };
                } else {
                    let _ = self.free.remove(i);
                }
                self.used.push(taken);
                self.allocated = self.allocated + n;
                assert(self@ == after_alloc(h, size as int).1);
                return Some(b.addr + HEADER);
            }
            i += 1;
        }
        None
    }

    /// Whether a block in use starts right before `ptr`, and its size.
    pub fn block_size(&self, ptr: usize) -> (r: Option<usize>)
        requires
            self.wf(),
        ensures
            match r {
                Some(size) => ptr >= 16 && self@.used.contains(
                    Block { addr: (ptr - 16) as usize, size },
                ),
                None => forall|k: int|
                    0 <= k < self@.used.len() ==> (#[trigger] self@.used[k]).addr + 16 != ptr,
            },
    {
        let mut i: usize = 0;
        while i < self.used.len()
            invariant
                self.wf(),
                i <= self.used@.len(),
                forall|k: int|
                    0 <= k < i ==> (#[trigger] self.used@[k]).addr + 16 != ptr,
            decreases self.used@.len() - i,
        {
            let b = self.used[i];
            assert(in_heap(self@, self@.used[i as int]));
            if b.addr + HEADER == ptr {
                assert(self@.used[i as int] == (Block { addr: (ptr - 16) as usize, size: b.size }));
                return Some(b.size);
            }
            i += 1;
        }
        None
    }

    /// Takes back the block whose first byte is at `ptr`.
    #[verifier::spinoff_prover]
    #[verifier::rlimit(60)]
    pub fn deallocate(&mut self, ptr: usize)
        requires
            old(self).wf(),
            exists|k: int|
                0 <= k < old(self)@.used.len() && (#[trigger] old(self)@.used[k]).addr + 16 == ptr
                    && old(self)@.used[k].size <= old(self)@.allocated,
        ensures
            final(self).wf(),
            exists|k: int|
                0 <= k < old(self)@.used.len() && (#[trigger] old(self)@.used[k]).addr + 16 == ptr
                    && final(self)@ == after_free(old(self)@, k),
    {
        let ghost h = self@;
        let ghost want = choose|k: int|
            0 <= k < h.used.len() && (#[trigger] h.used[k]).addr + 16 == ptr && h.used[k].size
                <= h.allocated;
        let mut k: usize = 0;
        assert(in_heap(h, h.used[want]));
        while self.used[k].addr != ptr - HEADER
            invariant
                h == self@,
                h.used == self.used@,
                h.used.len() == self.used.len(),
                k <= want < h.used.len(),
                h.used[want].addr + 16 == ptr,
                ptr >= 16,
            decreases want - k,
        {
            k += 1;
        }
        proof {
            if k < want {
                assert(apart(h.used[k as int], h.used[want]));
            }
            assert(k == want);
            law_free_keeps_heap(h, k as int);
        }
        let b = self.used.remove(k);
        self.allocated = self.allocated - b.size;
        let mut p: usize = 0;
        while p < self.free.len() && self.free[p].addr < b.addr
            invariant
                self.free@ == h.free,
                p <= h.free.len(),
                place_for(h.free, b.addr as int, 0) == place_for(h.free, b.addr as int, p as int),
            decreases h.free.len() - p,
        {
            p += 1;
        }
        proof {
            assert(in_heap(h, b));
            if p < h.free.len() {
                assert(in_heap(h, h.free[p as int]));
            }
            if p > 0 {
                assert(in_heap(h, h.free[p - 1]));
            }
        }
        let mut merged = b;
        if p < self.free.len() && b.addr + HEADER + b.size == self.free[p].addr {
            merged.size = b.size + HEADER + self.free[p].size;
            let _ = self.free.remove(p);
        }
        if p > 0 && self.free[p - 1].addr + HEADER + self.free[p - 1].size == b.addr {
            let prev = self.free[p - 1];
            self.free.set(
                p - 1,
                Block { addr: prev.addr, size: prev.size + HEADER + merged.size },
            );
        } else {
            self.free.insert(p, merged);
        }
        assert(self.free@ =~= with_freed(h.free, b));
        assert(self@ == after_free(h, k as int));
        assert(h.used[k as int].addr + 16 == ptr);
    }

    pub fn allocated_bytes(&self) -> (r: usize)
        ensures
            r == self@.allocated,
    {
        self.allocated
    }

    pub fn free_bytes(&self) -> (r: usize)
        requires
            self.wf(),
        ensures
            r == self@.total - self@.allocated,
    {
        proof {
            lemma_span_nonneg(self@.free);
            lemma_span_nonneg(self@.used);
        }
        self.total - self.allocated
    }

    pub fn total_bytes(&self) -> (r: usize)
        ensures
            r == self@.total,
    {
        self.total
    }
}

/// Initializes the kernel heap at `start`.
pub fn init(heap: &mut FreeListAllocator, start: usize)
    requires
        start + HEAP_SIZE <= usize::MAX,
    ensures
        final(heap).wf(),
        final(heap)@.start == start,
        final(heap)@.total == HEAP_SIZE,
        final(heap)@.allocated == 0,
        final(heap)@.free == seq![Block { addr: start, size: (HEAP_SIZE - 16) as usize }],
        final(heap)@.used.len() == 0,
{
    heap.init(start, start + HEAP_SIZE);
}

pub fn allocated_bytes(heap: &FreeListAllocator) -> (r: usize)
    ensures
        r == heap@.allocated,
{
    heap.allocated_bytes()
}

pub fn free_bytes(heap: &FreeListAllocator) -> (r: usize)
    requires
        heap.wf(),
    ensures
        r == heap@.total - heap@.allocated,
{
    heap.free_bytes()
}

pub fn total_bytes(heap: &FreeListAllocator) -> (r: usize)
    ensures
        r == heap@.total,
{
    heap.total_bytes()
}

} // verus!
