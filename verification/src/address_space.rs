//! A process's private address space: copies of the kernel's page tables
//! from which ring 3 can reach nothing, and the walk through such tables.

use crate::pmm::{frame_alloc, free_below, FrameMap, Frames};
use vstd::prelude::*;

verus! {

pub const PAGE_PRESENT: u64 = 1;

pub const PAGE_WRITABLE: u64 = 2;

pub const PAGE_USER: u64 = 4;

/// A 2 MiB or 1 GiB page.
pub const PAGE_HUGE: u64 = 0x80;

/// Whether an entry maps something.
pub open spec fn present(e: u64) -> bool {
    e % 2 == 1
}

/// Whether ring 3 may use an entry.
pub open spec fn user(e: u64) -> bool {
    e / 4 % 2 == 1
}

pub open spec fn huge(e: u64) -> bool {
    e / 128 % 2 == 1
}

/// An entry without the right of ring 3 to use it.
pub open spec fn private(e: u64) -> u64 {
    if user(e) {
        (e - 4) as u64
    } else {
        e
    }
}

/// The flags of an entry, without that of ring 3.
pub open spec fn private_flags(e: u64) -> u64 {
    private((e % 4096) as u64)
}

/// What a page table's entry becomes in the copy.
pub open spec fn copied_pte(e: u64) -> u64 {
    if present(e) {
        private(e)
    } else {
        e
    }
}

fn without_user(e: u64) -> (r: u64)
    ensures
        r == private(e),
        !user(r),
        r % 4096 == private_flags(e),
{
    if e / 4 % 2 == 1 {
        e - 4
    } else {
        e
    }
}

/// Copies a page table of 4 KiB pages.
pub fn copy_page_table(kernel: &Vec<u64>) -> (r: Vec<u64>)
    ensures
        r@.len() == kernel@.len(),
        forall|i: int| 0 <= i < r@.len() ==> #[trigger] r@[i] == copied_pte(kernel@[i]),
{
    let mut out: Vec<u64> = Vec::new();
    let mut i: usize = 0;
    while i < kernel.len()
        invariant
            i <= kernel@.len(),
            out@.len() == i,
            forall|k: int| 0 <= k < i ==> #[trigger] out@[k] == copied_pte(kernel@[k]),
        decreases kernel@.len() - i,
    {
        let e = kernel[i];
        out.push(if e % 2 == 1 { without_user(e) } else { e });
        i += 1;
    }
    out
}

/// Whether a directory entry leads to a table that has to be copied.
pub open spec fn leads_on(e: u64) -> bool {
    present(e) && !huge(e)
}

/// How many of the first `n` entries lead to tables.
pub open spec fn tables_below(entries: Seq<u64>, n: nat) -> nat
    decreases n,
{
    if n == 0 {
        0
    } else {
        tables_below(entries, (n - 1) as nat) + (if leads_on(entries[n - 1]) {
            1nat
        } else {
            0
        })
    }
}

/// What a page directory's entry becomes: a 2 MiB page is copied, a table's
/// entry leads to the table's copy, the others stay empty.
pub open spec fn copied_pde(entries: Seq<u64>, fresh: Seq<u64>, j: int) -> u64 {
    let e = entries[j];
    if !present(e) {
        0
    } else if huge(e) {
        private(e)
    } else {
        (fresh[tables_below(entries, j as nat) as int] + private_flags(e)) as u64
    }
}

proof fn lemma_tables(entries: Seq<u64>, i: nat, n: nat)
    requires
        i <= n <= entries.len(),
    ensures
        tables_below(entries, i) <= tables_below(entries, n),
        i < n && leads_on(entries[i as int]) ==> tables_below(entries, i) < tables_below(
            entries,
            n,
        ),
    decreases n,
{
    if i < n {
        lemma_tables(entries, i, (n - 1) as nat);
        if i < n - 1 {
        }
    }
}

/// Copies a page directory. `fresh` holds the frames for the copies of the
/// tables that it leads to, in order.
pub fn copy_page_directory(kernel: &Vec<u64>, fresh: &Vec<u64>) -> (r: Vec<u64>)
    requires
        fresh@.len() >= tables_below(kernel@, kernel@.len()),
        forall|k: int|
            0 <= k < fresh@.len() ==> #[trigger] fresh@[k] % 4096 == 0 && fresh@[k] <= u64::MAX
                - 4096,
    ensures
        r@.len() == kernel@.len(),
        forall|j: int|
            0 <= j < r@.len() ==> #[trigger] r@[j] == copied_pde(kernel@, fresh@, j),
{
    let mut out: Vec<u64> = Vec::new();
    let mut used: usize = 0;
    let mut j: usize = 0;
    while j < kernel.len()
        invariant
            j <= kernel@.len(),
            out@.len() == j,
            used == tables_below(kernel@, j as nat),
            fresh@.len() >= tables_below(kernel@, kernel@.len()),
            forall|k: int|
                0 <= k < fresh@.len() ==> #[trigger] fresh@[k] % 4096 == 0 && fresh@[k] <= u64::MAX
                    - 4096,
            forall|k: int| 0 <= k < j ==> #[trigger] out@[k] == copied_pde(kernel@, fresh@, k),
        decreases kernel@.len() - j,
    {
        let e = kernel[j];
        proof {
            lemma_tables(kernel@, j as nat, kernel@.len());
        }
        if e % 2 != 1 {
            out.push(0);
        } else if e / 128 % 2 == 1 {
            out.push(without_user(e));
        } else {
            assert(fresh@.len() == fresh.len());
            out.push(fresh[used] + without_user(e % 4096));
            used += 1;
        }
        j += 1;
    }
    out
}

/// Copies the top-level table: its first entry leads to the copied map.
pub fn copy_pml4(kernel: &Vec<u64>, pdpt: u64) -> (r: Vec<u64>)
    requires
        kernel@.len() == 512,
        pdpt % 4096 == 0,
        pdpt <= u64::MAX - 4096,
    ensures
        r@ == kernel@.update(0, (pdpt + 3) as u64),
{
    let mut out = kernel.clone();
    assert(out@ =~= kernel@);
    out.set(0, pdpt + 3);
    out
}

/// Nothing that ring 3 may use is inherited: no present entry of a copied
/// table or directory carries its flag.
pub proof fn law_nothing_is_inherited(entries: Seq<u64>, fresh: Seq<u64>, i: int)
    requires
        0 <= i < entries.len(),
        fresh.len() >= tables_below(entries, entries.len()),
        forall|k: int|
            0 <= k < fresh.len() ==> #[trigger] fresh[k] % 4096 == 0 && fresh[k] <= u64::MAX - 4096,
    ensures
        present(copied_pte(entries[i])) ==> !user(copied_pte(entries[i])),
        !user(copied_pde(entries, fresh, i)),
{
    lemma_tables(entries, i as nat, entries.len());
    let e = entries[i];
    lemma_private(e);
    if leads_on(e) {
        let f = fresh[tables_below(entries, i as nat) as int];
        assert(f % 4096 == 0);
        lemma_private((e % 4096) as u64);
        lemma_table_entry(f, private_flags(e));
    }
}

proof fn lemma_private(e: u64)
    ensures
        !user(private(e)),
        private(e) <= e,
{
}

proof fn lemma_table_entry(f: u64, flags: u64)
    requires
        f % 4096 == 0,
        f <= u64::MAX - 4096,
        flags < 4096,
        !user(flags),
    ensures
        !user((f + flags) as u64),
{
    let q = f as int / 4096;
    let sum = f + flags;
    assert(sum == 1024 * q * 4 + flags);
    assert(sum / 4 == 1024 * q + flags as int / 4);
    assert((1024 * q + flags as int / 4) % 2 == flags as int / 4 % 2);
}

// ---------------------------------------------------------------------
// The walk
// ---------------------------------------------------------------------

/// A word of physical memory; beyond its end everything is zero.
pub open spec fn word(memory: Seq<u64>, addr: int) -> u64 {
    if 0 <= addr / 8 < memory.len() {
        memory[addr / 8]
    } else {
        0
    }
}

/// The table that an entry leads to.
pub open spec fn table_at(e: u64) -> int {
    (e / 4096 % 0x100_0000_0000) * 4096
}

/// The entry for an address in the table at `table`, of a level that covers
/// `span` bytes an entry.
pub open spec fn entry_for(memory: Seq<u64>, table: int, vaddr: u64, span: int) -> u64 {
    word(memory, table + vaddr as int / span % 512 * 8)
}

/// The flags of the page table entry for an address; 0 where none maps it by
/// a 4 KiB page.
pub open spec fn pte_flags(memory: Seq<u64>, cr3: u64, vaddr: u64) -> u64 {
    let a = entry_for(memory, cr3 as int, vaddr, 0x80_0000_0000);
    let b = entry_for(memory, table_at(a), vaddr, 0x4000_0000);
    let c = entry_for(memory, table_at(b), vaddr, 0x20_0000);
    if !present(a) || !present(b) || !present(c) || huge(c) {
        0
    } else {
        (entry_for(memory, table_at(c), vaddr, 0x1000) % 4096) as u64
    }
}

fn read_word(memory: &Vec<u64>, addr: u64) -> (r: u64)
    ensures
        r == word(memory@, addr as int),
{
    let i = addr / 8;
    assert(memory@.len() == memory.len());
    if i < memory.len() as u64 {
        memory[i as usize]
    } else {
        0
    }
}

/// Walks the tables at `cr3` for the flags of the page at `vaddr`.
pub fn read_pte_flags(memory: &Vec<u64>, cr3: u64, vaddr: u64) -> (r: u64)
    requires
        cr3 <= u64::MAX - 4096,
    ensures
        r == pte_flags(memory@, cr3, vaddr),
{
    let a = read_word(memory, cr3 + vaddr / 0x80_0000_0000 % 512 * 8);
    if a % 2 != 1 {
        return 0;
    }
    let b = read_word(
        memory,
        a / 4096 % 0x100_0000_0000 * 4096 + vaddr / 0x4000_0000 % 512 * 8,
    );
    if b % 2 != 1 {
        return 0;
    }
    let c = read_word(memory, b / 4096 % 0x100_0000_0000 * 4096 + vaddr / 0x20_0000 % 512 * 8);
    if c % 2 != 1 {
        return 0;
    }
    if c / 128 % 2 == 1 {
        return 0;
    }
    read_word(memory, c / 4096 % 0x100_0000_0000 * 4096 + vaddr / 0x1000 % 512 * 8) % 4096
}

// ---------------------------------------------------------------------
// The copy of the whole map
// ---------------------------------------------------------------------

/// The entries of the table at `base`.
pub open spec fn table(memory: Seq<u64>, base: int) -> Seq<u64> {
    Seq::new(512, |k: int| word(memory, base + 8 * k))
}

/// The start of the frame that an entry names.
pub open spec fn base_of(e: u64) -> int {
    e as int / 4096 * 4096
}

/// Whether a table lies in memory, in a frame that is not free.
pub open spec fn held(memory: Seq<u64>, free: Set<int>, base: int) -> bool {
    &&& 0 <= base
    &&& base % 4096 == 0
    &&& base + 4096 <= memory.len() * 8
    &&& !free.contains(base / 4096)
}

/// Whether a page directory and the page tables that it leads to are held.
pub open spec fn directory_held(memory: Seq<u64>, free: Set<int>, base: int) -> bool {
    &&& held(memory, free, base)
    &&& forall|j: int|
        0 <= j < 512 && leads_on(#[trigger] table(memory, base)[j]) ==> held(
            memory,
            free,
            base_of(table(memory, base)[j]),
        )
}

/// Whether all tables of the map at `kernel` are held.
pub open spec fn map_held(memory: Seq<u64>, free: Set<int>, kernel: int) -> bool {
    let pdpt = base_of(table(memory, kernel)[0]);
    &&& held(memory, free, kernel)
    &&& held(memory, free, pdpt)
    &&& forall|i: int|
        0 <= i < 512 && leads_on(#[trigger] table(memory, pdpt)[i]) ==> directory_held(
            memory,
            free,
            base_of(table(memory, pdpt)[i]),
        )
}

/// Whether memory changed in free frames alone.
pub open spec fn kept(before: Seq<u64>, after: Seq<u64>, free: Set<int>) -> bool {
    &&& before.len() == after.len()
    &&& forall|w: int|
        0 <= w < before.len() && !free.contains(w / 512) ==> #[trigger] after[w] == before[w]
}

/// Whether a table has a frame that was free before and is taken now.
pub open spec fn own(memory: Seq<u64>, before: Set<int>, after: Set<int>, base: int) -> bool {
    held(memory, after, base) && before.contains(base / 4096)
}

/// Whether the page table at `to` is the copy of the one at `from`.
pub open spec fn table_copied(m0: Seq<u64>, from: int, m1: Seq<u64>, to: int) -> bool {
    forall|k: int|
        0 <= k < 512 ==> #[trigger] table(m1, to)[k] == copied_pte(table(m0, from)[k])
}

/// Whether `d` is what a page directory's entry `e` becomes: a 2 MiB page
/// is copied, a table's entry leads to a table of its own with the same
/// contents, the others stay empty.
pub open spec fn pde_copied(
    m0: Seq<u64>,
    e: u64,
    m1: Seq<u64>,
    d: u64,
    before: Set<int>,
    after: Set<int>,
) -> bool {
    if !present(e) {
        d == 0
    } else if huge(e) {
        d == private(e)
    } else {
        &&& d % 4096 == private_flags(e)
        &&& own(m1, before, after, base_of(d))
        &&& table_copied(m0, base_of(e), m1, base_of(d))
    }
}

/// Whether the page directory at `to` is the copy of the one at `from`.
pub open spec fn directory_copied(
    m0: Seq<u64>,
    from: int,
    m1: Seq<u64>,
    to: int,
    before: Set<int>,
    after: Set<int>,
) -> bool {
    forall|j: int|
        0 <= j < 512 ==> pde_copied(
            m0,
            table(m0, from)[j],
            m1,
            #[trigger] table(m1, to)[j],
            before,
            after,
        )
}

/// Whether `d` is what an entry `e` of the table of page directories
/// becomes: it leads to a directory of its own, or stays empty.
pub open spec fn pdpte_copied(
    m0: Seq<u64>,
    e: u64,
    m1: Seq<u64>,
    d: u64,
    before: Set<int>,
    after: Set<int>,
) -> bool {
    if !present(e) {
        d == 0
    } else {
        &&& d % 4096 == private_flags(e)
        &&& own(m1, before, after, base_of(d))
        &&& directory_copied(m0, base_of(e), m1, base_of(d), before, after)
    }
}

/// Whether the map at `to` is the private copy of the map at `kernel`: every
/// table is of its own, with the contents of the kernel's, and ring 3 has no
/// right in it.
pub open spec fn map_copied(
    m0: Seq<u64>,
    kernel: int,
    m1: Seq<u64>,
    to: int,
    before: Set<int>,
    after: Set<int>,
) -> bool {
    let from = base_of(table(m0, kernel)[0]);
    let top = table(m1, to);
    let pdpt = base_of(top[0]);
    &&& own(m1, before, after, to)
    &&& own(m1, before, after, pdpt)
    &&& top == table(m0, kernel).update(0, (pdpt + 3) as u64)
    &&& forall|i: int|
        0 <= i < 512 ==> pdpte_copied(
            m0,
            table(m0, from)[i],
            m1,
            #[trigger] table(m1, pdpt)[i],
            before,
            after,
        )
}

/// How many frames the copies below the first `n` page directories take.
pub open spec fn frames_for(memory: Seq<u64>, pdpt: int, n: nat) -> nat
    decreases n,
{
    if n == 0 {
        0
    } else {
        let e = table(memory, pdpt)[n - 1];
        frames_for(memory, pdpt, (n - 1) as nat) + (if leads_on(e) {
            1 + tables_below(table(memory, base_of(e)), 512)
        } else {
            0
        })
    }
}

/// The first 1 GiB page, from entry `i` on; 512 if there is none.
pub open spec fn first_huge(memory: Seq<u64>, pdpt: int, i: int) -> int
    decreases 512 - i,
{
    let e = table(memory, pdpt)[i];
    if i >= 512 || (present(e) && huge(e)) {
        i
    } else {
        first_huge(memory, pdpt, i + 1)
    }
}

/// How many frames can be handed out.
pub open spec fn available(f: Frames) -> nat {
    free_below(f.free, f.last + 1)
}

/// The frames after the lowest that can be handed out was taken `n` times.
pub open spec fn lowest_taken(f: Frames, n: nat) -> Frames
    decreases n,
{
    if n == 0 {
        f
    } else {
        let g = lowest_taken(f, (n - 1) as nat);
        Frames { free: g.free.remove(lowest(g.free, g.last, 0)), ..g }
    }
}

/// The lowest free frame from `i` up to `last`.
pub open spec fn lowest(free: Set<int>, last: int, i: int) -> int
    decreases last + 1 - i,
{
    if i > last || free.contains(i) {
        i
    } else {
        lowest(free, last, i + 1)
    }
}

/// Physical memory in words of 8 bytes, the map of its frames, and the
/// frames that were taken for a process.
pub struct Arena {
    pub memory: Vec<u64>,
    pub map: FrameMap,
    pub frames: Vec<u64>,
}

impl Arena {
    /// The frames that can be handed out lie in memory, and memory where a
    /// table's entry can name it.
    pub open spec fn wf(&self) -> bool {
        &&& self.map.wf()
        &&& (self.map@.last + 1) * 512 <= self.memory@.len() <= 0x2_0000_0000_0000
    }

    pub open spec fn free(&self) -> Set<int> {
        self.map@.free
    }
}

/// Whether frames were taken and nothing but their contents changed: each of
/// them is on the list, and nothing else was put there.
pub open spec fn took(a: Arena, b: Arena) -> bool {
    let n = a.frames@.len();
    &&& b.wf()
    &&& b.map@.last == a.map@.last
    &&& b.free().subset_of(a.free())
    &&& kept(a.memory@, b.memory@, a.free())
    &&& n <= b.frames@.len()
    &&& b.frames@.take(n as int) == a.frames@
    &&& available(b.map@) + (b.frames@.len() - n) == available(a.map@)
    &&& forall|k: int|
        n <= k < b.frames@.len() ==> own(
            b.memory@,
            a.free(),
            b.free(),
            #[trigger] b.frames@[k] as int,
        )
    &&& forall|f: int|
        a.free().contains(f) && !(#[trigger] b.free().contains(f)) ==> b.frames@.contains(
            (f * 4096) as u64,
        )
}

proof fn lemma_word_frame(base: int, k: int)
    requires
        0 <= base,
        base % 4096 == 0,
        0 <= k < 512,
    ensures
        (base + 8 * k) / 8 == base / 4096 * 512 + k,
        (base + 8 * k) / 8 / 512 == base / 4096,
{
    let q = base / 4096;
    assert(base == 4096 * q);
    assert((4096 * q + 8 * k) / 8 == 512 * q + k);
    assert((512 * q + k) / 512 == q);
}

/// A table outside the free frames is what it was.
proof fn lemma_kept_table(m0: Seq<u64>, m1: Seq<u64>, free: Set<int>, base: int)
    requires
        kept(m0, m1, free),
        0 <= base,
        base % 4096 == 0,
        !free.contains(base / 4096),
    ensures
        table(m1, base) == table(m0, base),
{
    assert forall|k: int| 0 <= k < 512 implies table(m1, base)[k] == table(m0, base)[k] by {
        lemma_word_frame(base, k);
    }
    assert(table(m1, base) =~= table(m0, base));
}

pub(crate) proof fn lemma_free_below_remove(free: Set<int>, f: int, n: int)
    requires
        free.contains(f),
        0 <= f,
    ensures
        f < n ==> free_below(free.remove(f), n) + 1 == free_below(free, n),
        f >= n ==> free_below(free.remove(f), n) == free_below(free, n),
    decreases n,
{
    if n > 0 {
        lemma_free_below_remove(free, f, n - 1);
    }
}

proof fn lemma_none_free(free: Set<int>, n: int)
    requires
        forall|f: int| 0 <= f < n ==> !free.contains(f),
    ensures
        free_below(free, n) == 0,
    decreases n,
{
    if n > 0 {
        lemma_none_free(free, n - 1);
    }
}

proof fn lemma_lowest(free: Set<int>, last: int, i: int, f: int)
    requires
        i <= f <= last,
        free.contains(f),
        forall|g: int| i <= g < f ==> !free.contains(g),
    ensures
        lowest(free, last, i) == f,
    decreases f - i,
{
    if i < f {
        lemma_lowest(free, last, i + 1, f);
    }
}

proof fn lemma_lowest_taken(f: Frames, n: nat, m: nat)
    ensures
        lowest_taken(lowest_taken(f, n), m) == lowest_taken(f, n + m),
    decreases m,
{
    if m > 0 {
        lemma_lowest_taken(f, n, (m - 1) as nat);
    }
}

pub(crate) proof fn lemma_took_self(a: Arena)
    requires
        a.wf(),
    ensures
        took(a, a),
{
    assert(a.frames@.take(a.frames@.len() as int) =~= a.frames@);
}

pub(crate) proof fn lemma_took_on(a: Arena, b: Arena, c: Arena)
    requires
        took(a, b),
        took(b, c),
    ensures
        took(a, c),
{
    let n = a.frames@.len() as int;
    let m = b.frames@.len() as int;
    assert(c.frames@.take(n) =~= a.frames@) by {
        assert forall|k: int| 0 <= k < n implies c.frames@[k] == a.frames@[k] by {
            assert(c.frames@.take(m)[k] == b.frames@[k]);
            assert(b.frames@.take(n)[k] == a.frames@[k]);
        }
    }
    assert forall|k: int| n <= k < c.frames@.len() implies own(
        c.memory@,
        a.free(),
        c.free(),
        #[trigger] c.frames@[k] as int,
    ) by {
        if k < m {
            assert(c.frames@.take(m)[k] == b.frames@[k]);
            assert(own(b.memory@, a.free(), b.free(), b.frames@[k] as int));
        }
    }
    assert forall|f: int|
        a.free().contains(f) && !(#[trigger] c.free().contains(f)) implies c.frames@.contains(
        (f * 4096) as u64,
    ) by {
        if !b.free().contains(f) {
            let k = choose|k: int| 0 <= k < m && b.frames@[k] == (f * 4096) as u64;
            assert(c.frames@.take(m)[k] == b.frames@[k]);
            assert(c.frames@[k] == (f * 4096) as u64);
        }
    }
}

impl Arena {
    /// Takes a frame, clears it, and puts it on the list.
    pub(crate) fn alloc_frame(&mut self) -> (r: Result<u64, &'static str>)
        requires
            old(self).wf(),
        ensures
            took(*old(self), *final(self)),
            match r {
                Ok(f) => {
                    &&& own(final(self).memory@, old(self).free(), final(self).free(), f as int)
                    &&& final(self).frames@ == old(self).frames@.push(f)
                    &&& final(self).map@ == lowest_taken(old(self).map@, 1)
                },
                Err(e) => e == "out of memory" && available(old(self).map@) == 0,
            },
    {
        let ghost a = *self;
        proof {
            lemma_took_self(a);
        }
        let f = match frame_alloc(&mut self.map) {
            None => {
                proof {
                    lemma_none_free(a.map@.free, a.map@.last + 1);
                }
                return Err("out of memory");
            },
            Some(f) => f,
        };
        assert(self.memory@.len() == self.memory.len());
        let ghost map = self.map;
        let first: usize = (f / 8) as usize;
        let mut i: usize = 0;
        while i < 512
            invariant
                i <= 512,
                first == f / 8,
                f % 4096 == 0,
                first + 512 <= self.memory@.len(),
                self.map == map,
                self.frames == a.frames,
                kept(a.memory@, self.memory@, set![f as int / 4096]),
            decreases 512 - i,
        {
            assert((first + i) / 512 == f as int / 4096);
            self.memory.set(first + i, 0);
            i += 1;
        }
        self.frames.push(f);
        proof {
            let frame = f as int / 4096;
            lemma_free_below_remove(a.map@.free, frame, a.map@.last + 1);
            lemma_lowest(a.map@.free, a.map@.last, 0, frame);
            reveal_with_fuel(lowest_taken, 2);
            assert(self.frames@.take(a.frames@.len() as int) =~= a.frames@);
            assert(self.frames@[a.frames@.len() as int] == f);
            assert(set![frame].subset_of(a.free()));
        }
        Ok(f)
    }
}

impl Arena {
    /// The entries of the table at `base`.
    fn read_table(&self, base: u64) -> (r: Vec<u64>)
        requires
            base <= u64::MAX - 4096,
        ensures
            r@ == table(self.memory@, base as int),
    {
        let mut out: Vec<u64> = Vec::new();
        let mut k: u64 = 0;
        while k < 512
            invariant
                k <= 512,
                base <= u64::MAX - 4096,
                out@.len() == k,
                forall|i: int|
                    0 <= i < k ==> #[trigger] out@[i] == word(self.memory@, base + 8 * i),
            decreases 512 - k,
        {
            out.push(read_word(&self.memory, base + 8 * k));
            k += 1;
        }
        assert(out@ =~= table(self.memory@, base as int));
        out
    }

    /// Fills the table at `base`.
    fn write_table(&mut self, base: u64, entries: &Vec<u64>)
        requires
            base % 4096 == 0,
            base + 4096 <= old(self).memory@.len() * 8,
            entries@.len() == 512,
        ensures
            final(self).map == old(self).map,
            final(self).frames == old(self).frames,
            kept(old(self).memory@, final(self).memory@, set![base as int / 4096]),
            table(final(self).memory@, base as int) == entries@,
    {
        assert(self.memory@.len() == self.memory.len());
        let first: usize = (base / 8) as usize;
        let ghost m0 = self.memory@;
        let mut k: usize = 0;
        while k < 512
            invariant
                k <= 512,
                base % 4096 == 0,
                first == base / 8,
                first + 512 <= self.memory@.len(),
                entries@.len() == 512,
                self.map == old(self).map,
                self.frames == old(self).frames,
                kept(m0, self.memory@, set![base as int / 4096]),
                forall|i: int| 0 <= i < k ==> #[trigger] self.memory@[first + i] == entries@[i],
            decreases 512 - k,
        {
            assert((first + k) / 512 == base as int / 4096);
            self.memory.set(first + k, entries[k]);
            k += 1;
        }
        assert forall|i: int| 0 <= i < 512 implies table(self.memory@, base as int)[i]
            == entries@[i] by {
            lemma_word_frame(base as int, i);
            assert(self.memory@[first + i] == entries@[i]);
        }
        assert(table(self.memory@, base as int) =~= entries@);
    }

    /// Copies the page table at `from` into a frame of its own.
    fn copy_table(&mut self, from: u64) -> (r: Result<u64, &'static str>)
        requires
            old(self).wf(),
            held(old(self).memory@, old(self).free(), from as int),
        ensures
            took(*old(self), *final(self)),
            match r {
                Ok(to) => {
                    &&& own(final(self).memory@, old(self).free(), final(self).free(), to as int)
                    &&& table_copied(old(self).memory@, from as int, final(self).memory@, to as int)
                    &&& final(self).frames@.len() == old(self).frames@.len() + 1
                    &&& final(self).map@ == lowest_taken(old(self).map@, 1)
                },
                Err(e) => e == "out of memory" && available(old(self).map@) == 0,
            },
    {
        let ghost a = *self;
        let to = match self.alloc_frame() {
            Err(e) => {
                return Err(e);
            },
            Ok(to) => to,
        };
        let ghost b = *self;
        proof {
            lemma_kept_table(a.memory@, b.memory@, a.free(), from as int);
        }
        let entries = self.read_table(from);
        let out = copy_page_table(&entries);
        self.write_table(to, &out);
        proof {
            lemma_filled(a, b, *self, to as int);
        }
        Ok(to)
    }
}

/// Filling a frame that was taken is part of taking it.
proof fn lemma_filled(a: Arena, b: Arena, c: Arena, to: int)
    requires
        took(a, b),
        own(b.memory@, a.free(), b.free(), to),
        c.map == b.map,
        c.frames == b.frames,
        kept(b.memory@, c.memory@, set![to / 4096]),
    ensures
        took(a, c),
        own(c.memory@, a.free(), c.free(), to),
{
    assert forall|k: int| a.frames@.len() <= k < c.frames@.len() implies own(
        c.memory@,
        a.free(),
        c.free(),
        #[trigger] c.frames@[k] as int,
    ) by {
        assert(own(b.memory@, a.free(), b.free(), b.frames@[k] as int));
    }
    assert forall|f: int|
        a.free().contains(f) && !(#[trigger] c.free().contains(f)) implies c.frames@.contains(
        (f * 4096) as u64,
    ) by {
        assert(!b.free().contains(f));
    }
}

/// A copied page table stays one while frames are taken.
proof fn lemma_table_stays(
    m0: Seq<u64>,
    from: int,
    m1: Seq<u64>,
    to: int,
    m2: Seq<u64>,
    free: Set<int>,
)
    requires
        table_copied(m0, from, m1, to),
        kept(m1, m2, free),
        held(m1, free, to),
    ensures
        table_copied(m0, from, m2, to),
{
    lemma_kept_table(m1, m2, free, to);
}

/// A copied directory stays one while frames are taken.
proof fn lemma_directory_stays(
    m0: Seq<u64>,
    from: int,
    b: Arena,
    to: int,
    c: Arena,
    before: Set<int>,
    wider: Set<int>,
)
    requires
        directory_copied(m0, from, b.memory@, to, before, b.free()),
        held(b.memory@, b.free(), to),
        kept(b.memory@, c.memory@, b.free()),
        c.free().subset_of(b.free()),
        before.subset_of(wider),
    ensures
        directory_copied(m0, from, c.memory@, to, wider, c.free()),
{
    lemma_kept_table(b.memory@, c.memory@, b.free(), to);
    assert forall|j: int| 0 <= j < 512 implies pde_copied(
        m0,
        table(m0, from)[j],
        c.memory@,
        #[trigger] table(c.memory@, to)[j],
        wider,
        c.free(),
    ) by {
        let e = table(m0, from)[j];
        let d = table(b.memory@, to)[j];
        assert(pde_copied(m0, e, b.memory@, d, before, b.free()));
        if leads_on(e) {
            lemma_table_stays(m0, base_of(e), b.memory@, base_of(d), c.memory@, b.free());
        }
    }
}

/// What is held stays held, and its tables the same, while frames are taken.
proof fn lemma_directory_held(a: Arena, b: Arena, base: int)
    requires
        took(a, b),
        directory_held(a.memory@, a.free(), base),
    ensures
        directory_held(b.memory@, b.free(), base),
        table(b.memory@, base) == table(a.memory@, base),
        forall|j: int|
            0 <= j < 512 && leads_on(#[trigger] table(a.memory@, base)[j]) ==> table(
                b.memory@,
                base_of(table(a.memory@, base)[j]),
            ) == table(a.memory@, base_of(table(a.memory@, base)[j])),
{
    lemma_kept_table(a.memory@, b.memory@, a.free(), base);
    assert forall|j: int|
        0 <= j < 512 && leads_on(#[trigger] table(a.memory@, base)[j]) implies table(
        b.memory@,
        base_of(table(a.memory@, base)[j]),
    ) == table(a.memory@, base_of(table(a.memory@, base)[j])) && held(
        b.memory@,
        b.free(),
        base_of(table(a.memory@, base)[j]),
    ) by {
        lemma_kept_table(a.memory@, b.memory@, a.free(), base_of(table(a.memory@, base)[j]));
    }
}

/// A directory copied later is the copy of what it was before.
proof fn lemma_directory_source(
    a: Arena,
    b: Arena,
    from: int,
    m: Seq<u64>,
    to: int,
    before: Set<int>,
    after: Set<int>,
)
    requires
        took(a, b),
        directory_held(a.memory@, a.free(), from),
        directory_copied(b.memory@, from, m, to, before, after),
    ensures
        directory_copied(a.memory@, from, m, to, before, after),
{
    lemma_directory_held(a, b, from);
    assert forall|j: int| 0 <= j < 512 implies pde_copied(
        a.memory@,
        table(a.memory@, from)[j],
        m,
        #[trigger] table(m, to)[j],
        before,
        after,
    ) by {
        let e = table(a.memory@, from)[j];
        let d = table(m, to)[j];
        assert(pde_copied(b.memory@, e, m, d, before, after));
        if leads_on(e) {
            assert(table(b.memory@, base_of(e)) == table(a.memory@, base_of(e)));
            assert forall|k: int| 0 <= k < 512 implies #[trigger] table(m, base_of(d))[k]
                == copied_pte(table(a.memory@, base_of(e))[k]) by {
                assert(table_copied(b.memory@, base_of(e), m, base_of(d)));
            }
        }
    }
}

/// The entry of a copied table names its frame and carries its flags.
proof fn lemma_copied_entry(fresh: u64, flags: u64)
    requires
        fresh % 4096 == 0,
        fresh <= u64::MAX - 4096,
        flags < 4096,
    ensures
        base_of((fresh + flags) as u64) == fresh,
        (fresh + flags) as u64 % 4096 == flags,
{
    let q = fresh as int / 4096;
    assert(fresh == 4096 * q);
    assert((4096 * q + flags) / 4096 == q);
}

impl Arena {
    /// Copies the page directory at `from`, with the page tables that it
    /// leads to, into frames of its own.
    fn copy_directory(&mut self, from: u64) -> (r: Result<u64, &'static str>)
        requires
            old(self).wf(),
            directory_held(old(self).memory@, old(self).free(), from as int),
        ensures
            took(*old(self), *final(self)),
            match r {
                Ok(to) => {
                    &&& own(final(self).memory@, old(self).free(), final(self).free(), to as int)
                    &&& directory_copied(
                        old(self).memory@,
                        from as int,
                        final(self).memory@,
                        to as int,
                        old(self).free(),
                        final(self).free(),
                    )
                    &&& final(self).frames@.len() == old(self).frames@.len() + 1 + tables_below(
                        table(old(self).memory@, from as int),
                        512,
                    )
                    &&& final(self).map@ == lowest_taken(
                        old(self).map@,
                        1 + tables_below(table(old(self).memory@, from as int), 512),
                    )
                },
                Err(e) => e == "out of memory" && available(old(self).map@) < 1 + tables_below(
                    table(old(self).memory@, from as int),
                    512,
                ),
            },
    {
        let ghost a = *self;
        let to = match self.alloc_frame() {
            Err(e) => {
                return Err(e);
            },
            Ok(to) => to,
        };
        let ghost b = *self;
        proof {
            lemma_directory_held(a, b, from as int);
            lemma_took_self(b);
        }
        let entries = self.read_table(from);
        let mut fresh: Vec<u64> = Vec::new();
        let mut j: usize = 0;
        while j < 512
            invariant
                j <= 512,
                a == *old(self),
                took(a, b),
                b.frames@.len() == a.frames@.len() + 1,
                took(b, *self),
                directory_held(b.memory@, b.free(), from as int),
                entries@ == table(b.memory@, from as int),
                entries@ == table(a.memory@, from as int),
                fresh@.len() == tables_below(entries@, j as nat),
                self.frames@.len() == b.frames@.len() + fresh@.len(),
                self.map@ == lowest_taken(a.map@, 1 + tables_below(entries@, j as nat)),
                forall|t: int|
                    0 <= t < fresh@.len() ==> own(
                        self.memory@,
                        b.free(),
                        self.free(),
                        #[trigger] fresh@[t] as int,
                    ),
                forall|k: int|
                    0 <= k < j && leads_on(#[trigger] entries@[k]) ==> table_copied(
                        b.memory@,
                        base_of(entries@[k]),
                        self.memory@,
                        fresh@[tables_below(entries@, k as nat) as int] as int,
                    ),
            decreases 512 - j,
        {
            let e = entries[j];
            if e % 2 == 1 && e / 128 % 2 != 1 {
                let ghost c = *self;
                let ghost had = fresh@;
                proof {
                    assert(leads_on(table(b.memory@, from as int)[j as int]));
                    lemma_kept_table(b.memory@, c.memory@, b.free(), base_of(e));
                }
                let pt = match self.copy_table(e / 4096 * 4096) {
                    Err(s) => {
                        proof {
                            lemma_took_on(b, c, *self);
                            lemma_took_on(a, b, *self);
                            lemma_tables(entries@, j as nat, 512);
                        }
                        return Err(s);
                    },
                    Ok(pt) => pt,
                };
                fresh.push(pt);
                proof {
                    lemma_lowest_taken(a.map@, 1 + tables_below(entries@, j as nat), 1);
                    lemma_took_on(b, c, *self);
                    assert forall|t: int| 0 <= t < fresh@.len() implies own(
                        self.memory@,
                        b.free(),
                        self.free(),
                        #[trigger] fresh@[t] as int,
                    ) by {
                        if t < had.len() {
                            assert(own(c.memory@, b.free(), c.free(), had[t] as int));
                        }
                    }
                    assert forall|k: int|
                        0 <= k < j + 1 && leads_on(#[trigger] entries@[k]) implies table_copied(
                        b.memory@,
                        base_of(entries@[k]),
                        self.memory@,
                        fresh@[tables_below(entries@, k as nat) as int] as int,
                    ) by {
                        lemma_tables(entries@, k as nat, j as nat);
                        if k < j {
                            let t = tables_below(entries@, k as nat) as int;
                            assert(own(c.memory@, b.free(), c.free(), had[t] as int));
                            lemma_table_stays(
                                b.memory@,
                                base_of(entries@[k]),
                                c.memory@,
                                had[t] as int,
                                self.memory@,
                                c.free(),
                            );
                        }
                    }
                }
            }
            j += 1;
        }
        let out = copy_page_directory(&entries, &fresh);
        let ghost c = *self;
        self.write_table(to, &out);
        proof {
            lemma_took_on(a, b, c);
            lemma_filled(a, c, *self, to as int);
            lemma_directory_filled(a, b, c, *self, from as int, to as int, fresh@);
        }
        Ok(to)
    }
}

/// The directory whose entries lead to the copied tables is a copy.
proof fn lemma_directory_filled(
    a: Arena,
    b: Arena,
    c: Arena,
    d: Arena,
    from: int,
    to: int,
    fresh: Seq<u64>,
)
    requires
        took(a, b),
        took(b, c),
        directory_held(a.memory@, a.free(), from),
        held(b.memory@, b.free(), to),
        d.map == c.map,
        kept(c.memory@, d.memory@, set![to / 4096]),
        ({
            let entries = table(a.memory@, from);
            &&& fresh.len() == tables_below(entries, 512)
            &&& forall|t: int|
                0 <= t < fresh.len() ==> own(
                    c.memory@,
                    b.free(),
                    c.free(),
                    #[trigger] fresh[t] as int,
                )
            &&& forall|k: int|
                0 <= k < 512 && leads_on(#[trigger] entries[k]) ==> table_copied(
                    b.memory@,
                    base_of(entries[k]),
                    c.memory@,
                    fresh[tables_below(entries, k as nat) as int] as int,
                )
            &&& forall|j: int|
                0 <= j < 512 ==> #[trigger] table(d.memory@, to)[j] == copied_pde(
                    entries,
                    fresh,
                    j,
                )
        }),
    ensures
        directory_copied(a.memory@, from, d.memory@, to, a.free(), d.free()),
{
    let entries = table(a.memory@, from);
    lemma_directory_held(a, b, from);
    assert forall|j: int| 0 <= j < 512 implies pde_copied(
        b.memory@,
        table(b.memory@, from)[j],
        d.memory@,
        #[trigger] table(d.memory@, to)[j],
        a.free(),
        d.free(),
    ) by {
        let e = entries[j];
        if leads_on(e) {
            let t = tables_below(entries, j as nat) as int;
            lemma_tables(entries, j as nat, 512);
            let f = fresh[t];
            assert(own(c.memory@, b.free(), c.free(), f as int));
            lemma_private((e % 4096) as u64);
            lemma_copied_entry(f, private_flags(e));
            lemma_kept_table(c.memory@, d.memory@, set![to / 4096], f as int);
        }
    }
    lemma_directory_source(a, b, from, d.memory@, to, a.free(), d.free());
}

/// A copied directory stays one where frames other than its own change.
proof fn lemma_directory_apart(
    m0: Seq<u64>,
    from: int,
    m1: Seq<u64>,
    to: int,
    m2: Seq<u64>,
    changed: Set<int>,
    before: Set<int>,
    after: Set<int>,
)
    requires
        directory_copied(m0, from, m1, to, before, after),
        own(m1, before, after, to),
        kept(m1, m2, changed),
        forall|f: int| #[trigger] before.contains(f) ==> !changed.contains(f),
    ensures
        directory_copied(m0, from, m2, to, before, after),
{
    lemma_kept_table(m1, m2, changed, to);
    assert forall|j: int| 0 <= j < 512 implies pde_copied(
        m0,
        table(m0, from)[j],
        m2,
        #[trigger] table(m2, to)[j],
        before,
        after,
    ) by {
        let e = table(m0, from)[j];
        let d = table(m1, to)[j];
        assert(pde_copied(m0, e, m1, d, before, after));
        if leads_on(e) {
            lemma_kept_table(m1, m2, changed, base_of(d));
        }
    }
}

proof fn lemma_frames_for(memory: Seq<u64>, pdpt: int, i: nat, n: nat)
    requires
        i <= n,
    ensures
        frames_for(memory, pdpt, i) <= frames_for(memory, pdpt, n),
    decreases n,
{
    if i < n {
        lemma_frames_for(memory, pdpt, i, (n - 1) as nat);
    }
}

proof fn lemma_first_huge(memory: Seq<u64>, pdpt: int, i: int)
    requires
        0 <= i <= 512,
    ensures
        i <= first_huge(memory, pdpt, i) <= 512,
    decreases 512 - i,
{
    if i < 512 {
        lemma_first_huge(memory, pdpt, i + 1);
    }
}

impl Arena {
    /// Builds a process's private address space: a copy of the map at
    /// `kernel` in frames of its own, so that the process shares no table
    /// with the kernel. Gives the address of its top-level table. The map
    /// that the kernel boots with has no 1 GiB pages.
    pub fn build_address_space(&mut self, kernel: u64) -> (r: Result<u64, &'static str>)
        requires
            old(self).wf(),
            map_held(old(self).memory@, old(self).free(), kernel as int),
        ensures
            took(*old(self), *final(self)),
            ({
                let m = old(self).memory@;
                let pdpt = base_of(table(m, kernel as int)[0]);
                let stop = first_huge(m, pdpt, 0);
                let short = available(old(self).map@) < 2 + frames_for(m, pdpt, stop as nat);
                match r {
                    Ok(to) => {
                        &&& stop == 512 && !short
                        &&& final(self).frames@.len() == old(self).frames@.len() + 2 + frames_for(
                            m,
                            pdpt,
                            512,
                        )
                        &&& final(self).map@ == lowest_taken(
                            old(self).map@,
                            2 + frames_for(m, pdpt, 512),
                        )
                        &&& map_copied(
                            m,
                            kernel as int,
                            final(self).memory@,
                            to as int,
                            old(self).free(),
                            final(self).free(),
                        )
                    },
                    Err(e) => if short {
                        e == "out of memory"
                    } else {
                        stop < 512 && e == "unexpected 1 GiB page in boot map"
                    },
                }
            }),
    {
        let ghost a = *self;
        let ghost from = base_of(table(a.memory@, kernel as int)[0]);
        proof {
            lemma_first_huge(a.memory@, from, 0);
            lemma_frames_for(a.memory@, from, 0, first_huge(a.memory@, from, 0) as nat);
        }
        let pml4 = match self.alloc_frame() {
            Err(e) => {
                return Err(e);
            },
            Ok(f) => f,
        };
        let ghost b = *self;
        let pdpt = match self.alloc_frame() {
            Err(e) => {
                proof {
                    lemma_took_on(a, b, *self);
                }
                return Err(e);
            },
            Ok(f) => f,
        };
        let ghost c = *self;
        proof {
            lemma_took_on(a, b, c);
            lemma_took_self(c);
            lemma_lowest_taken(a.map@, 1, 1);
            lemma_kept_table(a.memory@, c.memory@, a.free(), kernel as int);
            lemma_kept_table(a.memory@, c.memory@, a.free(), from);
        }
        let top = self.read_table(kernel);
        let entries = self.read_table(top[0] / 4096 * 4096);
        let mut fresh: Vec<u64> = Vec::new();
        let mut i: usize = 0;
        while i < 512
            invariant
                i <= 512,
                a == *old(self),
                from == base_of(table(a.memory@, kernel as int)[0]),
                map_held(a.memory@, a.free(), kernel as int),
                took(a, c),
                c.frames@.len() == a.frames@.len() + 2,
                took(c, *self),
                entries@ == table(a.memory@, from),
                first_huge(a.memory@, from, 0) == first_huge(a.memory@, from, i as int),
                first_huge(a.memory@, from, 0) <= 512,
                forall|k: int|
                    0 <= k < i ==> !(present(#[trigger] entries@[k]) && huge(entries@[k])),
                fresh@.len() == tables_below(entries@, i as nat),
                self.frames@.len() == c.frames@.len() + frames_for(a.memory@, from, i as nat),
                self.map@ == lowest_taken(a.map@, 2 + frames_for(a.memory@, from, i as nat)),
                forall|t: int|
                    0 <= t < fresh@.len() ==> own(
                        self.memory@,
                        c.free(),
                        self.free(),
                        #[trigger] fresh@[t] as int,
                    ),
                forall|k: int|
                    0 <= k < i && leads_on(#[trigger] entries@[k]) ==> directory_copied(
                        a.memory@,
                        base_of(entries@[k]),
                        self.memory@,
                        fresh@[tables_below(entries@, k as nat) as int] as int,
                        c.free(),
                        self.free(),
                    ),
            decreases 512 - i,
        {
            let e = entries[i];
            if e % 2 == 1 {
                if e / 128 % 2 == 1 {
                    proof {
                        lemma_took_on(a, c, *self);
                    }
                    return Err("unexpected 1 GiB page in boot map");
                }
                let ghost x = *self;
                let ghost had = fresh@;
                proof {
                    lemma_took_on(a, c, x);
                    assert(leads_on(table(a.memory@, from)[i as int]));
                    lemma_directory_held(a, x, base_of(e));
                }
                let pd = match self.copy_directory(e / 4096 * 4096) {
                    Err(s) => {
                        proof {
                            lemma_took_on(a, x, *self);
                            lemma_first_huge(a.memory@, from, i + 1);
                            lemma_frames_for(
                                a.memory@,
                                from,
                                (i + 1) as nat,
                                first_huge(a.memory@, from, 0) as nat,
                            );
                        }
                        return Err(s);
                    },
                    Ok(pd) => pd,
                };
                fresh.push(pd);
                proof {
                    lemma_lowest_taken(
                        a.map@,
                        2 + frames_for(a.memory@, from, i as nat),
                        1 + tables_below(table(a.memory@, base_of(e)), 512),
                    );
                    lemma_took_on(c, x, *self);
                    lemma_directory_source(
                        a,
                        x,
                        base_of(e),
                        self.memory@,
                        pd as int,
                        x.free(),
                        self.free(),
                    );
                    assert(kept(self.memory@, self.memory@, self.free()));
                    lemma_directory_stays(
                        a.memory@,
                        base_of(e),
                        *self,
                        pd as int,
                        *self,
                        x.free(),
                        c.free(),
                    );
                    assert(fresh@.take(had.len() as int) =~= had);
                    lemma_directories_stay(a, c, x, *self, entries@, had, fresh@, i as nat);
                }
            }
            i += 1;
        }
        let out = copy_page_directory(&entries, &fresh);
        let ghost x = *self;
        self.write_table(pdpt, &out);
        let ghost y = *self;
        let first = copy_pml4(&top, pdpt);
        self.write_table(pml4, &first);
        proof {
            lemma_took_on(a, c, x);
            lemma_filled(a, x, y, pdpt as int);
            lemma_filled(a, y, *self, pml4 as int);
            lemma_map_filled(a, c, x, y, *self, kernel as int, pml4 as int, pdpt as int, fresh@);
        }
        Ok(pml4)
    }
}

/// The directories copied so far stay copied while the next one is.
proof fn lemma_directories_stay(
    a: Arena,
    c: Arena,
    x: Arena,
    y: Arena,
    entries: Seq<u64>,
    had: Seq<u64>,
    fresh: Seq<u64>,
    i: nat,
)
    requires
        took(x, y),
        took(c, y),
        i < 512,
        entries.len() == 512,
        leads_on(entries[i as int]),
        had.len() == tables_below(entries, i),
        fresh.len() == had.len() + 1,
        fresh.take(had.len() as int) == had,
        own(y.memory@, x.free(), y.free(), fresh[had.len() as int] as int),
        x.free().subset_of(c.free()),
        directory_copied(
            a.memory@,
            base_of(entries[i as int]),
            y.memory@,
            fresh[had.len() as int] as int,
            c.free(),
            y.free(),
        ),
        forall|t: int|
            0 <= t < had.len() ==> own(x.memory@, c.free(), x.free(), #[trigger] had[t] as int),
        forall|k: int|
            0 <= k < i && leads_on(#[trigger] entries[k]) ==> directory_copied(
                a.memory@,
                base_of(entries[k]),
                x.memory@,
                had[tables_below(entries, k as nat) as int] as int,
                c.free(),
                x.free(),
            ),
    ensures
        forall|t: int|
            0 <= t < fresh.len() ==> own(y.memory@, c.free(), y.free(), #[trigger] fresh[t] as int),
        forall|k: int|
            0 <= k < i + 1 && leads_on(#[trigger] entries[k]) ==> directory_copied(
                a.memory@,
                base_of(entries[k]),
                y.memory@,
                fresh[tables_below(entries, k as nat) as int] as int,
                c.free(),
                y.free(),
            ),
{
    assert forall|t: int| 0 <= t < fresh.len() implies own(
        y.memory@,
        c.free(),
        y.free(),
        #[trigger] fresh[t] as int,
    ) by {
        if t < had.len() {
            assert(fresh.take(had.len() as int)[t] == had[t]);
            assert(own(x.memory@, c.free(), x.free(), had[t] as int));
        }
    }
    assert forall|k: int|
        0 <= k < i + 1 && leads_on(#[trigger] entries[k]) implies directory_copied(
        a.memory@,
        base_of(entries[k]),
        y.memory@,
        fresh[tables_below(entries, k as nat) as int] as int,
        c.free(),
        y.free(),
    ) by {
        lemma_tables(entries, k as nat, i);
        if k < i {
            let t = tables_below(entries, k as nat) as int;
            assert(fresh.take(had.len() as int)[t] == had[t]);
            assert(own(x.memory@, c.free(), x.free(), had[t] as int));
            lemma_directory_stays(
                a.memory@,
                base_of(entries[k]),
                x,
                had[t] as int,
                y,
                c.free(),
                c.free(),
            );
        }
    }
}

/// The tables above the copied directories make the copy of the map.
proof fn lemma_map_filled(
    a: Arena,
    c: Arena,
    x: Arena,
    y: Arena,
    z: Arena,
    kernel: int,
    pml4: int,
    pdpt: int,
    fresh: Seq<u64>,
)
    requires
        took(a, c),
        took(c, x),
        own(z.memory@, a.free(), z.free(), pml4),
        own(y.memory@, a.free(), y.free(), pdpt),
        pml4 / 4096 != pdpt / 4096,
        !c.free().contains(pml4 / 4096),
        !c.free().contains(pdpt / 4096),
        y.map == x.map,
        z.map == x.map,
        x.wf(),
        kept(x.memory@, y.memory@, set![pdpt / 4096]),
        kept(y.memory@, z.memory@, set![pml4 / 4096]),
        table(z.memory@, pml4) == table(a.memory@, kernel).update(0, (pdpt + 3) as u64),
        ({
            let entries = table(a.memory@, base_of(table(a.memory@, kernel)[0]));
            &&& forall|k: int|
                0 <= k < 512 ==> !(present(#[trigger] entries[k]) && huge(entries[k]))
            &&& fresh.len() == tables_below(entries, 512)
            &&& forall|t: int|
                0 <= t < fresh.len() ==> own(
                    x.memory@,
                    c.free(),
                    x.free(),
                    #[trigger] fresh[t] as int,
                )
            &&& forall|k: int|
                0 <= k < 512 && leads_on(#[trigger] entries[k]) ==> directory_copied(
                    a.memory@,
                    base_of(entries[k]),
                    x.memory@,
                    fresh[tables_below(entries, k as nat) as int] as int,
                    c.free(),
                    x.free(),
                )
            &&& forall|i: int|
                0 <= i < 512 ==> #[trigger] table(y.memory@, pdpt)[i] == copied_pde(
                    entries,
                    fresh,
                    i,
                )
        }),
    ensures
        map_copied(a.memory@, kernel, z.memory@, pml4, a.free(), z.free()),
{
    let from = base_of(table(a.memory@, kernel)[0]);
    let entries = table(a.memory@, from);
    lemma_copied_entry(pdpt as u64, 3);
    lemma_kept_table(y.memory@, z.memory@, set![pml4 / 4096], pdpt);
    assert forall|i: int| 0 <= i < 512 implies pdpte_copied(
        a.memory@,
        table(a.memory@, from)[i],
        z.memory@,
        #[trigger] table(z.memory@, pdpt)[i],
        a.free(),
        z.free(),
    ) by {
        let e = entries[i];
        if present(e) {
            assert(leads_on(e));
            let t = tables_below(entries, i as nat) as int;
            lemma_tables(entries, i as nat, 512);
            let f = fresh[t];
            assert(own(x.memory@, c.free(), x.free(), f as int));
            lemma_private((e % 4096) as u64);
            lemma_copied_entry(f, private_flags(e));
            lemma_directory_apart(
                a.memory@,
                base_of(e),
                x.memory@,
                f as int,
                y.memory@,
                set![pdpt / 4096],
                c.free(),
                x.free(),
            );
            lemma_directory_apart(
                a.memory@,
                base_of(e),
                y.memory@,
                f as int,
                z.memory@,
                set![pml4 / 4096],
                c.free(),
                x.free(),
            );
            assert(kept(z.memory@, z.memory@, z.free()));
            lemma_directory_stays(
                a.memory@,
                base_of(e),
                z,
                f as int,
                z,
                c.free(),
                a.free(),
            );
        }
    }
}

/// A copied map stays one while frames are taken.
pub(crate) proof fn lemma_map_stays(
    m0: Seq<u64>,
    kernel: int,
    b: Arena,
    to: int,
    c: Arena,
    before: Set<int>,
)
    requires
        map_copied(m0, kernel, b.memory@, to, before, b.free()),
        took(b, c),
    ensures
        map_copied(m0, kernel, c.memory@, to, before, c.free()),
{
    let from = base_of(table(m0, kernel)[0]);
    let pdpt = base_of(table(b.memory@, to)[0]);
    lemma_kept_table(b.memory@, c.memory@, b.free(), to);
    lemma_kept_table(b.memory@, c.memory@, b.free(), pdpt);
    assert forall|i: int| 0 <= i < 512 implies pdpte_copied(
        m0,
        table(m0, from)[i],
        c.memory@,
        #[trigger] table(c.memory@, pdpt)[i],
        before,
        c.free(),
    ) by {
        let e = table(m0, from)[i];
        let d = table(b.memory@, pdpt)[i];
        assert(pdpte_copied(m0, e, b.memory@, d, before, b.free()));
        if present(e) {
            lemma_directory_stays(m0, base_of(e), b, base_of(d), c, before, before);
        }
    }
}

/// The entry that maps an address in the map at `cr3`: that of a 1 GiB, a
/// 2 MiB or a 4 KiB page.
pub open spec fn leaf(memory: Seq<u64>, cr3: int, vaddr: u64) -> Option<u64> {
    let a = entry_for(memory, cr3, vaddr, 0x80_0000_0000);
    let b = entry_for(memory, table_at(a), vaddr, 0x4000_0000);
    let c = entry_for(memory, table_at(b), vaddr, 0x20_0000);
    let d = entry_for(memory, table_at(c), vaddr, 0x1000);
    if !present(a) || !present(b) {
        None
    } else if huge(b) {
        Some(b)
    } else if !present(c) {
        None
    } else if huge(c) {
        Some(c)
    } else if present(d) {
        Some(d)
    } else {
        None
    }
}

proof fn lemma_entry_for(memory: Seq<u64>, e: u64, vaddr: u64, span: int)
    requires
        span > 0,
        base_of(e) + 4096 <= 0x10_0000_0000_0000,
    ensures
        table_at(e) == base_of(e),
        0 <= vaddr as int / span % 512 < 512,
        entry_for(memory, table_at(e), vaddr, span) == table(memory, base_of(e))[vaddr as int
            / span % 512],
{
    assert(e as int / 4096 < 0x100_0000_0000);
}

proof fn lemma_private_bits(e: u64)
    ensures
        present(private(e)) == present(e),
        huge(private(e)) == huge(e),
        present((e % 4096) as u64) == present(e),
        huge((e % 4096) as u64) == huge(e),
{
    let q = e as int / 8;
    let r = e as int % 8;
    assert(e == 8 * q + r);
    assert(e as int / 128 == q / 16);
    assert(private(e) as int / 128 == q / 16);
    let p = e as int / 4096;
    let s = e as int % 4096;
    assert(e == 4096 * p + s);
    assert(e as int / 128 == 32 * p + s / 128);
}

/// A process's address space maps what the kernel's does, and ring 3 can
/// use none of it: in the copy every address below 512 GiB leads to the
/// kernel's entry without the right of ring 3.
pub proof fn law_copy_maps_the_same(
    m0: Seq<u64>,
    kernel: int,
    m1: Seq<u64>,
    to: int,
    before: Set<int>,
    after: Set<int>,
    vaddr: u64,
)
    requires
        map_held(m0, before, kernel),
        map_copied(m0, kernel, m1, to, before, after),
        first_huge(m0, base_of(table(m0, kernel)[0]), 0) == 512,
        present(table(m0, kernel)[0]),
        m0.len() <= 0x2_0000_0000_0000,
        m1.len() == m0.len(),
        vaddr < 0x80_0000_0000,
    ensures
        leaf(m1, to, vaddr) == match leaf(m0, kernel, vaddr) {
            Some(e) => Some(private(e)),
            None => None::<u64>,
        },
        leaf(m1, to, vaddr) matches Some(e) ==> !user(e),
{
    let top0 = table(m0, kernel)[0];
    let top1 = table(m1, to)[0];
    let from = base_of(top0);
    let pdpt = base_of(top1);
    assert(vaddr as int / 0x80_0000_0000 % 512 == 0);
    assert(entry_for(m0, kernel, vaddr, 0x80_0000_0000) == top0);
    assert(entry_for(m1, to, vaddr, 0x80_0000_0000) == top1);
    lemma_entry_for(m0, top0, vaddr, 0x4000_0000);
    lemma_entry_for(m1, top1, vaddr, 0x4000_0000);
    let i = vaddr as int / 0x4000_0000 % 512;
    let b0 = table(m0, from)[i];
    let b1 = table(m1, pdpt)[i];
    assert(top1 == pdpt + 3);
    lemma_no_huge(m0, from, 0, i);
    assert(pdpte_copied(m0, b0, m1, b1, before, after));
    if present(b0) {
        lemma_private_bits(b0);
        lemma_private_bits(b1);
        lemma_private_bits((b0 % 4096) as u64);
        assert(directory_held(m0, before, base_of(b0)));
        lemma_entry_for(m0, b0, vaddr, 0x20_0000);
        lemma_entry_for(m1, b1, vaddr, 0x20_0000);
        let j = vaddr as int / 0x20_0000 % 512;
        let c0 = table(m0, base_of(b0))[j];
        let c1 = table(m1, base_of(b1))[j];
        assert(pde_copied(m0, c0, m1, c1, before, after));
        lemma_private_bits(c0);
        lemma_private_bits(c1);
        lemma_private_bits((c0 % 4096) as u64);
        lemma_private(c0);
        if leads_on(c0) {
            lemma_entry_for(m0, c0, vaddr, 0x1000);
            lemma_entry_for(m1, c1, vaddr, 0x1000);
            let k = vaddr as int / 0x1000 % 512;
            let d0 = table(m0, base_of(c0))[k];
            assert(table(m1, base_of(c1))[k] == copied_pte(d0));
            lemma_private_bits(d0);
            lemma_private(d0);
        }
    }
}

proof fn lemma_no_huge(memory: Seq<u64>, pdpt: int, i: int, k: int)
    requires
        0 <= i <= k < 512,
        first_huge(memory, pdpt, i) == 512,
    ensures
        !(present(table(memory, pdpt)[k]) && huge(table(memory, pdpt)[k])),
    decreases k - i,
{
    if i < k {
        lemma_no_huge(memory, pdpt, i + 1, k);
    }
}

} // verus!
