//! `fork`: the child gets an address space of its own in which every
//! mapping's contents are copied to new frames, at the same virtual
//! addresses and with the attributes of each page. Shared mappings lead to
//! the same frames.

use crate::address_space::{
    available, base_of, first_huge, frames_for, kept, lemma_free_below_remove, lemma_map_stays,
    lemma_took_on, lemma_took_self, lowest_taken, map_copied, map_held, own, pte_flags,
    read_pte_flags, table, took, Arena,
};
use crate::pipe::Pipes;
use crate::pmm::{alloc_contiguous, free_run, run_taken, Frames};
use crate::process::{
    covers, fork_copy, forked_mapping, good_mapping, is_fork_of, pipes_shared, room_to_share,
    translated, Mapping, Process,
};
use vstd::prelude::*;

verus! {

/// A run of pages to map: where, onto what, and with which flags.
#[derive(Clone, Copy, Debug, PartialEq, Eq, Structural)]
pub struct PageRun {
    pub vaddr: u64,
    pub phys: u64,
    pub len: u64,
    pub flags: u64,
}

/// The lowest run of `count` frames that can be handed out, from `s` on.
pub open spec fn first_run(f: Frames, count: int, s: int) -> Option<int>
    decreases f.last + 1 - s,
{
    if count <= 0 || s > f.last {
        None
    } else if free_run(f, s, count) {
        Some(s)
    } else {
        first_run(f, count, s + 1)
    }
}

/// The frames that are left, and where the copies start, once each of the
/// first `n` mappings got a run of frames; shared ones get none. Nothing if
/// one of them cannot be had.
pub open spec fn child_frames(f: Frames, ms: Seq<Mapping>, n: nat) -> Option<(Frames, Seq<u64>)>
    decreases n,
{
    if n == 0 {
        Some((f, Seq::empty()))
    } else {
        let m = ms[n - 1];
        match child_frames(f, ms, (n - 1) as nat) {
            None => None,
            Some((g, copies)) => if m.shm_id is Some {
                Some((g, copies.push(0)))
            } else {
                match first_run(g, m.len as int / 4096, 0) {
                    None => None,
                    Some(s) => Some(
                        (
                            run_taken(g, s, m.len as int / 4096),
                            copies.push((s * 4096) as u64),
                        ),
                    ),
                }
            },
        }
    }
}

/// The first `n` pages of a mapping whose copy starts at `phys`, each with
/// the flags that it has in the map at `cr3`. A page that is not present is
/// left out.
pub open spec fn copied_pages(memory: Seq<u64>, cr3: u64, m: Mapping, phys: u64, n: nat) -> Seq<
    PageRun,
>
    decreases n,
{
    if n == 0 {
        Seq::empty()
    } else {
        let before = copied_pages(memory, cr3, m, phys, (n - 1) as nat);
        let flags = pte_flags(memory, cr3, (m.vaddr + (n - 1) * 4096) as u64);
        if flags % 2 == 1 {
            before.push(
                PageRun {
                    vaddr: (m.vaddr + (n - 1) * 4096) as u64,
                    phys: (phys + (n - 1) * 4096) as u64,
                    len: 4096,
                    flags,
                },
            )
        } else {
            before
        }
    }
}

/// What the child maps for one mapping: a shared one as a whole, with the
/// flags of its first page.
pub open spec fn child_pages(memory: Seq<u64>, cr3: u64, m: Mapping, phys: u64) -> Seq<PageRun> {
    if m.shm_id is Some {
        let flags = pte_flags(memory, cr3, m.vaddr);
        seq![
            PageRun {
                vaddr: m.vaddr,
                phys: m.phys,
                len: m.len,
                flags: if flags % 2 == 1 {
                    flags
                } else {
                    (flags + 1) as u64
                },
            },
        ]
    } else {
        copied_pages(memory, cr3, m, phys, m.len as nat / 4096)
    }
}

/// What the child maps for the first `n` mappings.
pub open spec fn all_pages(
    memory: Seq<u64>,
    cr3: u64,
    ms: Seq<Mapping>,
    copies: Seq<u64>,
    n: nat,
) -> Seq<PageRun>
    decreases n,
{
    if n == 0 {
        Seq::empty()
    } else {
        all_pages(memory, cr3, ms, copies, (n - 1) as nat) + child_pages(
            memory,
            cr3,
            ms[n - 1],
            copies[n - 1],
        )
    }
}

/// Whether a mapping consists of whole pages in memory that are in use.
pub open spec fn copyable(memory: Seq<u64>, free: Set<int>, m: Mapping) -> bool {
    &&& good_mapping(m)
    &&& m.shm_id is None ==> {
        &&& m.phys % 4096 == 0
        &&& m.len % 4096 == 0
        &&& m.phys + m.len <= memory.len() * 8
        &&& forall|w: int|
            m.phys / 8 <= w < (m.phys + m.len) / 8 ==> !free.contains(#[trigger] frame_of(w))
    }
}

/// The frame of a word of memory.
pub open spec fn frame_of(w: int) -> int {
    w / 512
}

/// Whether the words of a mapping were copied to the frames from `phys` on.
pub open spec fn contents_copied(m0: Seq<u64>, m: Mapping, m1: Seq<u64>, phys: u64) -> bool {
    m.shm_id is None ==> phys % 4096 == 0 && forall|i: int|
        0 <= i < m.len / 8 ==> #[trigger] m1[phys / 8 + i] == m0[m.phys / 8 + i]
}

proof fn lemma_first_run(f: Frames, count: int, s: int, start: int)
    requires
        0 < count,
        s <= start,
        free_run(f, start, count),
        forall|t: int| s <= t < start ==> !free_run(f, t, count),
    ensures
        first_run(f, count, s) == Some(start),
    decreases start - s,
{
    if s < start {
        lemma_first_run(f, count, s + 1, start);
    }
}

proof fn lemma_no_run(f: Frames, count: int, s: int)
    requires
        forall|t: int| !free_run(f, t, count),
    ensures
        first_run(f, count, s) is None,
    decreases f.last + 1 - s,
{
    if count > 0 && s <= f.last {
        lemma_no_run(f, count, s + 1);
    }
}

proof fn lemma_run_counts(f: Frames, s: int, c: int)
    requires
        0 <= c,
        free_run(f, s, c),
    ensures
        available(run_taken(f, s, c)) + c == available(f),
    decreases c,
{
    let g = run_taken(f, s, c);
    if c == 0 {
        assert(g.free =~= f.free);
    } else {
        let h = run_taken(f, s, c - 1);
        assert(free_run(f, s, c - 1));
        lemma_run_counts(f, s, c - 1);
        assert(g.free =~= h.free.remove(s + c - 1));
        lemma_free_below_remove(h.free, s + c - 1, f.last + 1);
    }
}

impl Arena {
    /// Takes a run of `count` frames and puts them on the list.
    pub(crate) fn alloc_run(&mut self, count: u64) -> (r: Option<u64>)
        requires
            old(self).wf(),
        ensures
            took(*old(self), *final(self)),
            final(self).memory == old(self).memory,
            match r {
                Some(phys) => {
                    &&& count > 0
                    &&& phys % 4096 == 0
                    &&& phys + count * 4096 <= old(self).memory@.len() * 8
                    &&& first_run(old(self).map@, count as int, 0) == Some(phys as int / 4096)
                    &&& final(self).map@ == run_taken(
                        old(self).map@,
                        phys as int / 4096,
                        count as int,
                    )
                    &&& forall|f: int|
                        phys / 4096 <= f < phys / 4096 + count ==> old(self).free().contains(f)
                },
                None => first_run(old(self).map@, count as int, 0) is None && *final(self) == *old(
                    self,
                ),
            },
    {
        let ghost a = *self;
        proof {
            lemma_took_self(a);
        }
        let phys = match alloc_contiguous(&mut self.map, count) {
            None => {
                proof {
                    if count > 0 {
                        lemma_no_run(a.map@, count as int, 0);
                    }
                }
                return None;
            },
            Some(p) => p,
        };
        let ghost start = phys as int / 4096;
        proof {
            lemma_first_run(a.map@, count as int, 0, start);
            lemma_run_counts(a.map@, start, count as int);
        }
        let ghost map = self.map;
        let mut i: u64 = 0;
        while i < count
            invariant
                i <= count,
                phys % 4096 == 0,
                phys + count * 4096 <= a.memory@.len() * 8 <= 0x10_0000_0000_0000,
                self.map == map,
                self.memory == a.memory,
                self.frames@.len() == a.frames@.len() + i,
                self.frames@.take(a.frames@.len() as int) == a.frames@,
                forall|k: int|
                    0 <= k < i ==> #[trigger] self.frames@[a.frames@.len() + k] == phys + k * 4096,
            decreases count - i,
        {
            let ghost before = self.frames@;
            self.frames.push(phys + i * 4096);
            i += 1;
            assert(self.frames@.take(a.frames@.len() as int) =~= before.take(
                a.frames@.len() as int,
            ));
        }
        proof {
            let n = a.frames@.len() as int;
            assert forall|k: int| n <= k < self.frames@.len() implies own(
                self.memory@,
                a.free(),
                self.free(),
                #[trigger] self.frames@[k] as int,
            ) by {
                assert(self.frames@[n + (k - n)] == phys + (k - n) * 4096);
                assert((phys + (k - n) * 4096) / 4096 == start + (k - n));
            }
            assert forall|f: int|
                a.free().contains(f) && !(#[trigger] self.free().contains(
                    f,
                )) implies self.frames@.contains((f * 4096) as u64) by {
                assert(start <= f < start + count);
                assert(self.frames@[n + (f - start)] == phys + (f - start) * 4096);
            }
        }
        Some(phys)
    }
}

/// The frames of a run.
pub open spec fn run_frames(phys: u64, count: int) -> Set<int> {
    Set::new(|f: int| phys / 4096 <= f < phys / 4096 + count)
}

impl Arena {
    /// Copies `count` frames from `from` to `to`.
    fn copy_frames(&mut self, from: u64, to: u64, count: u64)
        requires
            from % 4096 == 0,
            to % 4096 == 0,
            from + count * 4096 <= old(self).memory@.len() * 8,
            to + count * 4096 <= old(self).memory@.len() * 8,
            old(self).memory@.len() <= 0x2_0000_0000_0000,
            forall|w: int|
                from / 8 <= w < from / 8 + count * 512 ==> !run_frames(to, count as int).contains(
                    #[trigger] frame_of(w),
                ),
        ensures
            final(self).map == old(self).map,
            final(self).frames == old(self).frames,
            kept(old(self).memory@, final(self).memory@, run_frames(to, count as int)),
            forall|i: int|
                0 <= i < count * 512 ==> #[trigger] final(self).memory@[to / 8 + i] == old(
                    self,
                ).memory@[from / 8 + i],
    {
        let ghost m0 = self.memory@;
        let ghost run = run_frames(to, count as int);
        assert(self.memory@.len() == self.memory.len());
        let src: usize = (from / 8) as usize;
        let dst: usize = (to / 8) as usize;
        let n: usize = (count * 512) as usize;
        let mut i: usize = 0;
        while i < n
            invariant
                i <= n,
                n == count * 512,
                src == from / 8,
                dst == to / 8,
                to % 4096 == 0,
                src + n <= self.memory@.len(),
                dst + n <= self.memory@.len(),
                run == run_frames(to, count as int),
                self.map == old(self).map,
                self.frames == old(self).frames,
                kept(m0, self.memory@, run),
                forall|w: int|
                    from / 8 <= w < from / 8 + count * 512 ==> !run.contains(
                        #[trigger] frame_of(w),
                    ),
                forall|k: int| 0 <= k < i ==> #[trigger] self.memory@[dst + k] == m0[src + k],
            decreases n - i,
        {
            assert(self.memory@.len() == self.memory.len());
            assert(!run.contains(frame_of(src + i)));
            let w = self.memory[src + i];
            assert(w == m0[src + i]);
            assert((dst + i) / 512 == to as int / 4096 + i as int / 512);
            self.memory.set(dst + i, w);
            i += 1;
        }
    }

    /// The flags of the first `count` pages from `vaddr` on, in the map at
    /// `cr3`.
    fn flags_of(&self, cr3: u64, vaddr: u64, count: u64) -> (r: Vec<u64>)
        requires
            cr3 <= u64::MAX - 4096,
            vaddr + count * 4096 <= u64::MAX,
        ensures
            r@.len() == count,
            forall|p: int|
                0 <= p < count ==> #[trigger] r@[p] == pte_flags(
                    self.memory@,
                    cr3,
                    (vaddr + p * 4096) as u64,
                ),
    {
        let mut out: Vec<u64> = Vec::new();
        let mut p: u64 = 0;
        while p < count
            invariant
                p <= count,
                cr3 <= u64::MAX - 4096,
                vaddr + count * 4096 <= u64::MAX,
                out@.len() == p,
                forall|k: int|
                    0 <= k < p ==> #[trigger] out@[k] == pte_flags(
                        self.memory@,
                        cr3,
                        (vaddr + k * 4096) as u64,
                    ),
            decreases count - p,
        {
            out.push(read_pte_flags(&self.memory, cr3, vaddr + p * 4096));
            p += 1;
        }
        out
    }
}

/// Puts what the child maps for one mapping on the list.
fn push_pages(
    out: &mut Vec<PageRun>,
    m: Mapping,
    phys: u64,
    flags: &Vec<u64>,
    Ghost(memory): Ghost<Seq<u64>>,
    Ghost(cr3): Ghost<u64>,
)
    requires
        good_mapping(m),
        m.shm_id is None ==> phys + m.len <= u64::MAX && flags@.len() == m.len as int / 4096,
        m.shm_id is Some ==> flags@.len() == 1,
        forall|p: int|
            0 <= p < flags@.len() ==> #[trigger] flags@[p] == pte_flags(
                memory,
                cr3,
                (m.vaddr + p * 4096) as u64,
            ),
    ensures
        final(out)@ == old(out)@ + child_pages(memory, cr3, m, phys),
{
    let ghost had = out@;
    if m.shm_id.is_some() {
        let f = flags[0];
        assert(f == pte_flags(memory, cr3, m.vaddr));
        assert(f < 4096);
        out.push(
            PageRun {
                vaddr: m.vaddr,
                phys: m.phys,
                len: m.len,
                flags: if f % 2 == 1 { f } else { f + 1 },
            },
        );
        assert(out@ =~= had + child_pages(memory, cr3, m, phys));
        return;
    }
    let mut p: usize = 0;
    assert(out@ =~= had + copied_pages(memory, cr3, m, phys, 0));
    while p < flags.len()
        invariant
            p <= flags@.len(),
            good_mapping(m),
            phys + m.len <= u64::MAX,
            flags@.len() == m.len as int / 4096,
            forall|p: int|
                0 <= p < flags@.len() ==> #[trigger] flags@[p] == pte_flags(
                    memory,
                    cr3,
                    (m.vaddr + p * 4096) as u64,
                ),
            out@ == had + copied_pages(memory, cr3, m, phys, p as nat),
        decreases flags@.len() - p,
    {
        let f = flags[p];
        if f % 2 == 1 {
            out.push(
                PageRun {
                    vaddr: m.vaddr + p as u64 * 4096,
                    phys: phys + p as u64 * 4096,
                    len: 4096,
                    flags: f,
                },
            );
        }
        assert(out@ =~= had + copied_pages(memory, cr3, m, phys, (p + 1) as nat));
        p += 1;
    }
}

/// The flags that the parent's pages have: of each page of a mapping, or of
/// the first where it is shared.
fn parent_flags(arena: &Arena, cr3: u64, ms: &Vec<Mapping>) -> (r: Vec<Vec<u64>>)
    requires
        cr3 <= u64::MAX - 4096,
        forall|i: int| 0 <= i < ms@.len() ==> good_mapping(#[trigger] ms@[i]),
    ensures
        r@.len() == ms@.len(),
        forall|i: int|
            0 <= i < ms@.len() ==> flags_read(arena.memory@, cr3, ms@[i], #[trigger] r@[i]@),
{
    let mut out: Vec<Vec<u64>> = Vec::new();
    let mut i: usize = 0;
    while i < ms.len()
        invariant
            i <= ms@.len(),
            cr3 <= u64::MAX - 4096,
            forall|i: int| 0 <= i < ms@.len() ==> good_mapping(#[trigger] ms@[i]),
            out@.len() == i,
            forall|k: int|
                0 <= k < i ==> flags_read(arena.memory@, cr3, ms@[k], #[trigger] out@[k]@),
        decreases ms@.len() - i,
    {
        let m = ms[i];
        assert(good_mapping(ms@[i as int]));
        let flags = if m.shm_id.is_some() {
            let mut one: Vec<u64> = Vec::new();
            one.push(read_pte_flags(&arena.memory, cr3, m.vaddr));
            one
        } else {
            arena.flags_of(cr3, m.vaddr, m.len / 4096)
        };
        assert(flags_read(arena.memory@, cr3, m, flags@));
        out.push(flags);
        i += 1;
    }
    out
}

/// Whether these are the flags of a mapping's pages.
pub open spec fn flags_read(memory: Seq<u64>, cr3: u64, m: Mapping, flags: Seq<u64>) -> bool {
    &&& flags.len() == if m.shm_id is Some {
        1
    } else {
        m.len as int / 4096
    }
    &&& forall|p: int|
        0 <= p < flags.len() ==> #[trigger] flags[p] == pte_flags(
            memory,
            cr3,
            (m.vaddr + p * 4096) as u64,
        )
}

/// What the child maps, with the flags that the parent's pages have.
fn plan_pages(
    ms: &Vec<Mapping>,
    copies: &Vec<u64>,
    flags: &Vec<Vec<u64>>,
    Ghost(memory): Ghost<Seq<u64>>,
    Ghost(cr3): Ghost<u64>,
) -> (r: Vec<PageRun>)
    requires
        copies@.len() == ms@.len(),
        flags@.len() == ms@.len(),
        forall|i: int|
            0 <= i < ms@.len() ==> good_mapping(#[trigger] ms@[i]) && copies@[i] + ms@[i].len
                <= u64::MAX,
        forall|i: int|
            0 <= i < ms@.len() ==> flags_read(memory, cr3, ms@[i], #[trigger] flags@[i]@),
    ensures
        r@ == all_pages(memory, cr3, ms@, copies@, ms@.len()),
{
    let mut out: Vec<PageRun> = Vec::new();
    let mut i: usize = 0;
    while i < ms.len()
        invariant
            i <= ms@.len(),
            copies@.len() == ms@.len(),
            flags@.len() == ms@.len(),
            forall|i: int|
                0 <= i < ms@.len() ==> good_mapping(#[trigger] ms@[i]) && copies@[i] + ms@[i].len
                    <= u64::MAX,
            forall|i: int|
                0 <= i < ms@.len() ==> flags_read(memory, cr3, ms@[i], #[trigger] flags@[i]@),
            out@ == all_pages(memory, cr3, ms@, copies@, i as nat),
        decreases ms@.len() - i,
    {
        assert(good_mapping(ms@[i as int]));
        assert(flags_read(memory, cr3, ms@[i as int], flags@[i as int]@));
        push_pages(&mut out, ms[i], copies[i], &flags[i], Ghost(memory), Ghost(cr3));
        i += 1;
    }
    out
}

impl Arena {
    /// Copies every mapping's contents to new frames, shared mappings aside.
    /// Gives where each copy starts; 0 for a shared one.
    pub fn copy_mappings(&mut self, ms: &Vec<Mapping>) -> (r: Result<Vec<u64>, &'static str>)
        requires
            old(self).wf(),
            forall|i: int|
                0 <= i < ms@.len() ==> copyable(
                    old(self).memory@,
                    old(self).free(),
                    #[trigger] ms@[i],
                ),
        ensures
            took(*old(self), *final(self)),
            match r {
                Ok(copies) => {
                    &&& child_frames(old(self).map@, ms@, ms@.len()) == Some(
                        (final(self).map@, copies@),
                    )
                    &&& copies@.len() == ms@.len()
                    &&& forall|i: int|
                        0 <= i < ms@.len() ==> contents_copied(
                            old(self).memory@,
                            ms@[i],
                            final(self).memory@,
                            #[trigger] copies@[i],
                        ) && copies@[i] + ms@[i].len <= u64::MAX && copies@[i]
                            <= 0x10_0000_0000_0000
                },
                Err(e) => e == "fork: out of memory" && child_frames(
                    old(self).map@,
                    ms@,
                    ms@.len(),
                ) is None,
            },
    {
        let ghost a = *self;
        let mut copies: Vec<u64> = Vec::new();
        proof {
            lemma_took_self(a);
        }
        let mut i: usize = 0;
        while i < ms.len()
            invariant
                i <= ms@.len(),
                a == *old(self),
                took(a, *self),
                self.wf(),
                forall|k: int|
                    0 <= k < ms@.len() ==> copyable(a.memory@, a.free(), #[trigger] ms@[k]),
                copies@.len() == i,
                child_frames(a.map@, ms@, i as nat) == Some((self.map@, copies@)),
                forall|k: int|
                    0 <= k < i ==> copied_apart(a, *self, ms@[k], #[trigger] copies@[k]),
            decreases ms@.len() - i,
        {
            let m = ms[i];
            let ghost b = *self;
            let ghost had = copies@;
            proof {
                lemma_took_self(b);
            }
            assert(copyable(a.memory@, a.free(), ms@[i as int]));
            let phys: u64 = if m.shm_id.is_some() {
                0
            } else {
                match self.alloc_run(m.len / 4096) {
                    None => {
                        proof {
                            lemma_took_on(a, b, *self);
                            lemma_child_frames_none(a.map@, ms@, (i + 1) as nat, ms@.len());
                        }
                        return Err("fork: out of memory");
                    },
                    Some(p) => {
                        let ghost c = *self;
                        proof {
                            lemma_source_apart(a, b, m, p);
                        }
                        self.copy_frames(m.phys, p, m.len / 4096);
                        proof {
                            lemma_run_filled(a, b, c, *self, m, p);
                        }
                        p
                    },
                }
            };
            copies.push(phys);
            proof {
                assert forall|k: int| 0 <= k < i + 1 implies copied_apart(
                    a,
                    *self,
                    ms@[k],
                    #[trigger] copies@[k],
                ) by {
                    if k < i {
                        assert(copied_apart(a, b, ms@[k], had[k]));
                        lemma_copied_stays(a, b, *self, ms@[k], had[k]);
                    }
                }
            }
            i += 1;
        }
        assert forall|k: int| 0 <= k < ms@.len() implies contents_copied(
            a.memory@,
            ms@[k],
            self.memory@,
            #[trigger] copies@[k],
        ) && copies@[k] + ms@[k].len <= u64::MAX && copies@[k] <= 0x10_0000_0000_0000 by {
            assert(copied_apart(a, *self, ms@[k], copies@[k]));
        }
        Ok(copies)
    }
}

/// Whether a mapping's contents were copied to a run of frames that is in
/// use now.
pub open spec fn copied_apart(a: Arena, b: Arena, m: Mapping, phys: u64) -> bool {
    &&& contents_copied(a.memory@, m, b.memory@, phys)
    &&& phys + m.len <= u64::MAX
    &&& phys <= 0x10_0000_0000_0000
    &&& m.shm_id is None ==> {
        &&& phys % 4096 == 0
        &&& m.len % 4096 == 0
        &&& phys + m.len <= b.memory@.len() * 8
        &&& forall|f: int| phys / 4096 <= f < phys / 4096 + m.len / 4096 ==> !b.free().contains(f)
    }
}

proof fn lemma_child_frames_none(f: Frames, ms: Seq<Mapping>, i: nat, n: nat)
    requires
        i <= n,
        child_frames(f, ms, i) is None,
    ensures
        child_frames(f, ms, n) is None,
    decreases n,
{
    if i < n {
        lemma_child_frames_none(f, ms, i, (n - 1) as nat);
    }
}

/// A mapping's words do not lie in frames that were free.
proof fn lemma_source_apart(a: Arena, b: Arena, m: Mapping, p: u64)
    requires
        took(a, b),
        copyable(a.memory@, a.free(), m),
        m.shm_id is None,
        forall|f: int|
            p / 4096 <= f < p / 4096 + (m.len / 4096) ==> b.free().contains(f),
    ensures
        forall|w: int|
            m.phys / 8 <= w < m.phys / 8 + (m.len / 4096) * 512 ==> !run_frames(
                p,
                (m.len / 4096) as int,
            ).contains(#[trigger] frame_of(w)),
{
}

/// Writing to a run of frames that was taken is part of taking it.
pub(crate) proof fn lemma_run_written(b: Arena, c: Arena, d: Arena, p: u64, count: int)
    requires
        took(b, c),
        forall|f: int| p / 4096 <= f < p / 4096 + count ==> b.free().contains(f),
        d.map == c.map,
        d.frames == c.frames,
        kept(c.memory@, d.memory@, run_frames(p, count)),
    ensures
        took(b, d),
{
    assert(run_frames(p, count).subset_of(b.free()));
    assert forall|k: int| b.frames@.len() <= k < d.frames@.len() implies own(
        d.memory@,
        b.free(),
        d.free(),
        #[trigger] d.frames@[k] as int,
    ) by {
        assert(own(c.memory@, b.free(), c.free(), c.frames@[k] as int));
    }
    assert forall|f: int|
        b.free().contains(f) && !(#[trigger] d.free().contains(f)) implies d.frames@.contains(
        (f * 4096) as u64,
    ) by {
        assert(!c.free().contains(f));
    }
}

/// A run that was taken and filled with a mapping's contents.
proof fn lemma_run_filled(a: Arena, b: Arena, c: Arena, d: Arena, m: Mapping, p: u64)
    requires
        took(a, b),
        took(b, c),
        c.memory == b.memory,
        copyable(a.memory@, a.free(), m),
        m.shm_id is None,
        p % 4096 == 0,
        p + m.len <= b.memory@.len() * 8,
        forall|f: int| p / 4096 <= f < p / 4096 + (m.len / 4096) ==> b.free().contains(f),
        c.map@ == run_taken(b.map@, p as int / 4096, m.len as int / 4096),
        d.map == c.map,
        d.frames == c.frames,
        kept(c.memory@, d.memory@, run_frames(p, (m.len / 4096) as int)),
        forall|i: int|
            0 <= i < (m.len / 4096) * 512 ==> #[trigger] d.memory@[p / 8 + i] == c.memory@[m.phys
                / 8 + i],
    ensures
        took(a, d),
        took(b, d),
        copied_apart(a, d, m, p),
{
    lemma_run_written(b, c, d, p, m.len as int / 4096);
    lemma_took_on(a, b, d);
    assert forall|i: int| 0 <= i < m.len / 8 implies #[trigger] d.memory@[p / 8 + i]
        == a.memory@[m.phys / 8 + i] by {
        let w = m.phys as int / 8 + i;
        assert(!a.free().contains(frame_of(w)));
        assert(b.memory@[w] == a.memory@[w]);
    }
}

/// A copy stays while further frames are taken.
proof fn lemma_copied_stays(a: Arena, b: Arena, c: Arena, m: Mapping, phys: u64)
    requires
        copied_apart(a, b, m, phys),
        took(b, c),
    ensures
        copied_apart(a, c, m, phys),
{
    if m.shm_id is None {
        assert forall|i: int| 0 <= i < m.len / 8 implies #[trigger] c.memory@[phys / 8 + i]
            == a.memory@[m.phys / 8 + i] by {
            let w = phys as int / 8 + i;
            assert(b.memory@[w] == a.memory@[m.phys / 8 + i]);
            assert(phys as int / 4096 <= w / 512 < phys as int / 4096 + m.len as int / 4096);
            assert(c.memory@[w] == b.memory@[w]);
        }
    }
}

/// A child: its process, the top-level table of its address space, and what
/// is to be mapped in it.
pub struct Child {
    pub process: Process,
    pub pml4: u64,
    pub pages: Vec<PageRun>,
}

/// Copies a process for `fork`. `kernel` is the kernel's map, `cr3` the
/// parent's and `pid` the parent's id. If the child cannot be had, the open
/// files are not shared.
pub fn fork(
    arena: &mut Arena,
    kernel: u64,
    cr3: u64,
    parent: &Process,
    pipes: &mut Pipes,
    pid: usize,
) -> (r: Result<Child, &'static str>)
    requires
        old(arena).wf(),
        map_held(old(arena).memory@, old(arena).free(), kernel as int),
        cr3 <= u64::MAX - 4096,
        parent.wf(),
        forall|i: int|
            0 <= i < parent.mappings@.len() ==> copyable(
                old(arena).memory@,
                old(arena).free(),
                #[trigger] parent.mappings@[i],
            ),
        old(pipes).wf(),
        room_to_share(old(pipes)@, parent.fds@.len()),
    ensures
        took(*old(arena), *final(arena)),
        final(pipes).wf(),
        ({
            let m = old(arena).memory@;
            let ms = parent.mappings@;
            let pdpt = base_of(table(m, kernel as int)[0]);
            let stop = first_huge(m, pdpt, 0);
            let short = available(old(arena).map@) < 2 + frames_for(m, pdpt, stop as nat);
            let copies = child_frames(
                lowest_taken(old(arena).map@, 2 + frames_for(m, pdpt, 512)),
                ms,
                ms.len(),
            );
            match r {
                Ok(child) => {
                    &&& !short && stop == 512 && copies is Some
                    &&& final(arena).map@ == (copies->0).0
                    &&& map_copied(
                        m,
                        kernel as int,
                        final(arena).memory@,
                        child.pml4 as int,
                        old(arena).free(),
                        final(arena).free(),
                    )
                    &&& child.process.wf()
                    &&& is_fork_of(child.process, *parent, (copies->0).1, pid)
                    &&& child.pages@ == all_pages(m, cr3, ms, (copies->0).1, ms.len())
                    &&& forall|i: int|
                        0 <= i < ms.len() ==> contents_copied(
                            m,
                            ms[i],
                            final(arena).memory@,
                            #[trigger] (copies->0).1[i],
                        )
                    &&& final(pipes)@ == pipes_shared(old(pipes)@, parent.fds@, parent.fds@.len())
                },
                Err(e) => {
                    &&& final(pipes)@ == old(pipes)@
                    &&& if short {
                        e == "out of memory"
                    } else if stop < 512 {
                        e == "unexpected 1 GiB page in boot map"
                    } else {
                        e == "fork: out of memory" && copies is None
                    }
                },
            }
        }),
{
    let ghost a = *arena;
    let ms = &parent.mappings;
    assert forall|i: int| 0 <= i < ms@.len() implies good_mapping(#[trigger] ms@[i]) by {
        assert(copyable(a.memory@, a.free(), ms@[i]));
    }
    let flags = parent_flags(arena, cr3, ms);
    let pml4 = match arena.build_address_space(kernel) {
        Err(e) => {
            return Err(e);
        },
        Ok(t) => t,
    };
    let ghost b = *arena;
    proof {
        assert forall|i: int| 0 <= i < ms@.len() implies copyable(
            b.memory@,
            b.free(),
            #[trigger] ms@[i],
        ) by {
            assert(copyable(a.memory@, a.free(), ms@[i]));
        }
    }
    match arena.copy_mappings(ms) {
        Err(e) => {
            proof {
                lemma_took_on(a, b, *arena);
            }
            Err(e)
        },
        Ok(copies) => {
            proof {
                lemma_took_on(a, b, *arena);
                lemma_map_stays(a.memory@, kernel as int, b, pml4 as int, *arena, a.free());
                assert forall|i: int| 0 <= i < ms@.len() implies contents_copied(
                    a.memory@,
                    ms@[i],
                    arena.memory@,
                    #[trigger] copies@[i],
                ) by {
                    assert(copyable(a.memory@, a.free(), ms@[i]));
                    lemma_contents_source(a, b, ms@[i], arena.memory@, copies@[i]);
                }
            }
            let pages = plan_pages(ms, &copies, &flags, Ghost(a.memory@), Ghost(cr3));
            let process = fork_copy(parent, pipes, &copies, pid);
            Ok(Child { process, pml4, pages })
        },
    }
}

/// What was copied later is what there was before.
proof fn lemma_contents_source(a: Arena, b: Arena, m: Mapping, after: Seq<u64>, phys: u64)
    requires
        took(a, b),
        copyable(a.memory@, a.free(), m),
        contents_copied(b.memory@, m, after, phys),
    ensures
        contents_copied(a.memory@, m, after, phys),
{
    if m.shm_id is None {
        assert forall|i: int| 0 <= i < m.len / 8 implies #[trigger] after[phys / 8 + i]
            == a.memory@[m.phys / 8 + i] by {
            let w = m.phys as int / 8 + i;
            assert(!a.free().contains(frame_of(w)));
            assert(b.memory@[w] == a.memory@[w]);
        }
    }
}

/// A child finds at each address what its parent had there: the same
/// addresses are mapped, and a word of memory lies in the same frame where
/// the mapping is shared and is the same word in a frame of its own where it
/// is not.
pub proof fn law_child_reads_what_parent_did(
    m0: Seq<u64>,
    free: Set<int>,
    parent: Process,
    m1: Seq<u64>,
    child: Process,
    copies: Seq<u64>,
    pid: usize,
    vaddr: u64,
)
    requires
        is_fork_of(child, parent, copies, pid),
        copies.len() == parent.mappings@.len(),
        forall|i: int|
            0 <= i < copies.len() ==> copyable(m0, free, #[trigger] parent.mappings@[i])
                && parent.mappings@[i].vaddr % 4096 == 0 && contents_copied(
                m0,
                parent.mappings@[i],
                m1,
                copies[i],
            ) && copies[i] + parent.mappings@[i].len <= u64::MAX,
        vaddr % 8 == 0,
    ensures
        match translated(parent.mappings@, parent.mappings@.len(), vaddr, 8) {
            None => translated(child.mappings@, child.mappings@.len(), vaddr, 8) is None,
            Some(p) => translated(child.mappings@, child.mappings@.len(), vaddr, 8) matches Some(q)
                && if shared_at(parent.mappings@, parent.mappings@.len(), vaddr) {
                q == p
            } else {
                m1[q as int / 8] == m0[p as int / 8]
            },
        },
{
    lemma_child_reads(m0, free, parent, m1, child, copies, pid, vaddr, copies.len());
}

/// Whether the newest of the first `n` mappings that covers a word is
/// shared.
pub open spec fn shared_at(ms: Seq<Mapping>, n: nat, vaddr: u64) -> bool
    decreases n,
{
    if n == 0 {
        false
    } else if covers(ms[n - 1], vaddr as int, vaddr + 8) {
        ms[n - 1].shm_id is Some
    } else {
        shared_at(ms, (n - 1) as nat, vaddr)
    }
}

proof fn lemma_child_reads(
    m0: Seq<u64>,
    free: Set<int>,
    parent: Process,
    m1: Seq<u64>,
    child: Process,
    copies: Seq<u64>,
    pid: usize,
    vaddr: u64,
    n: nat,
)
    requires
        is_fork_of(child, parent, copies, pid),
        n <= copies.len() == parent.mappings@.len(),
        forall|i: int|
            0 <= i < copies.len() ==> copyable(m0, free, #[trigger] parent.mappings@[i])
                && parent.mappings@[i].vaddr % 4096 == 0 && contents_copied(
                m0,
                parent.mappings@[i],
                m1,
                copies[i],
            ) && copies[i] + parent.mappings@[i].len <= u64::MAX,
        vaddr % 8 == 0,
    ensures
        match translated(parent.mappings@, n, vaddr, 8) {
            None => translated(child.mappings@, n, vaddr, 8) is None,
            Some(p) => translated(child.mappings@, n, vaddr, 8) matches Some(q) && if shared_at(
                parent.mappings@,
                n,
                vaddr,
            ) {
                q == p
            } else {
                m1[q as int / 8] == m0[p as int / 8]
            },
        },
    decreases n,
{
    if n > 0 {
        lemma_child_reads(m0, free, parent, m1, child, copies, pid, vaddr, (n - 1) as nat);
        let m = parent.mappings@[n - 1];
        assert(child.mappings@[n - 1] == forked_mapping(m, copies[n - 1]));
        if vaddr + 8 <= u64::MAX && covers(m, vaddr as int, vaddr + 8) && m.shm_id is None {
            let i = (vaddr - m.vaddr) / 8;
            assert(vaddr - m.vaddr == 8 * i);
            let phys = copies[n - 1];
            assert(m1[phys as int / 8 + i] == m0[m.phys as int / 8 + i]);
            assert((phys + (vaddr - m.vaddr)) / 8 == phys as int / 8 + i);
            assert((m.phys + (vaddr - m.vaddr)) / 8 == m.phys as int / 8 + i);
        }
    }
}

} // verus!
