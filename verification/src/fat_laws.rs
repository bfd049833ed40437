//! What holds of the FAT32 volume across its operations: a directory that
//! was opened for a new entry lets a reader through to it; what was written
//! is what is read, and is listed once; a directory that was made is found;
//! and what was removed is gone, and alone.

use crate::bytes::splice;
use crate::fat::{
    after_sectors, after_slot, after_slots, allocated, chain_data, chain_end, cleared,
    cluster_data, cluster_opened, cluster_run, cluster_sector, clusters_for, components, dir_at,
    dir_begun, dir_made, dir_opened, dir_put, dir_run, dir_there, dot_slot, dropped, entered,
    entry_deleted, entry_in, file_added, file_at, file_data, file_put, file_written, first_wanted,
    flushed, free_slot, fresh_dir, is_wanted, lemma_cluster_sector_bound, lemma_encoded_len,
    lemma_lookup_place, lemma_lowest_free, lemma_lowest_run, listing, lookup, lowest_run, next_of,
    no_scan, one_place, parent_of, removed, run_at, scanned, sector_opened, sector_read,
    sector_written, slot_bytes, slot_name, slots_for, slots_place, slots_stored, sound, stored,
    unended, walked, wiped, with_entry, zeros, EOF_MARK, Entry, FatError, Scan, Volume, Want,
};
use crate::fat_store::{
    apart, chain_in_use, chain_intact, entry_place, is_free, keeps_used,
    lemma_added_file_reads_back, lemma_after_sectors_same, lemma_after_slot_same,
    lemma_after_slots_same, lemma_chain_before, lemma_chain_end, lemma_cleared_keeps,
    lemma_cleared_readable, lemma_cluster_disjoint, lemma_dir_run_same, lemma_dropped_untouched,
    lemma_entered_keeps, lemma_entered_lists, lemma_entered_scan, lemma_entry_slots_list,
    lemma_flush_keeps, lemma_flush_untouched, lemma_found_stands, lemma_freed_fat,
    lemma_freed_frame_of, lemma_freed_low, lemma_intact_in_use, lemma_intact_listable,
    lemma_keeps_intact, lemma_listable_lists, lemma_new_entry_found, lemma_place,
    lemma_readable_frame, lemma_ready_sound, lemma_rest_untouched, lemma_scan_agrees,
    lemma_scan_grows, lemma_sectors_grow, lemma_slots_entered, lemma_slots_grow,
    lemma_slots_stored_keeps, lemma_starts_trans, lemma_stored_untouched, lemma_untouched_trans,
    lemma_walk_agrees, lemma_write_keeps_others, made_ready, on_chain, place_in_sight, readable,
    rest_untouched, same_frame, same_sectors, scan_before, scan_to, slots_in_place, stands_in,
    starts_with, untouched, used_untouched, way_apart,
};
use crate::fatname::{
    entry_slots, law_same_name_is_equivalence, lemma_lfn_slots, lfn_count, name_units, same_name,
    short_checksum, short_name, shown_short, storable, to_space, valid_name,
};
use crate::rtc::DateTime;
use crate::text::lossy_text;
use vstd::prelude::*;
use vstd::utf8::{encode_scalar, encode_utf8, leading_byte_width_1};

verus! {

// ---------------------------------------------------------------------
// An opened directory
// ---------------------------------------------------------------------

/// A directory sector in which some end marks became free slots.
pub open spec fn loosened(a: Seq<u8>, b: Seq<u8>) -> bool {
    &&& a.len() == 512
    &&& b.len() == 512
    &&& forall|i: int|
        0 <= i < 512 ==> #[trigger] b[i] == a[i] || (i % 32 == 0 && a[i] == 0 && b[i] == 0xE5)
}

pub open spec fn loosened_read(a: Result<Seq<u8>, FatError>, b: Result<Seq<u8>, FatError>) -> bool {
    a == b || (a is Ok && b is Ok && loosened(a->Ok_0, b->Ok_0))
}

/// The volumes differ in end marks that became free slots alone.
pub open spec fn loosened_volume(v: Volume, w: Volume) -> bool {
    &&& w == (Volume { drive: w.drive, ..v })
    &&& same_frame(v, w)
    &&& forall|k: u32, s: int|
        #![trigger sector_read(w.drive, cluster_sector(v, k) + s)]
        k >= 2 && 0 <= s < v.spc ==> loosened_read(
            sector_read(v.drive, cluster_sector(v, k) + s),
            sector_read(w.drive, cluster_sector(v, k) + s),
        )
}

/// There is no end mark before the first run of `n` free slots, or anywhere
/// if there is no such run.
pub open spec fn passable(sec: Seq<u8>, n: int) -> bool {
    forall|j: int| 0 <= j < lowest_run(sec, 0, n) ==> #[trigger] sec[32 * j] != 0
}

/// A reader gets through the sectors of cluster `c` from `s` on up to the
/// first run of `n` free slots.
pub open spec fn cluster_passable(v: Volume, c: u32, s: int, n: int) -> bool
    decreases v.spc - s,
{
    s >= v.spc || (match sector_read(v.drive, cluster_sector(v, c) + s) {
        Err(_) => false,
        Ok(sec) => passable(sec, n) && (lowest_run(sec, 0, n) < 16 || cluster_passable(
            v,
            c,
            s + 1,
            n,
        )),
    })
}

/// A reader gets through the directory that goes on with cluster `c` up to
/// the first run of `n` free slots.
pub open spec fn dir_passable(v: Volume, c: u32, n: int, guard: nat) -> bool
    decreases 1_000_001 - guard,
{
    guard > 1_000_000 || (cluster_passable(v, c, 0, n) && match cluster_run(v, c, 0, n) {
        Err(_) => false,
        Ok(Some(_)) => true,
        Ok(None) => match next_of(v, c) {
            None => false,
            Some(m) => m >= EOF_MARK || dir_passable(v, m, n, guard + 1),
        },
    })
}

pub(crate) proof fn lemma_loosened_run(a: Seq<u8>, b: Seq<u8>, i: int, n: int)
    requires
        loosened(a, b),
        0 <= i <= 16,
        n > 0,
    ensures
        lowest_run(b, i, n) == lowest_run(a, i, n),
    decreases 16 - i,
{
    assert forall|j: int| 0 <= j < 16 implies #[trigger] free_slot(a, j) == free_slot(b, j) by {
        let k = 32 * j;
        assert(b[k] == a[k] || (a[k] == 0 && b[k] == 0xE5));
    }
    if i < 16 {
        assert(run_at(a, i, n) == run_at(b, i, n)) by {
            if i + n <= 16 {
                assert forall|j: int| i <= j < i + n implies free_slot(a, j) == #[trigger] free_slot(
                    b,
                    j,
                ) by {
                    assert(free_slot(a, j) == free_slot(b, j));
                }
            }
        }
        lemma_loosened_run(a, b, i + 1, n);
    }
}

pub(crate) proof fn lemma_loosened_passable(a: Seq<u8>, b: Seq<u8>, n: int)
    requires
        loosened(a, b),
        passable(a, n),
        n > 0,
    ensures
        passable(b, n),
{
    lemma_loosened_run(a, b, 0, n);
    lemma_lowest_run(a, 0, n);
    assert forall|j: int| 0 <= j < lowest_run(b, 0, n) implies #[trigger] b[32 * j] != 0 by {
        let k = 32 * j;
        assert(a[32 * j] != 0);
        assert(b[k] == a[k] || b[k] == 0xE5);
    }
}

pub(crate) proof fn lemma_unended(sec: Seq<u8>, n: int)
    requires
        sec.len() == 512,
        n > 0,
    ensures
        loosened(sec, unended(sec, lowest_run(sec, 0, n))),
        passable(unended(sec, lowest_run(sec, 0, n)), n),
{
    let b = lowest_run(sec, 0, n);
    let u = unended(sec, b);
    assert(loosened(sec, u));
    lemma_loosened_run(sec, u, 0, n);
    lemma_lowest_run(sec, 0, n);
    assert forall|j: int| 0 <= j < lowest_run(u, 0, n) implies #[trigger] u[32 * j] != 0 by {
        let k = 32 * j;
        assert(k % 32 == 0 && k / 32 == j);
    }
}

pub(crate) proof fn lemma_loosened_trans(u: Volume, v: Volume, w: Volume)
    requires
        loosened_volume(u, v),
        loosened_volume(v, w),
    ensures
        loosened_volume(u, w),
{
    assert forall|k: u32, s: int|
        #![trigger sector_read(w.drive, cluster_sector(u, k) + s)]
        k >= 2 && 0 <= s < u.spc implies loosened_read(
        sector_read(u.drive, cluster_sector(u, k) + s),
        sector_read(w.drive, cluster_sector(u, k) + s),
    ) by {
        let a = sector_read(u.drive, cluster_sector(u, k) + s);
        let b = sector_read(v.drive, cluster_sector(u, k) + s);
        let c = sector_read(w.drive, cluster_sector(v, k) + s);
        assert(loosened_read(a, b));
        assert(loosened_read(b, c));
        if a is Ok && b is Ok && c is Ok && a != b && b != c {
            let (x, y, z) = (a->Ok_0, b->Ok_0, c->Ok_0);
            assert forall|i: int| 0 <= i < 512 implies #[trigger] z[i] == x[i] || (i % 32 == 0 && x[i]
                == 0 && z[i] == 0xE5) by {
                assert(y[i] == x[i] || (i % 32 == 0 && x[i] == 0 && y[i] == 0xE5));
                assert(z[i] == y[i] || (i % 32 == 0 && y[i] == 0 && z[i] == 0xE5));
            }
        }
    }
}

/// The sectors of a cluster are the same in both.
pub open spec fn cluster_same(v: Volume, w: Volume, k: u32) -> bool {
    forall|s: int|
        0 <= s < v.spc ==> #[trigger] sector_read(w.drive, cluster_sector(v, k) + s)
            == sector_read(v.drive, cluster_sector(v, k) + s)
}

#[verifier::spinoff_prover]
pub(crate) proof fn lemma_sector_opened(v: Volume, c: u32, s: int, n: int)
    requires
        sound(v),
        c >= 2,
        0 <= s < v.spc,
        n > 0,
        sector_opened(v, c, s, n).0 is Ok,
    ensures
        ({
            let (r, w) = sector_opened(v, c, s, n);
            let at = sector_read(w.drive, cluster_sector(v, c) + s);
            &&& loosened_volume(v, w)
            &&& forall|k: u32| k >= 2 && k != c ==> #[trigger] cluster_same(v, w, k)
            &&& at is Ok && passable(at->Ok_0, n)
            &&& r->Ok_0 == (lowest_run(at->Ok_0, 0, n) < 16)
        }),
{
    let lba = cluster_sector(v, c) + s;
    let sec = sector_read(v.drive, lba)->Ok_0;
    let b = lowest_run(sec, 0, n);
    let (r, w) = sector_opened(v, c, s, n);
    lemma_cluster_sector_bound(v, c);
    assert(sec.len() == 512);
    lemma_unended(sec, n);
    lemma_loosened_run(sec, unended(sec, b), 0, n);
    if unended(sec, b) != sec {
        lemma_write_keeps_others(v.drive, lba, lba, unended(sec, b));
        assert forall|k: u32, t: int|
            #![trigger sector_read(w.drive, cluster_sector(v, k) + t)]
            k >= 2 && 0 <= t < v.spc implies loosened_read(
            sector_read(v.drive, cluster_sector(v, k) + t),
            sector_read(w.drive, cluster_sector(v, k) + t),
        ) && (k != c ==> sector_read(w.drive, cluster_sector(v, k) + t) == sector_read(
            v.drive,
            cluster_sector(v, k) + t,
        )) by {
            lemma_cluster_sector_bound(v, k);
            if k != c {
                lemma_cluster_disjoint(v, c, k, s, t);
            }
            lemma_write_keeps_others(
                v.drive,
                lba,
                cluster_sector(v, k) + t,
                unended(sec, b),
            );
        }
    }
    assert forall|k: u32| k >= 2 && k != c implies #[trigger] cluster_same(v, w, k) by {}
}

/// Getting through stays possible where more end marks become free slots.
pub(crate) proof fn lemma_cluster_stays_passable(v: Volume, w: Volume, c: u32, s: int, n: int)
    requires
        loosened_volume(v, w),
        c >= 2,
        0 <= s,
        n > 0,
        cluster_passable(v, c, s, n),
    ensures
        cluster_passable(w, c, s, n),
        cluster_run(w, c, s, n) == cluster_run(v, c, s, n),
        cluster_run(w, c, s, n) is Ok,
    decreases v.spc - s,
{
    if s < v.spc {
        let a = sector_read(v.drive, cluster_sector(v, c) + s);
        let b = sector_read(w.drive, cluster_sector(v, c) + s);
        assert(loosened_read(a, b));
        if a != b {
            lemma_loosened_passable(a->Ok_0, b->Ok_0, n);
            lemma_loosened_run(a->Ok_0, b->Ok_0, 0, n);
        }
        if lowest_run(a->Ok_0, 0, n) >= 16 {
            lemma_cluster_stays_passable(v, w, c, s + 1, n);
        }
    }
}

pub(crate) proof fn lemma_cluster_opened(v: Volume, c: u32, s: int, n: int)
    requires
        sound(v),
        c >= 2,
        0 <= s <= v.spc,
        n > 0,
        cluster_opened(v, c, s, n).0 is Ok,
    ensures
        ({
            let (r, w) = cluster_opened(v, c, s, n);
            &&& loosened_volume(v, w)
            &&& forall|k: u32| k >= 2 && k != c ==> #[trigger] cluster_same(v, w, k)
            &&& cluster_passable(w, c, s, n)
            &&& cluster_run(w, c, s, n) is Ok
            &&& r->Ok_0 == (cluster_run(w, c, s, n)->Ok_0 is Some)
        }),
    decreases v.spc - s,
{
    if s < v.spc {
        lemma_sector_opened(v, c, s, n);
        let u = sector_opened(v, c, s, n).1;
        let (r, w) = cluster_opened(v, c, s, n);
        if sector_opened(v, c, s, n).0->Ok_0 {
            assert(cluster_passable(u, c, s, n));
        } else {
            lemma_cluster_opened(u, c, s + 1, n);
            lemma_loosened_trans(v, u, w);
            let a = sector_read(u.drive, cluster_sector(u, c) + s);
            let b = sector_read(w.drive, cluster_sector(u, c) + s);
            assert(loosened_read(a, b));
            if a != b {
                lemma_loosened_passable(a->Ok_0, b->Ok_0, n);
                lemma_loosened_run(a->Ok_0, b->Ok_0, 0, n);
            }
            assert forall|k: u32| k >= 2 && k != c implies #[trigger] cluster_same(v, w, k) by {
                assert(cluster_same(v, u, k));
                assert(cluster_same(u, w, k));
                assert forall|t: int| 0 <= t < v.spc implies #[trigger] sector_read(
                    w.drive,
                    cluster_sector(v, k) + t,
                ) == sector_read(v.drive, cluster_sector(v, k) + t) by {
                    assert(sector_read(w.drive, cluster_sector(u, k) + t) == sector_read(
                        u.drive,
                        cluster_sector(u, k) + t,
                    ));
                }
            }
        }
    }
}

pub(crate) proof fn lemma_same_fat_chain(v: Volume, w: Volume, c: u32, guard: nat, k: u32)
    requires
        v.fat == w.fat,
    ensures
        on_chain(w, c, guard, k) == on_chain(v, c, guard, k),
    decreases 1_000_001 - guard,
{
    if guard <= 1_000_000 {
        if let Some(n) = next_of(v, c) {
            lemma_same_fat_chain(v, w, n, guard + 1, k);
        }
    }
}

/// An opened directory lets a reader through; nothing else has changed.
pub(crate) proof fn lemma_dir_opened(v: Volume, c: u32, n: int, guard: nat)
    requires
        sound(v),
        n > 0,
        dir_opened(v, c, n, guard).0 is Ok,
    ensures
        ({
            let w = dir_opened(v, c, n, guard).1;
            &&& loosened_volume(v, w)
            &&& forall|k: u32|
                k >= 2 && !on_chain(v, c, guard, k) ==> #[trigger] cluster_same(v, w, k)
            &&& dir_passable(w, c, n, guard)
        }),
    decreases 1_000_001 - guard,
{
    lemma_cluster_opened(v, c, 0, n);
    let (r, u) = cluster_opened(v, c, 0, n);
    let w = dir_opened(v, c, n, guard).1;
    if !r->Ok_0 && next_of(u, c)->0 < EOF_MARK {
        let m = next_of(u, c)->0;
        lemma_dir_opened(u, m, n, guard + 1);
        lemma_loosened_trans(v, u, w);
        lemma_cluster_stays_passable(u, w, c, 0, n);
        assert forall|k: u32| k >= 2 && !on_chain(v, c, guard, k) implies #[trigger] cluster_same(
            v,
            w,
            k,
        ) by {
            lemma_same_fat_chain(v, u, m, guard + 1, k);
            assert(cluster_same(v, u, k));
            assert(cluster_same(u, w, k));
            assert forall|t: int| 0 <= t < v.spc implies #[trigger] sector_read(
                w.drive,
                cluster_sector(v, k) + t,
            ) == sector_read(v.drive, cluster_sector(v, k) + t) by {
                assert(sector_read(w.drive, cluster_sector(u, k) + t) == sector_read(
                    u.drive,
                    cluster_sector(u, k) + t,
                ));
            }
        }
    } else {
        assert forall|k: u32| k >= 2 && !on_chain(v, c, guard, k) implies #[trigger] cluster_same(
            v,
            w,
            k,
        ) by {
            assert(k != c);
        }
    }
}

pub(crate) proof fn lemma_opened_intact(v: Volume, w: Volume, c: u32, guard: nat)
    requires
        loosened_volume(v, w),
        chain_intact(v, c, guard),
    ensures
        chain_intact(w, c, guard),
    decreases 1_000_001 - guard,
{
    let n = (v.fat[c as int] % 0x1000_0000) as u32;
    assert forall|t: int| 0 <= t < w.spc implies (#[trigger] sector_read(
        w.drive,
        cluster_sector(w, c) + t,
    )) is Ok by {
        assert(sector_read(v.drive, cluster_sector(v, c) + t) is Ok);
        assert(loosened_read(
            sector_read(v.drive, cluster_sector(v, c) + t),
            sector_read(w.drive, cluster_sector(v, c) + t),
        ));
    }
    if n < EOF_MARK {
        lemma_opened_intact(v, w, n, guard + 1);
    }
}

pub(crate) proof fn lemma_opened_apart(v: Volume, w: Volume, c: u32, guard: nat, parent: u32)
    requires
        v.fat == w.fat,
        apart(v, c, guard, parent),
    ensures
        apart(w, c, guard, parent),
    decreases 1_000_001 - guard,
{
    lemma_same_fat_chain(v, w, parent, 0, c);
    if guard <= 1_000_000 {
        if let Some(n) = next_of(v, c) {
            if n < EOF_MARK {
                lemma_opened_apart(v, w, n, guard + 1, parent);
            }
        }
    }
}

pub(crate) proof fn lemma_opened_way(v: Volume, u: Volume, w: Volume, c: u32, comps: Seq<Seq<char>>, parent: u32)
    requires
        u.fat == w.fat,
        way_apart(v, u, c, comps, parent),
    ensures
        way_apart(v, w, c, comps, parent),
    decreases comps.len(),
{
    if comps.len() > 0 {
        lemma_opened_apart(u, w, c, 0, parent);
        if let Ok(es) = listing(v, c) {
            if let Some(e) = lookup(es, comps[0], Want::Dir) {
                lemma_opened_way(v, u, w, e.first_cluster, comps.skip(1), parent);
            }
        }
    }
}

// ---------------------------------------------------------------------
// What a reader of an opened directory meets
// ---------------------------------------------------------------------

/// The first byte of slot `j` of a sector.
pub open spec fn mark(sec: Seq<u8>, j: int) -> u8 {
    sec[32 * j]
}

/// Whether a sector is clear behind an end mark.
pub open spec fn sector_tidy(sec: Seq<u8>) -> bool {
    forall|i: int, j: int|
        #![trigger mark(sec, i), mark(sec, j)]
        0 <= i <= j < 16 && mark(sec, i) == 0 ==> mark(sec, j) == 0
}

/// The first byte of slot `i` of a directory cluster, counted through its
/// sectors.
pub open spec fn slot_mark(v: Volume, c: u32, i: int) -> u8 {
    mark(sector_read(v.drive, cluster_sector(v, c) + i / 16)->Ok_0, i % 16)
}

/// Whether the cluster is clear behind an end mark, and all of it if the end
/// mark was seen before.
pub open spec fn cluster_tidy(v: Volume, c: u32, ended: bool) -> bool {
    &&& ended ==> slot_mark(v, c, 0) == 0
    &&& forall|i: int, k: int|
        #![trigger slot_mark(v, c, i), slot_mark(v, c, k)]
        0 <= i <= k < 16 * v.spc && slot_mark(v, c, i) == 0 ==> slot_mark(v, c, k) == 0
}

/// Whether the directory that goes on with cluster `c` is clear behind its
/// end mark.
pub open spec fn tidy(v: Volume, c: u32, guard: nat, ended: bool) -> bool
    decreases 1_000_001 - guard,
{
    guard > 1_000_000 || (cluster_tidy(v, c, ended) && match next_of(v, c) {
        None => true,
        Some(n) => n >= EOF_MARK || tidy(v, n, guard + 1, slot_mark(v, c, 16 * v.spc - 1) == 0),
    })
}

/// Whether long-name slots are followed by their short-name slot: at a free
/// slot, and at the directory's end, none are left over.
pub open spec fn whole_names(v: Volume, c: u32, guard: nat, p: Scan) -> bool
    decreases 1_000_001 - guard,
{
    guard > 1_000_000 || match after_sectors(v, c, p, v.spc) {
        Err(_) => true,
        Ok(q) => {
            &&& names_whole_in(v, c, p)
            &&& match next_of(v, c) {
                None => true,
                Some(n) => if n >= EOF_MARK {
                    q.ended || q.lfn.len() == 0
                } else {
                    whole_names(v, n, guard + 1, q)
                },
            }
        },
    }
}

/// The same of the slots of one cluster.
pub open spec fn names_whole_in(v: Volume, c: u32, p: Scan) -> bool {
    forall|s: nat, j: nat|
        #![trigger slot_scan(v, c, p, s, j)]
        s < v.spc && j < 16 && !slot_scan(v, c, p, s, j).ended && free_slot(
            sector_read(v.drive, cluster_sector(v, c) + s)->Ok_0,
            j as int,
        ) ==> slot_scan(v, c, p, s, j).lfn.len() == 0
}

/// The scan right before slot `j` of sector `s` of a cluster.
pub open spec fn slot_scan(v: Volume, c: u32, p: Scan, s: nat, j: nat) -> Scan {
    after_slots(
        sector_read(v.drive, cluster_sector(v, c) + s)->Ok_0,
        c,
        s as int,
        after_sectors(v, c, p, s)->Ok_0,
        j,
    )
}

/// How the scan of an opened directory keeps up with that of the directory
/// before: the same up to the end mark, and nothing new behind it.
pub open spec fn keeps_up(before: Scan, after: Scan) -> bool {
    &&& after.out == before.out
    &&& !before.ended ==> after == before
    &&& before.ended && !after.ended ==> after.lfn.len() == 0
}

proof fn lemma_slots_keep_up(a: Seq<u8>, b: Seq<u8>, c: u32, s: int, p: Scan, q: Scan, k: nat)
    requires
        a == b || loosened(a, b),
        a.len() == 512,
        k <= 16,
        keeps_up(p, q),
        p.ended ==> mark(a, 0) == 0,
        sector_tidy(a),
    ensures
        keeps_up(after_slots(a, c, s, p, k), after_slots(b, c, s, q, k)),
        after_slots(a, c, s, p, k).ended ==> forall|j: int|
            0 <= j < 16 && j >= k - 1 ==> #[trigger] mark(a, j) == 0,
    decreases k,
{
    if k == 0 {
        assert forall|j: int| p.ended && 0 <= j < 16 && j >= k - 1 implies #[trigger] mark(a, j)
            == 0 by {
            assert(mark(a, 0) == 0);
        }
    } else {
        lemma_slots_keep_up(a, b, c, s, p, q, (k - 1) as nat);
        let at = 32 * (k - 1);
        let x = after_slots(a, c, s, p, (k - 1) as nat);
        assert(mark(a, k - 1) == a[at]);
        assert(b[at] == a[at] || (a[at] == 0 && b[at] == 0xE5));
        if !x.ended && a[at] != 0 {
            assert forall|i: int| 0 <= i < 32 implies #[trigger] a[at + i] == b[at + i] by {
                if a != b {
                    assert(b[at + i] == a[at + i] || ((at + i) % 32 == 0 && a[at + i] == 0));
                }
            }
            lemma_after_slot_same(a, b, at, c, s, x);
        }
        assert forall|j: int|
            after_slots(a, c, s, p, k).ended && 0 <= j < 16 && j >= k - 1 implies #[trigger] mark(
            a,
            j,
        ) == 0 by {
            assert(mark(a, k - 1) == 0);
        }
    }
}

proof fn lemma_tidy_sector(v: Volume, c: u32, ended: bool, s: int)
    requires
        cluster_tidy(v, c, ended),
        0 <= s < v.spc,
    ensures
        sector_tidy(sector_read(v.drive, cluster_sector(v, c) + s)->Ok_0),
{
    let sec = sector_read(v.drive, cluster_sector(v, c) + s)->Ok_0;
    assert forall|i: int, j: int|
        #![trigger mark(sec, i), mark(sec, j)]
        0 <= i <= j < 16 && mark(sec, i) == 0 implies mark(sec, j) == 0 by {
        let (a, b) = (16 * s + i, 16 * s + j);
        assert(a / 16 == s && a % 16 == i && b / 16 == s && b % 16 == j);
        assert(slot_mark(v, c, a) == 0);
        assert(slot_mark(v, c, b) == mark(sec, j));
    }
}

/// Over the first `k` sectors of a cluster.
proof fn lemma_sectors_keep_up(v: Volume, w: Volume, c: u32, p: Scan, q: Scan, k: nat)
    requires
        loosened_volume(v, w),
        sound(v),
        c >= 2,
        readable(v, c),
        cluster_tidy(v, c, p.ended),
        keeps_up(p, q),
        k <= v.spc,
    ensures
        after_sectors(v, c, p, k) is Ok,
        after_sectors(w, c, q, k) is Ok,
        keeps_up(after_sectors(v, c, p, k)->Ok_0, after_sectors(w, c, q, k)->Ok_0),
        after_sectors(v, c, p, k)->Ok_0.ended ==> forall|i: int|
            0 <= i < 16 * v.spc && i >= 16 * k - 1 ==> #[trigger] slot_mark(v, c, i) == 0,
    decreases k,
{
    if k == 0 {
        assert forall|i: int| p.ended && 0 <= i < 16 * v.spc implies #[trigger] slot_mark(v, c, i)
            == 0 by {
            assert(slot_mark(v, c, 0) == 0);
        }
    } else {
        lemma_sectors_keep_up(v, w, c, p, q, (k - 1) as nat);
        let (x, y) = (
            after_sectors(v, c, p, (k - 1) as nat)->Ok_0,
            after_sectors(w, c, q, (k - 1) as nat)->Ok_0,
        );
        let ra = sector_read(v.drive, cluster_sector(v, c) + (k - 1));
        let rb = sector_read(w.drive, cluster_sector(v, c) + (k - 1));
        assert(ra is Ok);
        assert(loosened_read(ra, rb));
        let (a, b) = (ra->Ok_0, rb->Ok_0);
        lemma_cluster_sector_bound(v, c);
        assert(a.len() == 512);
        lemma_tidy_sector(v, c, p.ended, k - 1);
        if x.ended {
            let i = 16 * (k - 1);
            assert(slot_mark(v, c, i) == mark(a, 0));
        }
        lemma_slots_keep_up(a, b, c, k - 1, x, y, 16);
        if y.ended && !x.ended {
            assert(false);
        }
        if x.ended {
            lemma_ended_slots(a, c, k - 1, x, 16);
        }
        if y.ended {
            lemma_ended_slots(b, c, k - 1, y, 16);
        }
        let done = after_sectors(v, c, p, k)->Ok_0;
        assert forall|i: int|
            done.ended && 0 <= i < 16 * v.spc && i >= 16 * k - 1 implies #[trigger] slot_mark(
            v,
            c,
            i,
        ) == 0 by {
            let last = 16 * k - 1;
            assert(mark(a, 15) == 0);
            assert(last / 16 == k - 1 && last % 16 == 15);
            assert(slot_mark(v, c, last) == 0);
        }
    }
}

/// Behind the end mark a scan stays as it is.
proof fn lemma_ended_slots(sec: Seq<u8>, c: u32, s: int, p: Scan, k: nat)
    requires
        p.ended,
    ensures
        after_slots(sec, c, s, p, k) == p,
    decreases k,
{
    if k > 0 {
        lemma_ended_slots(sec, c, s, p, (k - 1) as nat);
    }
}

proof fn lemma_pass_slots(sec: Seq<u8>, c: u32, s: int, p: Scan, k: nat)
    requires
        !p.ended,
        forall|j: int| 0 <= j < k ==> #[trigger] sec[32 * j] != 0,
    ensures
        !after_slots(sec, c, s, p, k).ended,
    decreases k,
{
    if k > 0 {
        lemma_pass_slots(sec, c, s, p, (k - 1) as nat);
        assert(sec[32 * (k - 1)] != 0);
    }
}

/// A reader gets through a passable cluster.
proof fn lemma_pass_cluster(w: Volume, c: u32, p: Scan, s: nat, n: int)
    requires
        n > 0,
        s <= w.spc,
        cluster_passable(w, c, s as int, n),
        after_sectors(w, c, p, s) is Ok,
        !after_sectors(w, c, p, s)->Ok_0.ended,
    ensures
        match cluster_run(w, c, s as int, n) {
            Err(_) => false,
            Ok(Some(o)) => {
                let sec = sector_read(w.drive, cluster_sector(w, c) + o / 512);
                &&& s * 512 <= o && o / 512 < w.spc && o % 32 == 0
                &&& after_sectors(w, c, p, (o / 512) as nat) is Ok
                &&& !after_sectors(w, c, p, (o / 512) as nat)->Ok_0.ended
                &&& sec is Ok
                &&& o % 512 == 32 * lowest_run(sec->Ok_0, 0, n)
                &&& lowest_run(sec->Ok_0, 0, n) < 16
                &&& passable(sec->Ok_0, n)
            },
            Ok(None) => after_sectors(w, c, p, w.spc) is Ok && !after_sectors(
                w,
                c,
                p,
                w.spc,
            )->Ok_0.ended,
        },
    decreases w.spc - s,
{
    if s < w.spc {
        let sec = sector_read(w.drive, cluster_sector(w, c) + s)->Ok_0;
        let b = lowest_run(sec, 0, n);
        lemma_lowest_run(sec, 0, n);
        if b >= 16 {
            lemma_pass_slots(sec, c, s as int, after_sectors(w, c, p, s)->Ok_0, 16);
            lemma_pass_cluster(w, c, p, s + 1, n);
        } else {
            let o = s * 512 + b * 32;
            assert(o / 512 == s && o % 512 == 32 * b);
        }
    }
}

proof fn lemma_run_in_cluster(v: Volume, c: u32, n: int, guard: nat)
    requires
        dir_run(v, c, n, guard) matches Ok(Some(_)),
    ensures
        ({
            let (pc, o) = dir_run(v, c, n, guard)->Ok_0->0;
            cluster_run(v, pc, 0, n) == Ok::<Option<int>, FatError>(Some(o))
        }),
    decreases 1_000_001 - guard,
{
    if cluster_run(v, c, 0, n)->Ok_0 is None {
        lemma_run_in_cluster(v, next_of(v, c)->0, n, guard + 1);
    }
}

/// What a reader of the opened cluster `c` has met right before slot `j` of
/// its sector `s`, where the first run of free slots is.
#[verifier::spinoff_prover]
proof fn lemma_met_in_cluster(
    v: Volume,
    w: Volume,
    c: u32,
    p: Scan,
    q: Scan,
    n: int,
    s: nat,
    whole: bool,
)
    requires
        sound(v),
        loosened_volume(v, w),
        c >= 2,
        readable(v, c),
        cluster_tidy(v, c, p.ended),
        keeps_up(p, q),
        n > 0,
        s < v.spc,
        after_sectors(w, c, q, s) is Ok,
        !after_sectors(w, c, q, s)->Ok_0.ended,
        lowest_run(sector_read(w.drive, cluster_sector(v, c) + s)->Ok_0, 0, n) < 16,
        passable(sector_read(w.drive, cluster_sector(v, c) + s)->Ok_0, n),
        whole ==> names_whole_in(v, c, p),
    ensures
        after_sectors(v, c, p, v.spc) is Ok,
        ({
            let sec = sector_read(w.drive, cluster_sector(v, c) + s)->Ok_0;
            let r = after_slots(
                sec,
                c,
                s as int,
                after_sectors(w, c, q, s)->Ok_0,
                lowest_run(sec, 0, n) as nat,
            );
            &&& !r.ended
            &&& starts_with(after_sectors(v, c, p, v.spc)->Ok_0.out, r.out)
            &&& whole ==> r.lfn.len() == 0
        }),
{
    lemma_sectors_keep_up(v, w, c, p, q, v.spc);
    lemma_sectors_keep_up(v, w, c, p, q, s);
    let ra = sector_read(v.drive, cluster_sector(v, c) + s);
    let rb = sector_read(w.drive, cluster_sector(v, c) + s);
    assert(ra is Ok);
    assert(loosened_read(ra, rb));
    let (a, b) = (ra->Ok_0, rb->Ok_0);
    let (x0, y0) = (after_sectors(v, c, p, s)->Ok_0, after_sectors(w, c, q, s)->Ok_0);
    lemma_cluster_sector_bound(v, c);
    assert(a.len() == 512);
    lemma_tidy_sector(v, c, p.ended, s as int);
    if x0.ended {
        let i = 16 * s as int;
        assert(slot_mark(v, c, i) == mark(a, 0));
    }
    lemma_lowest_run(b, 0, n);
    let j = lowest_run(b, 0, n) as nat;
    lemma_slots_keep_up(a, b, c, s as int, x0, y0, j);
    lemma_pass_slots(b, c, s as int, y0, j);
    let before = after_slots(a, c, s as int, x0, j);
    let x = after_sectors(v, c, p, v.spc)->Ok_0;
    lemma_slots_grow(a, c, s as int, x0, j, 16);
    if x0.ended {
        lemma_ended_slots(a, c, s as int, x0, j);
        lemma_sectors_grow(v, c, p, s, v.spc);
    } else {
        lemma_sectors_grow(v, c, p, s + 1, v.spc);
        let x1 = after_sectors(v, c, p, s + 1)->Ok_0;
        assert(x1 == after_slots(a, c, s as int, x0, 16));
        lemma_starts_trans(before.out, x1.out, x.out);
    }
    if whole && !before.ended {
        lemma_loosened_or_same_run(a, b, n);
        lemma_lowest_run(a, 0, n);
        assert(run_at(a, j as int, n));
        assert(free_slot(a, j as int));
        assert(slot_scan(v, c, p, s, j) == before);
    }
}

/// What a reader of the opened directory `w` has met when it gets to the
/// place for `n` new slots: no end mark, nothing that was not listed in `v`,
/// and no left-over long-name slot if there was none.
#[verifier::spinoff_prover]
proof fn lemma_scan_gets_there(
    v: Volume,
    w: Volume,
    c: u32,
    guard: nat,
    p: Scan,
    q: Scan,
    n: int,
    whole: bool,
)
    requires
        sound(v),
        loosened_volume(v, w),
        chain_intact(v, c, guard),
        dir_passable(w, c, n, guard),
        tidy(v, c, guard, p.ended),
        keeps_up(p, q),
        !q.ended,
        n > 0,
        whole ==> whole_names(v, c, guard, p),
    ensures
        dir_run(w, c, n, guard) is Ok,
        scan_before(w, c, guard, q, dir_run(w, c, n, guard)->Ok_0) matches Some(r) && !r.ended
            && starts_with(met(v, c, guard, p), r.out) && (whole ==> r.lfn.len() == 0),
    decreases 1_000_001 - guard,
{
    lemma_sectors_keep_up(v, w, c, p, q, v.spc);
    lemma_pass_cluster(w, c, q, 0, n);
    let m = (v.fat[c as int] % 0x1000_0000) as u32;
    assert(next_of(v, c) == Some(m));
    assert(next_of(w, c) == Some(m));
    let (x, y) = (after_sectors(v, c, p, v.spc)->Ok_0, after_sectors(w, c, q, v.spc)->Ok_0);
    lemma_intact_listable(v, v, c, guard);
    lemma_listable_lists(v, c, guard, p);
    lemma_met(v, c, guard, p);
    match cluster_run(w, c, 0, n)->Ok_0 {
        Some(o) => {
            let s = (o / 512) as nat;
            lemma_met_in_cluster(v, w, c, p, q, n, s, whole);
            let r = scan_before(w, c, guard, q, Some((c, o)))->0;
            lemma_starts_trans(r.out, x.out, met(v, c, guard, p));
        },
        None => {
            if m < EOF_MARK {
                if x.ended {
                    let last = 16 * v.spc - 1;
                    assert(slot_mark(v, c, last) == 0);
                }
                lemma_tidy_on(v, c, guard, p, x, m);
                lemma_scan_gets_there(v, w, m, guard + 1, x, y, n, whole);
                let run = dir_run(w, m, n, guard + 1)->Ok_0;
                if run is Some {
                    lemma_run_in_cluster(w, m, n, guard + 1);
                }
                assert(dir_run(w, c, n, guard) == dir_run(w, m, n, guard + 1));
                assert(scan_before(w, c, guard, q, run) == scan_before(w, m, guard + 1, y, run));
            }
        },
    }
}

/// What the scan has met at the end of the directory.
pub open spec fn met(v: Volume, c: u32, guard: nat, p: Scan) -> Seq<Entry> {
    if p.ended {
        p.out
    } else {
        scanned(v, c, guard, p)->Ok_0
    }
}

proof fn lemma_met(v: Volume, c: u32, guard: nat, p: Scan)
    requires
        chain_intact(v, c, guard),
        scanned(v, c, guard, p) is Ok,
        after_sectors(v, c, p, v.spc) is Ok,
    ensures
        ({
            let x = after_sectors(v, c, p, v.spc)->Ok_0;
            let m = (v.fat[c as int] % 0x1000_0000) as u32;
            &&& starts_with(met(v, c, guard, p), x.out)
            &&& m < EOF_MARK ==> met(v, m, guard + 1, x) == met(v, c, guard, p)
        }),
{
    if p.ended {
        lemma_ended_sectors(v, c, p, v.spc);
        assert(p.out.take(p.out.len() as int) =~= p.out);
    } else {
        lemma_scan_lists(v, c, guard, p);
    }
}

pub(crate) proof fn lemma_loosened_or_same_run(a: Seq<u8>, b: Seq<u8>, n: int)
    requires
        a == b || loosened(a, b),
        n > 0,
    ensures
        lowest_run(a, 0, n) == lowest_run(b, 0, n),
{
    if a != b {
        lemma_loosened_run(a, b, 0, n);
    }
}

/// The end of one cluster decides how the next has to look.
proof fn lemma_tidy_on(v: Volume, c: u32, guard: nat, p: Scan, x: Scan, m: u32)
    requires
        guard <= 1_000_000,
        sound(v),
        tidy(v, c, guard, p.ended),
        next_of(v, c) == Some(m),
        m < EOF_MARK,
        x.ended ==> slot_mark(v, c, 16 * v.spc - 1) == 0,
    ensures
        tidy(v, m, guard + 1, x.ended),
{
    let e = slot_mark(v, c, 16 * v.spc - 1) == 0;
    if e && !x.ended {
        lemma_tidy_weaker(v, m, guard + 1);
    }
}

proof fn lemma_tidy_weaker(v: Volume, c: u32, guard: nat)
    requires
        tidy(v, c, guard, true),
    ensures
        tidy(v, c, guard, false),
{
}

proof fn lemma_ended_sectors(v: Volume, c: u32, p: Scan, k: nat)
    requires
        p.ended,
    ensures
        after_sectors(v, c, p, k) == Ok::<Scan, FatError>(p),
    decreases k,
{
    if k > 0 {
        lemma_ended_sectors(v, c, p, (k - 1) as nat);
    }
}

/// What the sectors of a cluster gave is listed.
proof fn lemma_scan_lists(v: Volume, c: u32, guard: nat, p: Scan)
    requires
        scanned(v, c, guard, p) is Ok,
    ensures
        starts_with(scanned(v, c, guard, p)->Ok_0, after_sectors(v, c, p, v.spc)->Ok_0.out),
{
    let q = after_sectors(v, c, p, v.spc)->Ok_0;
    if !q.ended && next_of(v, c)->0 < EOF_MARK {
        lemma_scan_grows(v, next_of(v, c)->0, guard + 1, q);
    } else {
        assert(q.out.take(q.out.len() as int) =~= q.out);
    }
}

/// Whether an entry with `name` can be put into the directory `parent`: its
/// chain is intact, it is clear behind its end mark, it has no other entry
/// of that name, and either no long-name slots are left over in it or the
/// name closes its own by an end sign.
pub open spec fn has_place(v: Volume, parent: u32, name: Seq<char>) -> bool {
    &&& chain_intact(v, parent, 0)
    &&& tidy(v, parent, 0, false)
    &&& entry_in(v, parent, name) is None
    &&& name.len() % 13 != 0 || whole_names(v, parent, 0, no_scan())
}

proof fn lemma_none_wanted(es: Seq<Entry>, name: Seq<char>, i: int, k: int, want: Want)
    requires
        first_wanted(es, name, Want::Any, i) >= es.len(),
        0 <= i <= k < es.len(),
    ensures
        !is_wanted(es[k], name, want),
    decreases k - i,
{
    if i < k {
        lemma_none_wanted(es, name, i + 1, k, want);
    }
}

/// A reader gets to the place for the new slots of an opened directory.
pub(crate) proof fn lemma_place_in_sight(u: Volume, parent: u32, name: Seq<char>)
    requires
        sound(u),
        has_place(u, parent, name),
        dir_opened(u, parent, slots_for(name), 0).0 is Ok,
    ensures
        place_in_sight(dir_opened(u, parent, slots_for(name), 0).1, parent, name),
{
    let n = slots_for(name);
    let t = dir_opened(u, parent, n, 0).1;
    lemma_dir_opened(u, parent, n, 0);
    let whole = name.len() % 13 == 0;
    lemma_scan_gets_there(u, t, parent, 0, no_scan(), no_scan(), n, whole);
    let r = scan_before(t, parent, 0, no_scan(), dir_run(t, parent, n, 0)->Ok_0)->0;
    let es = listing(u, parent)->Ok_0;
    lemma_intact_listable(u, u, parent, 0);
    lemma_listable_lists(u, parent, 0, no_scan());
    assert forall|i: int| 0 <= i < r.out.len() implies !is_wanted(
        #[trigger] r.out[i],
        name,
        Want::Any,
    ) by {
        assert(es.take(r.out.len() as int)[i] == es[i]);
        lemma_none_wanted(es, name, 0, i, Want::Any);
    }
}

/// What an opened directory and what was done before leave alone is as it
/// was.
pub(crate) proof fn lemma_rest_behind_opening(v: Volume, u: Volume, t: Volume, w: Volume, parent: u32)
    requires
        same_frame(v, u),
        loosened_volume(u, t),
        forall|k: u32| k >= 2 && !on_chain(u, parent, 0, k) ==> #[trigger] cluster_same(u, t, k),
        rest_untouched(u, v, u, parent),
        rest_untouched(t, t, w, parent),
    ensures
        rest_untouched(t, v, w, parent),
{
    assert forall|k: u32| k >= 2 && !is_free(t, k) && !on_chain(t, parent, 0, k) implies #[trigger] untouched(
        v,
        w,
        k,
    ) && next_of(v, k) == next_of(t, k) by {
        lemma_same_fat_chain(u, t, parent, 0, k);
        assert(is_free(u, k) == is_free(t, k));
        assert(untouched(v, u, k));
        assert(untouched(t, w, k));
        assert(cluster_same(u, t, k));
        assert(untouched(u, t, k));
        lemma_untouched_trans(v, u, t, k);
        lemma_untouched_trans(v, t, w, k);
    }
}

/// Putting a file into an opened directory: what a reader then finds there,
/// and that nothing else has changed.
#[verifier::spinoff_prover]
proof fn lemma_file_put(t: Volume, parent: u32, name: Seq<char>, content: Seq<u8>, now: DateTime)
    requires
        sound(t),
        t.fat_count >= 1,
        t.fat.len() <= 0x0FFF_FFFF,
        content.len() <= 0xFFFF_FFFF,
        clusters_for(t, content.len()) <= 1_000_001,
        valid_name(name),
        storable(name),
        chain_intact(t, parent, 0),
        place_in_sight(t, parent, name),
        file_put(t, parent, name, content, now).0 is Ok,
    ensures
        ({
            let w = file_put(t, parent, name, content, now).1;
            let e = lookup(listing(w, parent)->Ok_0, name, Want::File);
            &&& same_frame(t, w)
            &&& rest_untouched(t, t, w, parent)
            &&& listing(w, parent) is Ok
            &&& e is Some
            &&& file_data(w, e->0.first_cluster, e->0.size as nat) == Ok::<Seq<u8>, FatError>(
                content,
            )
        }),
{
    let w = file_put(t, parent, name, content, now).1;
    let y = stored(t, content).1;
    let first = stored(t, content).0->Ok_0;
    let size = content.len() as u32;
    let slots = entry_slots(name, false, now, first, size);
    let n = (lfn_count(name.len()) + 1) as int;
    lemma_encoded_len(name);
    lemma_lfn_slots(name_units(name), lfn_count(name.len()), short_checksum(short_name(name)));
    assert(slots.len() == n);
    lemma_stored_untouched(t, content);
    assert(entered(y, parent, name, first, size, false, now).0 is Ok);
    lemma_slots_entered(t, y, parent, slots);
    let (c, o) = entry_place(y, parent, n);
    let run = dir_run(t, parent, n, 0)->Ok_0;
    lemma_rest_untouched(t, y, w, parent, c, o, slots, run);
    lemma_entered_lists(t, y, w, parent, c, o, slots, run);
    lemma_entered_scan(t, y, w, parent, c, o, slots, run);
    lemma_intact_in_use(t, parent, 0);
    lemma_added_file_reads_back(t, parent, name, content, now);
}

/// Whether `n` bytes can be kept in the file at a path: the volume has at
/// least one FAT, and cluster numbers that leave the end mark free; the
/// chain is not longer than a reader follows; the name is ASCII; and the
/// directory, taken without the entry and the data of the file that stood
/// there before, has a place for the name, shares no clusters with a
/// directory on the way to it, and is not reached through clusters marked
/// free.
pub open spec fn can_keep(v: Volume, path: Seq<char>, n: nat) -> bool {
    let u = made_ready(v, path);
    let (parent, name) = parent_of(v, path)->Ok_0;
    &&& sound(v)
    &&& v.fat_count >= 1
    &&& v.fat.len() <= 0x0FFF_FFFF
    &&& n <= 0xFFFF_FFFF
    &&& clusters_for(v, n) <= 1_000_001
    &&& parent_of(v, path) is Ok
    &&& storable(name)
    &&& has_place(u, parent, name)
    &&& way_apart(v, u, v.root, components(path).drop_last(), parent)
}

/// Whatever was written to a file is what reading it gives.
pub proof fn law_written_file_reads_back(
    v: Volume,
    path: Seq<char>,
    content: Seq<u8>,
    now: DateTime,
)
    requires
        can_keep(v, path, content.len()),
        file_written(v, path, content, now).0 is Ok,
    ensures
        file_at(file_written(v, path, content, now).1, path) == Ok::<Seq<u8>, FatError>(content),
{
    let (parent, name) = parent_of(v, path)->Ok_0;
    let u = made_ready(v, path);
    let w = file_written(v, path, content, now).1;
    lemma_ready_sound(v, path);
    assert(file_written(v, path, content, now) == file_added(u, parent, name, content, now));
    let n = slots_for(name);
    let t = dir_opened(u, parent, n, 0).1;
    assert(w == file_put(t, parent, name, content, now).1);
    lemma_dir_opened(u, parent, n, 0);
    lemma_opened_intact(u, t, parent, 0);
    lemma_place_in_sight(u, parent, name);
    lemma_file_put(t, parent, name, content, now);
    assert(same_frame(v, u) && rest_untouched(u, v, u, parent)) by {
        if let Some(e) = entry_in(v, parent, name) {
            lemma_found_stands(v, parent, name);
            lemma_dropped_untouched(v, e, parent);
        } else {
            assert(u == v);
        }
    }
    lemma_rest_behind_opening(v, u, t, w, parent);
    lemma_opened_way(v, u, t, v.root, components(path).drop_last(), parent);
    lemma_walk_agrees(t, v, w, parent, v.root, components(path).drop_last());
}

// ---------------------------------------------------------------------
// New directories
// ---------------------------------------------------------------------

/// Setting up a new directory's cluster touches nothing that was in use.
#[verifier::spinoff_prover]
pub(crate) proof fn lemma_dir_begun(t: Volume, parent: u32)
    requires
        sound(t),
        t.fat.len() <= 0x0FFF_FFFF,
        dir_begun(t, parent).0 is Ok,
    ensures
        ({
            let (r, x) = dir_begun(t, parent);
            let c = r->Ok_0;
            &&& used_untouched(t, x)
            &&& c >= 2 && is_free(t, c) && !is_free(x, c)
            &&& sector_read(x.drive, cluster_sector(t, c)) == Ok::<Seq<u8>, FatError>(
                fresh_dir(c, parent),
            )
        }),
{
    let (r, x) = dir_begun(t, parent);
    let c = r->Ok_0;
    lemma_lowest_free(t.fat, 2);
    let u = with_entry(allocated(t).1, c as int, EOF_MARK);
    let w = cleared(u, c, 0).1;
    assert(sound(u) && same_frame(t, u));
    lemma_cleared_readable(u, c, 0);
    assert(sound(w));
    let lba = cluster_sector(w, c);
    lemma_cluster_sector_bound(w, c);
    assert(0 <= (c - 2) * w.spc) by (nonlinear_arith)
        requires
            c >= 2,
            w.spc >= 0,
    ;
    assert(fresh_dir(c, parent).len() == 512);
    lemma_write_keeps_others(w.drive, lba, lba, fresh_dir(c, parent));
    assert(x == Volume { drive: sector_written(w.drive, lba, fresh_dir(c, parent))->Ok_0, ..w });
    assert(same_frame(t, x));
    assert(sound(x));
    assert(x.fat =~= t.fat.update(c as int, EOF_MARK));
    assert forall|k: u32| k >= 2 && !is_free(t, k) implies #[trigger] untouched(t, x, k) by {
        assert(k != c);
        lemma_cluster_sector_bound(w, k);
        assert(0 <= (k - 2) * w.spc) by (nonlinear_arith)
            requires
                k >= 2,
                w.spc >= 0,
        ;
        assert forall|s: int| 0 <= s < t.spc implies #[trigger] sector_read(
            x.drive,
            cluster_sector(t, k) + s,
        ) == sector_read(t.drive, cluster_sector(t, k) + s) by {
            lemma_cleared_keeps(u, c, 0, k, s);
            lemma_apart_sectors(w, c, k, s);
            lemma_write_keeps_others(w.drive, lba, cluster_sector(w, k) + s, fresh_dir(c, parent));
        }
    }
}

/// Sectors of two clusters are apart.
proof fn lemma_apart_sectors(v: Volume, c: u32, k: u32, s: int)
    requires
        c >= 2,
        k >= 2,
        c != k,
        0 <= s < v.spc,
    ensures
        cluster_sector(v, k) + s != cluster_sector(v, c),
{
    let (a, b, n) = (c - 2, k - 2, v.spc as int);
    assert(b * n + s != a * n) by (nonlinear_arith)
        requires
            a != b,
            0 <= s < n,
    ;
}

proof fn lemma_slots_stay_ended(sec: Seq<u8>, c: u32, s: int, p: Scan, j: nat, k: nat)
    requires
        j <= k,
        after_slots(sec, c, s, p, j).ended,
    ensures
        after_slots(sec, c, s, p, k) == after_slots(sec, c, s, p, j),
    decreases k - j,
{
    if j < k {
        lemma_slots_stay_ended(sec, c, s, p, j, (k - 1) as nat);
    }
}

proof fn lemma_dots()
    ensures
        lossy_text(seq![46u8]) == seq!['.'],
        lossy_text(seq![46u8, 46u8]) == seq!['.', '.'],
{
    let (one, two) = (seq!['.'], seq!['.', '.']);
    assert(46u32 & 0x7F == 46u32) by (bit_vector);
    assert(leading_byte_width_1('.' as u32) == 46u8);
    assert(encode_scalar('.' as u32) =~= seq![46u8]);
    reveal_with_fuel(encode_utf8, 3);
    assert(one.drop_first() =~= Seq::<char>::empty());
    assert(two.drop_first() =~= one);
    assert(encode_utf8(one) =~= seq![46u8]);
    assert(encode_utf8(two) =~= seq![46u8, 46u8]);
    vstd::utf8::encode_utf8_valid_utf8(one);
    vstd::utf8::encode_utf8_decode_utf8(one);
    vstd::utf8::encode_utf8_valid_utf8(two);
    vstd::utf8::encode_utf8_decode_utf8(two);
}

/// The name in a "." or ".." slot.
proof fn lemma_dot_name(sec: Seq<u8>, at: int, two: bool, c: u32)
    requires
        0 <= at,
        at + 32 <= sec.len(),
        forall|p: int| 0 <= p < 32 ==> #[trigger] sec[at + p] == dot_slot(two, c)[p],
    ensures
        slot_name(sec, at, Seq::empty()) == if two {
            seq!['.', '.']
        } else {
            seq!['.']
        },
{
    let sfn = sec.subrange(at, at + 11);
    assert forall|p: int| 0 <= p < 11 implies #[trigger] sfn[p] == dot_slot(two, c)[p] by {
        assert(sec[at + p] == dot_slot(two, c)[p]);
    }
    let stem = sfn.take(8);
    let ext = sfn.subrange(8, 11);
    reveal_with_fuel(to_space, 4);
    assert(ext[0] == sfn[8] && sfn[8] == 32);
    assert(stem[0] == sfn[0] && stem[1] == sfn[1] && stem[2] == sfn[2]);
    let n = if two { 2int } else { 1 };
    assert(to_space(stem, 0) == n);
    assert(to_space(ext, 0) == 0);
    lemma_dots();
    if two {
        assert(sfn.take(2) =~= seq![46u8, 46u8]);
    } else {
        assert(sfn.take(1) =~= seq![46u8]);
    }
    assert(shown_short(sfn) =~= lossy_text(sfn.take(n)));
}

/// A fresh directory lists nothing.
#[verifier::spinoff_prover]
proof fn lemma_fresh_dir_empty(w: Volume, c: u32, parent: u32)
    requires
        sound(w),
        c >= 2,
        sector_read(w.drive, cluster_sector(w, c)) == Ok::<Seq<u8>, FatError>(
            fresh_dir(c, parent),
        ),
    ensures
        listing(w, c) == Ok::<Seq<Entry>, FatError>(Seq::empty()),
{
    let sec = fresh_dir(c, parent);
    assert(sec.len() == 512);
    assert forall|p: int| 0 <= p < 32 implies #[trigger] sec[0int + p] == dot_slot(false, c)[p] by {}
    assert forall|p: int| 0 <= p < 32 implies #[trigger] sec[32 + p] == dot_slot(
        true,
        parent,
    )[p] by {}
    lemma_dot_name(sec, 0, false, c);
    lemma_dot_name(sec, 32, true, parent);
    assert(sec[0] == 46 && sec[0x0B] == 0x10 && sec[32] == 46 && sec[0x2B] == 0x10);
    assert(sec[64] == 0);
    reveal_with_fuel(after_slots, 4);
    let p = no_scan();
    let a = after_slots(sec, c, 0, p, 1);
    assert(a.out =~= Seq::<Entry>::empty() && a.lfn =~= Seq::<Seq<u16>>::empty() && !a.ended);
    let b = after_slots(sec, c, 0, p, 2);
    assert(b.out =~= Seq::<Entry>::empty() && !b.ended);
    let e = after_slots(sec, c, 0, p, 3);
    assert(e.ended);
    lemma_slots_stay_ended(sec, c, 0, p, 3, 16);
    assert(after_sectors(w, c, p, 0) == Ok::<Scan, FatError>(p));
    let q = after_sectors(w, c, p, 1);
    assert(cluster_sector(w, c) + 1 - 1 == cluster_sector(w, c));
    assert(q == Ok::<Scan, FatError>(after_slots(sec, c, 0, p, 16)));
    lemma_sectors_stay_ended(w, c, p, 1, w.spc);
}

proof fn lemma_sectors_stay_ended(v: Volume, c: u32, p: Scan, j: nat, k: nat)
    requires
        j <= k,
        after_sectors(v, c, p, j) matches Ok(q) && q.ended,
    ensures
        after_sectors(v, c, p, k) == after_sectors(v, c, p, j),
    decreases k - j,
{
    if j < k {
        lemma_sectors_stay_ended(v, c, p, j, (k - 1) as nat);
    }
}

pub(crate) proof fn lemma_on_intact_chain(v: Volume, c: u32, guard: nat, k: u32)
    requires
        chain_intact(v, c, guard),
        on_chain(v, c, guard, k),
    ensures
        !is_free(v, k),
    decreases 1_000_001 - guard,
{
    if c != k {
        lemma_on_intact_chain(v, next_of(v, c)->0, guard + 1, k);
    }
}

/// Putting a directory into an opened one: it is found there, it is empty,
/// and nothing else has changed.
#[verifier::spinoff_prover]
#[verifier::rlimit(40)]
proof fn lemma_dir_put(t: Volume, parent: u32, name: Seq<char>, now: DateTime)
    requires
        sound(t),
        t.fat_count >= 1,
        t.fat.len() <= 0x0FFF_FFFF,
        valid_name(name),
        storable(name),
        chain_intact(t, parent, 0),
        place_in_sight(t, parent, name),
        dir_put(t, parent, name, now).0 is Ok,
    ensures
        ({
            let w = dir_put(t, parent, name, now).1;
            let es = listing(w, parent)->Ok_0;
            let e = lookup(es, name, Want::Any);
            &&& sound(w)
            &&& same_frame(t, w)
            &&& rest_untouched(t, t, w, parent)
            &&& listing(w, parent) is Ok
            &&& e matches Some(d) && d.is_dir
            &&& lookup(es, name, Want::Dir) == e
            &&& listing(w, e->0.first_cluster) == Ok::<Seq<Entry>, FatError>(Seq::empty())
        }),
{
    let w = dir_put(t, parent, name, now).1;
    let (r, x) = dir_begun(t, parent);
    let c = r->Ok_0;
    let slots = entry_slots(name, true, now, c, 0);
    let n = (lfn_count(name.len()) + 1) as int;
    lemma_encoded_len(name);
    lemma_lfn_slots(name_units(name), lfn_count(name.len()), short_checksum(short_name(name)));
    assert(slots.len() == n);
    lemma_dir_begun(t, parent);
    assert(entered(x, parent, name, c, 0, true, now).0 is Ok);
    lemma_slots_entered(t, x, parent, slots);
    let (pc, o) = entry_place(x, parent, n);
    let run = dir_run(t, parent, n, 0)->Ok_0;
    lemma_rest_untouched(t, x, w, parent, pc, o, slots, run);
    lemma_entered_lists(t, x, w, parent, pc, o, slots, run);
    lemma_entered_scan(t, x, w, parent, pc, o, slots, run);
    // the new directory's own cluster
    lemma_keeps_intact(t, x, parent, 0);
    lemma_itself_untouched(x);
    lemma_slots_entered(x, x, parent, slots);
    let own = dir_run(x, parent, n, 0)->Ok_0;
    assert(c != pc) by {
        if own is Some {
            assert(on_chain(x, parent, 0, pc));
            assert(on_chain(t, parent, 0, pc));
            lemma_on_intact_chain(t, parent, 0, pc);
        }
    }
    assert(same_sectors(x, w, c));
    assert(sector_read(w.drive, cluster_sector(x, c) + 0) == sector_read(
        x.drive,
        cluster_sector(x, c) + 0,
    ));
    lemma_intact_in_use(t, parent, 0);
    lemma_put_in_place(t, x, parent, slots);
    lemma_fresh_dir_empty(w, c, parent);
    lemma_new_entry_found(w, parent, pc, o, name, true, now, c, 0);
}

proof fn lemma_itself_untouched(x: Volume)
    requires
        sound(x),
    ensures
        used_untouched(x, x),
{
    assert forall|k: u32| k >= 2 && !is_free(x, k) implies #[trigger] untouched(x, x, k) by {}
}

/// The slots that were entered are in place once the FAT is flushed.
proof fn lemma_put_in_place(t: Volume, x: Volume, parent: u32, slots: Seq<Seq<u8>>)
    requires
        sound(x),
        x.fat_count >= 1,
        0 < slots.len() <= 16,
        chain_in_use(t, parent, 0),
        used_untouched(t, x),
        slots_place(x, parent, slots.len() as int).0 is Ok,
        slots_stored(
            slots_place(x, parent, slots.len() as int).1,
            entry_place(x, parent, slots.len() as int).0,
            entry_place(x, parent, slots.len() as int).1,
            slots,
        ).0 is Ok,
    ensures
        ({
            let (c, o) = entry_place(x, parent, slots.len() as int);
            let p = slots_place(x, parent, slots.len() as int).1;
            let w = flushed(slots_stored(p, c, o, slots).1, 0).1;
            sound(w) && slots_in_place(w, c, o, slots)
        }),
{
    let n = slots.len() as int;
    let none = Seq::<u32>::empty();
    assert forall|k: int|
        2 <= k < t.fat.len() && #[trigger] x.fat[k] % 0x1000_0000 == 0 implies t.fat[k]
        % 0x1000_0000 == 0 by {
        assert(k <= u32::MAX) by {
            assert(x.fat.len() <= 0x200_0000 * 128);
        }
        assert(is_free(x, k as u32));
        assert(is_free(t, k as u32));
    }
    lemma_entered_keeps(t, x, none, parent, slots);
    let (c, o) = entry_place(x, parent, n);
    let y = slots_stored(slots_place(x, parent, n).1, c, o, slots).1;
    let w = flushed(y, 0).1;
    lemma_cluster_sector_bound(y, c);
    assert(0 <= (c - 2) * y.spc) by (nonlinear_arith)
        requires
            c >= 2,
            y.spc >= 0,
    ;
    lemma_flush_keeps(y, 0, cluster_sector(y, c) + o / 512);
    assert(cluster_sector(w, c) == cluster_sector(y, c));
    let old_sec = choose|old_sec: Seq<u8>|
        old_sec.len() == 512 && sector_read(y.drive, cluster_sector(y, c) + o / 512) == Ok::<
            Seq<u8>,
            FatError,
        >(#[trigger] splice(old_sec, o % 512, slot_bytes(slots)));
    assert(sector_read(w.drive, cluster_sector(w, c) + o / 512) == Ok::<Seq<u8>, FatError>(
        splice(old_sec, o % 512, slot_bytes(slots)),
    ));
}

/// A path is walked by walking to its last component's parent first.
proof fn lemma_walked_last(v: Volume, c: u32, comps: Seq<Seq<char>>)
    requires
        comps.len() > 0,
    ensures
        walked(v, c, comps) == match walked(v, c, comps.drop_last()) {
            Err(e) => Err(e),
            Ok(p) => match listing(v, p) {
                Err(e) => Err(e),
                Ok(es) => match lookup(es, comps.last(), Want::Dir) {
                    None => Err(FatError::NotFound),
                    Some(e) => Ok(e.first_cluster),
                },
            },
        },
    decreases comps.len(),
{
    reveal_with_fuel(walked, 2);
    if comps.len() > 1 {
        assert(comps.skip(1).drop_last() =~= comps.drop_last().skip(1));
        assert(comps.drop_last()[0] == comps[0]);
        assert(comps.skip(1).last() == comps.last());
        if let Ok(es) = listing(v, c) {
            if let Some(e) = lookup(es, comps[0], Want::Dir) {
                lemma_walked_last(v, e.first_cluster, comps.skip(1));
            }
        }
    } else {
        assert(comps.drop_last() =~= Seq::empty());
        assert(comps.skip(1) =~= Seq::empty());
        assert(comps.last() == comps[0]);
    }
}

/// Whether a directory can be made at a path: the volume has at least one
/// FAT, and cluster numbers that leave the end mark free; the name is
/// ASCII; and the parent has a place for it, shares no clusters with a
/// directory on the way to it, and is not reached through clusters marked
/// free.
pub open spec fn can_hold_dir(v: Volume, path: Seq<char>) -> bool {
    let (parent, name) = parent_of(v, path)->Ok_0;
    &&& sound(v)
    &&& v.fat_count >= 1
    &&& v.fat.len() <= 0x0FFF_FFFF
    &&& parent_of(v, path) is Ok
    &&& storable(name)
    &&& has_place(v, parent, name)
    &&& way_apart(v, v, v.root, components(path).drop_last(), parent)
}

/// A directory that was made is found, it is empty, and making it again is
/// refused and changes nothing.
pub proof fn law_made_dir_is_found(v: Volume, path: Seq<char>, now: DateTime, again: DateTime)
    requires
        can_hold_dir(v, path),
        dir_made(v, path, now).0 is Ok,
    ensures
        ({
            let w = dir_made(v, path, now).1;
            &&& dir_there(w, path) == Ok::<bool, FatError>(true)
            &&& dir_at(w, path) == Ok::<Seq<Entry>, FatError>(Seq::empty())
            &&& dir_made(w, path, again) == (Err::<(), FatError>(FatError::AlreadyExists), w)
        }),
{
    let (parent, name) = parent_of(v, path)->Ok_0;
    let comps = components(path);
    let w = dir_made(v, path, now).1;
    let n = slots_for(name);
    let t = dir_opened(v, parent, n, 0).1;
    lemma_dir_opened(v, parent, n, 0);
    lemma_opened_intact(v, t, parent, 0);
    lemma_place_in_sight(v, parent, name);
    lemma_dir_put(t, parent, name, now);
    assert(rest_untouched(v, v, v, parent)) by {
        assert forall|k: u32| k >= 2 && !is_free(v, k) && !on_chain(v, parent, 0, k) implies #[trigger] untouched(
            v,
            v,
            k,
        ) by {}
    }
    lemma_rest_behind_opening(v, v, t, w, parent);
    lemma_opened_way(v, v, t, v.root, comps.drop_last(), parent);
    lemma_walk_agrees(t, v, w, parent, v.root, comps.drop_last());
    assert(parent_of(w, path) == parent_of(v, path));
    lemma_walked_last(w, w.root, comps);
}

// ---------------------------------------------------------------------
// Spellings
// ---------------------------------------------------------------------

proof fn lemma_wanted_spelling(es: Seq<Entry>, a: Seq<char>, b: Seq<char>, want: Want, i: int)
    requires
        same_name(a, b),
        0 <= i <= es.len(),
    ensures
        first_wanted(es, a, want, i) == first_wanted(es, b, want, i),
    decreases es.len() - i,
{
    if i < es.len() {
        law_same_name_is_equivalence(es[i].name, a, b);
        law_same_name_is_equivalence(es[i].name, b, a);
        law_same_name_is_equivalence(a, b, a);
        if !is_wanted(es[i], a, want) {
            lemma_wanted_spelling(es, a, b, want, i + 1);
        }
    }
}

/// Two paths that name one place, up to the case of ASCII letters in the
/// last component, give the same file and the same entry.
pub proof fn law_spelling_does_not_matter(v: Volume, a: Seq<char>, b: Seq<char>)
    requires
        one_place(v, a, b),
    ensures
        file_at(v, a) == file_at(v, b),
        entry_in(v, parent_of(v, a)->Ok_0.0, parent_of(v, a)->Ok_0.1) == entry_in(
            v,
            parent_of(v, b)->Ok_0.0,
            parent_of(v, b)->Ok_0.1,
        ),
{
    let (p, m) = parent_of(v, a)->Ok_0;
    let (q, n) = parent_of(v, b)->Ok_0;
    if let Ok(es) = listing(v, p) {
        lemma_wanted_spelling(es, m, n, Want::File, 0);
        lemma_wanted_spelling(es, m, n, Want::Any, 0);
    }
}

// ---------------------------------------------------------------------
// Removing
// ---------------------------------------------------------------------

/// Whether an entry stands at byte `o` of directory cluster `c`.
pub open spec fn stands_at(e: Entry, c: u32, o: int) -> bool {
    e.cluster == c && e.offset == o
}

/// The listing without what stands at a place.
pub open spec fn without(es: Seq<Entry>, c: u32, o: int) -> Seq<Entry>
    decreases es.len(),
{
    if es.len() == 0 {
        es
    } else {
        let head = without(es.drop_last(), c, o);
        if stands_at(es.last(), c, o) {
            head
        } else {
            head.push(es.last())
        }
    }
}

proof fn lemma_without_push(es: Seq<Entry>, e: Entry, c: u32, o: int)
    ensures
        without(es.push(e), c, o) == if stands_at(e, c, o) {
            without(es, c, o)
        } else {
            without(es, c, o).push(e)
        },
{
    assert(es.push(e).drop_last() =~= es);
}

/// How the scan of a directory without the entry at a place goes with that
/// of the directory that has it.
pub open spec fn goes_without(p: Scan, q: Scan, c: u32, o: int) -> bool {
    &&& q.out == without(p.out, c, o)
    &&& q.lfn == p.lfn
    &&& q.ended == p.ended
}

/// Over slots that are the same and do not hold the place.
proof fn lemma_slots_go_on(
    a: Seq<u8>,
    b: Seq<u8>,
    c: u32,
    s: int,
    p: Scan,
    q: Scan,
    j: nat,
    k: nat,
    pc: u32,
    o: int,
)
    requires
        j <= k <= 16,
        a.len() == 512,
        b.len() == 512,
        forall|i: int| 32 * j <= i < 32 * k ==> #[trigger] a[i] == b[i],
        goes_without(after_slots(a, c, s, p, j), after_slots(b, c, s, q, j), pc, o),
        c != pc || o < s * 512 + 32 * j || s * 512 + 32 * k <= o,
    ensures
        goes_without(after_slots(a, c, s, p, k), after_slots(b, c, s, q, k), pc, o),
    decreases k,
{
    if j < k {
        lemma_slots_go_on(a, b, c, s, p, q, j, (k - 1) as nat, pc, o);
        let at = 32 * (k - 1);
        let x = after_slots(a, c, s, p, (k - 1) as nat);
        let y = after_slots(b, c, s, q, (k - 1) as nat);
        assert forall|i: int| 0 <= i < 32 implies #[trigger] a[at + i] == b[at + i] by {}
        lemma_after_slot_same(a, b, at, c, s, y);
        assert(a[at] == a[at + 0] && b[at] == b[at + 0]);
        let x2 = after_slot(a, at, c, s, x);
        if x2.out != x.out {
            lemma_without_push(x.out, x2.out.last(), pc, o);
            assert(x2.out.drop_last() =~= x.out);
        }
    }
}

/// Where the long-name slots that are wiped with an entry start, and what
/// wiping them does.
proof fn lemma_wiped_shape(sec: Seq<u8>, back: int) -> (f: int)
    requires
        sec.len() == 512,
        0 <= back <= 512,
        back % 32 == 0,
    ensures
        0 <= f <= back / 32,
        wiped(sec, back).len() == 512,
        forall|i: int| 0 <= i < 32 * f ==> #[trigger] wiped(sec, back)[i] == sec[i],
        forall|i: int| back <= i < 512 ==> #[trigger] wiped(sec, back)[i] == sec[i],
        forall|j: int| f <= j < back / 32 ==> #[trigger] mark(wiped(sec, back), j) == 0xE5,
        forall|j: int| f <= j < back / 32 ==> #[trigger] kind(sec, j) == 0x0F,
    decreases back,
{
    if back >= 32 && sec[back - 32 + 0x0B] == 0x0F {
        let next = sec.update(back - 32, 0xE5);
        let f = lemma_wiped_shape(next, back - 32);
        let r = wiped(sec, back);
        let last = back / 32 - 1;
        assert(32 * last == back - 32);
        assert forall|j: int| f <= j < back / 32 implies #[trigger] mark(r, j) == 0xE5 by {
            if j == last {
                assert(r[back - 32] == next[back - 32]);
            }
        }
        assert forall|j: int| f <= j < back / 32 implies #[trigger] kind(sec, j) == 0x0F by {
            if j < last {
                assert(kind(next, j) == 0x0F);
                assert(next[32 * j + 0x0B] == sec[32 * j + 0x0B]);
            }
        }
        f
    } else {
        back / 32
    }
}

/// The attribute byte of slot `j` of a sector.
pub open spec fn kind(sec: Seq<u8>, j: int) -> u8 {
    sec[32 * j + 0x0B]
}

proof fn lemma_ended_before(sec: Seq<u8>, c: u32, s: int, p: Scan, j: nat, k: nat)
    requires
        j <= k,
        !after_slots(sec, c, s, p, k).ended,
    ensures
        !after_slots(sec, c, s, p, j).ended,
{
    if after_slots(sec, c, s, p, j).ended {
        lemma_slots_stay_ended(sec, c, s, p, j, k);
    }
}

/// Over the wiped slots, up to slot `k`.
proof fn lemma_wiped_slots(
    a: Seq<u8>,
    b: Seq<u8>,
    c: u32,
    s: int,
    p: Scan,
    q: Scan,
    f: nat,
    i: nat,
    k: nat,
    o: int,
)
    requires
        f <= k <= i < 16,
        goes_without(after_slots(a, c, s, p, f), after_slots(b, c, s, q, f), c, o),
        !after_slots(a, c, s, p, i).ended,
        forall|j: int| f <= j < i ==> #[trigger] mark(b, j) == 0xE5,
        forall|j: int| f <= j < i ==> #[trigger] kind(a, j) == 0x0F,
    ensures
        ({
            let x = after_slots(a, c, s, p, k);
            let y = after_slots(b, c, s, q, k);
            !y.ended && y.out == without(x.out, c, o) && (k > f ==> y.lfn == Seq::<
                Seq<u16>,
            >::empty()) && (k == f ==> y.lfn == x.lfn)
        }),
    decreases k,
{
    lemma_ended_before(a, c, s, p, k, i);
    if k > f {
        lemma_wiped_slots(a, b, c, s, p, q, f, i, (k - 1) as nat, o);
        lemma_ended_before(a, c, s, p, (k - 1) as nat, i);
        assert(mark(b, k - 1) == 0xE5);
        assert(kind(a, k - 1) == 0x0F);
        let at = 32 * (k - 1);
        assert(b[at] == 0xE5 && a[at + 0x0B] == 0x0F);
        assert(after_slots(a, c, s, p, k).out == after_slots(a, c, s, p, (k - 1) as nat).out);
    }
}

/// Over the sector in which an entry was deleted.
#[verifier::spinoff_prover]
proof fn lemma_deleted_sector(a: Seq<u8>, c: u32, s: int, p: Scan, q: Scan, i: nat)
    requires
        a.len() == 512,
        i < 16,
        goes_without(p, q, c, s * 512 + 32 * i),
        !after_slots(a, c, s, p, i).ended,
        mark(a, i as int) != 0,
        kind(a, i as int) != 0x0F,
    ensures
        goes_without(
            after_slots(a, c, s, p, 16),
            after_slots(wiped(a.update(32 * i as int, 0xE5), 32 * i as int), c, s, q, 16),
            c,
            s * 512 + 32 * i,
        ),
{
    let o = s * 512 + 32 * i;
    let at = 32 * i as int;
    let mid = a.update(at, 0xE5);
    let f = lemma_wiped_shape(mid, at) as nat;
    let b = wiped(mid, at);
    assert(at / 32 == i);
    assert forall|k: int| 0 <= k < 32 * f implies #[trigger] a[k] == b[k] by {
        assert(b[k] == mid[k]);
    }
    lemma_slots_go_on(a, b, c, s, p, q, 0, f, c, o);
    assert forall|j: int| f <= j < i implies #[trigger] kind(a, j) == 0x0F by {
        assert(kind(mid, j) == 0x0F);
        assert(mid[32 * j + 0x0B] == a[32 * j + 0x0B]);
    }
    lemma_wiped_slots(a, b, c, s, p, q, f, i, i, o);
    let x = after_slots(a, c, s, p, i);
    let y = after_slots(b, c, s, q, i);
    assert(b[at] == mid[at] && mid[at] == 0xE5);
    assert(a[at] == mark(a, i as int) && a[at + 0x0B] == kind(a, i as int));
    let x2 = after_slots(a, c, s, p, i + 1);
    let y2 = after_slots(b, c, s, q, i + 1);
    assert(x2 == after_slot(a, at, c, s, x));
    assert(y2 == after_slot(b, at, c, s, y));
    assert(goes_without(x2, y2, c, o)) by {
        if x2.out != x.out {
            lemma_without_push(x.out, x2.out.last(), c, o);
            assert(x2.out.drop_last() =~= x.out);
        }
        assert(x2.lfn =~= Seq::<Seq<u16>>::empty());
        assert(y2.lfn =~= Seq::<Seq<u16>>::empty());
    }
    assert forall|k: int| 32 * (i + 1) <= k < 512 implies #[trigger] a[k] == b[k] by {
        assert(b[k] == mid[k]);
    }
    lemma_slots_go_on(a, b, c, s, p, q, i + 1, 16, c, o);
}

/// The volumes differ in one sector alone, in which the entry at byte `o`
/// of cluster `pc` was deleted; chains go on as before.
pub open spec fn entry_gone(v: Volume, w: Volume, pc: u32, o: int) -> bool {
    let at = cluster_sector(v, pc) + o / 512;
    &&& same_frame(v, w)
    &&& pc >= 2 && 0 <= o && o / 512 < v.spc && o % 32 == 0
    &&& forall|k: u32, t: int|
        #![trigger sector_read(w.drive, cluster_sector(v, k) + t)]
        k >= 2 && 0 <= t < v.spc && !(k == pc && t == o / 512) ==> sector_read(
            w.drive,
            cluster_sector(v, k) + t,
        ) == sector_read(v.drive, cluster_sector(v, k) + t)
    &&& sector_read(v.drive, at) is Ok
    &&& sector_read(v.drive, at)->Ok_0.len() == 512
    &&& sector_read(w.drive, at) == Ok::<Seq<u8>, FatError>(
        wiped(sector_read(v.drive, at)->Ok_0.update(o % 512, 0xE5), o % 512),
    )
}

/// A reader gets to the entry at byte `o` of cluster `c`.
pub open spec fn met_at(v: Volume, c: u32, p: Scan, o: int) -> bool {
    let sec = sector_read(v.drive, cluster_sector(v, c) + o / 512)->Ok_0;
    let j = (o % 512) / 32;
    &&& 0 <= o && o % 32 == 0 && o / 512 < v.spc
    &&& after_sectors(v, c, p, (o / 512) as nat) matches Ok(q) && !q.ended && !after_slots(
        sec,
        c,
        o / 512,
        q,
        j as nat,
    ).ended
    &&& mark(sec, j) != 0
    &&& kind(sec, j) != 0x0F
}

/// Over the first `k` sectors of a cluster.
#[verifier::spinoff_prover]
proof fn lemma_sectors_go_without(
    v: Volume,
    w: Volume,
    c: u32,
    p: Scan,
    q: Scan,
    k: nat,
    pc: u32,
    o: int,
)
    requires
        sound(v),
        entry_gone(v, w, pc, o),
        c >= 2,
        readable(v, c),
        k <= v.spc,
        goes_without(p, q, pc, o),
        c == pc ==> met_at(v, c, p, o),
    ensures
        after_sectors(v, c, p, k) is Ok,
        after_sectors(w, c, q, k) is Ok,
        goes_without(after_sectors(v, c, p, k)->Ok_0, after_sectors(w, c, q, k)->Ok_0, pc, o),
    decreases k,
{
    if k > 0 {
        let s = k - 1;
        lemma_sectors_go_without(v, w, c, p, q, s as nat, pc, o);
        let (x, y) = (after_sectors(v, c, p, s as nat)->Ok_0, after_sectors(w, c, q, s as nat)->Ok_0);
        let ra = sector_read(v.drive, cluster_sector(v, c) + s);
        assert(ra is Ok);
        let a = ra->Ok_0;
        lemma_cluster_sector_bound(v, c);
        assert(a.len() == 512);
        if !x.ended {
            if c == pc && s == o / 512 {
                let j = (o % 512 / 32) as nat;
                assert(32 * j == o % 512 && s * 512 + 32 * j == o);
                lemma_deleted_sector(a, c, s, x, y, j);
            } else {
                assert(sector_read(w.drive, cluster_sector(v, c) + s) == ra);
                lemma_slots_go_on(a, a, c, s, x, y, 0, 16, pc, o);
            }
        }
    }
}

/// The number of clusters on an intact chain behind `c`.
pub open spec fn behind(v: Volume, c: u32, guard: nat) -> nat
    decreases 1_000_001 - guard,
{
    if guard > 1_000_000 {
        0
    } else {
        let n = (v.fat[c as int] % 0x1000_0000) as u32;
        if n >= EOF_MARK {
            0
        } else {
            1 + behind(v, n, guard + 1)
        }
    }
}

proof fn lemma_behind_same(v: Volume, c: u32, g: nat, h: nat)
    requires
        chain_intact(v, c, g),
        chain_intact(v, c, h),
    ensures
        behind(v, c, g) == behind(v, c, h),
    decreases 1_000_001 - g,
{
    let n = (v.fat[c as int] % 0x1000_0000) as u32;
    if n < EOF_MARK {
        lemma_behind_same(v, n, g + 1, h + 1);
    }
}

proof fn lemma_behind_on(v: Volume, c: u32, g: nat, k: u32) -> (h: nat)
    requires
        chain_intact(v, c, g),
        on_chain(v, c, g, k),
    ensures
        chain_intact(v, k, h),
        behind(v, k, h) <= behind(v, c, g),
    decreases 1_000_001 - g,
{
    if c == k {
        g
    } else {
        lemma_behind_on(v, next_of(v, c)->0, g + 1, k)
    }
}

/// An intact chain does not come back to a cluster.
pub(crate) proof fn lemma_no_return(v: Volume, c: u32, g: nat)
    requires
        chain_intact(v, c, g),
        next_of(v, c)->0 < EOF_MARK,
    ensures
        !on_chain(v, next_of(v, c)->0, g + 1, c),
{
    let n = next_of(v, c)->0;
    if on_chain(v, n, g + 1, c) {
        let h = lemma_behind_on(v, n, g + 1, c);
        lemma_behind_same(v, c, g, h);
    }
}

/// Whether a reader meets the entry at a place of the directory.
pub open spec fn met_on_the_way(v: Volume, c: u32, guard: nat, p: Scan, pc: u32, o: int) -> bool
    decreases 1_000_001 - guard,
{
    guard <= 1_000_000 && (if c == pc {
        met_at(v, c, p, o)
    } else {
        match after_sectors(v, c, p, v.spc) {
            Err(_) => true,
            Ok(q) => q.ended || match next_of(v, c) {
                None => true,
                Some(n) => n >= EOF_MARK || met_on_the_way(v, n, guard + 1, q, pc, o),
            },
        }
    })
}

/// Over a whole directory.
#[verifier::spinoff_prover]
pub(crate) proof fn lemma_scan_goes_without(
    v: Volume,
    w: Volume,
    c: u32,
    guard: nat,
    p: Scan,
    q: Scan,
    pc: u32,
    o: int,
    past: bool,
)
    requires
        sound(v),
        entry_gone(v, w, pc, o),
        chain_intact(v, c, guard),
        forall|k: u32| on_chain(v, c, guard, k) ==> #[trigger] next_of(w, k) == next_of(v, k),
        goes_without(p, q, pc, o),
        past ==> !on_chain(v, c, guard, pc),
        !past ==> met_on_the_way(v, c, guard, p, pc, o),
    ensures
        scanned(v, c, guard, p) is Ok,
        scanned(w, c, guard, q) == Ok::<Seq<Entry>, FatError>(
            without(scanned(v, c, guard, p)->Ok_0, pc, o),
        ),
    decreases 1_000_001 - guard,
{
    lemma_sectors_go_without(v, w, c, p, q, v.spc, pc, o);
    let x = after_sectors(v, c, p, v.spc)->Ok_0;
    let y = after_sectors(w, c, q, v.spc)->Ok_0;
    let n = (v.fat[c as int] % 0x1000_0000) as u32;
    assert(next_of(v, c) == Some(n));
    assert(on_chain(v, c, guard, c));
    assert(next_of(w, c) == Some(n));
    if !x.ended && n < EOF_MARK {
        if c == pc {
            lemma_no_return(v, c, guard);
        }
        assert forall|k: u32| on_chain(v, n, guard + 1, k) implies #[trigger] next_of(w, k)
            == next_of(v, k) by {
            assert(on_chain(v, c, guard, k));
        }
        lemma_scan_goes_without(v, w, n, guard + 1, x, y, pc, o, past || c == pc);
    }
}

/// Whether nothing in a listing stands at a place.
pub open spec fn none_at(es: Seq<Entry>, c: u32, o: int) -> bool {
    forall|i: int| 0 <= i < es.len() ==> !stands_at(#[trigger] es[i], c, o)
}

/// An entry that the slots of a sector listed was met there.
pub(crate) proof fn lemma_met_slot(
    sec: Seq<u8>,
    c: u32,
    s: int,
    p: Scan,
    k: nat,
    pc: u32,
    o: int,
)
    requires
        k <= 16,
        s >= 0,
        none_at(p.out, pc, o),
        !none_at(after_slots(sec, c, s, p, k).out, pc, o),
    ensures
        c == pc,
        0 <= o && o % 32 == 0 && o / 512 == s && (o % 512) / 32 < k,
        !after_slots(sec, c, s, p, (o % 512 / 32) as nat).ended,
        mark(sec, o % 512 / 32) != 0,
        kind(sec, o % 512 / 32) != 0x0F,
    decreases k,
{
    if k > 0 {
        let x = after_slots(sec, c, s, p, (k - 1) as nat);
        if !none_at(x.out, pc, o) {
            lemma_met_slot(sec, c, s, p, (k - 1) as nat, pc, o);
        } else {
            let at = 32 * (k - 1);
            let y = after_slots(sec, c, s, p, k);
            let i = choose|i: int| 0 <= i < y.out.len() && stands_at(#[trigger] y.out[i], pc, o);
            assert(i == x.out.len()) by {
                if i < x.out.len() {
                    assert(y.out[i] == x.out[i]);
                }
            }
            assert(o == s * 512 + at);
            assert(o % 512 / 32 == k - 1);
            assert(mark(sec, k - 1) == sec[at] && kind(sec, k - 1) == sec[at + 0x0B]);
        }
    }
}

pub(crate) proof fn lemma_met_sector(v: Volume, c: u32, p: Scan, k: nat, pc: u32, o: int)
    requires
        k <= v.spc,
        none_at(p.out, pc, o),
        after_sectors(v, c, p, k) is Ok,
        !none_at(after_sectors(v, c, p, k)->Ok_0.out, pc, o),
    ensures
        c == pc,
        met_at(v, c, p, o),
        o / 512 < k,
    decreases k,
{
    if k > 0 {
        let x = after_sectors(v, c, p, (k - 1) as nat)->Ok_0;
        if !none_at(x.out, pc, o) {
            lemma_met_sector(v, c, p, (k - 1) as nat, pc, o);
        } else {
            let sec = sector_read(v.drive, cluster_sector(v, c) + k - 1)->Ok_0;
            assert(cluster_sector(v, c) + k - 1 == cluster_sector(v, c) + (k - 1));
            lemma_met_slot(sec, c, k - 1, x, 16, pc, o);
        }
    }
}

/// An entry that is listed was met on the way.
pub(crate) proof fn lemma_listed_is_met(v: Volume, c: u32, guard: nat, p: Scan, pc: u32, o: int)
    requires
        chain_intact(v, c, guard),
        none_at(p.out, pc, o),
        scanned(v, c, guard, p) is Ok,
        !none_at(scanned(v, c, guard, p)->Ok_0, pc, o),
    ensures
        met_on_the_way(v, c, guard, p, pc, o),
    decreases 1_000_001 - guard,
{
    let q = after_sectors(v, c, p, v.spc)->Ok_0;
    let n = (v.fat[c as int] % 0x1000_0000) as u32;
    if !none_at(q.out, pc, o) {
        lemma_met_sector(v, c, p, v.spc, pc, o);
    } else {
        lemma_listed_is_met(v, n, guard + 1, q, pc, o);
        if c == pc {
            lemma_no_return(v, c, guard);
            lemma_met_is_on_chain(v, n, guard + 1, q, pc, o);
        }
    }
}

/// What is listed behind stands in a cluster that is on the chain.
pub(crate) proof fn lemma_met_is_on_chain(v: Volume, c: u32, guard: nat, p: Scan, pc: u32, o: int)
    requires
        chain_intact(v, c, guard),
        none_at(p.out, pc, o),
        scanned(v, c, guard, p) is Ok,
        !none_at(scanned(v, c, guard, p)->Ok_0, pc, o),
    ensures
        on_chain(v, c, guard, pc),
        0 <= o && o % 32 == 0 && o / 512 < v.spc,
    decreases 1_000_001 - guard,
{
    let q = after_sectors(v, c, p, v.spc)->Ok_0;
    let n = (v.fat[c as int] % 0x1000_0000) as u32;
    if !none_at(q.out, pc, o) {
        lemma_met_sector(v, c, p, v.spc, pc, o);
    } else {
        lemma_met_is_on_chain(v, n, guard + 1, q, pc, o);
    }
}

/// Clusters that are in use after an entry was dropped have the successors
/// that they had.
pub(crate) proof fn lemma_drop_keeps_chain(v: Volume, e: Entry, parent: u32)
    requires
        sound(v),
        dropped(v, e).0 is Ok,
        chain_intact(dropped(v, e).1, parent, 0),
    ensures
        same_frame(v, dropped(v, e).1),
        forall|k: u32|
            #![trigger next_of(dropped(v, e).1, k)]
            !is_free(dropped(v, e).1, k) ==> next_of(dropped(v, e).1, k) == next_of(v, k),
        chain_intact(v, parent, 0),
{
    let u = dropped(v, e).1;
    let d = entry_deleted(v, e.cluster, e.offset).1;
    lemma_freed_fat(d, e.first_cluster, 0);
    lemma_freed_frame_of(v, e);
    assert forall|k: u32| #![trigger next_of(u, k)] !is_free(u, k) implies next_of(u, k) == next_of(
        v,
        k,
    ) by {
        if k < v.fat.len() && k >= 2 {
            assert(u.fat[k as int] == d.fat[k as int] || u.fat[k as int] == 0);
        } else if k < 2 && k < v.fat.len() {
            lemma_freed_low(d, e.first_cluster, 0, k as int);
        }
    }
    lemma_intact_before(v, u, parent, 0);
}

/// What dropping an entry and flushing the FAT does to the volume.
#[verifier::spinoff_prover]
pub(crate) proof fn lemma_entry_gone(v: Volume, e: Entry, parent: u32)
    requires
        sound(v),
        v.fat_count >= 1,
        dropped(v, e).0 is Ok,
        stands_in(v, parent, e),
        e.offset % 32 == 0,
        chain_intact(dropped(v, e).1, parent, 0),
    ensures
        ({
            let w = flushed(dropped(v, e).1, 0).1;
            &&& entry_gone(v, w, e.cluster, e.offset)
            &&& forall|k: u32|
                on_chain(v, parent, 0, k) ==> #[trigger] next_of(w, k) == next_of(v, k)
        }),
{
    let u = dropped(v, e).1;
    let d = entry_deleted(v, e.cluster, e.offset).1;
    let w = flushed(u, 0).1;
    let (pc, o) = (e.cluster, e.offset);
    lemma_drop_keeps_chain(v, e, parent);
    lemma_freed_fat(d, e.first_cluster, 0);
    assert(u.drive == d.drive);
    assert(sound(u));
    lemma_flush_untouched(u, 2);
    let at = cluster_sector(v, pc) + o / 512;
    let sec = sector_read(v.drive, at)->Ok_0;
    let bytes = wiped(sec.update(o % 512, 0xE5), o % 512);
    lemma_cluster_sector_bound(v, pc);
    assert(sec.len() == 512);
    let _f = lemma_wiped_shape(sec.update(o % 512, 0xE5), o % 512);
    lemma_write_keeps_others(v.drive, at, at, bytes);
    lemma_flush_untouched(u, pc);
    assert(sector_read(w.drive, cluster_sector(u, pc) + o / 512) == sector_read(
        u.drive,
        cluster_sector(u, pc) + o / 512,
    ));
    assert forall|k: u32, t: int|
        #![trigger sector_read(w.drive, cluster_sector(v, k) + t)]
        k >= 2 && 0 <= t < v.spc && !(k == pc && t == o / 512) implies sector_read(
        w.drive,
        cluster_sector(v, k) + t,
    ) == sector_read(v.drive, cluster_sector(v, k) + t) by {
        lemma_flush_untouched(u, k);
        assert(sector_read(w.drive, cluster_sector(u, k) + t) == sector_read(
            u.drive,
            cluster_sector(u, k) + t,
        ));
        lemma_cluster_sector_bound(v, k);
        if k != pc {
            lemma_cluster_disjoint(v, k, pc, t, o / 512);
        }
        lemma_write_keeps_others(v.drive, at, cluster_sector(v, k) + t, bytes);
    }
    assert forall|k: u32| on_chain(v, parent, 0, k) implies #[trigger] next_of(w, k) == next_of(
        v,
        k,
    ) by {
        lemma_chain_before(v, u, parent, 0, k);
        lemma_on_intact_chain(u, parent, 0, k);
        assert(next_of(u, k) == next_of(v, k));
    }
}

/// A chain that is intact after clusters were freed was intact before.
proof fn lemma_intact_before(v: Volume, u: Volume, c: u32, guard: nat)
    requires
        same_frame(v, u),
        chain_intact(u, c, guard),
        forall|k: u32| #![trigger next_of(u, k)] !is_free(u, k) ==> next_of(u, k) == next_of(v, k),
    ensures
        chain_intact(v, c, guard),
    decreases 1_000_001 - guard,
{
    assert(next_of(u, c) == next_of(v, c));
    lemma_readable_frame(u, v, c);
    let n = (u.fat[c as int] % 0x1000_0000) as u32;
    if n < EOF_MARK {
        lemma_intact_before(v, u, n, guard + 1);
    }
}

pub(crate) proof fn lemma_without_holds(es: Seq<Entry>, c: u32, o: int, i: int)
    requires
        0 <= i < without(es, c, o).len(),
    ensures
        es.contains(without(es, c, o)[i]),
        !stands_at(without(es, c, o)[i], c, o),
    decreases es.len(),
{
    let head = without(es.drop_last(), c, o);
    if i < head.len() {
        lemma_without_holds(es.drop_last(), c, o, i);
        let j = choose|j: int| 0 <= j < es.drop_last().len() && es.drop_last()[j] == head[i];
        assert(es[j] == head[i]);
        assert(without(es, c, o)[i] == head[i]);
    } else {
        assert(es[es.len() - 1] == without(es, c, o)[i]);
    }
}

proof fn lemma_nothing_wanted(es: Seq<Entry>, name: Seq<char>, want: Want, i: int)
    requires
        0 <= i <= es.len(),
        forall|k: int| 0 <= k < es.len() ==> !same_name((#[trigger] es[k]).name, name),
    ensures
        first_wanted(es, name, want, i) == es.len(),
    decreases es.len() - i,
{
    if i < es.len() {
        lemma_nothing_wanted(es, name, want, i + 1);
    }
}

/// Whether the entry at a path can be removed: the volume has at least one
/// FAT and, once the entry is dropped and its data freed, the directory is
/// intact, shares no clusters with a directory on the way to it, and is not
/// reached through clusters marked free.
pub open spec fn can_remove(v: Volume, path: Seq<char>) -> bool {
    let (parent, name) = parent_of(v, path)->Ok_0;
    &&& sound(v)
    &&& v.fat_count >= 1
    &&& parent_of(v, path) is Ok
    &&& entry_in(v, parent, name) matches Some(e) && chain_intact(dropped(v, e).1, parent, 0)
        && way_apart(v, dropped(v, e).1, v.root, components(path).drop_last(), parent)
}

/// Once a file or directory was removed, its directory lists all its other
/// entries as before, in their order, and it alone is gone: if no other
/// entry had its name, the path is not found any more.
pub proof fn law_removed_entry_is_gone(v: Volume, path: Seq<char>)
    requires
        can_remove(v, path),
        removed(v, path).0 is Ok,
    ensures
        ({
            let (parent, name) = parent_of(v, path)->Ok_0;
            let e = entry_in(v, parent, name)->0;
            let es = listing(v, parent)->Ok_0;
            let w = removed(v, path).1;
            &&& parent_of(w, path) == parent_of(v, path)
            &&& listing(w, parent) == Ok::<Seq<Entry>, FatError>(
                without(es, e.cluster, e.offset),
            )
            &&& (forall|i: int|
                0 <= i < es.len() && same_name((#[trigger] es[i]).name, name) ==> stands_at(
                    es[i],
                    e.cluster,
                    e.offset,
                )) ==> {
                &&& entry_in(w, parent, name) is None
                &&& file_at(w, path) == Err::<Seq<u8>, FatError>(FatError::NotFound)
                &&& dir_at(w, path) == Err::<Seq<Entry>, FatError>(FatError::NotFound)
            }
        }),
{
    let (parent, name) = parent_of(v, path)->Ok_0;
    let comps = components(path);
    let e = entry_in(v, parent, name)->0;
    let es = listing(v, parent)->Ok_0;
    let u = dropped(v, e).1;
    let w = removed(v, path).1;
    let (pc, o) = (e.cluster, e.offset);
    assert(w == flushed(u, 0).1);
    lemma_found_stands(v, parent, name);
    lemma_drop_keeps_chain(v, e, parent);
    assert(!none_at(es, pc, o)) by {
        lemma_lookup_place(es, name, Want::Any, 0);
        assert(stands_at(es[first_wanted(es, name, Want::Any, 0)], pc, o));
    }
    assert(none_at(no_scan().out, pc, o));
    lemma_met_is_on_chain(v, parent, 0, no_scan(), pc, o);
    lemma_listed_is_met(v, parent, 0, no_scan(), pc, o);
    lemma_entry_gone(v, e, parent);
    assert(without(no_scan().out, pc, o) =~= no_scan().out);
    lemma_scan_goes_without(v, w, parent, 0, no_scan(), no_scan(), pc, o, false);
    lemma_removed_way(v, e, parent);
    lemma_walk_agrees(u, v, w, parent, v.root, comps.drop_last());
    let left = without(es, pc, o);
    if forall|i: int|
        0 <= i < es.len() && same_name((#[trigger] es[i]).name, name) ==> stands_at(es[i], pc, o) {
        assert forall|k: int| 0 <= k < left.len() implies !same_name(
            (#[trigger] left[k]).name,
            name,
        ) by {
            lemma_without_holds(es, pc, o, k);
            let j = choose|j: int| 0 <= j < es.len() && es[j] == left[k];
            assert(es[j] == left[k]);
        }
        lemma_nothing_wanted(left, name, Want::Any, 0);
        lemma_nothing_wanted(left, name, Want::File, 0);
        lemma_nothing_wanted(left, name, Want::Dir, 0);
        lemma_walked_last(w, w.root, comps);
    }
}

/// What is in use and not in the directory is untouched by removing an
/// entry from it.
pub(crate) proof fn lemma_removed_way(v: Volume, e: Entry, parent: u32)
    requires
        sound(v),
        v.fat_count >= 1,
        dropped(v, e).0 is Ok,
        stands_in(v, parent, e),
        chain_intact(dropped(v, e).1, parent, 0),
    ensures
        same_frame(v, flushed(dropped(v, e).1, 0).1),
        rest_untouched(dropped(v, e).1, v, flushed(dropped(v, e).1, 0).1, parent),
{
    let u = dropped(v, e).1;
    let w = flushed(u, 0).1;
    lemma_dropped_untouched(v, e, parent);
    assert(sound(u)) by {
        lemma_drop_keeps_chain(v, e, parent);
    }
    lemma_flush_untouched(u, 2);
    assert forall|k: u32| k >= 2 && !is_free(u, k) && !on_chain(u, parent, 0, k) implies #[trigger] untouched(
        v,
        w,
        k,
    ) && next_of(v, k) == next_of(u, k) by {
        assert(untouched(v, u, k));
        lemma_flush_untouched(u, k);
        lemma_untouched_trans(v, u, w, k);
    }
}

// ---------------------------------------------------------------------
// Other files
// ---------------------------------------------------------------------

proof fn lemma_cluster_data_same(v: Volume, w: Volume, c: u32, acc: Seq<u8>, missing: nat, k: nat)
    requires
        same_frame(v, w),
        same_sectors(v, w, c),
        k <= v.spc,
    ensures
        cluster_data(w, c, acc, missing, k) == cluster_data(v, c, acc, missing, k),
    decreases k,
{
    if k > 0 {
        lemma_cluster_data_same(v, w, c, acc, missing, (k - 1) as nat);
        let t = k - 1;
        assert(sector_read(w.drive, cluster_sector(v, c) + t) == sector_read(
            v.drive,
            cluster_sector(v, c) + t,
        ));
        assert(cluster_sector(v, c) + k - 1 == cluster_sector(v, c) + t);
    }
}

/// The data on a chain apart from what was changed reads as before.
pub(crate) proof fn lemma_data_agrees(
    u: Volume,
    v: Volume,
    w: Volume,
    parent: u32,
    c: u32,
    acc: Seq<u8>,
    missing: nat,
    guard: nat,
)
    requires
        same_frame(v, w),
        missing > 0 ==> apart(u, c, guard, parent),
        rest_untouched(u, v, w, parent),
    ensures
        chain_data(w, c, acc, missing, guard) == chain_data(v, c, acc, missing, guard),
    decreases 1_000_001 - guard,
{
    if missing > 0 && c >= 2 && guard <= 1_000_000 {
        assert(untouched(v, w, c));
        lemma_cluster_data_same(v, w, c, acc, missing, v.spc);
        if let Ok((a, m)) = cluster_data(v, c, acc, missing, v.spc) {
            if let Some(n) = next_of(v, c) {
                if m > 0 && n < EOF_MARK {
                    lemma_data_agrees(u, v, w, parent, n, a, m, guard + 1);
                }
            }
        }
    }
}

proof fn lemma_first_wanted_push(es: Seq<Entry>, e: Entry, name: Seq<char>, want: Want, i: int)
    requires
        0 <= i <= es.len(),
    ensures
        first_wanted(es.push(e), name, want, i) == if first_wanted(es, name, want, i) < es.len() {
            first_wanted(es, name, want, i)
        } else if is_wanted(e, name, want) {
            es.len() as int
        } else {
            es.len() as int + 1
        },
    decreases es.len() - i,
{
    reveal_with_fuel(first_wanted, 2);
    if i < es.len() {
        assert(es.push(e)[i] == es[i]);
        if !is_wanted(es[i], name, want) {
            lemma_first_wanted_push(es, e, name, want, i + 1);
        }
    } else {
        assert(es.push(e)[i] == e);
    }
}

pub(crate) proof fn lemma_lookup_push(es: Seq<Entry>, e: Entry, name: Seq<char>, want: Want)
    ensures
        lookup(es.push(e), name, want) == match lookup(es, name, want) {
            Some(x) => Some(x),
            None => if is_wanted(e, name, want) {
                Some(e)
            } else {
                None
            },
        },
{
    lemma_first_wanted_push(es, e, name, want, 0);
    lemma_lookup_place(es, name, want, 0);
}

/// A lookup that finds something else finds it without the entry at a
/// place, too.
pub(crate) proof fn lemma_lookup_without(es: Seq<Entry>, name: Seq<char>, want: Want, c: u32, o: int)
    requires
        lookup(es, name, want) matches Some(f) ==> !stands_at(f, c, o),
    ensures
        lookup(without(es, c, o), name, want) == lookup(es, name, want),
    decreases es.len(),
{
    if es.len() > 0 {
        let head = es.drop_last();
        assert(es =~= head.push(es.last()));
        lemma_lookup_push(head, es.last(), name, want);
        lemma_lookup_without(head, name, want, c, o);
        lemma_lookup_push(without(head, c, o), es.last(), name, want);
    }
}

/// Whether removing the entry at `src` leaves the file at `dst` alone: once
/// the entry is dropped and its data freed, the way to `dst`, its directory
/// and its data are in use, and outside the directory of `src` (or that is
/// the directory of `dst`, too, and the two entries stand in different
/// slots).
pub open spec fn leaves_alone(v: Volume, src: Seq<char>, dst: Seq<char>) -> bool {
    let (p, m) = parent_of(v, src)->Ok_0;
    let (q, n) = parent_of(v, dst)->Ok_0;
    let e = entry_in(v, p, m)->0;
    let u = dropped(v, e).1;
    &&& way_apart(v, u, v.root, components(dst).drop_last(), p)
    &&& p != q ==> apart(u, q, 0, p)
    &&& listing(v, q) matches Ok(es) && lookup(es, n, Want::File) matches Some(f) && (f.size > 0
        ==> apart(u, f.first_cluster, 0, p)) && (p == q ==> !stands_at(f, e.cluster, e.offset))
}

/// Removing a file or a directory leaves the files apart from it as they
/// were.
pub proof fn law_removing_leaves_others(v: Volume, src: Seq<char>, dst: Seq<char>)
    requires
        can_remove(v, src),
        removed(v, src).0 is Ok,
        parent_of(v, dst) is Ok,
        leaves_alone(v, src, dst),
    ensures
        file_at(removed(v, src).1, dst) == file_at(v, dst),
{
    let (p, m) = parent_of(v, src)->Ok_0;
    let (q, n) = parent_of(v, dst)->Ok_0;
    let e = entry_in(v, p, m)->0;
    let u = dropped(v, e).1;
    let w = removed(v, src).1;
    let es = listing(v, q)->Ok_0;
    let f = lookup(es, n, Want::File)->0;
    lemma_found_stands(v, p, m);
    lemma_removed_way(v, e, p);
    lemma_walk_agrees(u, v, w, p, v.root, components(dst).drop_last());
    if p == q {
        law_removed_entry_is_gone(v, src);
        lemma_lookup_without(es, n, Want::File, e.cluster, e.offset);
    } else {
        lemma_scan_agrees(u, v, w, p, q, 0, no_scan());
    }
    lemma_data_agrees(u, v, w, p, f.first_cluster, Seq::empty(), f.size as nat, 0);
}

// ---------------------------------------------------------------------
// What a directory lists after a write
// ---------------------------------------------------------------------

/// The listing with an entry put in at `k`.
pub open spec fn with_new(es: Seq<Entry>, k: int, e: Entry) -> Seq<Entry> {
    es.take(k).push(e) + es.skip(k)
}

/// How the scan of a directory with a new entry keeps up, behind it, with
/// that of the directory before.
pub open spec fn keeps_up_with(before: Scan, after: Scan, k: int, e: Entry) -> bool {
    &&& 0 <= k <= before.out.len()
    &&& after.out == with_new(before.out, k, e)
    &&& !before.ended ==> after.lfn == before.lfn && !after.ended
    &&& before.ended && !after.ended ==> after.lfn.len() == 0
}

/// Whether the slots of a sector from `j` on are end marks.
pub open spec fn rest_is_clear(sec: Seq<u8>, j: int) -> bool {
    mark(sec, 15) == 0 && forall|i: int| j <= i < 16 ==> #[trigger] mark(sec, i) == 0
}

proof fn lemma_slots_keep_with(
    a: Seq<u8>,
    b: Seq<u8>,
    c: u32,
    s: int,
    p: Scan,
    q: Scan,
    j: nat,
    m: nat,
    k: int,
    e: Entry,
)
    requires
        j <= m <= 16,
        a.len() == 512,
        b.len() == 512,
        forall|i: int|
            32 * j <= i < 512 ==> #[trigger] b[i] == a[i] || (i % 32 == 0 && a[i] == 0 && b[i]
                == 0xE5),
        keeps_up_with(after_slots(a, c, s, p, j), after_slots(b, c, s, q, j), k, e),
        after_slots(a, c, s, p, j).ended ==> rest_is_clear(a, j as int),
        sector_tidy(a),
    ensures
        keeps_up_with(after_slots(a, c, s, p, m), after_slots(b, c, s, q, m), k, e),
        after_slots(a, c, s, p, m).ended ==> rest_is_clear(a, m as int),
    decreases m,
{
    if j < m {
        lemma_slots_keep_with(a, b, c, s, p, q, j, (m - 1) as nat, k, e);
        let at = 32 * (m - 1);
        let x = after_slots(a, c, s, p, (m - 1) as nat);
        let y = after_slots(b, c, s, q, (m - 1) as nat);
        assert(mark(a, m - 1) == a[at]);
        assert(b[at] == a[at] || (a[at] == 0 && b[at] == 0xE5));
        if !x.ended && a[at] != 0 {
            assert forall|i: int| 0 <= i < 32 implies #[trigger] a[at + i] == b[at + i] by {
                assert(b[at + i] == a[at + i] || ((at + i) % 32 == 0 && a[at + i] == 0));
            }
            lemma_after_slot_same(a, b, at, c, s, y);
            let x2 = after_slot(a, at, c, s, x);
            if x2.out != x.out {
                let n = x2.out.last();
                assert(x2.out =~= x.out.push(n));
                assert(with_new(x2.out, k, e) =~= with_new(x.out, k, e).push(n));
            }
        }
        assert(mark(a, 15) == 0 || a[at] != 0) by {
            if a[at] == 0 {
                assert(mark(a, m - 1) == 0);
            }
        }
        assert forall|i: int|
            after_slots(a, c, s, p, m).ended && m <= i < 16 implies #[trigger] mark(a, i) == 0 by {
            if !x.ended {
                assert(mark(a, m - 1) == 0);
            }
        }
    }
}

/// The free slots that an entry goes into list nothing.
proof fn lemma_free_slots(a: Seq<u8>, c: u32, s: int, p: Scan, b: nat, i: nat)
    requires
        b + i <= 16,
        forall|j: int| b <= j < b + i ==> #[trigger] free_slot(a, j),
    ensures
        after_slots(a, c, s, p, b + i).out == after_slots(a, c, s, p, b).out,
        i > 0 && !after_slots(a, c, s, p, b + i).ended ==> after_slots(
            a,
            c,
            s,
            p,
            b + i,
        ).lfn.len() == 0,
    decreases i,
{
    if i > 0 {
        lemma_free_slots(a, c, s, p, b, (i - 1) as nat);
        assert(free_slot(a, b + i - 1));
        assert(b + i - 1 == (b + i) as nat - 1);
    }
}

/// Over the sector in which the entry's slots were put.
#[verifier::spinoff_prover]
proof fn lemma_place_sector(
    a: Seq<u8>,
    t: Seq<u8>,
    c: u32,
    s: int,
    p: Scan,
    q: Scan,
    b: nat,
    name: Seq<char>,
    is_dir: bool,
    now: DateTime,
    first: u32,
    size: u32,
) -> (k: int)
    requires
        a == t || loosened(a, t),
        a.len() == 512,
        t.len() == 512,
        sector_tidy(a),
        valid_name(name),
        storable(name),
        b + lfn_count(name.len()) + 1 <= 16,
        run_at(a, b as int, slots_for(name)),
        keeps_up(p, q),
        p.ended ==> mark(a, 0) == 0,
        !after_slots(t, c, s, q, b).ended,
        after_slots(t, c, s, q, b).lfn.len() == 0 || name.len() % 13 != 0,
    ensures
        ({
            let w = splice(t, 32 * b as int, slot_bytes(entry_slots(name, is_dir, now, first, size)));
            let e = Entry {
                name,
                is_dir,
                size,
                first_cluster: first,
                cluster: c,
                offset: s * 512 + 32 * (b + lfn_count(name.len())),
            };
            &&& keeps_up_with(after_slots(a, c, s, p, 16), after_slots(w, c, s, q, 16), k, e)
            &&& after_slots(a, c, s, p, 16).ended ==> mark(a, 15) == 0
        }),
{
    let slots = entry_slots(name, is_dir, now, first, size);
    let n = (lfn_count(name.len()) + 1) as nat;
    lemma_encoded_len(name);
    lemma_lfn_slots(name_units(name), lfn_count(name.len()), short_checksum(short_name(name)));
    assert(slots.len() == n);
    let w = splice(t, 32 * b as int, slot_bytes(slots));
    assert(slot_bytes(slots).len() == 32 * n);
    assert(w.len() == 512);
    let e = Entry {
        name,
        is_dir,
        size,
        first_cluster: first,
        cluster: c,
        offset: s * 512 + 32 * (b + lfn_count(name.len())),
    };
    assert forall|i: int| 0 <= i < 32 * b implies #[trigger] w[i] == t[i] by {}
    lemma_after_slots_same(w, t, c, s, q, b);
    lemma_slots_keep_up(a, t, c, s, p, q, b);
    assert forall|j: int, i: int|
        #![trigger w[32 * (b + j) + i]]
        0 <= j < slots.len() && 0 <= i < 32 implies w[32 * (b + j) + i] == slots[j][i] by {
        let at = 32 * j + i;
        assert(at / 32 == j && at % 32 == i);
        assert(slot_bytes(slots)[at] == slots[j][i]);
    }
    lemma_entry_slots_list(w, c, s, q, b, name, is_dir, now, first, size);
    let x = after_slots(a, c, s, p, b);
    let k = x.out.len() as int;
    assert forall|j: int| b <= j < b + n implies #[trigger] free_slot(a, j) by {}
    lemma_free_slots(a, c, s, p, b, n);
    let x2 = after_slots(a, c, s, p, b + n);
    let y2 = after_slots(w, c, s, q, b + n);
    assert(x2.out == x.out);
    assert(with_new(x2.out, k, e) =~= x.out.push(e));
    assert(x2.lfn.len() == 0 ==> x2.lfn =~= Seq::<Seq<u16>>::empty());
    assert(keeps_up_with(x2, y2, k, e));
    lemma_slots_clear(a, c, s, p, b + n);
    assert forall|i: int| 32 * (b + n) <= i < 512 implies #[trigger] w[i] == a[i] || (i % 32 == 0
        && a[i] == 0 && w[i] == 0xE5) by {
        assert(w[i] == t[i]);
    }
    lemma_slots_keep_with(a, w, c, s, p, q, b + n, 16, k, e);
    k
}

/// Where a scan has ended, a tidy sector is clear.
proof fn lemma_slots_clear(a: Seq<u8>, c: u32, s: int, p: Scan, m: nat)
    requires
        m <= 16,
        sector_tidy(a),
        p.ended ==> mark(a, 0) == 0,
    ensures
        after_slots(a, c, s, p, m).ended ==> rest_is_clear(a, m as int),
    decreases m,
{
    if m == 0 {
        if p.ended {
            assert(mark(a, 0) == 0);
            assert forall|i: int| 0 <= i < 16 implies #[trigger] mark(a, i) == 0 by {}
        }
    } else {
        lemma_slots_clear(a, c, s, p, (m - 1) as nat);
        if after_slots(a, c, s, p, m).ended {
            let x = after_slots(a, c, s, p, (m - 1) as nat);
            if !x.ended {
                assert(mark(a, m - 1) == 0);
            }
            assert forall|i: int| m <= i < 16 implies #[trigger] mark(a, i) == 0 by {}
        }
    }
}

/// Whether the slots of cluster `c` from `i` on, and its last, are end
/// marks.
pub open spec fn clear_from(v: Volume, c: u32, i: int) -> bool {
    slot_mark(v, c, 16 * v.spc - 1) == 0 && forall|j: int|
        i <= j < 16 * v.spc ==> #[trigger] slot_mark(v, c, j) == 0
}

/// Whether the sectors of a cluster differ in end marks that became free
/// slots alone.
pub open spec fn cluster_loosened(v: Volume, w: Volume, c: u32, s: int) -> bool {
    forall|t: int|
        s <= t < v.spc ==> loosened_read(
            sector_read(v.drive, cluster_sector(v, c) + t),
            #[trigger] sector_read(w.drive, cluster_sector(v, c) + t),
        )
}

/// Over the sectors `s` to `m` of a cluster, behind the new entry.
#[verifier::spinoff_prover]
proof fn lemma_sectors_keep_with(
    u: Volume,
    w: Volume,
    c: u32,
    p: Scan,
    q: Scan,
    s: nat,
    m: nat,
    k: int,
    e: Entry,
    ended: bool,
)
    requires
        sound(u),
        same_frame(u, w),
        c >= 2,
        readable(u, c),
        cluster_tidy(u, c, ended),
        s <= m <= u.spc,
        after_sectors(u, c, p, s) is Ok,
        after_sectors(w, c, q, s) is Ok,
        keeps_up_with(after_sectors(u, c, p, s)->Ok_0, after_sectors(w, c, q, s)->Ok_0, k, e),
        after_sectors(u, c, p, s)->Ok_0.ended ==> clear_from(u, c, 16 * s as int),
        cluster_loosened(u, w, c, s as int),
    ensures
        after_sectors(u, c, p, m) is Ok,
        after_sectors(w, c, q, m) is Ok,
        keeps_up_with(after_sectors(u, c, p, m)->Ok_0, after_sectors(w, c, q, m)->Ok_0, k, e),
        after_sectors(u, c, p, m)->Ok_0.ended ==> clear_from(u, c, 16 * m as int),
    decreases m,
{
    if s < m {
        let t = m - 1;
        lemma_sectors_keep_with(u, w, c, p, q, s, t as nat, k, e, ended);
        let x = after_sectors(u, c, p, t as nat)->Ok_0;
        let y = after_sectors(w, c, q, t as nat)->Ok_0;
        let ra = sector_read(u.drive, cluster_sector(u, c) + t);
        let rb = sector_read(w.drive, cluster_sector(u, c) + t);
        assert(ra is Ok);
        assert(loosened_read(ra, rb));
        let (a, b) = (ra->Ok_0, rb->Ok_0);
        lemma_cluster_sector_bound(u, c);
        assert(a.len() == 512 && b.len() == 512);
        lemma_tidy_sector(u, c, ended, t);
        if x.ended {
            lemma_ended_slots(a, c, t, x, 0);
            lemma_ended_slots(a, c, t, x, 16);
            assert(rest_is_clear(a, 0)) by {
                assert forall|i: int| 0 <= i < 16 implies #[trigger] mark(a, i) == 0 by {
                    let j = 16 * t + i;
                    assert(j / 16 == t && j % 16 == i);
                    assert(slot_mark(u, c, j) == 0);
                }
            }
        }
        if !y.ended {
            lemma_slots_keep_with(a, b, c, t, x, y, 0, 16, k, e);
        }
        let done = after_sectors(u, c, p, m)->Ok_0;
        if done.ended && !x.ended {
            let last = 16 * m - 1;
            assert(last / 16 == t && last % 16 == 15);
            assert(mark(a, 15) == 0);
            assert(slot_mark(u, c, last) == 0);
            lemma_clear_behind(u, c, last, ended);
        }
    }
}

proof fn lemma_clear_behind(u: Volume, c: u32, last: int, ended: bool)
    requires
        u.spc >= 1,
        cluster_tidy(u, c, ended),
        0 <= last < 16 * u.spc,
        slot_mark(u, c, last) == 0,
    ensures
        clear_from(u, c, last),
{
    assert forall|j: int| last <= j < 16 * u.spc implies #[trigger] slot_mark(u, c, j) == 0 by {}
    let end = 16 * u.spc - 1;
    assert(slot_mark(u, c, end) == 0);
}

/// Over the directory behind the cluster that has the new entry.
#[verifier::spinoff_prover]
proof fn lemma_scan_keeps_with(
    u: Volume,
    w: Volume,
    c: u32,
    guard: nat,
    p: Scan,
    q: Scan,
    k: int,
    e: Entry,
)
    requires
        sound(u),
        same_frame(u, w),
        chain_intact(u, c, guard),
        tidy(u, c, guard, p.ended),
        keeps_up_with(p, q, k, e),
        !q.ended,
        forall|j: u32|
            on_chain(u, c, guard, j) ==> #[trigger] next_of(w, j) == next_of(u, j)
                && cluster_loosened(u, w, j, 0),
    ensures
        k <= met(u, c, guard, p).len(),
        scanned(w, c, guard, q) == Ok::<Seq<Entry>, FatError>(
            with_new(met(u, c, guard, p), k, e),
        ),
    decreases 1_000_001 - guard,
{
    assert(on_chain(u, c, guard, c));
    let n = (u.fat[c as int] % 0x1000_0000) as u32;
    assert(next_of(u, c) == Some(n));
    assert(next_of(w, c) == Some(n));
    if p.ended {
        lemma_clear_behind(u, c, 0, p.ended);
    }
    lemma_sectors_keep_with(u, w, c, p, q, 0, u.spc, k, e, p.ended);
    let x = after_sectors(u, c, p, u.spc)->Ok_0;
    let y = after_sectors(w, c, q, u.spc)->Ok_0;
    lemma_intact_listable(u, u, c, guard);
    lemma_listable_lists(u, c, guard, p);
    lemma_met(u, c, guard, p);
    if p.ended {
        lemma_ended_sectors(u, c, p, u.spc);
    }
    if !y.ended && n < EOF_MARK {
        lemma_tidy_on(u, c, guard, p, x, n);
        assert forall|j: u32| on_chain(u, n, guard + 1, j) implies #[trigger] next_of(w, j)
            == next_of(u, j) && cluster_loosened(u, w, j, 0) by {
            assert(on_chain(u, c, guard, j));
        }
        lemma_scan_keeps_with(u, w, n, guard + 1, x, y, k, e);
    }
}

/// The new entry at byte `o` of cluster `c`.
pub open spec fn new_entry(
    name: Seq<char>,
    is_dir: bool,
    first: u32,
    size: u32,
    c: u32,
    o: int,
) -> Entry {
    Entry {
        name,
        is_dir,
        size,
        first_cluster: first,
        cluster: c,
        offset: o + 32 * lfn_count(name.len()),
    }
}

/// Over the cluster that has the place.
#[verifier::spinoff_prover]
#[verifier::rlimit(40)]
proof fn lemma_place_cluster(
    u: Volume,
    t: Volume,
    w: Volume,
    c: u32,
    p: Scan,
    q: Scan,
    o: int,
    name: Seq<char>,
    now: DateTime,
    first: u32,
    size: u32,
) -> (k: int)
    requires
        sound(u),
        loosened_volume(u, t),
        same_frame(u, w),
        c >= 2,
        readable(u, c),
        cluster_tidy(u, c, p.ended),
        keeps_up(p, q),
        !q.ended,
        valid_name(name),
        storable(name),
        cluster_passable(t, c, 0, slots_for(name)),
        cluster_run(t, c, 0, slots_for(name)) == Ok::<Option<int>, FatError>(Some(o)),
        scan_to(t, c, 0, q, c, o) matches Some(r) && (r.lfn.len() == 0 || name.len() % 13 != 0),
        forall|s: int|
            0 <= s < t.spc && s != o / 512 ==> #[trigger] sector_read(
                w.drive,
                cluster_sector(t, c) + s,
            ) == sector_read(t.drive, cluster_sector(t, c) + s),
        sector_read(w.drive, cluster_sector(t, c) + o / 512) == Ok::<Seq<u8>, FatError>(
            splice(
                sector_read(t.drive, cluster_sector(t, c) + o / 512)->Ok_0,
                o % 512,
                slot_bytes(entry_slots(name, false, now, first, size)),
            ),
        ),
    ensures
        after_sectors(u, c, p, u.spc) is Ok,
        after_sectors(w, c, q, u.spc) is Ok,
        keeps_up_with(
            after_sectors(u, c, p, u.spc)->Ok_0,
            after_sectors(w, c, q, u.spc)->Ok_0,
            k,
            new_entry(name, false, first, size, c, o),
        ),
        after_sectors(u, c, p, u.spc)->Ok_0.ended ==> slot_mark(u, c, 16 * u.spc - 1) == 0,
{
    let n = slots_for(name);
    lemma_pass_cluster(t, c, q, 0, n);
    let s = (o / 512) as nat;
    lemma_sectors_keep_up(u, t, c, p, q, s);
    assert forall|i: int| 0 <= i < s implies #[trigger] sector_read(
        w.drive,
        cluster_sector(t, c) + i,
    ) == sector_read(t.drive, cluster_sector(t, c) + i) by {}
    lemma_after_sectors_same(t, w, c, q, s);
    let (x, y) = (after_sectors(u, c, p, s)->Ok_0, after_sectors(t, c, q, s)->Ok_0);
    let ra = sector_read(u.drive, cluster_sector(u, c) + s);
    let rt = sector_read(t.drive, cluster_sector(u, c) + s);
    assert(ra is Ok);
    assert(loosened_read(ra, rt));
    let (a, ts) = (ra->Ok_0, rt->Ok_0);
    lemma_cluster_sector_bound(u, c);
    assert(a.len() == 512 && ts.len() == 512);
    lemma_tidy_sector(u, c, p.ended, s as int);
    if x.ended {
        let i = 16 * s as int;
        assert(slot_mark(u, c, i) == mark(a, 0));
    }
    lemma_lowest_run(ts, 0, n);
    let b = lowest_run(ts, 0, n) as nat;
    lemma_loosened_or_same_run(a, ts, n);
    lemma_lowest_run(a, 0, n);
    lemma_pass_slots(ts, c, s as int, y, b);
    assert(o % 512 == 32 * b && o % 512 / 32 == b);
    assert(run_at(a, b as int, n));
    let e = new_entry(name, false, first, size, c, o);
    let k = lemma_place_sector(a, ts, c, s as int, x, y, b, name, false, now, first, size);
    assert(e.offset == s * 512 + 32 * (b + lfn_count(name.len())));
    if x.ended {
        lemma_ended_slots(a, c, s as int, x, 16);
    }
    let x1 = after_sectors(u, c, p, s + 1)->Ok_0;
    let y1 = after_sectors(w, c, q, s + 1)->Ok_0;
    assert(cluster_sector(w, c) + (s + 1) - 1 == cluster_sector(t, c) + o / 512);
    assert(keeps_up_with(x1, y1, k, e));
    if x1.ended {
        let last = 16 * s as int + 15;
        assert(last / 16 == s && last % 16 == 15);
        assert(slot_mark(u, c, last) == 0);
        lemma_clear_behind(u, c, last, p.ended);
    }
    assert(cluster_loosened(u, w, c, s as int + 1)) by {
        assert forall|i: int| s + 1 <= i < u.spc implies loosened_read(
            sector_read(u.drive, cluster_sector(u, c) + i),
            #[trigger] sector_read(w.drive, cluster_sector(u, c) + i),
        ) by {
            assert(sector_read(w.drive, cluster_sector(t, c) + i) == sector_read(
                t.drive,
                cluster_sector(t, c) + i,
            ));
        }
    }
    lemma_sectors_keep_with(u, w, c, p, q, s + 1, u.spc, k, e, p.ended);
    k
}

/// Over a directory into whose first free run an entry's slots were put.
#[verifier::spinoff_prover]
#[verifier::rlimit(40)]
proof fn lemma_scan_with_new(
    u: Volume,
    t: Volume,
    w: Volume,
    c: u32,
    guard: nat,
    p: Scan,
    q: Scan,
    pc: u32,
    o: int,
    name: Seq<char>,
    now: DateTime,
    first: u32,
    size: u32,
) -> (k: int)
    requires
        sound(u),
        loosened_volume(u, t),
        same_frame(u, w),
        chain_intact(u, c, guard),
        tidy(u, c, guard, p.ended),
        keeps_up(p, q),
        !q.ended,
        valid_name(name),
        storable(name),
        dir_passable(t, c, slots_for(name), guard),
        dir_run(t, c, slots_for(name), guard) == Ok::<Option<(u32, int)>, FatError>(Some((pc, o))),
        scan_before(t, c, guard, q, Some((pc, o))) matches Some(r) && (r.lfn.len() == 0
            || name.len() % 13 != 0),
        forall|j: u32| on_chain(u, c, guard, j) ==> #[trigger] next_of(w, j) == next_of(u, j),
        forall|j: u32|
            on_chain(u, c, guard, j) && j != pc ==> #[trigger] same_sectors(t, w, j),
        forall|s: int|
            0 <= s < t.spc && s != o / 512 ==> #[trigger] sector_read(
                w.drive,
                cluster_sector(t, pc) + s,
            ) == sector_read(t.drive, cluster_sector(t, pc) + s),
        sector_read(w.drive, cluster_sector(t, pc) + o / 512) == Ok::<Seq<u8>, FatError>(
            splice(
                sector_read(t.drive, cluster_sector(t, pc) + o / 512)->Ok_0,
                o % 512,
                slot_bytes(entry_slots(name, false, now, first, size)),
            ),
        ),
    ensures
        0 <= k <= met(u, c, guard, p).len(),
        scanned(w, c, guard, q) == Ok::<Seq<Entry>, FatError>(
            with_new(met(u, c, guard, p), k, new_entry(name, false, first, size, pc, o)),
        ),
    decreases 1_000_001 - guard,
{
    let n = slots_for(name);
    let m = (u.fat[c as int] % 0x1000_0000) as u32;
    assert(on_chain(u, c, guard, c));
    assert(next_of(u, c) == Some(m) && next_of(w, c) == Some(m) && next_of(t, c) == Some(m));
    lemma_intact_listable(u, u, c, guard);
    lemma_listable_lists(u, c, guard, p);
    assert forall|j: u32| m < EOF_MARK && on_chain(u, m, guard + 1, j) implies on_chain(
        u,
        c,
        guard,
        j,
    ) by {}
    if cluster_run(t, c, 0, n)->Ok_0 is Some {
        let e = new_entry(name, false, first, size, c, o);
        let k = lemma_place_cluster(u, t, w, c, p, q, o, name, now, first, size);
        let x = after_sectors(u, c, p, u.spc)->Ok_0;
        let y = after_sectors(w, c, q, u.spc)->Ok_0;
        lemma_met(u, c, guard, p);
        if p.ended {
            lemma_ended_sectors(u, c, p, u.spc);
        }
        if !y.ended && m < EOF_MARK {
            lemma_no_return(u, c, guard);
            lemma_tidy_on(u, c, guard, p, x, m);
            assert forall|j: u32| on_chain(u, m, guard + 1, j) implies #[trigger] next_of(w, j)
                == next_of(u, j) && cluster_loosened(u, w, j, 0) by {
                assert(on_chain(u, c, guard, j) && j != pc);
                lemma_loosened_through(u, t, w, m, guard + 1, j);
            }
            lemma_scan_keeps_with(u, w, m, guard + 1, x, y, k, e);
        }
        k
    } else {
        lemma_run_in_cluster(t, m, n, guard + 1);
        assert(c != pc);
        assert(same_sectors(t, w, c));
        lemma_after_sectors_same(t, w, c, q, t.spc);
        lemma_sectors_keep_up(u, t, c, p, q, u.spc);
        let x = after_sectors(u, c, p, u.spc)->Ok_0;
        let y = after_sectors(t, c, q, u.spc)->Ok_0;
        lemma_met(u, c, guard, p);
        if x.ended {
            let last = 16 * u.spc - 1;
            assert(slot_mark(u, c, last) == 0);
        }
        lemma_tidy_on(u, c, guard, p, x, m);
        lemma_scan_with_new(u, t, w, m, guard + 1, x, y, pc, o, name, now, first, size)
    }
}

proof fn lemma_loosened_through(u: Volume, t: Volume, w: Volume, c: u32, guard: nat, j: u32)
    requires
        loosened_volume(u, t),
        same_sectors(t, w, j),
        chain_intact(u, c, guard),
        on_chain(u, c, guard, j),
    ensures
        cluster_loosened(u, w, j, 0),
    decreases 1_000_001 - guard,
{
    if c != j {
        lemma_loosened_through(u, t, w, next_of(u, c)->0, guard + 1, j);
    } else {
        assert forall|i: int| 0 <= i < u.spc implies loosened_read(
            sector_read(u.drive, cluster_sector(u, j) + i),
            #[trigger] sector_read(w.drive, cluster_sector(u, j) + i),
        ) by {
            assert(sector_read(w.drive, cluster_sector(t, j) + i) == sector_read(
                t.drive,
                cluster_sector(t, j) + i,
            ));
        }
    }
}

/// Clearing a cluster from sector `s` on leaves the sectors before as they
/// are, and zeros behind.
proof fn lemma_cleared_zeros(v: Volume, c: u32, s: nat)
    requires
        sound(v),
        c >= 2,
        s <= v.spc,
        cleared(v, c, s as int).0 is Ok,
    ensures
        same_frame(v, cleared(v, c, s as int).1),
        forall|t: int|
            0 <= t < v.spc ==> #[trigger] sector_read(
                cleared(v, c, s as int).1.drive,
                cluster_sector(v, c) + t,
            ) == if t < s {
                sector_read(v.drive, cluster_sector(v, c) + t)
            } else {
                Ok::<Seq<u8>, FatError>(zeros())
            },
    decreases v.spc - s,
{
    if s < v.spc {
        let lba = cluster_sector(v, c) + s;
        lemma_cluster_sector_bound(v, c);
        lemma_write_keeps_others(v.drive, lba, lba, zeros());
        let u = Volume { drive: sector_written(v.drive, lba, zeros())->Ok_0, ..v };
        lemma_cleared_zeros(u, c, s + 1);
        let w = cleared(v, c, s as int).1;
        assert(cluster_sector(u, c) == cluster_sector(v, c));
        assert forall|t: int| 0 <= t < v.spc implies #[trigger] sector_read(
            w.drive,
            cluster_sector(v, c) + t,
        ) == if t < s {
            sector_read(v.drive, cluster_sector(v, c) + t)
        } else {
            Ok::<Seq<u8>, FatError>(zeros())
        } by {
            lemma_write_keeps_others(v.drive, lba, cluster_sector(v, c) + t, zeros());
            assert(sector_read(w.drive, cluster_sector(u, c) + t) == if t < s + 1 {
                sector_read(u.drive, cluster_sector(u, c) + t)
            } else {
                Ok::<Seq<u8>, FatError>(zeros())
            });
        }
    }
}

/// The first sector of a cluster that was appended for an entry.
#[verifier::spinoff_prover]
proof fn lemma_new_cluster(y: Volume, parent: u32, slots: Seq<Seq<u8>>)
    requires
        sound(y),
        y.fat_count >= 1,
        y.fat.len() <= 0x0FFF_FFFF,
        0 < slots.len() <= 16,
        chain_intact(y, parent, 0),
        dir_run(y, parent, slots.len() as int, 0) == Ok::<Option<(u32, int)>, FatError>(None),
        slots_place(y, parent, slots.len() as int).0 is Ok,
        slots_stored(
            slots_place(y, parent, slots.len() as int).1,
            entry_place(y, parent, slots.len() as int).0,
            entry_place(y, parent, slots.len() as int).1,
            slots,
        ).0 is Ok,
    ensures
        ({
            let (c, o) = entry_place(y, parent, slots.len() as int);
            let p = slots_place(y, parent, slots.len() as int).1;
            let w = flushed(slots_stored(p, c, o, slots).1, 0).1;
            sector_read(w.drive, cluster_sector(y, c)) == Ok::<Seq<u8>, FatError>(
                splice(zeros(), 0, slot_bytes(slots)),
            )
        }),
{
    let n = slots.len() as int;
    lemma_place(y, parent, n);
    let (c, o) = entry_place(y, parent, n);
    let p = slots_place(y, parent, n).1;
    let u = allocated(y).1;
    lemma_lowest_free(y.fat, 2);
    lemma_chain_end(y, parent, 0);
    assert(keeps_used(y, u));
    lemma_keeps_intact(y, u, parent, 0);
    let last = chain_end(u, parent, 0)->0;
    let x = with_entry(u, last as int, c);
    assert(p == cleared(x, c, 0).1);
    assert(sound(x));
    lemma_cleared_zeros(x, c, 0);
    assert(sector_read(p.drive, cluster_sector(x, c) + 0) == Ok::<Seq<u8>, FatError>(zeros()));
    lemma_slots_stored_keeps(p, c, o, slots);
    let z = slots_stored(p, c, o, slots).1;
    assert(sound(z));
    lemma_flush_untouched(z, c);
    let w = flushed(z, 0).1;
    assert(sector_read(w.drive, cluster_sector(z, c) + 0) == sector_read(
        z.drive,
        cluster_sector(z, c) + 0,
    ));
}

/// The scan of a cluster that was appended for an entry.
#[verifier::spinoff_prover]
proof fn lemma_new_cluster_scan(
    w: Volume,
    c: u32,
    guard: nat,
    q: Scan,
    name: Seq<char>,
    now: DateTime,
    first: u32,
    size: u32,
)
    requires
        sound(w),
        guard <= 1_000_000,
        c >= 2,
        !q.ended,
        q.lfn.len() == 0 || name.len() % 13 != 0,
        valid_name(name),
        storable(name),
        lfn_count(name.len()) + 1 < 16,
        sector_read(w.drive, cluster_sector(w, c)) == Ok::<Seq<u8>, FatError>(
            splice(zeros(), 0, slot_bytes(entry_slots(name, false, now, first, size))),
        ),
    ensures
        scanned(w, c, guard, q) == Ok::<Seq<Entry>, FatError>(
            q.out.push(new_entry(name, false, first, size, c, 0)),
        ),
{
    let slots = entry_slots(name, false, now, first, size);
    let n = (lfn_count(name.len()) + 1) as nat;
    lemma_encoded_len(name);
    lemma_lfn_slots(name_units(name), lfn_count(name.len()), short_checksum(short_name(name)));
    assert(slots.len() == n);
    let sec = splice(zeros(), 0, slot_bytes(slots));
    assert(sec.len() == 512);
    let b: nat = 0;
    assert forall|j: int, i: int|
        #![trigger sec[32 * (b + j) + i]]
        0 <= j < slots.len() && 0 <= i < 32 implies sec[32 * (b + j) + i] == slots[j][i] by {
        let at = 32 * j + i;
        assert(at / 32 == j && at % 32 == i);
        assert(slot_bytes(slots)[at] == slots[j][i]);
    }
    lemma_entry_slots_list(sec, c, 0, q, b, name, false, now, first, size);
    let r = after_slots(sec, c, 0, q, n);
    assert(sec[32 * n as int] == 0);
    assert(after_slots(sec, c, 0, q, n + 1) == after_slot(sec, 32 * n as int, c, 0, r));
    lemma_slots_stay_ended(sec, c, 0, q, n + 1, 16);
    assert(after_sectors(w, c, q, 0) == Ok::<Scan, FatError>(q));
    assert(cluster_sector(w, c) + 1 - 1 == cluster_sector(w, c));
    assert(after_sectors(w, c, q, 1) == Ok::<Scan, FatError>(after_slots(sec, c, 0, q, 16)));
    lemma_sectors_stay_ended(w, c, q, 1, w.spc);
    assert(r.out == q.out.push(new_entry(name, false, first, size, c, 0)));
}

/// Over a directory to which a cluster was appended for an entry.
#[verifier::spinoff_prover]
#[verifier::rlimit(40)]
proof fn lemma_scan_with_appended(
    u: Volume,
    t: Volume,
    w: Volume,
    c: u32,
    guard: nat,
    p: Scan,
    q: Scan,
    last: u32,
    nc: u32,
    name: Seq<char>,
    now: DateTime,
    first: u32,
    size: u32,
)
    requires
        sound(u),
        loosened_volume(u, t),
        same_frame(u, w),
        sound(w),
        chain_intact(u, c, guard),
        tidy(u, c, guard, p.ended),
        keeps_up(p, q),
        !q.ended,
        valid_name(name),
        storable(name),
        lfn_count(name.len()) + 1 < 16,
        dir_passable(t, c, slots_for(name), guard),
        dir_run(t, c, slots_for(name), guard) == Ok::<Option<(u32, int)>, FatError>(None),
        scan_before(t, c, guard, q, None) matches Some(r) && (r.lfn.len() == 0 || name.len() % 13
            != 0),
        chain_end(u, c, guard) == Some(last),
        next_of(u, last)->0 >= EOF_MARK,
        next_of(w, last) == Some(nc),
        2 <= nc < EOF_MARK,
        forall|j: u32|
            on_chain(u, c, guard, j) && j != last ==> #[trigger] next_of(w, j) == next_of(u, j),
        forall|j: u32| on_chain(u, c, guard, j) ==> #[trigger] same_sectors(t, w, j),
        sector_read(w.drive, cluster_sector(w, nc)) == Ok::<Seq<u8>, FatError>(
            splice(zeros(), 0, slot_bytes(entry_slots(name, false, now, first, size))),
        ),
    ensures
        ({
            let es = met(u, c, guard, p);
            scanned(w, c, guard, q) == Ok::<Seq<Entry>, FatError>(
                with_new(es, es.len() as int, new_entry(name, false, first, size, nc, 0)),
            )
        }),
    decreases 1_000_001 - guard,
{
    let n = slots_for(name);
    let m = (u.fat[c as int] % 0x1000_0000) as u32;
    assert(on_chain(u, c, guard, c));
    assert(next_of(u, c) == Some(m) && next_of(t, c) == Some(m));
    lemma_intact_listable(u, u, c, guard);
    lemma_listable_lists(u, c, guard, p);
    assert(same_sectors(t, w, c));
    lemma_after_sectors_same(t, w, c, q, t.spc);
    lemma_sectors_keep_up(u, t, c, p, q, u.spc);
    let x = after_sectors(u, c, p, u.spc)->Ok_0;
    let y = after_sectors(t, c, q, u.spc)->Ok_0;
    lemma_met(u, c, guard, p);
    if m < EOF_MARK {
        assert(c != last);
        assert(next_of(w, c) == Some(m));
        if x.ended {
            let end = 16 * u.spc - 1;
            assert(slot_mark(u, c, end) == 0);
        }
        lemma_tidy_on(u, c, guard, p, x, m);
        assert forall|j: u32| on_chain(u, m, guard + 1, j) implies on_chain(u, c, guard, j) by {}
        lemma_scan_with_appended(
            u,
            t,
            w,
            m,
            guard + 1,
            x,
            y,
            last,
            nc,
            name,
            now,
            first,
            size,
        );
    } else {
        assert(c == last);
        lemma_new_cluster_scan(w, nc, guard + 1, y, name, now, first, size);
        if p.ended {
            lemma_ended_sectors(u, c, p, u.spc);
        }
        let es = met(u, c, guard, p);
        let e = new_entry(name, false, first, size, nc, 0);
        assert(es == x.out);
        assert(with_new(es, es.len() as int, e) =~= es.push(e));
    }
}

/// Whether exactly one entry of a listing has a name.
pub open spec fn named_once(es: Seq<Entry>, name: Seq<char>) -> bool {
    exists|i: int|
        0 <= i < es.len() && same_name((#[trigger] es[i]).name, name) && forall|j: int|
            0 <= j < es.len() && j != i ==> !same_name((#[trigger] es[j]).name, name)
}

/// Whether an entry is that of a file.
pub open spec fn is_file(e: Entry, name: Seq<char>, size: int, first: u32) -> bool {
    e.name == name && !e.is_dir && e.size == size && e.first_cluster == first
}

/// Whether a listing is another one with the new entry of a file.
pub open spec fn has_new(
    es: Seq<Entry>,
    before: Seq<Entry>,
    name: Seq<char>,
    size: int,
    first: u32,
) -> bool {
    exists|k: int, e: Entry|
        #![trigger with_new(before, k, e)]
        0 <= k <= before.len() && es == with_new(before, k, e) && is_file(e, name, size, first)
}

/// The first cluster of a file that is added to a directory.
pub open spec fn first_of(v: Volume, parent: u32, name: Seq<char>, content: Seq<u8>) -> u32 {
    stored(dir_opened(v, parent, slots_for(name), 0).1, content).0->Ok_0
}

/// Putting a file into an opened directory adds its entry to those that the
/// directory listed before, and changes no other.
#[verifier::spinoff_prover]
#[verifier::rlimit(60)]
pub(crate) proof fn lemma_put_lists(
    u: Volume,
    parent: u32,
    name: Seq<char>,
    content: Seq<u8>,
    now: DateTime,
)
    requires
        sound(u),
        u.fat_count >= 1,
        u.fat.len() <= 0x0FFF_FFFF,
        content.len() <= 0xFFFF_FFFF,
        valid_name(name),
        storable(name),
        has_place(u, parent, name),
        file_added(u, parent, name, content, now).0 is Ok,
    ensures
        ({
            let w = file_added(u, parent, name, content, now).1;
            &&& listing(u, parent) is Ok
            &&& listing(w, parent) is Ok
            &&& has_new(
                listing(w, parent)->Ok_0,
                listing(u, parent)->Ok_0,
                name,
                content.len() as int,
                first_of(u, parent, name, content),
            )
        }),
{
    let n = slots_for(name);
    let t = dir_opened(u, parent, n, 0).1;
    let w = file_added(u, parent, name, content, now).1;
    lemma_dir_opened(u, parent, n, 0);
    lemma_opened_intact(u, t, parent, 0);
    lemma_place_in_sight(u, parent, name);
    assert(w == file_put(t, parent, name, content, now).1);
    let y = stored(t, content).1;
    let first = stored(t, content).0->Ok_0;
    let size = content.len() as u32;
    let slots = entry_slots(name, false, now, first, size);
    lemma_encoded_len(name);
    lemma_lfn_slots(name_units(name), lfn_count(name.len()), short_checksum(short_name(name)));
    assert(slots.len() == n);
    lemma_stored_untouched(t, content);
    assert(entered(y, parent, name, first, size, false, now).0 is Ok);
    lemma_slots_entered(t, y, parent, slots);
    let (c, o) = entry_place(y, parent, n);
    let run = dir_run(t, parent, n, 0)->Ok_0;
    let es = listing(u, parent)->Ok_0;
    lemma_intact_listable(u, u, parent, 0);
    lemma_listable_lists(u, parent, 0, no_scan());
    assert(es == met(u, parent, 0, no_scan()));
    lemma_chain_end(t, parent, 0);
    lemma_chain_end(u, parent, 0);
    lemma_keeps_intact(u, t, parent, 0);
    let last = chain_end(t, parent, 0)->0;
    assert forall|j: u32| on_chain(u, parent, 0, j) implies 2 <= j < t.fat.len() && !is_free(t, j)
        && y.fat[j as int] == t.fat[j as int] by {
        assert(on_chain(t, parent, 0, j));
        assert(t.fat[j as int] == u.fat[j as int]);
    }
    if run is Some {
        assert forall|j: u32| on_chain(u, parent, 0, j) implies #[trigger] next_of(w, j) == next_of(
            u,
            j,
        ) by {}
        assert forall|j: u32| on_chain(u, parent, 0, j) && j != c implies #[trigger] same_sectors(
            t,
            w,
            j,
        ) by {}
        let k = lemma_scan_with_new(
            u,
            t,
            w,
            parent,
            0,
            no_scan(),
            no_scan(),
            c,
            o,
            name,
            now,
            first,
            size,
        );
        let e = new_entry(name, false, first, size, c, o);
        assert(listing(w, parent)->Ok_0 == with_new(es, k, e));
    } else {
        lemma_keeps_intact(t, y, parent, 0);
        lemma_dir_run_same(t, y, parent, n, 0);
        lemma_new_cluster(y, parent, slots);
        assert(c != last);
        assert(c < EOF_MARK);
        assert forall|j: u32| on_chain(u, parent, 0, j) && j != last implies #[trigger] next_of(
            w,
            j,
        ) == next_of(u, j) by {
            assert(j != c);
        }
        assert forall|j: u32| on_chain(u, parent, 0, j) implies #[trigger] same_sectors(t, w, j) by {
            assert(j != c);
        }
        assert(next_of(w, last) == Some(c));
        lemma_scan_with_appended(
            u,
            t,
            w,
            parent,
            0,
            no_scan(),
            no_scan(),
            last,
            c,
            name,
            now,
            first,
            size,
        );
        let e = new_entry(name, false, first, size, c, 0);
        assert(listing(w, parent)->Ok_0 == with_new(es, es.len() as int, e));
    }
}

/// After a write, the directory lists what it listed before, without the
/// file that stood there, and the new file; its name is listed exactly once.
pub proof fn law_written_name_is_listed_once(
    v: Volume,
    path: Seq<char>,
    content: Seq<u8>,
    now: DateTime,
)
    requires
        can_keep(v, path, content.len()),
        file_written(v, path, content, now).0 is Ok,
    ensures
        ({
            let (parent, name) = parent_of(v, path)->Ok_0;
            let w = file_written(v, path, content, now).1;
            &&& listing(made_ready(v, path), parent) is Ok
            &&& listing(w, parent) is Ok
            &&& has_new(
                listing(w, parent)->Ok_0,
                listing(made_ready(v, path), parent)->Ok_0,
                name,
                content.len() as int,
                first_of(made_ready(v, path), parent, name, content),
            )
            &&& named_once(listing(w, parent)->Ok_0, name)
        }),
{
    let (parent, name) = parent_of(v, path)->Ok_0;
    let u = made_ready(v, path);
    let w = file_written(v, path, content, now).1;
    lemma_ready_sound(v, path);
    assert(file_written(v, path, content, now) == file_added(u, parent, name, content, now));
    lemma_put_lists(u, parent, name, content, now);
    let before = listing(u, parent)->Ok_0;
    let es = listing(w, parent)->Ok_0;
    let first = first_of(u, parent, name, content);
    let (k, e) = choose|k: int, e: Entry|
        #![trigger with_new(before, k, e)]
        0 <= k <= before.len() && es == with_new(before, k, e) && is_file(
            e,
            name,
            content.len() as int,
            first,
        );
    law_same_name_is_equivalence(name, name, name);
    assert(es[k] == e);
    assert forall|j: int| 0 <= j < es.len() && j != k implies !same_name(
        (#[trigger] es[j]).name,
        name,
    ) by {
        let i = if j < k { j } else { j - 1 };
        assert(es[j] == before[i]);
        lemma_none_wanted(before, name, 0, i, Want::Any);
    }
}

} // verus!
