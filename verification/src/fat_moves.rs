//! What the operations on a FAT32 volume leave alone: files and directories
//! elsewhere on it; and what moving a file comes to.

use crate::fat::{
    after_sectors, after_slots, chain_end, cluster_sector, components, dir_opened, dir_run,
    dir_there, dropped, entered, entry_deleted, entry_in, file_added, file_at, file_data, file_put,
    file_written, first_wanted, flushed, freed, is_wanted, law_file_length, lemma_encoded_len,
    lemma_lookup_place, listing, lookup, moved, next_of, no_scan, one_place, parent_of, removed,
    scanned, sector_read, slots_for, sound, stored, walked, with_entry, EOF_MARK, Entry, FatError,
    Scan, Volume, Want,
};
use crate::fat_laws::{
    can_keep, can_remove, first_of, has_place, is_file, law_removed_entry_is_gone,
    law_spelling_does_not_matter, lemma_data_agrees, lemma_dir_opened, lemma_drop_keeps_chain,
    lemma_entry_gone, lemma_listed_is_met, lemma_lookup_push, lemma_lookup_without,
    lemma_met_is_on_chain, lemma_met_sector, lemma_met_slot, lemma_no_return,
    lemma_on_intact_chain, lemma_opened_intact, lemma_place_in_sight, lemma_put_lists,
    lemma_removed_way, lemma_rest_behind_opening, lemma_same_fat_chain, lemma_scan_goes_without,
    lemma_without_holds, none_at, stands_at, with_new, without,
};
use crate::fat_room::{
    can_write, data_intact, law_file_can_be_written, lemma_can_drop, lemma_can_flush,
    lemma_chain_aside, lemma_fat_stays, lemma_intact_frame,
};
use crate::fat_store::{
    apart, chain_intact, entry_place, is_free, lemma_after_sectors_same, lemma_chain_end,
    lemma_dir_run_same, lemma_dropped_untouched, lemma_flush_untouched, lemma_found_stands,
    lemma_freed_frame_of, lemma_keeps_intact, lemma_place, lemma_readable_frame, lemma_ready_sound,
    lemma_rest_untouched, lemma_scan_agrees, lemma_slots_entered, lemma_stored,
    lemma_stored_untouched, lemma_untouched_trans, lemma_walk_agrees, made_ready, on_chain,
    readable, rest_untouched, same_frame, untouched, used_untouched, way_apart,
};
use crate::fatname::{
    entry_slots, law_same_name_is_equivalence, lemma_lfn_slots, lfn_count, name_units, same_name,
    short_checksum, short_name, storable, valid_name,
};
use crate::rtc::DateTime;
use vstd::prelude::*;

verus! {

// ---------------------------------------------------------------------
// Chains
// ---------------------------------------------------------------------

proof fn lemma_intact_lower(v: Volume, c: u32, g: nat, h: nat)
    requires
        chain_intact(v, c, g),
        h <= g,
    ensures
        chain_intact(v, c, h),
    decreases 1_000_001 - g,
{
    let n = (v.fat[c as int] % 0x1000_0000) as u32;
    if n < EOF_MARK {
        lemma_intact_lower(v, n, g + 1, h + 1);
    }
}

/// The clusters on a chain do not depend on where counting starts.
proof fn lemma_intact_chain_from(v: Volume, c: u32, g: nat, h: nat, k: u32)
    requires
        chain_intact(v, c, g),
        h <= g,
    ensures
        on_chain(v, c, g, k) == on_chain(v, c, h, k),
    decreases 1_000_001 - g,
{
    let n = (v.fat[c as int] % 0x1000_0000) as u32;
    if n < EOF_MARK {
        lemma_intact_chain_from(v, n, g + 1, h + 1, k);
    }
}

/// A chain whose clusters have the same successors is the same.
proof fn lemma_chain_stays(v: Volume, w: Volume, c: u32, guard: nat)
    requires
        forall|k: u32| #[trigger] on_chain(v, c, guard, k) ==> next_of(w, k) == next_of(v, k),
    ensures
        forall|k: u32| #[trigger] on_chain(w, c, guard, k) == on_chain(v, c, guard, k),
        same_frame(v, w) && chain_intact(v, c, guard) ==> chain_intact(w, c, guard),
    decreases 1_000_001 - guard,
{
    if guard <= 1_000_000 {
        assert(on_chain(v, c, guard, c));
        if let Some(n) = next_of(v, c) {
            if n < EOF_MARK {
                assert forall|k: u32| #[trigger] on_chain(v, n, guard + 1, k) implies next_of(w, k)
                    == next_of(v, k) by {
                    assert(on_chain(v, c, guard, k));
                }
                lemma_chain_stays(v, w, n, guard + 1);
            }
        }
        if same_frame(v, w) && chain_intact(v, c, guard) {
            lemma_readable_frame(v, w, c);
        }
        assert forall|k: u32| #[trigger] on_chain(w, c, guard, k) == on_chain(v, c, guard, k) by {
            if let Some(n) = next_of(v, c) {
                if n < EOF_MARK {
                    assert(on_chain(w, n, guard + 1, k) == on_chain(v, n, guard + 1, k));
                }
            }
        }
    }
}

/// A chain in use that meets no cluster of a directory is apart from it.
proof fn lemma_apart_if(v: Volume, c: u32, guard: nat, parent: u32)
    requires
        forall|k: u32|
            #[trigger] on_chain(v, c, guard, k) ==> !is_free(v, k) && !on_chain(v, parent, 0, k),
    ensures
        apart(v, c, guard, parent),
    decreases 1_000_001 - guard,
{
    if guard <= 1_000_000 {
        assert(on_chain(v, c, guard, c));
        if let Some(n) = next_of(v, c) {
            if n < EOF_MARK {
                assert forall|k: u32| #[trigger] on_chain(v, n, guard + 1, k) implies !is_free(v, k)
                    && !on_chain(v, parent, 0, k) by {
                    assert(on_chain(v, c, guard, k));
                }
                lemma_apart_if(v, n, guard + 1, parent);
            }
        }
    }
}

/// Freeing an intact chain changes no entry of another cluster.
proof fn lemma_freed_only(v: Volume, c: u32, guard: nat, k: u32)
    requires
        sound(v),
        chain_intact(v, c, guard),
        !on_chain(v, c, guard, k),
        k < v.fat.len(),
    ensures
        freed(v, c, guard).1.fat[k as int] == v.fat[k as int],
    decreases 1_000_001 - guard,
{
    reveal_with_fuel(freed, 2);
    let n = (v.fat[c as int] % 0x1000_0000) as u32;
    let u = Volume {
        free: if v.free < u32::MAX {
            (v.free + 1) as u32
        } else {
            v.free
        },
        ..with_entry(v, c as int, 0)
    };
    if c < EOF_MARK && n < EOF_MARK {
        lemma_no_return(v, c, guard);
        assert(sound(u) && same_frame(v, u));
        lemma_chain_aside(v, u, n, guard + 1, c);
        assert forall|j: u32| #[trigger] on_chain(v, n, guard + 1, j) implies next_of(u, j)
            == next_of(v, j) by {
            assert(j != c);
        }
        lemma_chain_stays(v, u, n, guard + 1);
        assert(on_chain(u, n, guard + 1, k) == on_chain(v, n, guard + 1, k));
        lemma_freed_only(u, n, guard + 1, k);
    }
}

// ---------------------------------------------------------------------
// Clean chains
// ---------------------------------------------------------------------

/// Whether the chains that start at these clusters are intact, with room for
/// `g` more clusters, and no two of them share a cluster.
pub open spec fn clean(v: Volume, heads: Seq<u32>, g: nat) -> bool {
    &&& forall|i: int| 0 <= i < heads.len() ==> chain_intact(v, #[trigger] heads[i], g)
    &&& forall|i: int, j: int, k: u32|
        #![trigger on_chain(v, heads[i], 0, k), on_chain(v, heads[j], 0, k)]
        0 <= i < heads.len() && 0 <= j < heads.len() && on_chain(v, heads[i], 0, k) && on_chain(
            v,
            heads[j],
            0,
            k,
        ) ==> heads[i] == heads[j]
}

/// Two different chains of a clean set share nothing.
proof fn lemma_clean_apart(v: Volume, heads: Seq<u32>, g: nat, a: u32, b: u32)
    requires
        clean(v, heads, g),
        heads.contains(a),
        heads.contains(b),
        a != b,
    ensures
        chain_intact(v, a, g),
        chain_intact(v, a, 0),
        apart(v, a, 0, b),
        forall|k: u32| #[trigger] on_chain(v, a, 0, k) ==> !on_chain(v, b, 0, k) && !is_free(v, k),
{
    let i = choose|i: int| 0 <= i < heads.len() && heads[i] == a;
    let j = choose|j: int| 0 <= j < heads.len() && heads[j] == b;
    assert(chain_intact(v, heads[i], g));
    lemma_intact_lower(v, a, g, 0);
    assert forall|k: u32| #[trigger] on_chain(v, a, 0, k) implies !on_chain(v, b, 0, k) && !is_free(
        v,
        k,
    ) by {
        lemma_on_intact_chain(v, a, 0, k);
        if on_chain(v, b, 0, k) {
            assert(on_chain(v, heads[i], 0, k) && on_chain(v, heads[j], 0, k));
        }
    }
    lemma_apart_if(v, a, 0, b);
}

/// Chains that stay as they are stay clean.
proof fn lemma_clean_stays(v: Volume, w: Volume, heads: Seq<u32>, g: nat)
    requires
        clean(v, heads, g),
        same_frame(v, w),
        forall|i: int, k: u32|
            #![trigger on_chain(v, heads[i], 0, k)]
            0 <= i < heads.len() && on_chain(v, heads[i], 0, k) ==> next_of(w, k) == next_of(v, k),
    ensures
        clean(w, heads, g),
        forall|i: int, k: u32|
            #![trigger on_chain(w, heads[i], 0, k)]
            0 <= i < heads.len() ==> on_chain(w, heads[i], 0, k) == on_chain(v, heads[i], 0, k),
{
    assert forall|i: int| 0 <= i < heads.len() implies chain_intact(w, #[trigger] heads[i], g)
        && forall|k: u32| #[trigger] on_chain(w, heads[i], 0, k) == on_chain(v, heads[i], 0, k) by {
        let h = heads[i];
        assert(chain_intact(v, h, g));
        assert forall|k: u32| #[trigger] on_chain(v, h, 0, k) implies next_of(w, k) == next_of(
            v,
            k,
        ) by {
            assert(on_chain(v, heads[i], 0, k));
        }
        lemma_chain_stays(v, w, h, 0);
        assert forall|k: u32| #[trigger] on_chain(v, h, g, k) implies next_of(w, k) == next_of(
            v,
            k,
        ) by {
            lemma_intact_chain_from(v, h, g, 0, k);
            assert(on_chain(v, heads[i], 0, k));
        }
        lemma_chain_stays(v, w, h, g);
    }
    assert forall|i: int, j: int, k: u32|
        #![trigger on_chain(w, heads[i], 0, k), on_chain(w, heads[j], 0, k)]
        0 <= i < heads.len() && 0 <= j < heads.len() && on_chain(w, heads[i], 0, k) && on_chain(
            w,
            heads[j],
            0,
            k,
        ) implies heads[i] == heads[j] by {
        assert(chain_intact(w, heads[i], g) && chain_intact(w, heads[j], g));
        assert(on_chain(v, heads[i], 0, k) && on_chain(v, heads[j], 0, k));
    }
}

proof fn lemma_clean_part(v: Volume, heads: Seq<u32>, part: Seq<u32>, g: nat, h: nat)
    requires
        clean(v, heads, g),
        h <= g,
        forall|i: int| 0 <= i < part.len() ==> heads.contains(#[trigger] part[i]),
    ensures
        clean(v, part, h),
{
    assert forall|i: int| 0 <= i < part.len() implies chain_intact(v, #[trigger] part[i], h) by {
        let j = choose|j: int| 0 <= j < heads.len() && heads[j] == part[i];
        assert(chain_intact(v, heads[j], g));
        lemma_intact_lower(v, part[i], g, h);
    }
    assert forall|i: int, j: int, k: u32|
        #![trigger on_chain(v, part[i], 0, k), on_chain(v, part[j], 0, k)]
        0 <= i < part.len() && 0 <= j < part.len() && on_chain(v, part[i], 0, k) && on_chain(
            v,
            part[j],
            0,
            k,
        ) implies part[i] == part[j] by {
        assert(heads.contains(part[i]) && heads.contains(part[j]));
        let a = choose|a: int| 0 <= a < heads.len() && heads[a] == part[i];
        let b = choose|b: int| 0 <= b < heads.len() && heads[b] == part[j];
        assert(on_chain(v, heads[a], 0, k) && on_chain(v, heads[b], 0, k));
    }
}

// ---------------------------------------------------------------------
// Walking past a changed directory
// ---------------------------------------------------------------------

/// The directories on a way, from `c` on.
pub open spec fn way(v: Volume, c: u32, comps: Seq<Seq<char>>) -> Seq<u32>
    decreases comps.len(),
{
    seq![c] + (if comps.len() == 0 {
        Seq::empty()
    } else {
        match listing(v, c) {
            Err(_) => Seq::empty(),
            Ok(es) => match lookup(es, comps[0], Want::Dir) {
                None => Seq::empty(),
                Some(e) => way(v, e.first_cluster, comps.skip(1)),
            },
        }
    })
}

/// Whether every directory on the way is `q`, or in use and apart from it in
/// `u`.
pub open spec fn way_beside(v: Volume, u: Volume, c: u32, comps: Seq<Seq<char>>, q: u32) -> bool
    decreases comps.len(),
{
    comps.len() > 0 ==> {
        &&& c == q || apart(u, c, 0, q)
        &&& match listing(v, c) {
            Err(_) => true,
            Ok(es) => match lookup(es, comps[0], Want::Dir) {
                None => true,
                Some(e) => way_beside(v, u, e.first_cluster, comps.skip(1), q),
            },
        }
    }
}

/// Whether looking for directories gives the same in both listings.
pub open spec fn same_dirs(a: Seq<Entry>, b: Seq<Entry>) -> bool {
    forall|name: Seq<char>| #[trigger] lookup(b, name, Want::Dir) == lookup(a, name, Want::Dir)
}

/// A way on which only `q` was changed, and that not in its directories,
/// leads to the same place.
proof fn lemma_walk_beside(
    u: Volume,
    v: Volume,
    w: Volume,
    q: u32,
    c: u32,
    comps: Seq<Seq<char>>,
)
    requires
        same_frame(v, w),
        way_beside(v, u, c, comps, q),
        rest_untouched(u, v, w, q),
        listing(v, q) is Ok,
        listing(w, q) is Ok,
        same_dirs(listing(v, q)->Ok_0, listing(w, q)->Ok_0),
    ensures
        walked(w, c, comps) == walked(v, c, comps),
        way(w, c, comps) == way(v, c, comps),
    decreases comps.len(),
{
    if comps.len() > 0 {
        if c != q {
            lemma_scan_agrees(u, v, w, q, c, 0, no_scan());
        } else {
            assert(lookup(listing(w, q)->Ok_0, comps[0], Want::Dir) == lookup(
                listing(v, q)->Ok_0,
                comps[0],
                Want::Dir,
            ));
        }
        if let Ok(es) = listing(v, c) {
            if let Some(e) = lookup(es, comps[0], Want::Dir) {
                lemma_walk_beside(u, v, w, q, e.first_cluster, comps.skip(1));
            }
        }
    }
}

/// Directories of a clean set are beside each other.
proof fn lemma_way_beside(
    v: Volume,
    u: Volume,
    c: u32,
    comps: Seq<Seq<char>>,
    q: u32,
    heads: Seq<u32>,
    g: nat,
)
    requires
        clean(u, heads, g),
        heads.contains(q),
        forall|i: int| 0 <= i < way(v, c, comps).len() ==> heads.contains(
            #[trigger] way(v, c, comps)[i],
        ),
    ensures
        way_beside(v, u, c, comps, q),
    decreases comps.len(),
{
    if comps.len() > 0 {
        let all = way(v, c, comps);
        assert(all[0] == c);
        if c != q {
            lemma_clean_apart(u, heads, g, c, q);
        }
        if let Ok(es) = listing(v, c) {
            if let Some(e) = lookup(es, comps[0], Want::Dir) {
                let rest = way(v, e.first_cluster, comps.skip(1));
                assert forall|i: int| 0 <= i < rest.len() implies heads.contains(
                    #[trigger] rest[i],
                ) by {
                    assert(all[i + 1] == rest[i]);
                }
                lemma_way_beside(v, u, e.first_cluster, comps.skip(1), q, heads, g);
            }
        }
    }
}

/// Directories of a clean set other than `q` are apart from it.
proof fn lemma_way_apart(
    v: Volume,
    u: Volume,
    c: u32,
    comps: Seq<Seq<char>>,
    q: u32,
    heads: Seq<u32>,
    g: nat,
)
    requires
        clean(u, heads, g),
        heads.contains(q),
        forall|i: int| 0 <= i < way(v, c, comps).len() ==> heads.contains(
            #[trigger] way(v, c, comps)[i],
        ),
        forall|i: int| 0 <= i < way(v, c, comps).len() - 1 ==> #[trigger] way(v, c, comps)[i] != q,
        walked(v, c, comps) is Ok,
    ensures
        way_apart(v, u, c, comps, q),
    decreases comps.len(),
{
    if comps.len() > 0 {
        let all = way(v, c, comps);
        let es = listing(v, c)->Ok_0;
        let e = lookup(es, comps[0], Want::Dir)->0;
        let rest = way(v, e.first_cluster, comps.skip(1));
        assert(all[0] == c);
        assert(rest.len() >= 1);
        lemma_clean_apart(u, heads, g, c, q);
        assert forall|i: int| 0 <= i < rest.len() implies heads.contains(#[trigger] rest[i]) by {
            assert(all[i + 1] == rest[i]);
        }
        assert forall|i: int| 0 <= i < rest.len() - 1 implies #[trigger] rest[i] != q by {
            assert(all[i + 1] == rest[i]);
        }
        lemma_way_apart(v, u, e.first_cluster, comps.skip(1), q, heads, g);
    }
}

/// The last directory on a way is where it leads.
proof fn lemma_way_ends(v: Volume, c: u32, comps: Seq<Seq<char>>)
    requires
        walked(v, c, comps) is Ok,
    ensures
        way(v, c, comps).len() > 0,
        way(v, c, comps).last() == walked(v, c, comps)->Ok_0,
    decreases comps.len(),
{
    if comps.len() > 0 {
        let e = lookup(listing(v, c)->Ok_0, comps[0], Want::Dir)->0;
        lemma_way_ends(v, e.first_cluster, comps.skip(1));
    }
}

// ---------------------------------------------------------------------
// One entry to a place
// ---------------------------------------------------------------------

/// Whether at most one entry of a listing stands at a place.
spec fn once_at(es: Seq<Entry>, c: u32, o: int) -> bool {
    forall|i: int, j: int|
        0 <= i < es.len() && 0 <= j < es.len() && stands_at(#[trigger] es[i], c, o) && stands_at(
            #[trigger] es[j],
            c,
            o,
        ) ==> i == j
}

/// Slots elsewhere list nothing at a place.
proof fn lemma_slots_elsewhere(sec: Seq<u8>, c: u32, s: int, p: Scan, k: nat, pc: u32, o: int)
    requires
        k <= 16,
        once_at(p.out, pc, o),
        c != pc || o < s * 512 || o >= s * 512 + 512,
    ensures
        once_at(after_slots(sec, c, s, p, k).out, pc, o),
    decreases k,
{
    if k > 0 {
        lemma_slots_elsewhere(sec, c, s, p, (k - 1) as nat, pc, o);
        let x = after_slots(sec, c, s, p, (k - 1) as nat);
        let y = after_slots(sec, c, s, p, k);
        assert forall|i: int, j: int|
            0 <= i < y.out.len() && 0 <= j < y.out.len() && stands_at(#[trigger] y.out[i], pc, o)
                && stands_at(#[trigger] y.out[j], pc, o) implies i == j by {
            assert(i < x.out.len() && j < x.out.len());
            assert(y.out[i] == x.out[i] && y.out[j] == x.out[j]);
        }
    }
}

/// The slots of a sector list at most one entry at a place.
proof fn lemma_slots_once(sec: Seq<u8>, c: u32, s: int, p: Scan, k: nat, pc: u32, o: int)
    requires
        k <= 16,
        s >= 0,
        none_at(p.out, pc, o),
    ensures
        once_at(after_slots(sec, c, s, p, k).out, pc, o),
    decreases k,
{
    if k > 0 {
        lemma_slots_once(sec, c, s, p, (k - 1) as nat, pc, o);
        let x = after_slots(sec, c, s, p, (k - 1) as nat);
        let y = after_slots(sec, c, s, p, k);
        if !none_at(x.out, pc, o) {
            lemma_met_slot(sec, c, s, p, (k - 1) as nat, pc, o);
        }
        assert forall|i: int, j: int|
            0 <= i < y.out.len() && 0 <= j < y.out.len() && stands_at(#[trigger] y.out[i], pc, o)
                && stands_at(#[trigger] y.out[j], pc, o) implies i == j by {
            if i < x.out.len() {
                assert(y.out[i] == x.out[i]);
            }
            if j < x.out.len() {
                assert(y.out[j] == x.out[j]);
            }
            if (i < x.out.len()) != (j < x.out.len()) {
                assert(o == s * 512 + 32 * (k - 1));
                assert(o % 512 / 32 == k - 1);
            }
        }
    }
}

proof fn lemma_sectors_elsewhere(v: Volume, c: u32, p: Scan, k: nat, pc: u32, o: int)
    requires
        after_sectors(v, c, p, k) is Ok,
        once_at(p.out, pc, o),
        c != pc,
    ensures
        once_at(after_sectors(v, c, p, k)->Ok_0.out, pc, o),
    decreases k,
{
    if k > 0 {
        lemma_sectors_elsewhere(v, c, p, (k - 1) as nat, pc, o);
        let q = after_sectors(v, c, p, (k - 1) as nat)->Ok_0;
        if !q.ended {
            let sec = sector_read(v.drive, cluster_sector(v, c) + k - 1)->Ok_0;
            lemma_slots_elsewhere(sec, c, k - 1, q, 16, pc, o);
        }
    }
}

proof fn lemma_sectors_once(v: Volume, c: u32, p: Scan, k: nat, pc: u32, o: int)
    requires
        k <= v.spc,
        after_sectors(v, c, p, k) is Ok,
        none_at(p.out, pc, o),
    ensures
        once_at(after_sectors(v, c, p, k)->Ok_0.out, pc, o),
    decreases k,
{
    if k > 0 {
        lemma_sectors_once(v, c, p, (k - 1) as nat, pc, o);
        let q = after_sectors(v, c, p, (k - 1) as nat)->Ok_0;
        if !q.ended {
            let sec = sector_read(v.drive, cluster_sector(v, c) + k - 1)->Ok_0;
            if none_at(q.out, pc, o) {
                lemma_slots_once(sec, c, k - 1, q, 16, pc, o);
            } else {
                lemma_met_sector(v, c, p, (k - 1) as nat, pc, o);
                lemma_slots_elsewhere(sec, c, k - 1, q, 16, pc, o);
            }
        }
    }
}

proof fn lemma_scan_elsewhere(v: Volume, c: u32, guard: nat, p: Scan, pc: u32, o: int)
    requires
        chain_intact(v, c, guard),
        !on_chain(v, c, guard, pc),
        scanned(v, c, guard, p) is Ok,
        once_at(p.out, pc, o),
    ensures
        once_at(scanned(v, c, guard, p)->Ok_0, pc, o),
    decreases 1_000_001 - guard,
{
    lemma_sectors_elsewhere(v, c, p, v.spc, pc, o);
    let q = after_sectors(v, c, p, v.spc)->Ok_0;
    if !q.ended && next_of(v, c)->0 < EOF_MARK {
        lemma_scan_elsewhere(v, next_of(v, c)->0, guard + 1, q, pc, o);
    }
}

proof fn lemma_scan_once(v: Volume, c: u32, guard: nat, p: Scan, pc: u32, o: int)
    requires
        chain_intact(v, c, guard),
        scanned(v, c, guard, p) is Ok,
        none_at(p.out, pc, o),
    ensures
        once_at(scanned(v, c, guard, p)->Ok_0, pc, o),
    decreases 1_000_001 - guard,
{
    lemma_sectors_once(v, c, p, v.spc, pc, o);
    let q = after_sectors(v, c, p, v.spc)->Ok_0;
    let n = (v.fat[c as int] % 0x1000_0000) as u32;
    if !q.ended && n < EOF_MARK {
        if none_at(q.out, pc, o) {
            lemma_scan_once(v, n, guard + 1, q, pc, o);
        } else {
            lemma_met_sector(v, c, p, v.spc, pc, o);
            lemma_no_return(v, c, guard);
            lemma_scan_elsewhere(v, n, guard + 1, q, pc, o);
        }
    }
}

/// Two entries of an intact directory at one place are the same.
proof fn lemma_one_to_a_place(v: Volume, c: u32, a: Entry, b: Entry)
    requires
        chain_intact(v, c, 0),
        listing(v, c) is Ok,
        listing(v, c)->Ok_0.contains(a),
        listing(v, c)->Ok_0.contains(b),
        stands_at(a, b.cluster, b.offset),
    ensures
        a == b,
{
    lemma_scan_once(v, c, 0, no_scan(), b.cluster, b.offset);
    let es = listing(v, c)->Ok_0;
    let i = choose|i: int| 0 <= i < es.len() && es[i] == a;
    let j = choose|j: int| 0 <= j < es.len() && es[j] == b;
    assert(stands_at(es[i], b.cluster, b.offset) && stands_at(es[j], b.cluster, b.offset));
}

/// What is found in a listing is one of its entries.
proof fn lemma_found_is_listed(es: Seq<Entry>, name: Seq<char>, want: Want)
    requires
        lookup(es, name, want) is Some,
    ensures
        es.contains(lookup(es, name, want)->0),
        is_wanted(lookup(es, name, want)->0, name, want),
{
    lemma_lookup_place(es, name, want, 0);
    lemma_first_is_wanted(es, name, want, 0);
}

proof fn lemma_first_is_wanted(es: Seq<Entry>, name: Seq<char>, want: Want, i: int)
    requires
        0 <= i,
        first_wanted(es, name, want, i) < es.len(),
    ensures
        is_wanted(es[first_wanted(es, name, want, i)], name, want),
    decreases es.len() - i,
{
    if !is_wanted(es[i], name, want) {
        lemma_first_is_wanted(es, name, want, i + 1);
    }
}

/// A lookup that does not want the new entry finds what it found before.
proof fn lemma_lookup_with_new(es: Seq<Entry>, k: int, e: Entry, name: Seq<char>, want: Want)
    requires
        0 <= k <= es.len(),
        !is_wanted(e, name, want),
    ensures
        lookup(with_new(es, k, e), name, want) == lookup(es, name, want),
    decreases es.len() - k,
{
    let w = with_new(es, k, e);
    if k == es.len() {
        assert(w =~= es.push(e));
        lemma_lookup_push(es, e, name, want);
    } else {
        let head = es.drop_last();
        lemma_lookup_with_new(head, k, e, name, want);
        assert(w =~= with_new(head, k, e).push(es.last()));
        assert(es =~= head.push(es.last()));
        lemma_lookup_push(head, es.last(), name, want);
        lemma_lookup_push(with_new(head, k, e), es.last(), name, want);
    }
}

// ---------------------------------------------------------------------
// What adding a file leaves alone
// ---------------------------------------------------------------------

/// A chain with a cluster appended.
proof fn lemma_chain_extended(
    t: Volume,
    w: Volume,
    c: u32,
    guard: nat,
    last: u32,
    nc: u32,
)
    requires
        same_frame(t, w),
        chain_intact(t, c, guard),
        chain_end(t, c, guard) == Some(last),
        next_of(t, last)->0 >= EOF_MARK,
        forall|k: u32|
            #[trigger] on_chain(t, c, guard, k) && k != last ==> next_of(w, k) == next_of(t, k),
        next_of(w, last) == Some(nc),
        2 <= nc < EOF_MARK,
        next_of(w, nc) == Some(EOF_MARK),
        readable(w, nc),
    ensures
        forall|k: u32| #[trigger] on_chain(w, c, guard, k) ==> on_chain(t, c, guard, k) || k == nc,
        chain_intact(t, c, guard + 1) ==> chain_intact(w, c, guard),
    decreases 1_000_001 - guard,
{
    let n = (t.fat[c as int] % 0x1000_0000) as u32;
    assert(on_chain(t, c, guard, c));
    lemma_readable_frame(t, w, c);
    if n < EOF_MARK {
        assert(c != last);
        assert forall|k: u32| #[trigger] on_chain(t, n, guard + 1, k) && k != last implies next_of(
            w,
            k,
        ) == next_of(t, k) by {
            assert(on_chain(t, c, guard, k));
        }
        lemma_chain_extended(t, w, n, guard + 1, last, nc);
        assert forall|k: u32| #[trigger] on_chain(w, c, guard, k) implies on_chain(t, c, guard, k)
            || k == nc by {
            if k != c {
                assert(on_chain(w, n, guard + 1, k));
            }
        }
    } else {
        assert(c == last);
        assert forall|k: u32| #[trigger] on_chain(w, c, guard, k) implies on_chain(t, c, guard, k)
            || k == nc by {
            if k != c {
                assert(on_chain(w, nc, guard + 1, k));
                reveal_with_fuel(on_chain, 2);
            }
        }
        reveal_with_fuel(chain_intact, 2);
    }
}

/// The chain of stored data goes through the clusters that were taken.
proof fn lemma_data_chain(w: Volume, cs: Seq<u32>, i: int, guard: nat, k: u32)
    requires
        0 <= i < cs.len(),
        forall|j: int| 0 <= j < cs.len() ==> (#[trigger] cs[j]) < w.fat.len(),
        forall|j: int|
            0 <= j < cs.len() - 1 ==> next_of(w, #[trigger] cs[j]) == Some(cs[j + 1]),
        next_of(w, cs.last()) == Some(EOF_MARK),
        on_chain(w, cs[i], guard, k),
    ensures
        cs.contains(k),
    decreases cs.len() - i,
{
    if cs[i] == k {
        assert(cs.contains(k));
    } else if i < cs.len() - 1 {
        lemma_data_chain(w, cs, i + 1, guard + 1, k);
    }
}

/// How the FAT of `w` comes from that of `y`: a cluster was appended to the
/// chain of `q`, or none.
spec fn fat_after(y: Volume, w: Volume, appended: bool, last: u32, c: u32) -> bool {
    if appended {
        &&& is_free(y, c)
        &&& c != last
        &&& w.fat == y.fat.update(c as int, EOF_MARK).update(last as int, c)
        &&& readable(w, c)
    } else {
        w.fat == y.fat
    }
}

/// The chain of the directory `q` once a file's data was stored and its
/// entry put in.
#[verifier::spinoff_prover]
proof fn lemma_dir_chain_after(t: Volume, y: Volume, w: Volume, q: u32, appended: bool, c: u32)
    requires
        t.fat.len() <= 0x0FFF_FFFF,
        chain_intact(t, q, 0),
        used_untouched(t, y),
        same_frame(t, w),
        fat_after(y, w, appended, chain_end(t, q, 0)->0, c),
    ensures
        forall|k: u32| #[trigger] is_free(w, k) ==> is_free(t, k),
        forall|k: u32|
            #[trigger] on_chain(w, q, 0, k) ==> on_chain(t, q, 0, k) || (appended && k == c),
        chain_intact(t, q, 1) ==> chain_intact(w, q, 0),
{
    lemma_chain_end(t, q, 0);
    let last = chain_end(t, q, 0)->0;
    assert forall|k: u32| #[trigger] on_chain(t, q, 0, k) implies k < t.fat.len() && y.fat[k as int]
        == t.fat[k as int] by {
        assert(!is_free(t, k));
        assert(2 <= k < t.fat.len());
    }
    assert forall|k: u32| #[trigger] is_free(w, k) implies is_free(t, k) by {
        assert(is_free(y, k));
    }
    if !appended {
        assert forall|k: u32| #[trigger] on_chain(t, q, 0, k) implies next_of(w, k) == next_of(
            t,
            k,
        ) by {}
        lemma_chain_stays(t, w, q, 0);
    } else {
        assert(is_free(t, c));
        assert forall|k: u32| #[trigger] on_chain(t, q, 0, k) && k != last implies next_of(w, k)
            == next_of(t, k) by {
            assert(!is_free(t, k));
            assert(k != c);
        }
        assert(c < EOF_MARK) by {
            assert(c < t.fat.len());
        }
        lemma_chain_extended(t, w, q, 0, last, c);
    }
}

/// The chain of the data that was stored.
#[verifier::spinoff_prover]
proof fn lemma_data_chain_after(
    t: Volume,
    w: Volume,
    q: u32,
    content: Seq<u8>,
    appended: bool,
    c: u32,
)
    requires
        sound(t),
        t.fat.len() <= 0x0FFF_FFFF,
        chain_intact(t, q, 0),
        content.len() > 0,
        stored(t, content).0 is Ok,
        same_frame(t, w),
        fat_after(stored(t, content).1, w, appended, chain_end(t, q, 0)->0, c),
        forall|k: u32|
            #[trigger] on_chain(w, q, 0, k) ==> on_chain(t, q, 0, k) || (appended && k == c),
    ensures
        forall|k: u32| #[trigger]
            on_chain(w, stored(t, content).0->Ok_0, 0, k) ==> is_free(t, k) && !is_free(w, k)
                && !on_chain(w, q, 0, k),
{
    let y = stored(t, content).1;
    let first = stored(t, content).0->Ok_0;
    lemma_chain_end(t, q, 0);
    let last = chain_end(t, q, 0)->0;
    let cs = lemma_stored(t, content);
    assert forall|j: int| 0 <= j < cs.len() implies (#[trigger] cs[j]) < w.fat.len()
        && w.fat[cs[j] as int] == y.fat[cs[j] as int] && !is_free(w, cs[j]) && is_free(t, cs[j])
        && !(appended && cs[j] == c) by {
        assert(is_free(t, cs[j]));
        assert(!is_free(y, cs[j]));
        assert(cs[j] != last);
    }
    assert forall|j: int| 0 <= j < cs.len() - 1 implies next_of(w, #[trigger] cs[j]) == Some(
        cs[j + 1],
    ) by {
        assert(is_free(t, cs[j + 1]));
        assert(y.fat[cs[j] as int] == cs[j + 1]);
    }
    assert forall|k: u32| #[trigger] on_chain(w, first, 0, k) implies is_free(t, k) && !is_free(
        w,
        k,
    ) && !on_chain(w, q, 0, k) by {
        lemma_data_chain(w, cs, 0, 0, k);
        let j = choose|j: int| 0 <= j < cs.len() && cs[j] == k;
        assert(is_free(t, cs[j]));
        if on_chain(w, q, 0, k) {
            if on_chain(t, q, 0, k) {
                lemma_on_intact_chain(t, q, 0, k);
            }
        }
    }
}

/// What adding a file to the directory `q` does to the chains of the volume.
#[verifier::spinoff_prover]
#[verifier::rlimit(40)]
proof fn lemma_added_chains(
    a: Volume,
    q: u32,
    name: Seq<char>,
    content: Seq<u8>,
    now: DateTime,
)
    requires
        sound(a),
        a.fat_count >= 1,
        a.fat.len() <= 0x0FFF_FFFF,
        content.len() <= 0xFFFF_FFFF,
        valid_name(name),
        storable(name),
        has_place(a, q, name),
        file_added(a, q, name, content, now).0 is Ok,
    ensures
        ({
            let w = file_added(a, q, name, content, now).1;
            let first = first_of(a, q, name, content);
            &&& sound(w)
            &&& same_frame(a, w)
            &&& rest_untouched(a, a, w, q)
            &&& forall|k: u32| #[trigger] is_free(w, k) ==> is_free(a, k)
            &&& forall|k: u32|
                #[trigger] on_chain(w, q, 0, k) ==> on_chain(a, q, 0, k) || is_free(a, k)
            &&& chain_intact(a, q, 1) ==> chain_intact(w, q, 0)
            &&& content.len() > 0 ==> forall|k: u32| #[trigger]
                on_chain(w, first, 0, k) ==> is_free(a, k) && !is_free(w, k) && !on_chain(
                    w,
                    q,
                    0,
                    k,
                )
        }),
{
    let n = slots_for(name);
    let t = dir_opened(a, q, n, 0).1;
    let w = file_added(a, q, name, content, now).1;
    lemma_dir_opened(a, q, n, 0);
    lemma_opened_intact(a, t, q, 0);
    lemma_place_in_sight(a, q, name);
    assert(w == file_put(t, q, name, content, now).1);
    let y = stored(t, content).1;
    let first = stored(t, content).0->Ok_0;
    let size = content.len() as u32;
    let slots = entry_slots(name, false, now, first, size);
    lemma_encoded_len(name);
    lemma_lfn_slots(name_units(name), lfn_count(name.len()), short_checksum(short_name(name)));
    assert(slots.len() == n);
    lemma_stored_untouched(t, content);
    assert(entered(y, q, name, first, size, false, now).0 is Ok);
    lemma_slots_entered(t, y, q, slots);
    let (c, o) = entry_place(y, q, n);
    let run = dir_run(t, q, n, 0)->Ok_0;
    lemma_rest_untouched(t, y, w, q, c, o, slots, run);
    assert(same_frame(t, w) && same_frame(a, w));
    assert(sound(w));
    assert(rest_untouched(a, a, a, q)) by {
        assert forall|k: u32| k >= 2 && !is_free(a, k) && !on_chain(a, q, 0, k) implies #[trigger] untouched(
            a,
            a,
            k,
        ) by {}
    }
    lemma_rest_behind_opening(a, a, t, w, q);
    assert(rest_untouched(a, a, w, q)) by {
        assert forall|k: u32| k >= 2 && !is_free(a, k) && !on_chain(a, q, 0, k) implies #[trigger] untouched(
            a,
            w,
            k,
        ) by {
            lemma_same_fat_chain(a, t, q, 0, k);
            assert(!is_free(t, k));
        }
    }
    lemma_keeps_intact(t, y, q, 0);
    lemma_dir_run_same(t, y, q, n, 0);
    lemma_place(y, q, n);
    lemma_chain_end(t, q, 0);
    let last = chain_end(t, q, 0)->0;
    let appended = run is None;
    assert(fat_after(y, w, appended, last, c));
    lemma_dir_chain_after(t, y, w, q, appended, c);
    if content.len() > 0 {
        lemma_data_chain_after(t, w, q, content, appended, c);
    }
    if chain_intact(a, q, 1) {
        lemma_opened_intact(a, t, q, 1);
    }
    assert forall|k: u32| #[trigger] is_free(w, k) implies is_free(a, k) by {
        assert(is_free(t, k));
    }
    assert forall|k: u32| #[trigger] on_chain(w, q, 0, k) implies on_chain(a, q, 0, k) || is_free(
        a,
        k,
    ) by {
        lemma_same_fat_chain(a, t, q, 0, k);
        if appended && k == c {
            assert(is_free(t, c));
        }
    }
    assert(content.len() > 0 ==> forall|k: u32| #[trigger]
        on_chain(w, first, 0, k) ==> is_free(a, k) && !is_free(w, k) && !on_chain(w, q, 0, k)) by {
        assert forall|k: u32| content.len() > 0 && #[trigger] on_chain(w, first, 0, k) implies is_free(
            a,
            k,
        ) && !is_free(w, k) && !on_chain(w, q, 0, k) by {
            assert(is_free(t, k));
        }
    }
}

/// What was clean stays clean when a file is added to `q`.
#[verifier::spinoff_prover]
proof fn lemma_clean_after_add(a: Volume, w: Volume, q: u32, heads: Seq<u32>)
    requires
        clean(a, heads, 1),
        heads.contains(q),
        same_frame(a, w),
        rest_untouched(a, a, w, q),
        forall|k: u32| #[trigger] on_chain(w, q, 0, k) ==> on_chain(a, q, 0, k) || is_free(a, k),
        chain_intact(w, q, 0),
    ensures
        clean(w, heads, 0),
        forall|i: int, k: u32|
            #![trigger on_chain(w, heads[i], 0, k)]
            0 <= i < heads.len() && on_chain(w, heads[i], 0, k) ==> on_chain(a, heads[i], 0, k) || (
            heads[i] == q && is_free(a, k)),
{
    assert forall|i: int| 0 <= i < heads.len() implies chain_intact(w, #[trigger] heads[i], 0)
        && forall|k: u32| #[trigger] on_chain(w, heads[i], 0, k) ==> on_chain(a, heads[i], 0, k)
        || (heads[i] == q && is_free(a, k)) by {
        let h = heads[i];
        if h != q {
            assert(heads.contains(h));
            lemma_clean_apart(a, heads, 1, h, q);
            assert forall|k: u32| #[trigger] on_chain(a, h, 0, k) implies next_of(w, k) == next_of(
                a,
                k,
            ) by {
                lemma_chain_end(a, h, 0);
                assert(untouched(a, w, k));
            }
            lemma_chain_stays(a, w, h, 0);
        }
    }
    assert forall|i: int, j: int, k: u32|
        #![trigger on_chain(w, heads[i], 0, k), on_chain(w, heads[j], 0, k)]
        0 <= i < heads.len() && 0 <= j < heads.len() && on_chain(w, heads[i], 0, k) && on_chain(
            w,
            heads[j],
            0,
            k,
        ) implies heads[i] == heads[j] by {
        assert(chain_intact(w, heads[i], 0) && chain_intact(w, heads[j], 0));
        assert(chain_intact(a, heads[i], 1) && chain_intact(a, heads[j], 1));
        lemma_intact_lower(a, heads[i], 1, 0);
        lemma_intact_lower(a, heads[j], 1, 0);
        if on_chain(a, heads[i], 0, k) {
            lemma_on_intact_chain(a, heads[i], 0, k);
        }
        if on_chain(a, heads[j], 0, k) {
            lemma_on_intact_chain(a, heads[j], 0, k);
        }
    }
}

/// Whether the data of an entry shares no cluster with these chains.
pub open spec fn data_beside(v: Volume, e: Entry, heads: Seq<u32>) -> bool {
    e.first_cluster != 0 ==> forall|i: int, k: u32|
        #![trigger on_chain(v, heads[i], 0, k)]
        0 <= i < heads.len() && on_chain(v, heads[i], 0, k) ==> !on_chain(
            v,
            e.first_cluster,
            0,
            k,
        )
}

/// What is clean and apart from an entry's data stays so when the entry is
/// dropped.
proof fn lemma_drop_clean(v: Volume, e: Entry, heads: Seq<u32>, g: nat)
    requires
        sound(v),
        dropped(v, e).0 is Ok,
        data_intact(v, e),
        clean(v, heads, g),
        data_beside(v, e, heads),
    ensures
        same_frame(v, dropped(v, e).1),
        clean(dropped(v, e).1, heads, g),
        forall|i: int, k: u32|
            #![trigger on_chain(dropped(v, e).1, heads[i], 0, k)]
            0 <= i < heads.len() ==> on_chain(dropped(v, e).1, heads[i], 0, k) == on_chain(
                v,
                heads[i],
                0,
                k,
            ),
{
    let u = dropped(v, e).1;
    lemma_freed_frame_of(v, e);
    assert forall|i: int, k: u32|
        #![trigger on_chain(v, heads[i], 0, k)]
        0 <= i < heads.len() && on_chain(v, heads[i], 0, k) implies next_of(u, k) == next_of(v, k) by {
        assert(chain_intact(v, heads[i], g));
        lemma_intact_lower(v, heads[i], g, 0);
        lemma_chain_end(v, heads[i], 0);
        lemma_dropped_only(v, e, k);
    }
    lemma_clean_stays(v, u, heads, g);
}

/// Dropping an entry changes the FAT on the chain of its data alone.
proof fn lemma_dropped_only(v: Volume, e: Entry, k: u32)
    requires
        sound(v),
        dropped(v, e).0 is Ok,
        data_intact(v, e),
        e.first_cluster == 0 || !on_chain(v, e.first_cluster, 0, k),
        k < v.fat.len(),
    ensures
        dropped(v, e).1.fat[k as int] == v.fat[k as int],
{
    let d = entry_deleted(v, e.cluster, e.offset).1;
    if e.first_cluster != 0 {
        assert(d.drive.media.len() == v.drive.media.len());
        assert(same_frame(v, d));
        lemma_intact_frame(v, d, e.first_cluster, 0);
        lemma_same_fat_chain(v, d, e.first_cluster, 0, k);
        lemma_freed_only(d, e.first_cluster, 0, k);
    }
}

// ---------------------------------------------------------------------
// What dropping an entry leaves alone
// ---------------------------------------------------------------------

/// Flushing the FAT does not change what directories list.
proof fn lemma_flush_lists(u: Volume, c: u32, guard: nat, p: Scan)
    requires
        sound(u),
        u.fat_count >= 1,
    ensures
        scanned(flushed(u, 0).1, c, guard, p) == scanned(u, c, guard, p),
    decreases 1_000_001 - guard,
{
    let w = flushed(u, 0).1;
    if c >= 2 && guard <= 1_000_000 {
        lemma_flush_untouched(u, c);
        lemma_after_sectors_same(u, w, c, p, u.spc);
        if let Ok(q) = after_sectors(u, c, p, u.spc) {
            if let Some(n) = next_of(u, c) {
                if !q.ended && n < EOF_MARK {
                    lemma_flush_lists(u, n, guard + 1, q);
                }
            }
        }
    }
}

/// A directory without an entry that was dropped from it.
proof fn lemma_dropped_lists(v: Volume, parent: u32, name: Seq<char>)
    requires
        sound(v),
        v.fat_count >= 1,
        entry_in(v, parent, name) is Some,
        dropped(v, entry_in(v, parent, name)->0).0 is Ok,
        chain_intact(dropped(v, entry_in(v, parent, name)->0).1, parent, 0),
    ensures
        ({
            let e = entry_in(v, parent, name)->0;
            let u = dropped(v, e).1;
            let left = Ok::<Seq<Entry>, FatError>(
                without(listing(v, parent)->Ok_0, e.cluster, e.offset),
            );
            &&& same_frame(v, u)
            &&& listing(u, parent) == left
            &&& listing(flushed(u, 0).1, parent) == left
        }),
{
    let e = entry_in(v, parent, name)->0;
    let es = listing(v, parent)->Ok_0;
    let u = dropped(v, e).1;
    let w = flushed(u, 0).1;
    let (pc, o) = (e.cluster, e.offset);
    lemma_found_stands(v, parent, name);
    lemma_drop_keeps_chain(v, e, parent);
    assert(!none_at(es, pc, o)) by {
        lemma_lookup_place(es, name, Want::Any, 0);
        assert(stands_at(es[first_wanted(es, name, Want::Any, 0)], pc, o));
    }
    assert(none_at(no_scan().out, pc, o));
    lemma_met_is_on_chain(v, parent, 0, no_scan(), pc, o);
    lemma_listed_is_met(v, parent, 0, no_scan(), pc, o);
    lemma_entry_gone(v, e, parent);
    assert(without(no_scan().out, pc, o) =~= no_scan().out);
    lemma_scan_goes_without(v, w, parent, 0, no_scan(), no_scan(), pc, o, false);
    lemma_flush_lists(u, parent, 0, no_scan());
}

/// Dropping a file from a directory changes no directory in it.
proof fn lemma_dropped_dirs(v: Volume, parent: u32, name: Seq<char>)
    requires
        chain_intact(v, parent, 0),
        entry_in(v, parent, name) matches Some(e) && !e.is_dir,
    ensures
        ({
            let e = entry_in(v, parent, name)->0;
            let es = listing(v, parent)->Ok_0;
            same_dirs(es, without(es, e.cluster, e.offset))
        }),
{
    let e = entry_in(v, parent, name)->0;
    let es = listing(v, parent)->Ok_0;
    lemma_found_is_listed(es, name, Want::Any);
    assert forall|nm: Seq<char>| #[trigger]
        lookup(without(es, e.cluster, e.offset), nm, Want::Dir) == lookup(es, nm, Want::Dir) by {
        if let Some(g) = lookup(es, nm, Want::Dir) {
            lemma_found_is_listed(es, nm, Want::Dir);
            if stands_at(g, e.cluster, e.offset) {
                lemma_one_to_a_place(v, parent, g, e);
            }
        }
        lemma_lookup_without(es, nm, Want::Dir, e.cluster, e.offset);
    }
}

/// Whether a file is found at a path: where, and by which entry.
pub open spec fn file_is(v: Volume, path: Seq<char>, p: u32, m: Seq<char>, e: Entry) -> bool {
    &&& parent_of(v, path) == Ok::<(u32, Seq<char>), FatError>((p, m))
    &&& listing(v, p) is Ok
    &&& entry_in(v, p, m) == Some(e)
    &&& !e.is_dir
}

/// The first entry of a name, if it is a file, is the first file of it.
proof fn lemma_any_is_file(es: Seq<Entry>, name: Seq<char>, i: int)
    requires
        0 <= i,
        first_wanted(es, name, Want::Any, i) < es.len(),
        !es[first_wanted(es, name, Want::Any, i)].is_dir,
    ensures
        first_wanted(es, name, Want::File, i) == first_wanted(es, name, Want::Any, i),
    decreases es.len() - i,
{
    if !is_wanted(es[i], name, Want::Any) {
        lemma_any_is_file(es, name, i + 1);
    }
}

proof fn lemma_file_found(v: Volume, path: Seq<char>, p: u32, m: Seq<char>, e: Entry)
    requires
        file_is(v, path, p, m, e),
    ensures
        lookup(listing(v, p)->Ok_0, m, Want::File) == Some(e),
        file_at(v, path) == file_data(v, e.first_cluster, e.size as nat),
        listing(v, p)->Ok_0.contains(e),
        same_name(e.name, m),
{
    let es = listing(v, p)->Ok_0;
    lemma_any_is_file(es, m, 0);
    lemma_found_is_listed(es, m, Want::Any);
}

/// Whether no other entry of a listing has the name.
pub open spec fn only_named(es: Seq<Entry>, name: Seq<char>, e: Entry) -> bool {
    forall|i: int|
        0 <= i < es.len() && same_name((#[trigger] es[i]).name, name) ==> stands_at(
            es[i],
            e.cluster,
            e.offset,
        )
}

/// Dropping a file from `q` leaves a file elsewhere where and as it is.
#[verifier::spinoff_prover]
proof fn lemma_drop_leaves(
    v: Volume,
    q: u32,
    name: Seq<char>,
    heads: Seq<u32>,
    path: Seq<char>,
    p: u32,
    m: Seq<char>,
    e: Entry,
)
    requires
        sound(v),
        v.fat_count >= 1,
        entry_in(v, q, name) matches Some(f) && !f.is_dir && data_intact(v, f),
        dropped(v, entry_in(v, q, name)->0).0 is Ok,
        clean(v, heads, 1),
        data_beside(v, entry_in(v, q, name)->0, heads),
        heads.contains(q),
        forall|i: int| 0 <= i < way(v, v.root, components(path).drop_last()).len()
            ==> heads.contains(#[trigger] way(v, v.root, components(path).drop_last())[i]),
        file_is(v, path, p, m, e),
        !(p == q && same_name(m, name)),
        e.first_cluster != 0 ==> heads.contains(e.first_cluster) && e.first_cluster != q,
    ensures
        ({
            let a = dropped(v, entry_in(v, q, name)->0).1;
            &&& sound(a)
            &&& same_frame(v, a)
            &&& clean(a, heads, 1)
            &&& file_is(a, path, p, m, e)
            &&& file_at(a, path) == file_at(v, path)
            &&& way(a, a.root, components(path).drop_last()) == way(
                v,
                v.root,
                components(path).drop_last(),
            )
            &&& only_named(listing(v, p)->Ok_0, m, e) ==> only_named(listing(a, p)->Ok_0, m, e)
        }),
{
    let f = entry_in(v, q, name)->0;
    let a = dropped(v, f).1;
    let comps = components(path).drop_last();
    lemma_drop_clean(v, f, heads, 1);
    lemma_clean_holds(a, heads, 1, q);
    lemma_clean_holds(v, heads, 1, q);
    lemma_dropped_lists(v, q, name);
    lemma_dropped_dirs(v, q, name);
    lemma_found_stands(v, q, name);
    lemma_dropped_untouched(v, f, q);
    lemma_way_beside(v, a, v.root, comps, q, heads, 1);
    lemma_walk_beside(a, v, a, q, v.root, comps);
    lemma_way_ends(v, v.root, comps);
    let all = way(v, v.root, comps);
    assert(all[all.len() - 1] == p);
    assert(heads.contains(p));
    lemma_file_found(v, path, p, m, e);
    let es = listing(v, p)->Ok_0;
    let fs = listing(v, q)->Ok_0;
    lemma_found_is_listed(fs, name, Want::Any);
    if p == q {
        assert(!stands_at(e, f.cluster, f.offset)) by {
            if stands_at(e, f.cluster, f.offset) {
                lemma_one_to_a_place(v, q, e, f);
                law_same_name_is_equivalence(e.name, m, e.name);
                law_same_name_is_equivalence(m, e.name, name);
            }
        }
        lemma_lookup_without(es, m, Want::Any, f.cluster, f.offset);
        lemma_lookup_without(es, m, Want::File, f.cluster, f.offset);
    } else {
        lemma_clean_apart(a, heads, 1, p, q);
        lemma_scan_agrees(a, v, a, q, p, 0, no_scan());
    }
    if e.first_cluster != 0 {
        lemma_clean_apart(a, heads, 1, e.first_cluster, q);
        lemma_data_agrees(a, v, a, q, e.first_cluster, Seq::empty(), e.size as nat, 0);
    }
    assert(parent_of(a, path) == parent_of(v, path));
    lemma_file_found(a, path, p, m, e);
    if only_named(es, m, e) && p == q {
        let left = listing(a, p)->Ok_0;
        assert forall|i: int| 0 <= i < left.len() && same_name(
            (#[trigger] left[i]).name,
            m,
        ) implies stands_at(left[i], e.cluster, e.offset) by {
            lemma_without_holds(es, f.cluster, f.offset, i);
            let j = choose|j: int| 0 <= j < es.len() && es[j] == left[i];
            assert(es[j] == left[i]);
        }
    }
}

proof fn lemma_clean_holds(v: Volume, heads: Seq<u32>, g: nat, h: u32)
    requires
        clean(v, heads, g),
        heads.contains(h),
    ensures
        chain_intact(v, h, g),
        chain_intact(v, h, 0),
{
    let i = choose|i: int| 0 <= i < heads.len() && heads[i] == h;
    assert(chain_intact(v, heads[i], g));
    lemma_intact_lower(v, h, g, 0);
}

/// Adding a file to `q` leaves a file elsewhere where and as it is.
#[verifier::spinoff_prover]
#[verifier::rlimit(40)]
proof fn lemma_add_leaves(
    a: Volume,
    q: u32,
    name: Seq<char>,
    content: Seq<u8>,
    now: DateTime,
    heads: Seq<u32>,
    path: Seq<char>,
    p: u32,
    m: Seq<char>,
    e: Entry,
)
    requires
        sound(a),
        a.fat_count >= 1,
        a.fat.len() <= 0x0FFF_FFFF,
        content.len() <= 0xFFFF_FFFF,
        valid_name(name),
        storable(name),
        has_place(a, q, name),
        file_added(a, q, name, content, now).0 is Ok,
        clean(a, heads, 1),
        heads.contains(q),
        forall|i: int| 0 <= i < way(a, a.root, components(path).drop_last()).len()
            ==> heads.contains(#[trigger] way(a, a.root, components(path).drop_last())[i]),
        file_is(a, path, p, m, e),
        e.first_cluster != 0 ==> heads.contains(e.first_cluster) && e.first_cluster != q,
        !(p == q && same_name(m, name)),
    ensures
        ({
            let w = file_added(a, q, name, content, now).1;
            &&& sound(w)
            &&& same_frame(a, w)
            &&& clean(w, heads, 0)
            &&& file_is(w, path, p, m, e)
            &&& file_at(w, path) == file_at(a, path)
            &&& way(w, w.root, components(path).drop_last()) == way(
                a,
                a.root,
                components(path).drop_last(),
            )
            &&& only_named(listing(a, p)->Ok_0, m, e) ==> only_named(listing(w, p)->Ok_0, m, e)
        }),
{
    let w = file_added(a, q, name, content, now).1;
    let comps = components(path).drop_last();
    let first = first_of(a, q, name, content);
    lemma_clean_holds(a, heads, 1, q);
    lemma_added_chains(a, q, name, content, now);
    lemma_clean_after_add(a, w, q, heads);
    lemma_put_lists(a, q, name, content, now);
    let before = listing(a, q)->Ok_0;
    let after = listing(w, q)->Ok_0;
    let (k, x) = choose|k: int, x: Entry|
        #![trigger with_new(before, k, x)]
        0 <= k <= before.len() && after == with_new(before, k, x) && is_file(
            x,
            name,
            content.len() as int,
            first,
        );
    assert(same_dirs(before, after)) by {
        assert forall|nm: Seq<char>| #[trigger] lookup(after, nm, Want::Dir) == lookup(
            before,
            nm,
            Want::Dir,
        ) by {
            lemma_lookup_with_new(before, k, x, nm, Want::Dir);
        }
    }
    lemma_way_beside(a, a, a.root, comps, q, heads, 1);
    lemma_walk_beside(a, a, w, q, a.root, comps);
    lemma_way_ends(a, a.root, comps);
    let all = way(a, a.root, comps);
    assert(all[all.len() - 1] == p);
    assert(heads.contains(p));
    lemma_file_found(a, path, p, m, e);
    if p == q {
        assert(!same_name(name, m)) by {
            law_same_name_is_equivalence(name, m, name);
        }
        lemma_lookup_with_new(before, k, x, m, Want::Any);
        lemma_lookup_with_new(before, k, x, m, Want::File);
    } else {
        lemma_clean_apart(a, heads, 1, p, q);
        lemma_scan_agrees(a, a, w, q, p, 0, no_scan());
    }
    if e.first_cluster != 0 {
        lemma_clean_apart(a, heads, 1, e.first_cluster, q);
        lemma_data_agrees(a, a, w, q, e.first_cluster, Seq::empty(), e.size as nat, 0);
    }
    assert(parent_of(w, path) == parent_of(a, path));
    lemma_file_found(w, path, p, m, e);
    if only_named(listing(a, p)->Ok_0, m, e) && p == q {
        assert forall|i: int| 0 <= i < after.len() && same_name(
            (#[trigger] after[i]).name,
            m,
        ) implies stands_at(after[i], e.cluster, e.offset) by {
            if i < k {
                assert(after[i] == before[i]);
            } else if i == k {
                assert(after[i] == x);
            } else {
                assert(after[i] == before[i - 1]);
            }
        }
    }
}

/// A way apart from the directory that was changed is the same.
proof fn lemma_way_agrees(
    u: Volume,
    v: Volume,
    w: Volume,
    q: u32,
    c: u32,
    comps: Seq<Seq<char>>,
)
    requires
        same_frame(v, w),
        way_apart(v, u, c, comps, q),
        rest_untouched(u, v, w, q),
    ensures
        way(w, c, comps) == way(v, c, comps),
    decreases comps.len(),
{
    if comps.len() > 0 {
        lemma_scan_agrees(u, v, w, q, c, 0, no_scan());
        if let Ok(es) = listing(v, c) {
            if let Some(e) = lookup(es, comps[0], Want::Dir) {
                lemma_way_agrees(u, v, w, q, e.first_cluster, comps.skip(1));
            }
        }
    }
}

// ---------------------------------------------------------------------
// Writing
// ---------------------------------------------------------------------

/// The directories on the ways to two paths.
pub open spec fn dirs_of(v: Volume, a: Seq<char>, b: Seq<char>) -> Seq<u32> {
    way(v, v.root, components(a).drop_last()) + way(v, v.root, components(b).drop_last())
}

/// Those, and the first cluster of a file if it has one.
pub open spec fn with_data(dirs: Seq<u32>, e: Entry) -> Seq<u32> {
    if e.first_cluster == 0 {
        dirs
    } else {
        dirs.push(e.first_cluster)
    }
}

/// Whether the file at `other` is clear of what is written or removed at
/// `path`: the directories on the ways to both, the data of the file, and
/// the data of what is at `path`, are intact, and no two of them share a
/// cluster.
pub open spec fn clear_of(v: Volume, path: Seq<char>, other: Seq<char>) -> bool {
    let (q, n) = parent_of(v, path)->Ok_0;
    let (p, m) = parent_of(v, other)->Ok_0;
    let e = entry_in(v, p, m)->0;
    let dirs = dirs_of(v, path, other);
    &&& parent_of(v, path) is Ok
    &&& file_is(v, other, p, m, e)
    &&& !one_place(v, path, other)
    &&& clean(v, with_data(dirs, e), 1)
    &&& e.first_cluster != 0 ==> !dirs.contains(e.first_cluster)
    &&& entry_in(v, q, n) matches Some(f) ==> data_intact(v, f) && data_beside(
        v,
        f,
        with_data(dirs, e),
    )
}

/// What writing one file leaves of another.
#[verifier::spinoff_prover]
#[verifier::rlimit(40)]
proof fn lemma_write_leaves(
    v: Volume,
    path: Seq<char>,
    content: Seq<u8>,
    now: DateTime,
    other: Seq<char>,
    p: u32,
    m: Seq<char>,
    e: Entry,
)
    requires
        can_keep(v, path, content.len()),
        file_written(v, path, content, now).0 is Ok,
        clear_of(v, path, other),
        file_is(v, other, p, m, e),
    ensures
        ({
            let w = file_written(v, path, content, now).1;
            let a = made_ready(v, path);
            let heads = with_data(dirs_of(v, path, other), e);
            &&& sound(w)
            &&& same_frame(v, w)
            &&& sound(a)
            &&& clean(a, heads, 1)
            &&& clean(w, heads, 0)
            &&& file_is(w, other, p, m, e)
            &&& file_at(w, other) == file_at(v, other)
            &&& parent_of(w, path) == parent_of(v, path)
            &&& way(w, w.root, components(path).drop_last()) == way(
                v,
                v.root,
                components(path).drop_last(),
            )
            &&& way(w, w.root, components(other).drop_last()) == way(
                v,
                v.root,
                components(other).drop_last(),
            )
            &&& only_named(listing(v, p)->Ok_0, m, e) ==> only_named(listing(w, p)->Ok_0, m, e)
        }),
{
    let (q, n) = parent_of(v, path)->Ok_0;
    let a = made_ready(v, path);
    let w = file_written(v, path, content, now).1;
    let dirs = dirs_of(v, path, other);
    let heads = with_data(dirs, e);
    let here = way(v, v.root, components(path).drop_last());
    let there = way(v, v.root, components(other).drop_last());
    lemma_ready_sound(v, path);
    assert(file_written(v, path, content, now) == file_added(a, q, n, content, now));
    assert forall|i: int| 0 <= i < here.len() implies heads.contains(#[trigger] here[i]) by {
        assert(heads[i] == here[i]);
    }
    assert forall|i: int| 0 <= i < there.len() implies heads.contains(#[trigger] there[i]) by {
        assert(heads[here.len() + i] == there[i]);
    }
    lemma_way_ends(v, v.root, components(path).drop_last());
    assert(here[here.len() - 1] == q);
    assert(heads.contains(q));
    assert(dirs.contains(q)) by {
        assert(dirs[here.len() - 1] == q);
    }
    if e.first_cluster != 0 {
        assert(heads[dirs.len() as int] == e.first_cluster);
        assert(heads.contains(e.first_cluster));
    }
    assert(!(p == q && same_name(m, n))) by {
        law_same_name_is_equivalence(m, n, m);
    }
    if let Some(f) = entry_in(v, q, n) {
        lemma_drop_leaves(v, q, n, heads, other, p, m, e);
        lemma_found_stands(v, q, n);
        lemma_clean_holds(a, heads, 1, q);
        lemma_dropped_untouched(v, f, q);
    } else {
        assert(a == v);
        assert forall|k: u32| k >= 2 && !is_free(a, k) && !on_chain(a, q, 0, k) implies #[trigger] untouched(
            v,
            a,
            k,
        ) by {}
    }
    assert(rest_untouched(a, v, a, q));
    lemma_way_agrees(a, v, a, q, v.root, components(path).drop_last());
    lemma_add_leaves(a, q, n, content, now, heads, other, p, m, e);
    lemma_clean_holds(a, heads, 1, q);
    lemma_added_chains(a, q, n, content, now);
    assert(rest_untouched(a, v, w, q)) by {
        assert forall|k: u32| k >= 2 && !is_free(a, k) && !on_chain(a, q, 0, k) implies #[trigger] untouched(
            v,
            w,
            k,
        ) && next_of(v, k) == next_of(a, k) by {
            assert(untouched(v, a, k));
            assert(untouched(a, w, k));
            lemma_untouched_trans(v, a, w, k);
        }
    }
    lemma_way_agrees(a, v, w, q, v.root, components(path).drop_last());
    lemma_walk_agrees(a, v, w, q, v.root, components(path).drop_last());
}

/// Writing one file leaves the contents of the others.
pub proof fn law_writing_leaves_others(
    v: Volume,
    path: Seq<char>,
    content: Seq<u8>,
    now: DateTime,
    other: Seq<char>,
)
    requires
        can_keep(v, path, content.len()),
        file_written(v, path, content, now).0 is Ok,
        clear_of(v, path, other),
    ensures
        file_at(file_written(v, path, content, now).1, other) == file_at(v, other),
{
    let (p, m) = parent_of(v, other)->Ok_0;
    lemma_write_leaves(v, path, content, now, other, p, m, entry_in(v, p, m)->0);
}

// ---------------------------------------------------------------------
// Removing a file
// ---------------------------------------------------------------------

/// Whether the data of a file is in use, and shares no cluster with the
/// directory `p` and the data of `e`.
pub open spec fn data_aside(v: Volume, f: Entry, p: u32, e: Entry) -> bool {
    f.first_cluster != 0 ==> forall|k: u32| #[trigger]
        on_chain(v, f.first_cluster, 0, k) ==> k < v.fat.len() && !is_free(v, k) && !on_chain(
            v,
            p,
            0,
            k,
        ) && (e.first_cluster != 0 ==> !on_chain(v, e.first_cluster, 0, k))
}

/// Data that is aside is apart from the directory once the entry is dropped.
proof fn lemma_data_stays_aside(v: Volume, f: Entry, p: u32, e: Entry, dirs: Seq<u32>)
    requires
        sound(v),
        dropped(v, e).0 is Ok,
        data_intact(v, e),
        clean(v, dirs, 0),
        data_beside(v, e, dirs),
        dirs.contains(p),
        data_aside(v, f, p, e),
        f.first_cluster != 0,
    ensures
        apart(dropped(v, e).1, f.first_cluster, 0, p),
{
    let u = dropped(v, e).1;
    let c = f.first_cluster;
    lemma_drop_clean(v, e, dirs, 0);
    let i = choose|i: int| 0 <= i < dirs.len() && dirs[i] == p;
    assert forall|k: u32| #[trigger] on_chain(v, c, 0, k) implies next_of(u, k) == next_of(v, k) by {
        lemma_dropped_only(v, e, k);
    }
    lemma_chain_stays(v, u, c, 0);
    assert forall|k: u32| #[trigger] on_chain(u, c, 0, k) implies !is_free(u, k) && !on_chain(
        u,
        p,
        0,
        k,
    ) by {
        assert(on_chain(v, c, 0, k));
        lemma_dropped_only(v, e, k);
        assert(on_chain(u, dirs[i], 0, k) == on_chain(v, dirs[i], 0, k));
    }
    lemma_apart_if(u, c, 0, p);
}

/// Removing a file from `p` leaves another where and as it is.
#[verifier::spinoff_prover]
#[verifier::rlimit(40)]
proof fn lemma_remove_leaves(
    v: Volume,
    path: Seq<char>,
    p: u32,
    m: Seq<char>,
    e: Entry,
    other: Seq<char>,
    q: u32,
    n: Seq<char>,
    f: Entry,
    dirs: Seq<u32>,
)
    requires
        sound(v),
        v.fat_count >= 1,
        file_is(v, path, p, m, e),
        file_is(v, other, q, n, f),
        !(p == q && same_name(m, n)),
        data_intact(v, e),
        clean(v, dirs, 0),
        dirs.contains(p),
        forall|i: int| 0 <= i < way(v, v.root, components(other).drop_last()).len()
            ==> dirs.contains(#[trigger] way(v, v.root, components(other).drop_last())[i]),
        data_beside(v, e, dirs),
        data_aside(v, f, p, e),
        dropped(v, e).0 is Ok,
    ensures
        file_at(flushed(dropped(v, e).1, 0).1, other) == file_at(v, other),
        clean(dropped(v, e).1, dirs, 0),
{
    let u = dropped(v, e).1;
    let w = flushed(u, 0).1;
    let comps = components(other).drop_last();
    let there = way(v, v.root, comps);
    lemma_way_ends(v, v.root, comps);
    assert(there[there.len() - 1] == q);
    assert(dirs.contains(q));
    lemma_drop_clean(v, e, dirs, 0);
    lemma_clean_holds(u, dirs, 0, p);
    lemma_clean_holds(v, dirs, 0, p);
    lemma_found_stands(v, p, m);
    lemma_dropped_lists(v, p, m);
    lemma_dropped_dirs(v, p, m);
    lemma_removed_way(v, e, p);
    lemma_way_beside(v, u, v.root, comps, p, dirs, 0);
    lemma_walk_beside(u, v, w, p, v.root, comps);
    lemma_file_found(v, other, q, n, f);
    lemma_file_found(v, path, p, m, e);
    let es = listing(v, q)->Ok_0;
    if p == q {
        assert(!stands_at(f, e.cluster, e.offset)) by {
            if stands_at(f, e.cluster, e.offset) {
                lemma_one_to_a_place(v, p, f, e);
                law_same_name_is_equivalence(e.name, m, e.name);
                law_same_name_is_equivalence(m, e.name, n);
            }
        }
        lemma_lookup_without(es, n, Want::File, e.cluster, e.offset);
    } else {
        lemma_clean_apart(u, dirs, 0, q, p);
        lemma_scan_agrees(u, v, w, p, q, 0, no_scan());
    }
    if f.first_cluster != 0 {
        lemma_data_stays_aside(v, f, p, e, dirs);
        lemma_data_agrees(u, v, w, p, f.first_cluster, Seq::empty(), f.size as nat, 0);
    }
    assert(parent_of(w, other) == parent_of(v, other));
}

/// Removing one file leaves the contents of the others.
pub proof fn law_removing_a_file_leaves_others(v: Volume, path: Seq<char>, other: Seq<char>)
    requires
        sound(v),
        v.fat_count >= 1,
        ({
            let (p, m) = parent_of(v, path)->Ok_0;
            file_is(v, path, p, m, entry_in(v, p, m)->0)
        }),
        clear_of(v, path, other),
        removed(v, path).0 is Ok,
    ensures
        file_at(removed(v, path).1, other) == file_at(v, other),
{
    let (p, m) = parent_of(v, path)->Ok_0;
    let (q, n) = parent_of(v, other)->Ok_0;
    let (e, f) = (entry_in(v, p, m)->0, entry_in(v, q, n)->0);
    let dirs = dirs_of(v, path, other);
    let heads = with_data(dirs, f);
    assert forall|i: int| 0 <= i < dirs.len() implies heads.contains(#[trigger] dirs[i]) by {
        assert(heads[i] == dirs[i]);
    }
    lemma_clean_part(v, heads, dirs, 1, 0);
    assert(data_beside(v, e, dirs)) by {
        assert forall|i: int, k: u32|
            #![trigger on_chain(v, dirs[i], 0, k)]
            0 <= i < dirs.len() && on_chain(v, dirs[i], 0, k) && e.first_cluster != 0 implies !on_chain(
            v,
            e.first_cluster,
            0,
            k,
        ) by {
            assert(heads[i] == dirs[i]);
            assert(on_chain(v, heads[i], 0, k));
        }
    }
    if f.first_cluster != 0 {
        let last = dirs.len() as int;
        assert(heads[last] == f.first_cluster);
        assert(heads.contains(f.first_cluster));
        lemma_way_ends(v, v.root, components(path).drop_last());
        let here = way(v, v.root, components(path).drop_last());
        assert(dirs[here.len() - 1] == p);
        assert(dirs.contains(p) && heads.contains(p));
        lemma_clean_apart(v, heads, 1, f.first_cluster, p);
        lemma_chain_end(v, f.first_cluster, 0);
        assert forall|k: u32| #[trigger] on_chain(v, f.first_cluster, 0, k) implies k < v.fat.len()
            && !is_free(v, k) && !on_chain(v, p, 0, k) && (e.first_cluster != 0 ==> !on_chain(
            v,
            e.first_cluster,
            0,
            k,
        )) by {
            assert(on_chain(v, heads[last], 0, k));
        }
    }
    let there = way(v, v.root, components(other).drop_last());
    let here = way(v, v.root, components(path).drop_last());
    lemma_way_ends(v, v.root, components(path).drop_last());
    assert(dirs[here.len() - 1] == p);
    assert forall|i: int| 0 <= i < there.len() implies dirs.contains(#[trigger] there[i]) by {
        assert(dirs[here.len() + i] == there[i]);
    }
    lemma_remove_leaves(v, path, p, m, e, other, q, n, f, dirs);
}

// ---------------------------------------------------------------------
// Moving a file
// ---------------------------------------------------------------------

/// Whether the file at `src` can be moved to `dst`: its data can be written
/// there, it is clear of what stood there, its directory is not on the way
/// to itself, and no other entry has its name.
pub open spec fn can_move(v: Volume, src: Seq<char>, dst: Seq<char>) -> bool {
    let (p, m) = parent_of(v, src)->Ok_0;
    let e = entry_in(v, p, m)->0;
    let here = way(v, v.root, components(src).drop_last());
    &&& can_write(v, dst, e.size as nat)
    &&& clear_of(v, dst, src)
    &&& only_named(listing(v, p)->Ok_0, m, e)
    &&& forall|i: int| 0 <= i < here.len() - 1 ==> #[trigger] here[i] != p
}

/// The entry that was added for a file.
proof fn lemma_added_entry(a: Volume, q: u32, n: Seq<char>, content: Seq<u8>, now: DateTime) -> (f:
    Entry)
    requires
        sound(a),
        a.fat_count >= 1,
        a.fat.len() <= 0x0FFF_FFFF,
        content.len() <= 0xFFFF_FFFF,
        valid_name(n),
        storable(n),
        has_place(a, q, n),
        file_added(a, q, n, content, now).0 is Ok,
    ensures
        ({
            let w = file_added(a, q, n, content, now).1;
            &&& listing(w, q) is Ok
            &&& entry_in(w, q, n) == Some(f)
            &&& is_file(f, n, content.len() as int, first_of(a, q, n, content))
        }),
{
    let w = file_added(a, q, n, content, now).1;
    let first = first_of(a, q, n, content);
    lemma_put_lists(a, q, n, content, now);
    let before = listing(a, q)->Ok_0;
    let after = listing(w, q)->Ok_0;
    let (k, x) = choose|k: int, x: Entry|
        #![trigger with_new(before, k, x)]
        0 <= k <= before.len() && after == with_new(before, k, x) && is_file(
            x,
            n,
            content.len() as int,
            first,
        );
    law_same_name_is_equivalence(n, n, n);
    lemma_lookup_new(before, k, x, n);
    x
}

proof fn lemma_lookup_new(es: Seq<Entry>, k: int, e: Entry, name: Seq<char>)
    requires
        0 <= k <= es.len(),
        lookup(es, name, Want::Any) is None,
        is_wanted(e, name, Want::Any),
    ensures
        lookup(with_new(es, k, e), name, Want::Any) == Some(e),
    decreases es.len() - k,
{
    let w = with_new(es, k, e);
    if k == es.len() {
        assert(w =~= es.push(e));
        lemma_lookup_push(es, e, name, Want::Any);
    } else {
        let head = es.drop_last();
        assert(es =~= head.push(es.last()));
        lemma_lookup_push(head, es.last(), name, Want::Any);
        lemma_lookup_new(head, k, e, name);
        assert(w =~= with_new(head, k, e).push(es.last()));
        lemma_lookup_push(with_new(head, k, e), es.last(), name, Want::Any);
    }
}

/// The data of the new file is aside from the file that is moved.
#[verifier::spinoff_prover]
proof fn lemma_new_data_aside(
    a: Volume,
    u: Volume,
    q: u32,
    f: Entry,
    p: u32,
    e: Entry,
    heads: Seq<u32>,
)
    requires
        clean(a, heads, 1),
        clean(u, heads, 0),
        same_frame(a, u),
        heads.contains(p),
        heads.contains(q),
        e.first_cluster != 0 ==> heads.contains(e.first_cluster) && e.first_cluster != q,
        forall|i: int, k: u32|
            #![trigger on_chain(u, heads[i], 0, k)]
            0 <= i < heads.len() && on_chain(u, heads[i], 0, k) ==> on_chain(a, heads[i], 0, k) || (
            heads[i] == q && is_free(a, k)),
        f.first_cluster != 0 ==> forall|k: u32| #[trigger]
            on_chain(u, f.first_cluster, 0, k) ==> is_free(a, k) && !is_free(u, k) && !on_chain(
                u,
                q,
                0,
                k,
            ),
    ensures
        data_aside(u, f, p, e),
{
    if f.first_cluster != 0 {
        let i = choose|i: int| 0 <= i < heads.len() && heads[i] == p;
        let j = choose|j: int| 0 <= j < heads.len() && heads[j] == e.first_cluster;
        lemma_clean_holds(a, heads, 1, p);
        assert forall|k: u32| #[trigger] on_chain(u, f.first_cluster, 0, k) implies k < u.fat.len()
            && !is_free(u, k) && !on_chain(u, p, 0, k) && (e.first_cluster != 0 ==> !on_chain(
            u,
            e.first_cluster,
            0,
            k,
        )) by {
            assert(is_free(a, k));
            if on_chain(u, heads[i], 0, k) && p != q {
                assert(on_chain(a, p, 0, k));
                lemma_on_intact_chain(a, p, 0, k);
            }
            if e.first_cluster != 0 {
                lemma_clean_holds(a, heads, 1, e.first_cluster);
                if on_chain(u, heads[j], 0, k) {
                    assert(on_chain(a, e.first_cluster, 0, k));
                    lemma_on_intact_chain(a, e.first_cluster, 0, k);
                }
            }
        }
    }
}

/// What moving a file that can be moved comes to.
#[verifier::spinoff_prover]
#[verifier::rlimit(60)]
proof fn lemma_move(v: Volume, src: Seq<char>, dst: Seq<char>, data: Seq<u8>, now: DateTime)
    requires
        can_move(v, src, dst),
        file_at(v, src) == Ok::<Seq<u8>, FatError>(data),
    ensures
        ({
            let (r, u) = file_written(v, dst, data, now);
            let (s, w) = removed(u, src);
            &&& r is Ok
            &&& s is Ok
            &&& file_at(w, dst) == Ok::<Seq<u8>, FatError>(data)
            &&& file_at(w, src) == Err::<Seq<u8>, FatError>(FatError::NotFound)
        }),
{
    let (p, m) = parent_of(v, src)->Ok_0;
    let (q, n) = parent_of(v, dst)->Ok_0;
    let e = entry_in(v, p, m)->0;
    let a = made_ready(v, dst);
    let dirs = dirs_of(v, dst, src);
    let heads = with_data(dirs, e);
    lemma_file_found(v, src, p, m, e);
    law_file_length(v, e.first_cluster, e.size as nat);
    assert(data.len() == e.size);
    law_file_can_be_written(v, dst, data, now);
    let u = file_written(v, dst, data, now).1;
    lemma_write_leaves(v, dst, data, now, src, p, m, e);
    lemma_ready_sound(v, dst);
    assert(file_written(v, dst, data, now) == file_added(a, q, n, data, now));
    let f = lemma_added_entry(a, q, n, data, now);
    assert(file_is(u, dst, q, n, f));
    // the ways, the directories and the data in the set
    let there = way(v, v.root, components(dst).drop_last());
    let here = way(v, v.root, components(src).drop_last());
    lemma_way_ends(v, v.root, components(dst).drop_last());
    lemma_way_ends(v, v.root, components(src).drop_last());
    assert(heads[there.len() - 1] == q);
    assert(dirs[there.len() - 1] == q);
    assert(heads[there.len() + here.len() - 1] == p);
    assert(dirs[there.len() + here.len() - 1] == p);
    assert(heads.contains(q) && heads.contains(p) && dirs.contains(q) && dirs.contains(p));
    if e.first_cluster != 0 {
        assert(heads[dirs.len() as int] == e.first_cluster);
        assert(heads.contains(e.first_cluster));
    }
    assert forall|i: int| 0 <= i < dirs.len() implies heads.contains(#[trigger] dirs[i]) by {
        assert(heads[i] == dirs[i]);
    }
    lemma_clean_part(u, heads, dirs, 0, 0);
    lemma_clean_holds(a, heads, 1, q);
    lemma_clean_holds(u, heads, 0, p);
    lemma_added_chains(a, q, n, data, now);
    lemma_clean_after_add(a, u, q, heads);
    assert(data.len() == 0 ==> f.first_cluster == 0) by {
        lemma_dir_opened(a, q, slots_for(n), 0);
        lemma_no_clusters(dir_opened(a, q, slots_for(n), 0).1, data);
    }
    lemma_new_data_aside(a, u, q, f, p, e, heads);
    // dropping the entry at the old place
    assert(data_intact(u, e)) by {
        if e.first_cluster != 0 {
            lemma_clean_holds(u, heads, 0, e.first_cluster);
        }
    }
    assert(data_beside(u, e, dirs)) by {
        if e.first_cluster != 0 {
            assert forall|i: int, k: u32|
                #![trigger on_chain(u, dirs[i], 0, k)]
                0 <= i < dirs.len() && on_chain(u, dirs[i], 0, k) implies !on_chain(
                u,
                e.first_cluster,
                0,
                k,
            ) by {
                assert(dirs.contains(dirs[i]));
                lemma_clean_apart(u, heads, 0, dirs[i], e.first_cluster);
            }
        }
    }
    lemma_can_drop(u, p, m);
    assert forall|i: int| 0 <= i < there.len() implies dirs.contains(#[trigger] there[i]) by {
        assert(dirs[i] == there[i]);
    }
    assert(!(p == q && same_name(m, n))) by {
        law_same_name_is_equivalence(m, n, m);
    }
    lemma_remove_leaves(u, src, p, m, e, dst, q, n, f, dirs);
    let x = dropped(u, e).1;
    lemma_freed_frame_of(u, e);
    lemma_fat_stays(v, x);
    lemma_can_flush(x, 0);
    lemma_clean_holds(x, dirs, 0, p);
    assert forall|i: int| 0 <= i < here.len() implies dirs.contains(#[trigger] here[i]) by {
        assert(dirs[there.len() + i] == here[i]);
    }
    lemma_way_apart(u, x, u.root, components(src).drop_last(), p, dirs, 0);
    assert(can_remove(u, src));
    law_removed_entry_is_gone(u, src);
}

/// Nothing takes no cluster.
proof fn lemma_no_clusters(t: Volume, content: Seq<u8>)
    ensures
        t.spc >= 1 && content.len() == 0 ==> stored(t, content).0->Ok_0 == 0,
{
    if t.spc >= 1 && content.len() == 0 {
        let b = t.spc as int * 512;
        vstd::arithmetic::div_mod::lemma_basic_div(b - 1, b);
    }
}

/// Where there is room, a file can be moved: it then reads back at its new
/// path, replacing any file that was there, and is not found at the old one.
/// A file that is moved to where it is stays.
pub proof fn law_file_can_be_moved(v: Volume, src: Seq<char>, dst: Seq<char>, now: DateTime)
    requires
        dir_there(v, src) == Ok::<bool, FatError>(false),
        file_at(v, src) is Ok,
        src == dst || one_place(v, src, dst) || can_move(v, src, dst),
    ensures
        ({
            let (r, w) = moved(v, src, dst, now);
            &&& r is Ok
            &&& file_at(w, dst) == file_at(v, src)
            &&& src != dst && !one_place(v, src, dst) ==> file_at(w, src) == Err::<
                Seq<u8>,
                FatError,
            >(FatError::NotFound)
        }),
{
    if src != dst {
        if one_place(v, src, dst) {
            law_spelling_does_not_matter(v, src, dst);
        } else {
            lemma_move(v, src, dst, file_at(v, src)->Ok_0, now);
        }
    }
}

} // verus!
