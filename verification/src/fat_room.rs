//! When the operations on a FAT32 volume succeed: what room they need, and
//! that they go through where it is there and the volume is on its device.

use crate::ata::Drive;
use crate::bytes::splice;
use crate::fat::{
    allocated, allocated_many, chain_end, cleared, cluster_opened, cluster_run, cluster_sector,
    clusters_for, data_sector, data_written, dir_at, dir_begun, dir_made, dir_opened, dir_put,
    dir_run, dir_there, dropped, entered, entry_deleted, entry_in, fat_sector, file_added, file_at,
    file_written, flushed, freed, fresh_dir, lemma_cluster_sector_bound, lemma_encoded_len,
    lemma_lowest_free, linked, lowest_free, lowest_run, next_of, padded_sector, parent_of,
    sector_opened, sector_read, sector_written, slot_bytes, slots_for, slots_place, sound, stored,
    unended, wiped, with_entry, zeros, EOF_MARK, Entry, FatError, Volume,
};
use crate::fat_laws::{
    can_hold_dir, can_keep, has_place, law_made_dir_is_found, law_written_file_reads_back,
    lemma_cluster_opened, lemma_dir_begun, lemma_dir_opened, lemma_drop_keeps_chain,
    lemma_loosened_or_same_run, lemma_no_return, lemma_opened_intact, lemma_place_in_sight,
    lemma_sector_opened, loosened_read, loosened_volume,
};
use crate::fat_store::{
    chain_intact, entry_place, is_free, keeps_used, lemma_allocated_many, lemma_chain_end,
    lemma_cleared_readable, lemma_dir_run_same, lemma_found_stands, lemma_keeps_intact,
    lemma_linked, lemma_place, lemma_readable_frame, lemma_sector_of_part,
    lemma_slots_stored_keeps, lemma_stored_untouched, lemma_wiped_len, lemma_write_keeps_others,
    made_ready, on_chain, readable, same_frame,
};
use crate::fatname::{
    entry_slots, lemma_lfn_slots, lfn_count, name_units, short_checksum, short_name, valid_name,
};
use crate::rtc::DateTime;
use vstd::prelude::*;

verus! {

/// Whether the `n` lowest free clusters are there, and on the device.
pub open spec fn has_room(v: Volume, n: nat) -> bool
    decreases n,
{
    n == 0 || {
        let c = lowest_free(v.fat, 2);
        &&& c < v.fat.len()
        &&& readable(v, c as u32)
        &&& has_room(allocated(v).1, (n - 1) as nat)
    }
}

/// Whether the FAT is on the device.
pub open spec fn fat_on_device(v: Volume) -> bool {
    forall|i: int| 0 <= i < v.fat_size ==> (#[trigger] sector_read(v.drive, v.reserved + i)) is Ok
}

/// Whether the same clusters are free in both.
pub open spec fn same_free(v: Volume, w: Volume) -> bool {
    &&& same_frame(v, w)
    &&& forall|k: int|
        0 <= k < v.fat.len() ==> (#[trigger] v.fat[k] % 0x1000_0000 == 0) == (w.fat[k] % 0x1000_0000
            == 0)
}

proof fn lemma_lowest_free_same(a: Seq<u32>, b: Seq<u32>, i: int)
    requires
        0 <= i,
        a.len() == b.len(),
        forall|k: int|
            0 <= k < a.len() ==> (#[trigger] a[k] % 0x1000_0000 == 0) == (b[k] % 0x1000_0000 == 0),
    ensures
        lowest_free(a, i) == lowest_free(b, i),
    decreases a.len() - i,
{
    if i < a.len() {
        assert((a[i] % 0x1000_0000 == 0) == (b[i] % 0x1000_0000 == 0));
        if a[i] % 0x1000_0000 != 0 {
            lemma_lowest_free_same(a, b, i + 1);
        }
    }
}

/// Room depends on the free clusters alone.
pub(crate) proof fn lemma_room_same(v: Volume, w: Volume, n: nat)
    requires
        sound(v),
        same_free(v, w),
        has_room(v, n),
    ensures
        has_room(w, n),
    decreases n,
{
    if n > 0 {
        let c = lowest_free(v.fat, 2);
        lemma_lowest_free_same(v.fat, w.fat, 2);
        lemma_lowest_free(v.fat, 2);
        lemma_readable_frame(v, w, c as u32);
        let (a, b) = (allocated(v).1, allocated(w).1);
        assert(sound(a) && same_frame(a, b));
        assert(same_free(a, b)) by {
            assert forall|k: int| 0 <= k < a.fat.len() implies (#[trigger] a.fat[k] % 0x1000_0000
                == 0) == (b.fat[k] % 0x1000_0000 == 0) by {
                if k != c {
                    assert(a.fat[k] == v.fat[k]);
                }
            }
        }
        lemma_room_same(a, b, (n - 1) as nat);
    }
}

pub(crate) proof fn lemma_less_room(v: Volume, n: nat, m: nat)
    requires
        has_room(v, n),
        m <= n,
    ensures
        has_room(v, m),
    decreases n,
{
    if m > 0 {
        lemma_less_room(allocated(v).1, (n - 1) as nat, (m - 1) as nat);
    }
}

/// A sector that can be read can be written.
pub(crate) proof fn lemma_can_write(d: Drive, lba: int, bytes: Seq<u8>)
    requires
        sector_read(d, lba) is Ok,
    ensures
        sector_written(d, lba, bytes) is Ok,
{
}

/// The FAT stays on the device.
pub(crate) proof fn lemma_fat_stays(v: Volume, w: Volume)
    requires
        same_frame(v, w),
        fat_on_device(v),
    ensures
        fat_on_device(w),
{
    assert forall|i: int| 0 <= i < w.fat_size implies (#[trigger] sector_read(
        w.drive,
        w.reserved + i,
    )) is Ok by {
        assert(sector_read(v.drive, v.reserved + i) is Ok);
    }
}

/// A FAT on the device can be flushed.
pub(crate) proof fn lemma_can_flush(v: Volume, i: nat)
    requires
        sound(v),
        fat_on_device(v),
    ensures
        flushed(v, i).0 is Ok,
    decreases v.dirty.len() - i,
{
    if i < v.dirty.len() {
        if !v.dirty[i as int] {
            lemma_can_flush(v, i + 1);
        } else {
            let at = (v.reserved + i) as int;
            let bytes = fat_sector(v.fat, i as int);
            assert(sector_read(v.drive, v.reserved + (i as int)) is Ok);
            lemma_can_write(v.drive, at, bytes);
            lemma_write_keeps_others(v.drive, at, at, bytes);
            let u = Volume {
                drive: sector_written(v.drive, at, bytes)->Ok_0,
                dirty: v.dirty.update(i as int, false),
                ..v
            };
            lemma_fat_stays(v, u);
            lemma_can_flush(u, i + 1);
        }
    }
}

/// A cluster on the device can be cleared.
proof fn lemma_can_clear(v: Volume, c: u32, s: nat)
    requires
        sound(v),
        c >= 2,
        readable(v, c),
        s <= v.spc,
    ensures
        cleared(v, c, s as int).0 is Ok,
    decreases v.spc - s,
{
    if s < v.spc {
        let lba = cluster_sector(v, c) + s;
        lemma_cluster_sector_bound(v, c);
        assert(sector_read(v.drive, cluster_sector(v, c) + s) is Ok);
        lemma_can_write(v.drive, lba, zeros());
        lemma_write_keeps_others(v.drive, lba, lba, zeros());
        let u = Volume { drive: sector_written(v.drive, lba, zeros())->Ok_0, ..v };
        lemma_readable_frame(v, u, c);
        lemma_can_clear(u, c, s + 1);
    }
}

/// A directory cluster on the device can be opened.
proof fn lemma_can_open_cluster(v: Volume, c: u32, s: nat, n: int)
    requires
        sound(v),
        c >= 2,
        n > 0,
        readable(v, c),
        s <= v.spc,
    ensures
        cluster_opened(v, c, s as int, n).0 is Ok,
    decreases v.spc - s,
{
    if s < v.spc {
        let lba = cluster_sector(v, c) + s;
        assert(sector_read(v.drive, cluster_sector(v, c) + s) is Ok);
        let sec = sector_read(v.drive, lba)->Ok_0;
        lemma_can_write(v.drive, lba, unended(sec, lowest_run(sec, 0, n)));
        lemma_sector_opened(v, c, s as int, n);
        let u = sector_opened(v, c, s as int, n).1;
        lemma_readable_frame(v, u, c);
        if !sector_opened(v, c, s as int, n).0->Ok_0 {
            lemma_can_open_cluster(u, c, s + 1, n);
        }
    }
}

/// An intact directory can be opened.
pub(crate) proof fn lemma_can_open(v: Volume, c: u32, n: int, guard: nat)
    requires
        sound(v),
        n > 0,
        chain_intact(v, c, guard),
    ensures
        dir_opened(v, c, n, guard).0 is Ok,
    decreases 1_000_001 - guard,
{
    lemma_can_open_cluster(v, c, 0, n);
    lemma_cluster_opened(v, c, 0, n);
    let (r, u) = cluster_opened(v, c, 0, n);
    let m = (v.fat[c as int] % 0x1000_0000) as u32;
    assert(next_of(u, c) == Some(m));
    if !r->Ok_0 && m < EOF_MARK {
        lemma_opened_intact(v, u, m, guard + 1);
        lemma_can_open(u, m, n, guard + 1);
    }
}

/// Opening a directory does not change where its free runs are.
proof fn lemma_opened_cluster_run(v: Volume, w: Volume, c: u32, s: int, n: int)
    requires
        loosened_volume(v, w),
        c >= 2,
        n > 0,
        0 <= s,
    ensures
        cluster_run(w, c, s, n) == cluster_run(v, c, s, n),
    decreases v.spc - s,
{
    if s < v.spc {
        let a = sector_read(v.drive, cluster_sector(v, c) + s);
        let b = sector_read(w.drive, cluster_sector(v, c) + s);
        assert(loosened_read(a, b));
        if a is Ok {
            lemma_loosened_or_same_run(a->Ok_0, b->Ok_0, n);
            lemma_opened_cluster_run(v, w, c, s + 1, n);
        }
    }
}

pub(crate) proof fn lemma_opened_run(v: Volume, w: Volume, c: u32, n: int, guard: nat)
    requires
        loosened_volume(v, w),
        n > 0,
    ensures
        dir_run(w, c, n, guard) == dir_run(v, c, n, guard),
    decreases 1_000_001 - guard,
{
    if c >= 2 && guard <= 1_000_000 {
        lemma_opened_cluster_run(v, w, c, 0, n);
        if let Some(m) = next_of(v, c) {
            if m < EOF_MARK {
                lemma_opened_run(v, w, m, n, guard + 1);
            }
        }
    }
}

/// Where there is room, clusters can be taken, and are on the device.
proof fn lemma_can_allocate(v: Volume, n: nat, acc: Seq<u32>, rest: nat)
    requires
        sound(v),
        has_room(v, n + rest),
        forall|i: int| 0 <= i < acc.len() ==> readable(v, #[trigger] acc[i]),
    ensures
        ({
            let (r, u) = allocated_many(v, n, acc);
            &&& r is Ok
            &&& has_room(u, rest)
            &&& forall|i: int| 0 <= i < r->Ok_0.len() ==> readable(v, #[trigger] r->Ok_0[i])
        }),
    decreases n,
{
    if n > 0 {
        let c = lowest_free(v.fat, 2) as u32;
        lemma_lowest_free(v.fat, 2);
        let u = allocated(v).1;
        let more = acc.push(c);
        assert(n + rest - 1 == (n - 1) + rest);
        assert forall|i: int| 0 <= i < more.len() implies readable(u, #[trigger] more[i]) by {
            if i < acc.len() {
                assert(readable(v, acc[i]));
                lemma_readable_frame(v, u, acc[i]);
            } else {
                lemma_readable_frame(v, u, c);
            }
        }
        lemma_can_allocate(u, (n - 1) as nat, more, rest);
        let cs = allocated_many(v, n, acc).0->Ok_0;
        assert forall|i: int| 0 <= i < cs.len() implies readable(v, #[trigger] cs[i]) by {
            assert(readable(u, cs[i]));
            lemma_readable_frame(u, v, cs[i]);
        }
    }
}

/// Content can be written into clusters on the device.
proof fn lemma_can_write_data(v: Volume, cs: Seq<u32>, content: Seq<u8>, j: nat)
    requires
        sound(v),
        cs.len() == clusters_for(v, content.len()),
        forall|i: int| 0 <= i < cs.len() ==> 2 <= #[trigger] cs[i],
        forall|i: int| 0 <= i < cs.len() ==> readable(v, #[trigger] cs[i]),
    ensures
        data_written(v, cs, content, j).0 is Ok,
        data_written(v, cs, content, j).1.fat == v.fat,
        same_frame(v, data_written(v, cs, content, j).1),
    decreases (if 512 * j < content.len() { content.len() - 512 * j } else { 0 }),
{
    if 512 * j < content.len() {
        lemma_sector_of_part(v, cs, content.len(), j as int);
        let lba = data_sector(v, cs, j as int);
        let (i, t) = (j as int / v.spc as int, j as int % v.spc as int);
        assert(readable(v, cs[i]));
        assert(sector_read(v.drive, cluster_sector(v, cs[i]) + t) is Ok);
        let bytes = padded_sector(content, j as int);
        lemma_can_write(v.drive, lba, bytes);
        lemma_write_keeps_others(v.drive, lba, lba, bytes);
        let u = Volume { drive: sector_written(v.drive, lba, bytes)->Ok_0, ..v };
        assert forall|i: int| 0 <= i < cs.len() implies readable(u, #[trigger] cs[i]) by {
            lemma_readable_frame(v, u, cs[i]);
        }
        lemma_can_write_data(u, cs, content, j + 1);
    }
}

/// Content can be stored where there is room for it.
#[verifier::spinoff_prover]
pub(crate) proof fn lemma_can_store(v: Volume, content: Seq<u8>, rest: nat)
    requires
        sound(v),
        v.fat.len() <= 0x0FFF_FFFF,
        has_room(v, clusters_for(v, content.len()) + rest),
    ensures
        stored(v, content).0 is Ok,
        has_room(stored(v, content).1, rest),
{
    let n = clusters_for(v, content.len());
    if n > 0 {
        let none = Seq::<u32>::empty();
        lemma_can_allocate(v, n, none, rest);
        lemma_allocated_many(v, n, none);
        let (r, u) = allocated_many(v, n, none);
        let cs = r->Ok_0;
        assert forall|i: int| 0 <= i < cs.len() implies 2 <= #[trigger] cs[i] < u.fat.len() by {
            assert(is_free(v, cs[i]));
        }
        lemma_linked(u, cs, (n - 1) as nat);
        let l = linked(u, cs, (n - 1) as nat);
        let w = with_entry(l, cs[n - 1] as int, EOF_MARK);
        assert forall|i: int| 0 <= i < cs.len() implies readable(w, #[trigger] cs[i]) by {
            assert(readable(v, cs[i]));
            lemma_readable_frame(v, w, cs[i]);
        }
        lemma_can_write_data(w, cs, content, 0);
        let y = stored(v, content).1;
        lemma_taken_in_use(v, n, none);
        assert(same_free(u, y)) by {
            assert forall|k: int| 0 <= k < u.fat.len() implies (#[trigger] u.fat[k] % 0x1000_0000
                == 0) == (y.fat[k] % 0x1000_0000 == 0) by {
                if exists|i: int| 0 <= i < cs.len() && cs[i] == k {
                    let i = choose|i: int| 0 <= i < cs.len() && cs[i] == k;
                    assert(u.fat[cs[i] as int] % 0x1000_0000 != 0);
                    if i < n - 1 {
                        assert(cs[i] != cs[n - 1]);
                        assert(l.fat[cs[i] as int] == cs[i + 1]);
                        assert(2 <= cs[i + 1] < u.fat.len());
                    }
                } else {
                    assert(l.fat[k] == u.fat[k]);
                    assert(k != cs[n - 1]);
                }
            }
        }
        lemma_room_same(u, y, rest);
    }
}

/// Clusters that were taken are in use.
proof fn lemma_taken_in_use(v: Volume, n: nat, acc: Seq<u32>)
    requires
        sound(v),
        allocated_many(v, n, acc).0 is Ok,
    ensures
        ({
            let (r, u) = allocated_many(v, n, acc);
            forall|i: int|
                acc.len() <= i < r->Ok_0.len() ==> u.fat[#[trigger] r->Ok_0[i] as int]
                    % 0x1000_0000 != 0
        }),
    decreases n,
{
    if n > 0 {
        let (r, u) = allocated(v);
        lemma_lowest_free(v.fat, 2);
        let c = r->Ok_0;
        let more = acc.push(c);
        lemma_taken_in_use(u, (n - 1) as nat, more);
        lemma_allocated_many(u, (n - 1) as nat, more);
        let (s, z) = allocated_many(v, n, acc);
        let cs = s->Ok_0;
        assert(cs[acc.len() as int] == cs.take(more.len() as int)[acc.len() as int]);
        assert(z.fat[c as int] == u.fat[c as int]);
    }
}

/// How many clusters an entry takes in its directory: one more if there is
/// no free run for its slots.
pub open spec fn entry_room(v: Volume, parent: u32, name: Seq<char>) -> nat {
    if dir_run(v, parent, slots_for(name), 0) matches Ok(Some(_)) {
        0
    } else {
        1
    }
}

/// An entry can be put into an intact directory where there is room.
#[verifier::spinoff_prover]
pub(crate) proof fn lemma_can_enter(
    y: Volume,
    parent: u32,
    name: Seq<char>,
    first: u32,
    size: u32,
    is_dir: bool,
    now: DateTime,
)
    requires
        sound(y),
        y.fat.len() <= 0x0FFF_FFFF,
        valid_name(name),
        chain_intact(y, parent, 0),
        dir_run(y, parent, slots_for(name), 0) is Ok,
        has_room(y, entry_room(y, parent, name)),
    ensures
        entered(y, parent, name, first, size, is_dir, now).0 is Ok,
        same_frame(y, entered(y, parent, name, first, size, is_dir, now).1),
{
    let slots = entry_slots(name, is_dir, now, first, size);
    let n = slots_for(name);
    lemma_encoded_len(name);
    lemma_lfn_slots(name_units(name), lfn_count(name.len()), short_checksum(short_name(name)));
    assert(slots.len() == n);
    lemma_chain_end(y, parent, 0);
    if dir_run(y, parent, n, 0)->Ok_0 is None {
        let c = lowest_free(y.fat, 2) as u32;
        lemma_lowest_free(y.fat, 2);
        let u = allocated(y).1;
        assert(keeps_used(y, u));
        lemma_keeps_intact(y, u, parent, 0);
        let last = chain_end(u, parent, 0)->0;
        let x = with_entry(u, last as int, c);
        assert(same_frame(y, x));
        lemma_readable_frame(y, x, c);
        lemma_can_clear(x, c, 0);
    }
    lemma_place(y, parent, n);
    let p = slots_place(y, parent, n).1;
    let (c, o) = entry_place(y, parent, n);
    let lba = cluster_sector(p, c) + o / 512;
    assert(readable(p, c)) by {
        if dir_run(y, parent, n, 0)->Ok_0 is Some {
            lemma_on_intact_readable(y, parent, 0, c);
        }
    }
    assert(sector_read(p.drive, cluster_sector(p, c) + o / 512) is Ok);
    let sec = sector_read(p.drive, lba)->Ok_0;
    lemma_can_write(p.drive, lba, splice(sec, o % 512, slot_bytes(slots)));
    lemma_slots_stored_keeps(p, c, o, slots);
}

proof fn lemma_on_intact_readable(v: Volume, c: u32, guard: nat, k: u32)
    requires
        chain_intact(v, c, guard),
        on_chain(v, c, guard, k),
    ensures
        readable(v, k),
    decreases 1_000_001 - guard,
{
    if c != k {
        lemma_on_intact_readable(v, next_of(v, c)->0, guard + 1, k);
    }
}

/// A file can be added to a directory that has a place for it, where there
/// is room for its data and its slots.
pub(crate) proof fn lemma_can_add(
    u: Volume,
    parent: u32,
    name: Seq<char>,
    content: Seq<u8>,
    now: DateTime,
)
    requires
        sound(u),
        u.fat_count >= 1,
        u.fat.len() <= 0x0FFF_FFFF,
        valid_name(name),
        has_place(u, parent, name),
        fat_on_device(u),
        has_room(u, clusters_for(u, content.len()) + entry_room(u, parent, name)),
    ensures
        file_added(u, parent, name, content, now).0 is Ok,
{
    let n = slots_for(name);
    lemma_can_open(u, parent, n, 0);
    lemma_dir_opened(u, parent, n, 0);
    let t = dir_opened(u, parent, n, 0).1;
    lemma_opened_intact(u, t, parent, 0);
    lemma_opened_run(u, t, parent, n, 0);
    lemma_place_in_sight(u, parent, name);
    lemma_room_same(u, t, clusters_for(u, content.len()) + entry_room(u, parent, name));
    lemma_can_store(t, content, entry_room(u, parent, name));
    lemma_stored_untouched(t, content);
    let y = stored(t, content).1;
    lemma_keeps_intact(t, y, parent, 0);
    lemma_dir_run_same(t, y, parent, n, 0);
    let first = stored(t, content).0->Ok_0;
    lemma_can_enter(y, parent, name, first, content.len() as u32, false, now);
    let w = entered(y, parent, name, first, content.len() as u32, false, now).1;
    lemma_fat_stays(u, w);
    lemma_can_flush(w, 0);
}

/// A directory can be made where there is a cluster for it and room for its
/// slots.
pub(crate) proof fn lemma_can_put_dir(v: Volume, parent: u32, name: Seq<char>, now: DateTime)
    requires
        sound(v),
        v.fat_count >= 1,
        v.fat.len() <= 0x0FFF_FFFF,
        valid_name(name),
        has_place(v, parent, name),
        fat_on_device(v),
        has_room(v, 1 + entry_room(v, parent, name)),
    ensures
        dir_opened(v, parent, slots_for(name), 0).0 is Ok,
        dir_put(dir_opened(v, parent, slots_for(name), 0).1, parent, name, now).0 is Ok,
{
    let n = slots_for(name);
    let rest = entry_room(v, parent, name);
    lemma_can_open(v, parent, n, 0);
    lemma_dir_opened(v, parent, n, 0);
    let t = dir_opened(v, parent, n, 0).1;
    lemma_opened_intact(v, t, parent, 0);
    lemma_opened_run(v, t, parent, n, 0);
    lemma_place_in_sight(v, parent, name);
    lemma_room_same(v, t, 1 + rest);
    lemma_can_begin_dir(t, parent, rest);
    lemma_dir_begun(t, parent);
    let (r, x) = dir_begun(t, parent);
    lemma_keeps_intact(t, x, parent, 0);
    lemma_dir_run_same(t, x, parent, n, 0);
    lemma_can_enter(x, parent, name, r->Ok_0, 0, true, now);
    let w = entered(x, parent, name, r->Ok_0, 0, true, now).1;
    lemma_fat_stays(v, w);
    lemma_can_flush(w, 0);
}

proof fn lemma_can_begin_dir(t: Volume, parent: u32, rest: nat)
    requires
        sound(t),
        has_room(t, 1 + rest),
    ensures
        dir_begun(t, parent).0 is Ok,
        has_room(dir_begun(t, parent).1, rest),
{
    let c = lowest_free(t.fat, 2) as u32;
    lemma_lowest_free(t.fat, 2);
    let a = allocated(t).1;
    let u = with_entry(a, c as int, EOF_MARK);
    assert(u.fat =~= a.fat);
    assert(sound(u) && same_frame(t, u));
    lemma_readable_frame(t, u, c);
    lemma_can_clear(u, c, 0);
    lemma_cleared_readable(u, c, 0);
    let w = cleared(u, c, 0).1;
    let lba = cluster_sector(w, c);
    lemma_readable_frame(u, w, c);
    assert(sector_read(w.drive, cluster_sector(w, c) + 0) is Ok);
    lemma_can_write(w.drive, lba, fresh_dir(c, parent));
    lemma_cluster_sector_bound(w, c);
    assert(0 <= (c - 2) * w.spc) by (nonlinear_arith)
        requires
            c >= 2,
            w.spc >= 0,
    ;
    lemma_write_keeps_others(w.drive, lba, lba, fresh_dir(c, parent));
    let x = dir_begun(t, parent).1;
    assert(same_free(a, x));
    assert(has_room(a, rest)) by {
        assert(1 + rest - 1 == rest);
    }
    lemma_room_same(a, x, rest);
}

/// Whether a directory can be made at a path: the volume can hold it there,
/// and it has room.
pub open spec fn can_make_dir(v: Volume, path: Seq<char>) -> bool {
    let (parent, name) = parent_of(v, path)->Ok_0;
    &&& can_hold_dir(v, path)
    &&& valid_name(name)
    &&& fat_on_device(v)
    &&& has_room(v, 1 + entry_room(v, parent, name))
}

/// Where there is room, a directory can be made. It is then found, it is
/// empty, and making it again is refused and changes nothing.
pub proof fn law_dir_can_be_made(v: Volume, path: Seq<char>, now: DateTime, again: DateTime)
    requires
        can_make_dir(v, path),
    ensures
        ({
            let (r, w) = dir_made(v, path, now);
            &&& r is Ok
            &&& dir_there(w, path) == Ok::<bool, FatError>(true)
            &&& dir_at(w, path) == Ok::<Seq<Entry>, FatError>(Seq::empty())
            &&& dir_made(w, path, again) == (Err::<(), FatError>(FatError::AlreadyExists), w)
        }),
{
    let (parent, name) = parent_of(v, path)->Ok_0;
    lemma_can_put_dir(v, parent, name, now);
    law_made_dir_is_found(v, path, now, again);
}

// ---------------------------------------------------------------------
// Dropping an entry
// ---------------------------------------------------------------------

/// A chain that a change elsewhere in the FAT leaves intact.
pub(crate) proof fn lemma_chain_aside(v: Volume, u: Volume, c: u32, guard: nat, k: u32)
    requires
        chain_intact(v, c, guard),
        !on_chain(v, c, guard, k),
        same_frame(v, u),
        forall|j: int| 0 <= j < v.fat.len() && j != k ==> u.fat[j] == #[trigger] v.fat[j],
    ensures
        chain_intact(u, c, guard),
    decreases 1_000_001 - guard,
{
    let n = (v.fat[c as int] % 0x1000_0000) as u32;
    assert(u.fat[c as int] == v.fat[c as int]);
    lemma_readable_frame(v, u, c);
    if n < EOF_MARK {
        lemma_chain_aside(v, u, n, guard + 1, k);
    }
}

/// An intact chain can be freed.
proof fn lemma_can_free(v: Volume, c: u32, guard: nat)
    requires
        sound(v),
        chain_intact(v, c, guard),
    ensures
        freed(v, c, guard).0 is Ok,
    decreases 1_000_001 - guard,
{
    let n = (v.fat[c as int] % 0x1000_0000) as u32;
    let u = Volume {
        free: if v.free < u32::MAX {
            (v.free + 1) as u32
        } else {
            v.free
        },
        ..with_entry(v, c as int, 0)
    };
    reveal_with_fuel(freed, 2);
    if c < EOF_MARK && n < EOF_MARK {
        lemma_no_return(v, c, guard);
        assert(sound(u) && same_frame(v, u));
        lemma_chain_aside(v, u, n, guard + 1, c);
        lemma_can_free(u, n, guard + 1);
    }
}

/// Whether the data of an entry can be freed.
pub open spec fn data_intact(v: Volume, e: Entry) -> bool {
    e.first_cluster == 0 || chain_intact(v, e.first_cluster, 0)
}

/// An entry of an intact directory can be dropped with its data.
pub(crate) proof fn lemma_can_drop(v: Volume, parent: u32, name: Seq<char>)
    requires
        sound(v),
        chain_intact(v, parent, 0),
        entry_in(v, parent, name) matches Some(e) && data_intact(v, e),
    ensures
        dropped(v, entry_in(v, parent, name)->0).0 is Ok,
{
    let e = entry_in(v, parent, name)->0;
    lemma_found_stands(v, parent, name);
    lemma_on_intact_readable(v, parent, 0, e.cluster);
    let lba = cluster_sector(v, e.cluster) + e.offset / 512;
    assert(sector_read(v.drive, cluster_sector(v, e.cluster) + e.offset / 512) is Ok);
    let sec = sector_read(v.drive, lba)->Ok_0;
    let bytes = wiped(sec.update(e.offset % 512, 0xE5), e.offset % 512);
    lemma_can_write(v.drive, lba, bytes);
    let u = entry_deleted(v, e.cluster, e.offset).1;
    if e.first_cluster != 0 {
        lemma_cluster_sector_bound(v, e.cluster);
        assert(sec.len() == 512);
        lemma_wiped_len(sec.update(e.offset % 512, 0xE5), e.offset % 512);
        lemma_write_keeps_others(v.drive, lba, lba, bytes);
        assert(same_frame(v, u));
        lemma_intact_frame(v, u, e.first_cluster, 0);
        lemma_can_free(u, e.first_cluster, 0);
    }
}

pub(crate) proof fn lemma_intact_frame(v: Volume, u: Volume, c: u32, guard: nat)
    requires
        same_frame(v, u),
        u.fat == v.fat,
        chain_intact(v, c, guard),
    ensures
        chain_intact(u, c, guard),
    decreases 1_000_001 - guard,
{
    lemma_readable_frame(v, u, c);
    let n = (v.fat[c as int] % 0x1000_0000) as u32;
    if n < EOF_MARK {
        lemma_intact_frame(v, u, n, guard + 1);
    }
}

// ---------------------------------------------------------------------
// Writing a file
// ---------------------------------------------------------------------

/// Whether `n` bytes can be written to the file at a path: the volume can
/// keep them there, what stood there before is no directory and can be
/// dropped, and there is room once it is gone.
pub open spec fn can_write(v: Volume, path: Seq<char>, n: nat) -> bool {
    let u = made_ready(v, path);
    let (parent, name) = parent_of(v, path)->Ok_0;
    &&& can_keep(v, path, n)
    &&& valid_name(name)
    &&& chain_intact(v, parent, 0)
    &&& entry_in(v, parent, name) matches Some(e) ==> !e.is_dir && data_intact(v, e)
    &&& fat_on_device(v)
    &&& has_room(u, clusters_for(u, n) + entry_room(u, parent, name))
}

/// Where there is room, a file can be written, and reads back.
pub proof fn law_file_can_be_written(
    v: Volume,
    path: Seq<char>,
    content: Seq<u8>,
    now: DateTime,
)
    requires
        can_write(v, path, content.len()),
    ensures
        ({
            let (r, w) = file_written(v, path, content, now);
            &&& r is Ok
            &&& file_at(w, path) == Ok::<Seq<u8>, FatError>(content)
        }),
{
    let (parent, name) = parent_of(v, path)->Ok_0;
    let u = made_ready(v, path);
    if let Some(e) = entry_in(v, parent, name) {
        lemma_can_drop(v, parent, name);
        lemma_drop_keeps_chain(v, e, parent);
        lemma_fat_stays(v, u);
    }
    lemma_can_add(u, parent, name, content, now);
    law_written_file_reads_back(v, path, content, now);
}

} // verus!
