//! What the FAT32 volume's operations leave alone and what they put where:
//! stored data reads back, new slots are found by a reader, and clusters of
//! other files and directories stay untouched.

use crate::ata::Drive;
use crate::bytes::{le16, le32, splice};
use crate::fat::{
    after_sectors, after_slot, after_slots, allocated, allocated_many, chain_data, chain_end,
    cleared, cluster_data, cluster_run, cluster_sector, clusters_for, data_sector,
    data_written, dir_run, dropped, entered, entry_deleted, entry_in, fat_sector, file_data,
    file_put, first_wanted, flushed, freed, is_wanted, lemma_cluster_index,
    lemma_cluster_sector_bound, lemma_encoded_len, lemma_lookup_place, lemma_lowest_free,
    lemma_lowest_run, linked, listed, listing, lookup, lowest_run, min, next_of, no_scan,
    padded_sector, parent_of, scanned, sector_read, sector_written, slot_bytes, slot_name,
    slots_place, slots_stored, sound, stored, walked, wiped, with_entry, zeros, EOF_MARK, Entry,
    FatError, Scan, Volume, Want,
};
use crate::fatname::{
    entry_slots, law_lfn_slot_round_trip, law_long_name_before, law_sfn_slot_round_trip,
    lemma_lfn_slots, lemma_short_name_start, lfn_count, lfn_part, lfn_pos, lfn_slot, lfn_slots,
    name_part, name_parts, name_units, sfn_slot, short_checksum, short_name, slot_cluster,
    storable, valid_name,
};
use crate::rtc::DateTime;
use vstd::prelude::*;

verus! {

// ---------------------------------------------------------------------
// What was stored is what is read
// ---------------------------------------------------------------------

pub open spec fn is_free(v: Volume, c: u32) -> bool {
    2 <= c < v.fat.len() && v.fat[c as int] % 0x1000_0000 == 0
}

/// Two volumes of the same layout.
pub open spec fn same_frame(v: Volume, u: Volume) -> bool {
    &&& u.spc == v.spc
    &&& u.reserved == v.reserved
    &&& u.fat_count == v.fat_count
    &&& u.fat_size == v.fat_size
    &&& u.root == v.root
    &&& u.first_data == v.first_data
    &&& u.fat.len() == v.fat.len()
    &&& u.dirty.len() == v.dirty.len()
    &&& u.drive.sata == v.drive.sata
    &&& u.drive.usable == v.drive.usable
    &&& u.drive.media.len() == v.drive.media.len()
}

/// The clusters from `from` on are free in `v` and no two of them are the
/// same.
pub open spec fn free_and_distinct(v: Volume, cs: Seq<u32>, from: int) -> bool {
    &&& forall|i: int| from <= i < cs.len() ==> is_free(v, #[trigger] cs[i])
    &&& forall|i: int, k: int| from <= i < k < cs.len() ==> cs[i] != cs[k]
}

pub(crate) proof fn lemma_allocated_many(v: Volume, n: nat, acc: Seq<u32>)
    requires
        sound(v),
        allocated_many(v, n, acc).0 is Ok,
    ensures
        ({
            let (r, u) = allocated_many(v, n, acc);
            let cs = r->Ok_0;
            &&& sound(u)
            &&& u.drive == v.drive
            &&& u.spc == v.spc
            &&& u.first_data == v.first_data
            &&& u.fat.len() == v.fat.len()
            &&& cs.len() == acc.len() + n
            &&& cs.take(acc.len() as int) == acc
            &&& free_and_distinct(v, cs, acc.len() as int)
            &&& same_frame(v, u)
            &&& forall|k: int|
                0 <= k < v.fat.len() && !(2 <= k && v.fat[k] % 0x1000_0000 == 0) ==> u.fat[k]
                    == #[trigger] v.fat[k]
        }),
    decreases n,
{
    if n == 0 {
        assert(acc.take(acc.len() as int) =~= acc);
    } else {
        let (r, u) = allocated(v);
        lemma_lowest_free(v.fat, 2);
        let c = r->Ok_0;
        let more = acc.push(c);
        lemma_allocated_many(u, (n - 1) as nat, more);
        let cs = allocated_many(v, n, acc).0->Ok_0;
        assert(cs.take(acc.len() as int) =~= cs.take(more.len() as int).take(acc.len() as int));
        assert(more.take(acc.len() as int) =~= acc);
        assert(cs[acc.len() as int] == cs.take(more.len() as int)[acc.len() as int]);
        assert(u.fat[c as int] % 0x1000_0000 != 0);
        let z = allocated_many(v, n, acc).1;
        assert forall|k: int|
            0 <= k < v.fat.len() && !(2 <= k && v.fat[k] % 0x1000_0000 == 0) implies z.fat[k]
            == #[trigger] v.fat[k] by {
            assert(u.fat[k] == v.fat[k]);
        }
        assert forall|i: int| acc.len() <= i < cs.len() implies is_free(v, #[trigger] cs[i]) by {
            if i > acc.len() {
                assert(is_free(u, cs[i]));
            }
        }
        assert forall|i: int, k: int| acc.len() <= i < k < cs.len() implies cs[i] != cs[k] by {
            if i == acc.len() {
                assert(is_free(u, cs[k]));
            }
        }
    }
}

pub(crate) proof fn lemma_linked(v: Volume, cs: Seq<u32>, n: nat)
    requires
        sound(v),
        n < cs.len(),
        free_and_distinct(v, cs, 0) || forall|i: int, k: int|
            0 <= i < k < cs.len() ==> cs[i] != cs[k],
        forall|i: int| 0 <= i < cs.len() ==> 2 <= #[trigger] cs[i] < v.fat.len(),
    ensures
        ({
            let u = linked(v, cs, n);
            &&& sound(u)
            &&& u.drive == v.drive
            &&& u.spc == v.spc
            &&& u.first_data == v.first_data
            &&& u.fat.len() == v.fat.len()
            &&& forall|i: int| 0 <= i < n ==> u.fat[#[trigger] cs[i] as int] == cs[i + 1]
            &&& same_frame(v, u)
            &&& forall|k: int|
                0 <= k < v.fat.len() && (forall|i: int| 0 <= i < cs.len() ==> cs[i] != k)
                    ==> u.fat[k] == #[trigger] v.fat[k]
        }),
    decreases n,
{
    if n > 0 {
        lemma_linked(v, cs, (n - 1) as nat);
    }
}

pub(crate) proof fn lemma_data_sector_distinct(v: Volume, cs: Seq<u32>, j: int, k: int)
    requires
        sound(v),
        0 <= j < k,
        k / (v.spc as int) < cs.len(),
        forall|a: int, b: int| 0 <= a < b < cs.len() ==> cs[a] != cs[b],
        forall|i: int| 0 <= i < cs.len() ==> 2 <= #[trigger] cs[i],
    ensures
        data_sector(v, cs, j) != data_sector(v, cs, k),
{
    let s = v.spc as int;
    let (a, b) = (j / s, k / s);
    let (x, y) = (j % s, k % s);
    vstd::arithmetic::div_mod::lemma_fundamental_div_mod(j, s);
    vstd::arithmetic::div_mod::lemma_fundamental_div_mod(k, s);
    vstd::arithmetic::div_mod::lemma_div_is_ordered(j, k, s);
    vstd::arithmetic::div_mod::lemma_div_pos_is_pos(j, s);
    let (c, d) = (cs[a] - 2, cs[b] - 2);
    if data_sector(v, cs, j) == data_sector(v, cs, k) {
        assert(c * s + x == d * s + y);
        vstd::arithmetic::div_mod::lemma_fundamental_div_mod_converse(c * s + x, s, c, x);
        vstd::arithmetic::div_mod::lemma_fundamental_div_mod_converse(d * s + y, s, d, y);
        assert(c == d && x == y);
        assert(a == b);
        assert(s * a == s * b);
    }
}

/// Where part `j` of the content stands on the drive.
pub open spec fn part_in_place(v: Volume, cs: Seq<u32>, content: Seq<u8>, j: int) -> bool {
    sector_read(v.drive, data_sector(v, cs, j)) == Ok::<Seq<u8>, FatError>(
        padded_sector(content, j),
    )
}

pub(crate) proof fn lemma_sector_of_part(v: Volume, cs: Seq<u32>, len: nat, j: int)
    requires
        sound(v),
        0 <= 512 * j < len,
        cs.len() == clusters_for(v, len),
        forall|i: int| 0 <= i < cs.len() ==> 2 <= #[trigger] cs[i],
    ensures
        0 <= j / (v.spc as int) < cs.len(),
        0 <= j % (v.spc as int) < v.spc,
        0 <= data_sector(v, cs, j) <= 0x2FF_FFFF_FFFF,
{
    let s = v.spc as int;
    vstd::arithmetic::div_mod::lemma_fundamental_div_mod(j, s);
    vstd::arithmetic::div_mod::lemma_mod_bound(j, s);
    vstd::arithmetic::div_mod::lemma_div_pos_is_pos(j, s);
    assert(s * (j / s) == (j / s) * s) by (nonlinear_arith);
    lemma_cluster_index(j, j / s, j % s, s, len as int);
    lemma_cluster_sector_bound(v, cs[j / s]);
}

pub(crate) proof fn lemma_write_keeps_others(d: Drive, lba: int, other: int, bytes: Seq<u8>)
    requires
        bytes.len() == 512,
        0 <= lba <= 0x2FF_FFFF_FFFF,
        0 <= other <= 0x2FF_FFFF_FFFF,
        sector_written(d, lba, bytes) is Ok,
    ensures
        ({
            let e = sector_written(d, lba, bytes)->Ok_0;
            &&& e.sata == d.sata
            &&& e.usable == d.usable
            &&& e.media.len() == d.media.len()
            &&& other != lba ==> sector_read(e, other) == sector_read(d, other)
            &&& sector_read(e, lba) == Ok::<Seq<u8>, FatError>(bytes)
        }),
{
    let e = sector_written(d, lba, bytes)->Ok_0;
    crate::ata::law_read_after_write(d, lba, lba, bytes);
    if (other + 1) * 512 <= d.media.len() {
        crate::ata::law_read_after_write(d, lba, other, bytes);
    }
}

pub(crate) proof fn lemma_data_written(v: Volume, cs: Seq<u32>, content: Seq<u8>, j: nat, k: int)
    requires
        sound(v),
        cs.len() == clusters_for(v, content.len()),
        forall|a: int, b: int| 0 <= a < b < cs.len() ==> cs[a] != cs[b],
        forall|i: int| 0 <= i < cs.len() ==> 2 <= #[trigger] cs[i],
        data_written(v, cs, content, j).0 is Ok,
        0 <= 512 * k < content.len(),
        k < j ==> part_in_place(v, cs, content, k),
    ensures
        ({
            let w = data_written(v, cs, content, j).1;
            &&& w.fat == v.fat
            &&& w.spc == v.spc
            &&& w.first_data == v.first_data
            &&& sound(w)
            &&& same_frame(v, w)
            &&& part_in_place(w, cs, content, k)
        }),
    decreases (if 512 * j < content.len() { content.len() - 512 * j } else { 0 }),
{
    if 512 * j < content.len() {
        let lba = data_sector(v, cs, j as int);
        let bytes = padded_sector(content, j as int);
        let d = sector_written(v.drive, lba, bytes)->Ok_0;
        let u = Volume { drive: d, ..v };
        lemma_sector_of_part(v, cs, content.len(), j as int);
        lemma_sector_of_part(v, cs, content.len(), k);
        let other = data_sector(v, cs, k);
        lemma_write_keeps_others(v.drive, lba, other, bytes);
        if k < j {
            lemma_data_sector_distinct(v, cs, k, j as int);
        }
        assert(data_sector(u, cs, k) == other);
        assert(data_sector(u, cs, j as int) == lba);
        lemma_data_written(u, cs, content, j + 1, k);
    }
}

pub open spec fn up_to(content: Seq<u8>, n: int) -> Seq<u8> {
    content.take(min(n, content.len() as int))
}

pub(crate) proof fn lemma_cluster_reads(
    v: Volume,
    cs: Seq<u32>,
    content: Seq<u8>,
    ci: int,
    k: nat,
)
    requires
        sound(v),
        cs.len() == clusters_for(v, content.len()),
        forall|i: int| 0 <= i < cs.len() ==> 2 <= #[trigger] cs[i],
        forall|j: int| 0 <= 512 * j < content.len() ==> part_in_place(v, cs, content, j),
        0 <= ci < cs.len(),
        k <= v.spc,
        512 * (ci * v.spc) < content.len(),
    ensures
        cluster_data(
            v,
            cs[ci],
            up_to(content, 512 * (ci * v.spc)),
            (content.len() - 512 * (ci * v.spc)) as nat,
            k,
        ) == Ok::<(Seq<u8>, nat), FatError>(
            (
                up_to(content, 512 * (ci * v.spc + k)),
                (content.len() - min(512 * (ci * v.spc + k), content.len() as int)) as nat,
            ),
        ),
    decreases k,
{
    if k > 0 {
        lemma_cluster_reads(v, cs, content, ci, (k - 1) as nat);
        let j = ci * v.spc + (k - 1);
        let len = content.len() as int;
        assert(0 <= ci * v.spc) by (nonlinear_arith)
            requires
                0 <= ci,
                0 <= v.spc,
        ;
        if 512 * j < len {
            lemma_cluster_index(j, ci, k - 1, v.spc as int, len);
            assert(part_in_place(v, cs, content, j));
            assert(data_sector(v, cs, j) == cluster_sector(v, cs[ci]) + (k - 1));
            let sec = padded_sector(content, j);
            let m = len - 512 * j;
            let n = min(m, 512);
            assert(up_to(content, 512 * j) + sec.take(n) =~= up_to(content, 512 * (j + 1)));
        } else {
            assert(up_to(content, 512 * j) =~= up_to(content, 512 * (j + 1)));
        }
    }
}

pub(crate) proof fn lemma_chain_reads(v: Volume, cs: Seq<u32>, content: Seq<u8>, ci: nat)
    requires
        sound(v),
        v.fat.len() <= 0x0FFF_FFFF,
        cs.len() == clusters_for(v, content.len()),
        cs.len() <= 1_000_001,
        forall|i: int| 0 <= i < cs.len() ==> 2 <= #[trigger] cs[i] < v.fat.len(),
        forall|i: int| 0 <= i < cs.len() - 1 ==> v.fat[#[trigger] cs[i] as int] == cs[i + 1],
        forall|j: int| 0 <= 512 * j < content.len() ==> part_in_place(v, cs, content, j),
        ci < cs.len(),
        512 * (ci * v.spc) < content.len(),
    ensures
        chain_data(
            v,
            cs[ci as int],
            up_to(content, 512 * (ci as int * v.spc)),
            (content.len() - 512 * (ci * v.spc)) as nat,
            ci,
        ) == Ok::<Seq<u8>, FatError>(content),
    decreases cs.len() - ci,
{
    let len = content.len() as int;
    let s = v.spc as int;
    lemma_cluster_reads(v, cs, content, ci as int, v.spc);
    let next = 512 * ((ci + 1) * s);
    assert((ci + 1) * s == ci * s + s) by (nonlinear_arith);
    if next >= len {
        assert(up_to(content, next) =~= content);
    } else {
        lemma_clusters_enough(v, content.len(), ci + 1);
        assert(v.fat[cs[ci as int] as int] == cs[ci as int + 1]);
        assert(2 <= cs[ci as int + 1] < v.fat.len());
        lemma_chain_reads(v, cs, content, ci + 1);
    }
}

pub(crate) proof fn lemma_clusters_enough(v: Volume, len: nat, ci: nat)
    requires
        sound(v),
        512 * (ci * v.spc) < len,
    ensures
        ci < clusters_for(v, len),
{
    let s = v.spc as int;
    assert(ci * s >= 0) by (nonlinear_arith)
        requires
            ci >= 0,
            s >= 0,
    ;
    lemma_cluster_index(ci * s, ci as int, 0, s, len as int);
}

/// Whatever was stored in new clusters is what reading them from the first
/// one on gives, as long as the volume's cluster numbers leave the end
/// mark free and the chain is no longer than a reader follows.
pub proof fn law_stored_data_reads_back(v: Volume, content: Seq<u8>)
    requires
        sound(v),
        v.fat.len() <= 0x0FFF_FFFF,
        clusters_for(v, content.len()) <= 1_000_001,
        stored(v, content).0 is Ok,
    ensures
        file_data(stored(v, content).1, stored(v, content).0->Ok_0, content.len()) == Ok::<
            Seq<u8>,
            FatError,
        >(content),
{
    let n = clusters_for(v, content.len());
    if content.len() == 0 {
        assert(Seq::<u8>::empty() =~= content);
    } else {
        assert(0int * v.spc == 0) by (nonlinear_arith);
        lemma_clusters_enough(v, content.len(), 0);
        let (r, u) = allocated_many(v, n, Seq::empty());
        let cs = r->Ok_0;
        lemma_allocated_many(v, n, Seq::empty());
        lemma_linked(u, cs, (n - 1) as nat);
        let l = linked(u, cs, (n - 1) as nat);
        let w = with_entry(l, cs[n - 1] as int, EOF_MARK);
        assert forall|i: int| 0 <= i < cs.len() - 1 implies w.fat[#[trigger] cs[i] as int] == cs[i
            + 1] by {
            assert(cs[i] != cs[n - 1]);
        }
        let x = data_written(w, cs, content, 0).1;
        assert(sound(w));
        assert(512 * 0 < content.len());
        lemma_data_written(w, cs, content, 0, 0);
        assert forall|j: int| 0 <= 512 * j < content.len() implies part_in_place(
            x,
            cs,
            content,
            j,
        ) by {
            lemma_data_written(w, cs, content, 0, j);
        }
        lemma_chain_reads(x, cs, content, 0);
        assert(up_to(content, 0) =~= Seq::<u8>::empty());
    }
}

/// Every cluster on the chain that goes on with `c` is in use.
pub open spec fn chain_in_use(v: Volume, c: u32, guard: nat) -> bool
    decreases 1_000_001 - guard,
{
    guard > 1_000_000 || (!is_free(v, c) && match next_of(v, c) {
        None => true,
        Some(n) => n >= EOF_MARK || chain_in_use(v, n, guard + 1),
    })
}

/// No cluster on the chain that goes on with `c` is among `cs`.
pub open spec fn chain_avoids(v: Volume, c: u32, cs: Seq<u32>, guard: nat) -> bool
    decreases 1_000_001 - guard,
{
    guard > 1_000_000 || (!cs.contains(c) && match next_of(v, c) {
        None => true,
        Some(n) => n >= EOF_MARK || chain_avoids(v, n, cs, guard + 1),
    })
}

/// Entries of clusters that are in use in `v` are the same in `y`.
pub open spec fn keeps_used(v: Volume, y: Volume) -> bool {
    &&& y.fat.len() == v.fat.len()
    &&& forall|k: int|
        0 <= k < v.fat.len() && !(2 <= k && v.fat[k] % 0x1000_0000 == 0) ==> y.fat[k]
            == #[trigger] v.fat[k]
}

pub(crate) proof fn lemma_avoids(v: Volume, y: Volume, c: u32, cs: Seq<u32>, guard: nat)
    requires
        chain_in_use(v, c, guard),
        keeps_used(v, y),
        forall|i: int| 0 <= i < cs.len() ==> is_free(v, #[trigger] cs[i]),
    ensures
        chain_avoids(y, c, cs, guard),
    decreases 1_000_001 - guard,
{
    if guard <= 1_000_000 {
        if c < v.fat.len() {
            assert(y.fat[c as int] == v.fat[c as int]);
            if let Some(n) = next_of(v, c) {
                if n < EOF_MARK {
                    lemma_avoids(v, y, n, cs, guard + 1);
                }
            }
        }
    }
}

pub(crate) proof fn lemma_end_avoids(y: Volume, c: u32, cs: Seq<u32>, guard: nat)
    requires
        chain_avoids(y, c, cs, guard),
    ensures
        chain_end(y, c, guard) matches Some(last) ==> !cs.contains(last) && last < y.fat.len(),
    decreases 1_000_001 - guard,
{
    if guard <= 1_000_000 {
        if let Some(n) = next_of(y, c) {
            if n < EOF_MARK {
                lemma_end_avoids(y, n, cs, guard + 1);
            }
        }
    }
}

pub(crate) proof fn lemma_cluster_run_place(v: Volume, c: u32, s: int, n: int)
    requires
        0 <= s,
        n > 0,
    ensures
        cluster_run(v, c, s, n) matches Ok(Some(o)) ==> 0 <= o < v.spc * 512 && o % 32 == 0 && o
            % 512 + 32 * n <= 512 && 0 <= o / 512 < v.spc,
    decreases v.spc - s,
{
    if s < v.spc {
        if let Ok(sec) = sector_read(v.drive, cluster_sector(v, c) + s) {
            lemma_lowest_run(sec, 0, n);
            let b = lowest_run(sec, 0, n);
            if b < 16 {
                let o = s * 512 + b * 32;
                assert(o / 512 == s && o % 512 == b * 32);
            } else {
                lemma_cluster_run_place(v, c, s + 1, n);
            }
        }
    }
}

pub(crate) proof fn lemma_dir_run_place(y: Volume, c: u32, cs: Seq<u32>, n: int, guard: nat)
    requires
        chain_avoids(y, c, cs, guard),
        n > 0,
    ensures
        dir_run(y, c, n, guard) matches Ok(Some((pc, o))) ==> pc >= 2 && !cs.contains(pc) && 0 <= o
            && o % 32 == 0 && o % 512 + 32 * n <= 512 && 0 <= o / 512 < y.spc,
    decreases 1_000_001 - guard,
{
    if c >= 2 && guard <= 1_000_000 {
        lemma_cluster_run_place(y, c, 0, n);
        if let Ok(None) = cluster_run(y, c, 0, n) {
            if let Some(m) = next_of(y, c) {
                if m < EOF_MARK {
                    lemma_dir_run_place(y, m, cs, n, guard + 1);
                }
            }
        }
    }
}

pub(crate) proof fn lemma_cluster_disjoint(v: Volume, c: u32, d: u32, s: int, t: int)
    requires
        sound(v),
        c >= 2,
        d >= 2,
        c != d,
        0 <= s < v.spc,
        0 <= t < v.spc,
    ensures
        cluster_sector(v, c) + s != cluster_sector(v, d) + t,
{
    let n = v.spc as int;
    let (x, y) = (c - 2, d - 2);
    if x * n + s == y * n + t {
        vstd::arithmetic::div_mod::lemma_fundamental_div_mod_converse(x * n + s, n, x, s);
        vstd::arithmetic::div_mod::lemma_fundamental_div_mod_converse(y * n + t, n, y, t);
    }
}

pub(crate) proof fn lemma_cleared_keeps(v: Volume, c: u32, s: nat, d: u32, t: int)
    requires
        sound(v),
        c >= 2,
        d >= 2,
        c != d,
        0 <= t < v.spc,
        cleared(v, c, s as int).0 is Ok,
    ensures
        ({
            let w = cleared(v, c, s as int).1;
            &&& same_frame(v, w)
            &&& w.fat == v.fat
            &&& sector_read(w.drive, cluster_sector(v, d) + t) == sector_read(
                v.drive,
                cluster_sector(v, d) + t,
            )
        }),
    decreases v.spc - s,
{
    if s < v.spc {
        let lba = cluster_sector(v, c) + s;
        lemma_cluster_sector_bound(v, c);
        lemma_cluster_sector_bound(v, d);
        lemma_cluster_disjoint(v, c, d, s as int, t);
        lemma_write_keeps_others(v.drive, lba, cluster_sector(v, d) + t, zeros());
        let u = Volume { drive: sector_written(v.drive, lba, zeros())->Ok_0, ..v };
        assert(cluster_sector(u, d) == cluster_sector(v, d));
        lemma_cleared_keeps(u, c, s + 1, d, t);
    }
}

pub(crate) proof fn lemma_flush_keeps(v: Volume, i: nat, lba: int)
    requires
        sound(v),
        v.fat_count >= 1,
        v.first_data <= lba <= 0x2FF_FFFF_FFFF,
    ensures
        ({
            let w = flushed(v, i).1;
            &&& same_frame(v, w)
            &&& w.fat == v.fat
            &&& sector_read(w.drive, lba) == sector_read(v.drive, lba)
        }),
    decreases v.dirty.len() - i,
{
    if i < v.dirty.len() {
        if !v.dirty[i as int] {
            lemma_flush_keeps(v, i + 1, lba);
        } else {
            let at = (v.reserved + i) as int;
            let bytes = fat_sector(v.fat, i as int);
            assert(v.fat_count * v.fat_size >= v.fat_size) by (nonlinear_arith)
                requires
                    v.fat_count >= 1,
                    v.fat_size >= 0,
            ;
            if let Ok(d) = sector_written(v.drive, at, bytes) {
                lemma_write_keeps_others(v.drive, at, lba, bytes);
                lemma_flush_keeps(
                    Volume { drive: d, dirty: v.dirty.update(i as int, false), ..v },
                    i + 1,
                    lba,
                );
            }
        }
    }
}

/// Where the slots of a new entry went, and what then stands there.
pub open spec fn slots_in_place(w: Volume, c: u32, o: int, slots: Seq<Seq<u8>>) -> bool {
    &&& c >= 2
    &&& 0 <= o
    &&& o % 32 == 0
    &&& o % 512 + 32 * slots.len() <= 512
    &&& 0 <= o / 512 < w.spc
    &&& exists|old_sec: Seq<u8>|
        old_sec.len() == 512 && sector_read(w.drive, cluster_sector(w, c) + o / 512) == Ok::<
            Seq<u8>,
            FatError,
        >(#[trigger] splice(old_sec, o % 512, slot_bytes(slots)))
}

/// The place that a new entry's slots get.
pub open spec fn entry_place(v: Volume, parent: u32, n: int) -> (u32, int) {
    slots_place(v, parent, n).0->Ok_0
}

pub(crate) proof fn lemma_slots_place_keeps(v0: Volume, y: Volume, cs: Seq<u32>, parent: u32, n: int)
    requires
        sound(y),
        n > 0,
        n <= 16,
        chain_in_use(v0, parent, 0),
        keeps_used(v0, y),
        forall|i: int| 0 <= i < cs.len() ==> is_free(v0, #[trigger] cs[i]) && !is_free(y, cs[i]),
        forall|k: int| 2 <= k < v0.fat.len() && #[trigger] y.fat[k] % 0x1000_0000 == 0 ==> v0.fat[k]
            % 0x1000_0000 == 0,
        slots_place(y, parent, n).0 is Ok,
    ensures
        ({
            let w = slots_place(y, parent, n).1;
            let (c, o) = entry_place(y, parent, n);
            &&& same_frame(y, w)
            &&& sound(w)
            &&& c >= 2 && !cs.contains(c) && 0 <= o && o % 32 == 0 && o % 512 + 32 * n <= 512 && 0
                <= o / 512 < y.spc
            &&& forall|i: int| 0 <= i < cs.len() ==> w.fat[#[trigger] cs[i] as int]
                == y.fat[cs[i] as int]
            &&& forall|i: int, t: int|
                #![trigger cs[i], cluster_sector(y, cs[i]) + t]
                0 <= i < cs.len() && 0 <= t < y.spc ==> sector_read(
                    w.drive,
                    cluster_sector(y, cs[i]) + t,
                ) == sector_read(y.drive, cluster_sector(y, cs[i]) + t)
        }),
{
    lemma_avoids(v0, y, parent, cs, 0);
    lemma_dir_run_place(y, parent, cs, n, 0);
    if let Ok(None) = dir_run(y, parent, n, 0) {
        let (r, u) = allocated(y);
        lemma_lowest_free(y.fat, 2);
        let c = r->Ok_0;
        assert(!cs.contains(c)) by {
            if cs.contains(c) {
                let i = choose|i: int| 0 <= i < cs.len() && cs[i] == c;
                assert(!is_free(y, cs[i]));
            }
        }
        assert(keeps_used(v0, u)) by {
            assert(v0.fat[c as int] % 0x1000_0000 == 0);
        }
        lemma_avoids(v0, u, parent, cs, 0);
        lemma_end_avoids(u, parent, cs, 0);
        let last = chain_end(u, parent, 0)->0;
        let x = with_entry(u, last as int, c);
        let w = cleared(x, c, 0).1;
        assert(sound(x));
        assert forall|i: int, t: int|
            #![trigger cs[i], cluster_sector(y, cs[i]) + t]
            0 <= i < cs.len() && 0 <= t < y.spc implies sector_read(
            w.drive,
            cluster_sector(y, cs[i]) + t,
        ) == sector_read(y.drive, cluster_sector(y, cs[i]) + t) by {
            assert(is_free(v0, cs[i]));
            assert(cs[i] != c);
            lemma_cleared_keeps(x, c, 0, cs[i], t);
            assert(cluster_sector(x, cs[i]) == cluster_sector(y, cs[i]));
        }
        let other: u32 = if c == 2 { 3 } else { 2 };
        lemma_cleared_keeps(x, c, 0, other, 0);
        assert forall|i: int| 0 <= i < cs.len() implies w.fat[#[trigger] cs[i] as int]
            == y.fat[cs[i] as int] by {
            assert(cs.contains(cs[i]));
        }
    }
}

pub(crate) proof fn lemma_entered_keeps(
    v0: Volume,
    y: Volume,
    cs: Seq<u32>,
    parent: u32,
    slots: Seq<Seq<u8>>,
)
    requires
        sound(y),
        0 < slots.len() <= 16,
        chain_in_use(v0, parent, 0),
        keeps_used(v0, y),
        forall|i: int| 0 <= i < cs.len() ==> is_free(v0, #[trigger] cs[i]) && !is_free(y, cs[i]),
        forall|k: int| 2 <= k < v0.fat.len() && #[trigger] y.fat[k] % 0x1000_0000 == 0 ==> v0.fat[k]
            % 0x1000_0000 == 0,
        slots_place(y, parent, slots.len() as int).0 is Ok,
        slots_stored(
            slots_place(y, parent, slots.len() as int).1,
            entry_place(y, parent, slots.len() as int).0,
            entry_place(y, parent, slots.len() as int).1,
            slots,
        ).0 is Ok,
    ensures
        ({
            let (c, o) = entry_place(y, parent, slots.len() as int);
            let w = slots_stored(slots_place(y, parent, slots.len() as int).1, c, o, slots).1;
            &&& same_frame(y, w)
            &&& sound(w)
            &&& slots_in_place(w, c, o, slots)
            &&& forall|i: int| 0 <= i < cs.len() ==> w.fat[#[trigger] cs[i] as int]
                == y.fat[cs[i] as int]
            &&& forall|i: int, t: int|
                #![trigger cs[i], cluster_sector(y, cs[i]) + t]
                0 <= i < cs.len() && 0 <= t < y.spc ==> sector_read(
                    w.drive,
                    cluster_sector(y, cs[i]) + t,
                ) == sector_read(y.drive, cluster_sector(y, cs[i]) + t)
        }),
{
    let n = slots.len() as int;
    lemma_slots_place_keeps(v0, y, cs, parent, n);
    let p = slots_place(y, parent, n).1;
    let (c, o) = entry_place(y, parent, n);
    let lba = cluster_sector(p, c) + o / 512;
    lemma_cluster_sector_bound(p, c);
    let sec = sector_read(p.drive, lba)->Ok_0;
    let bytes = splice(sec, o % 512, slot_bytes(slots));
    let w = slots_stored(p, c, o, slots).1;
    lemma_write_keeps_others(p.drive, lba, lba, bytes);
    assert(cluster_sector(w, c) == cluster_sector(p, c));
    assert(sector_read(w.drive, cluster_sector(w, c) + o / 512) == Ok::<Seq<u8>, FatError>(bytes));
    assert forall|i: int, t: int|
        #![trigger cs[i], cluster_sector(y, cs[i]) + t]
        0 <= i < cs.len() && 0 <= t < y.spc implies sector_read(
        w.drive,
        cluster_sector(y, cs[i]) + t,
    ) == sector_read(y.drive, cluster_sector(y, cs[i]) + t) by {
        assert(is_free(v0, cs[i]));
        assert(cs.contains(cs[i]));
        assert(cluster_sector(p, cs[i]) == cluster_sector(y, cs[i]));
        lemma_cluster_sector_bound(p, cs[i]);
        lemma_cluster_disjoint(p, c, cs[i], o / 512, t);
        lemma_write_keeps_others(p.drive, lba, cluster_sector(y, cs[i]) + t, bytes);
    }
}

/// The state of a directory scan right before the slot at byte `o` of
/// cluster `pc`, on a chain that goes on with cluster `c`; none if the
/// scan does not get there.
pub open spec fn scan_to(v: Volume, c: u32, guard: nat, p: Scan, pc: u32, o: int) -> Option<Scan>
    decreases 1_000_001 - guard,
{
    if c < 2 || guard > 1_000_000 {
        None
    } else if c == pc {
        match after_sectors(v, c, p, (o / 512) as nat) {
            Err(_) => None,
            Ok(q) => if q.ended {
                None
            } else {
                match sector_read(v.drive, cluster_sector(v, c) + o / 512) {
                    Err(_) => None,
                    Ok(sec) => Some(after_slots(sec, c, o / 512, q, (o % 512 / 32) as nat)),
                }
            },
        }
    } else {
        match after_sectors(v, c, p, v.spc) {
            Err(_) => None,
            Ok(q) => if q.ended {
                None
            } else {
                match next_of(v, c) {
                    None => None,
                    Some(n) => if n >= EOF_MARK {
                        None
                    } else {
                        scan_to(v, n, guard + 1, q, pc, o)
                    },
                }
            },
        }
    }
}

/// The entries of `a` are the first entries of `b`.
pub open spec fn starts_with(b: Seq<Entry>, a: Seq<Entry>) -> bool {
    a.len() <= b.len() && b.take(a.len() as int) == a
}

pub(crate) proof fn lemma_starts_trans(a: Seq<Entry>, b: Seq<Entry>, c: Seq<Entry>)
    requires
        starts_with(b, a),
        starts_with(c, b),
    ensures
        starts_with(c, a),
{
    assert(c.take(a.len() as int) =~= c.take(b.len() as int).take(a.len() as int));
}

pub(crate) proof fn lemma_slots_grow(sec: Seq<u8>, c: u32, s: int, p: Scan, j: nat, k: nat)
    requires
        j <= k,
    ensures
        starts_with(after_slots(sec, c, s, p, k).out, after_slots(sec, c, s, p, j).out),
        after_slots(sec, c, s, p, j).ended ==> after_slots(sec, c, s, p, k).ended,
    decreases k,
{
    let a = after_slots(sec, c, s, p, j).out;
    if j < k {
        lemma_slots_grow(sec, c, s, p, j, (k - 1) as nat);
        let b = after_slots(sec, c, s, p, (k - 1) as nat).out;
        let d = after_slots(sec, c, s, p, k).out;
        assert(d.take(b.len() as int) =~= b);
        lemma_starts_trans(a, b, d);
    } else {
        assert(a.take(a.len() as int) =~= a);
    }
}

pub(crate) proof fn lemma_sectors_grow(v: Volume, c: u32, p: Scan, j: nat, k: nat)
    requires
        j <= k,
        after_sectors(v, c, p, k) is Ok,
    ensures
        after_sectors(v, c, p, j) is Ok,
        starts_with(after_sectors(v, c, p, k)->Ok_0.out, after_sectors(v, c, p, j)->Ok_0.out),
    decreases k,
{
    if j < k {
        lemma_sectors_grow(v, c, p, j, (k - 1) as nat);
        let q = after_sectors(v, c, p, (k - 1) as nat)->Ok_0;
        let a = after_sectors(v, c, p, j)->Ok_0.out;
        if !q.ended {
            let sec = sector_read(v.drive, cluster_sector(v, c) + k - 1)->Ok_0;
            lemma_slots_grow(sec, c, k - 1, q, 0, 16);
            lemma_starts_trans(a, q.out, after_slots(sec, c, k - 1, q, 16).out);
        }
    } else {
        let a = after_sectors(v, c, p, j)->Ok_0.out;
        assert(a.take(a.len() as int) =~= a);
    }
}

pub(crate) proof fn lemma_scan_grows(v: Volume, c: u32, guard: nat, p: Scan)
    requires
        scanned(v, c, guard, p) is Ok,
    ensures
        starts_with(scanned(v, c, guard, p)->Ok_0, p.out),
    decreases 1_000_001 - guard,
{
    lemma_sectors_grow(v, c, p, 0, v.spc);
    let q = after_sectors(v, c, p, v.spc)->Ok_0;
    if !q.ended && next_of(v, c)->0 < EOF_MARK {
        lemma_scan_grows(v, next_of(v, c)->0, guard + 1, q);
        lemma_starts_trans(p.out, q.out, scanned(v, c, guard, p)->Ok_0);
    }
}

/// A scan that gets to a place and goes on over `n` slots there lists what
/// those slots gave.
pub(crate) proof fn lemma_scan_through(
    v: Volume,
    c: u32,
    guard: nat,
    p: Scan,
    pc: u32,
    o: int,
    n: nat,
    found: Seq<Entry>,
)
    requires
        0 <= o,
        0 <= o / 512 < v.spc,
        o % 512 / 32 + n <= 16,
        scanned(v, c, guard, p) is Ok,
        scan_to(v, c, guard, p, pc, o) is Some,
        ({
            let sec = sector_read(v.drive, cluster_sector(v, pc) + o / 512)->Ok_0;
            forall|q: Scan|
                #![trigger after_slots(sec, pc, o / 512, q, (o % 512 / 32) as nat)]
                Some(after_slots(sec, pc, o / 512, q, (o % 512 / 32) as nat)) == scan_to(
                    v,
                    c,
                    guard,
                    p,
                    pc,
                    o,
                ) ==> after_slots(sec, pc, o / 512, q, (o % 512 / 32 + n) as nat).out == found
        }),
    ensures
        starts_with(scanned(v, c, guard, p)->Ok_0, found),
    decreases 1_000_001 - guard,
{
    let es = scanned(v, c, guard, p)->Ok_0;
    let q = after_sectors(v, c, p, v.spc)->Ok_0;
    let s = (o / 512) as nat;
    if c == pc {
        let q0 = after_sectors(v, c, p, s)->Ok_0;
        let sec = sector_read(v.drive, cluster_sector(v, pc) + s)->Ok_0;
        let k = (o % 512 / 32) as nat;
        assert(after_slots(sec, pc, s as int, q0, k + n).out == found);
        lemma_slots_grow(sec, pc, s as int, q0, k + n, 16);
        lemma_sectors_grow(v, c, p, s + 1, v.spc);
        let q1 = after_sectors(v, c, p, s + 1)->Ok_0;
        assert(q1 == after_slots(sec, pc, s as int, q0, 16));
        lemma_starts_trans(found, q1.out, q.out);
        if q.ended {
            assert(es == q.out);
        } else if next_of(v, c)->0 >= EOF_MARK {
            assert(es == q.out);
        } else {
            lemma_scan_grows(v, next_of(v, c)->0, guard + 1, q);
            lemma_starts_trans(found, q.out, es);
        }
    } else {
        lemma_scan_through(v, next_of(v, c)->0, guard + 1, q, pc, o, n, found);
    }
}

pub(crate) proof fn lemma_one_long_slot(
    sec: Seq<u8>,
    at: int,
    c: u32,
    s: int,
    m: Scan,
    number: u8,
    part: Seq<u16>,
    last: bool,
    checksum: u8,
)
    requires
        !m.ended,
        1 <= number <= 10,
        part.len() == 13,
        forall|p: int|
            0 <= p < 32 ==> #[trigger] sec[at + p] == lfn_slot(number, part, last, checksum)[p],
    ensures
        after_slot(sec, at, c, s, m) == (Scan { lfn: seq![part] + m.lfn, ..m }),
{
    let slot = lfn_slot(number, part, last, checksum);
    assert(1 <= number && number <= 10 ==> number | 0x40u8 != 0 && number | 0x40u8 != 0xE5)
        by (bit_vector);
    lemma_slot_part(sec, at, slot);
    law_lfn_slot_round_trip(number, part, last, checksum);
}

pub(crate) proof fn lemma_slot_part(sec: Seq<u8>, at: int, slot: Seq<u8>)
    requires
        forall|p: int| 0 <= p < 32 ==> #[trigger] sec[at + p] == slot[p],
    ensures
        sec[at] == slot[0],
        sec[at + 0x0B] == slot[0x0B],
        lfn_part(sec, at) == lfn_part(slot, 0),
{
    assert(sec[at + 0] == slot[0]);
    assert forall|j: int| 0 <= j < 13 implies le16(sec, at + lfn_pos(j)) == le16(
        slot,
        0 + lfn_pos(j),
    ) by {
        let p = lfn_pos(j);
        assert(0 <= p && p + 1 < 32);
        assert(sec[at + p] == slot[p]);
        assert(sec[at + (p + 1)] == slot[p + 1]);
    }
    assert(lfn_part(sec, at) =~= lfn_part(slot, 0));
}

/// The long-name slots of a name, taken in one by one from slot `b` on,
/// leave the parts pending in order.
pub(crate) proof fn lemma_long_slots(
    sec: Seq<u8>,
    c: u32,
    s: int,
    q: Scan,
    b: nat,
    u: Seq<u16>,
    count: nat,
    checksum: u8,
    i: nat,
)
    requires
        sec.len() == 512,
        i <= count <= 10,
        b + count <= 16,
        !after_slots(sec, c, s, q, b).ended,
        forall|k: int, p: int|
            #![trigger sec[32 * (b + k) + p]]
            0 <= k < count && 0 <= p < 32 ==> sec[32 * (b + k) + p] == lfn_slot(
                (count - k) as u8,
                name_part(u, count - k - 1),
                count - k == 1,
                checksum,
            )[p],
    ensures
        ({
            let a = after_slots(sec, c, s, q, b);
            after_slots(sec, c, s, q, b + i) == (Scan {
                lfn: name_parts(u, count - i, count as int) + a.lfn,
                ..a
            })
        }),
    decreases i,
{
    let a = after_slots(sec, c, s, q, b);
    if i == 0 {
        assert(name_parts(u, count as int, count as int) + a.lfn =~= a.lfn);
    } else {
        lemma_long_slots(sec, c, s, q, b, u, count, checksum, (i - 1) as nat);
        let k = i - 1;
        let at = 32 * (b + k);
        let number = (count - k) as u8;
        let part = name_part(u, count - k - 1);
        let slot = lfn_slot(number, part, count - k == 1, checksum);
        assert forall|p: int| 0 <= p < 32 implies #[trigger] sec[at + p] == slot[p] by {
            assert(sec[32 * (b + k) + p] == slot[p]);
        }
        let m = after_slots(sec, c, s, q, (b + i - 1) as nat);
        lemma_one_long_slot(sec, at, c, s, m, number, part, count - k == 1, checksum);
        let before = name_parts(u, count - (i - 1), count as int) + a.lfn;
        assert(seq![part] + before =~= name_parts(u, count - i, count as int) + a.lfn);
    }
}

/// Taking in the slots of an entry from slot `b` on lists the entry.
pub(crate) proof fn lemma_entry_slots_list(
    sec: Seq<u8>,
    c: u32,
    s: int,
    q: Scan,
    b: nat,
    name: Seq<char>,
    is_dir: bool,
    now: DateTime,
    first: u32,
    size: u32,
)
    requires
        sec.len() == 512,
        valid_name(name),
        storable(name),
        b + lfn_count(name.len()) + 1 <= 16,
        !after_slots(sec, c, s, q, b).ended,
        after_slots(sec, c, s, q, b).lfn.len() == 0 || name.len() % 13 != 0,
        ({
            let slots = entry_slots(name, is_dir, now, first, size);
            forall|k: int, p: int|
                #![trigger sec[32 * (b + k) + p]]
                0 <= k < slots.len() && 0 <= p < 32 ==> sec[32 * (b + k) + p] == slots[k][p]
        }),
    ensures
        after_slots(sec, c, s, q, b + lfn_count(name.len()) + 1).out == after_slots(
            sec,
            c,
            s,
            q,
            b,
        ).out.push(
            Entry {
                name,
                is_dir,
                size,
                first_cluster: first,
                cluster: c,
                offset: s * 512 + 32 * (b + lfn_count(name.len())),
            },
        ),
        after_slots(sec, c, s, q, b + lfn_count(name.len()) + 1).lfn.len() == 0,
        !after_slots(sec, c, s, q, b + lfn_count(name.len()) + 1).ended,
{
    let a = after_slots(sec, c, s, q, b);
    let u = name_units(name);
    let count = lfn_count(name.len());
    let sfn = short_name(name);
    let sum = short_checksum(sfn);
    let slots = entry_slots(name, is_dir, now, first, size);
    lemma_encoded_len(name);
    lemma_lfn_slots(u, count, sum);
    assert(slots.len() == count + 1);
    assert forall|k: int, p: int|
        #![trigger sec[32 * (b + k) + p]]
        0 <= k < count && 0 <= p < 32 implies sec[32 * (b + k) + p] == lfn_slot(
        (count - k) as u8,
        name_part(u, count - k - 1),
        count - k == 1,
        sum,
    )[p] by {
        assert(slots[k] == lfn_slots(u, count, sum)[k]);
    }
    lemma_long_slots(sec, c, s, q, b, u, count, sum, count);
    let m = after_slots(sec, c, s, q, b + count);
    assert(m.lfn =~= name_parts(u, 0, count as int) + a.lfn);
    let at = 32 * (b + count as int);
    let slot = sfn_slot(sfn, is_dir, now, first, size);
    assert(slots[count as int] == slot);
    assert forall|p: int| 0 <= p < 32 implies #[trigger] sec[at + p] == slot[p] by {
        assert(sec[32 * (b + count as int) + p] == slots[count as int][p]);
    }
    lemma_short_name_start(name);
    law_sfn_slot_round_trip(sfn, is_dir, now, first, size);
    assert(sec[at + 0] == slot[0]);
    assert(slot[0] == sfn[0]);
    assert(sec[at + 0x0B] == if is_dir {
        0x10u8
    } else {
        0x20u8
    });
    assert(0x20u8 & 0x10u8 == 0 && 0x10u8 & 0x10u8 != 0) by (bit_vector);
    assert(sec[at + 0x14] == slot[0x14] && sec[at + 0x15] == slot[0x15]);
    assert(sec[at + 0x1A] == slot[0x1A] && sec[at + 0x1B] == slot[0x1B]);
    assert(sec[at + 0x1C] == slot[0x1C] && sec[at + 0x1D] == slot[0x1D]);
    assert(sec[at + 0x1E] == slot[0x1E] && sec[at + 0x1F] == slot[0x1F]);
    assert(slot_cluster(sec, at) == first);
    assert(le32(sec, at + 0x1C) == size);
    law_long_name_before(name, a.lfn);
    assert(count > 0);
    assert(name_parts(u, 0, count as int).len() == count);
    assert(slot_name(sec, at, m.lfn) == name);
    assert(listed(name)) by {
        if name == seq!['.'] || name == seq!['.', '.'] {
            assert(name[0] == '.');
        }
    }
}

pub(crate) proof fn lemma_no_earlier(
    es: Seq<Entry>,
    found: Seq<Entry>,
    name: Seq<char>,
    want: Want,
    i: int,
)
    requires
        starts_with(es, found),
        found.len() > 0,
        0 <= i < found.len(),
        forall|k: int|
            0 <= k < found.len() - 1 ==> !is_wanted(#[trigger] found[k], name, want),
        is_wanted(found.last(), name, want),
    ensures
        first_wanted(es, name, want, i) == found.len() - 1,
    decreases found.len() - i,
{
    assert(es[i] == es.take(found.len() as int)[i]);
    assert(es[i] == found[i]);
    if i < found.len() - 1 {
        lemma_no_earlier(es, found, name, want, i + 1);
    }
}

/// The volume to which a file of this path is added: without the file that
/// stood there before.
pub open spec fn made_ready(v: Volume, path: Seq<char>) -> Volume {
    match parent_of(v, path) {
        Ok((parent, name)) => match entry_in(v, parent, name) {
            Some(e) => dropped(v, e).1,
            None => v,
        },
        Err(_) => v,
    }
}

pub(crate) proof fn lemma_freed_frame(v: Volume, c: u32, guard: nat)
    requires
        sound(v),
    ensures
        sound(freed(v, c, guard).1),
        same_frame(v, freed(v, c, guard).1),
    decreases 1_000_001 - guard,
{
    if c < EOF_MARK && !(c < 2 || guard > 1_000_000 || c >= v.fat.len()) {
        let u = Volume {
            free: if v.free < u32::MAX {
                (v.free + 1) as u32
            } else {
                v.free
            },
            ..with_entry(v, c as int, 0)
        };
        lemma_freed_frame(u, (v.fat[c as int] % 0x1000_0000) as u32, guard + 1);
    }
}

pub(crate) proof fn lemma_ready_sound(v: Volume, path: Seq<char>)
    requires
        sound(v),
    ensures
        sound(made_ready(v, path)),
        same_frame(v, made_ready(v, path)),
{
    if let Ok((parent, name)) = parent_of(v, path) {
        if let Some(e) = entry_in(v, parent, name) {
            let u = entry_deleted(v, e.cluster, e.offset).1;
            assert(u.drive.media.len() == v.drive.media.len());
            lemma_freed_frame(u, e.first_cluster, 0);
        }
    }
}

pub(crate) proof fn lemma_added_file_reads_back(
    v: Volume,
    parent: u32,
    name: Seq<char>,
    content: Seq<u8>,
    now: DateTime,
)
    requires
        sound(v),
        v.fat_count >= 1,
        v.fat.len() <= 0x0FFF_FFFF,
        content.len() <= 0xFFFF_FFFF,
        clusters_for(v, content.len()) <= 1_000_001,
        valid_name(name),
        storable(name),
        chain_in_use(v, parent, 0),
        file_put(v, parent, name, content, now).0 is Ok,
        ({
            let w = file_put(v, parent, name, content, now).1;
            let (c, o) = entry_place(
                stored(v, content).1,
                parent,
                (lfn_count(name.len()) + 1) as int,
            );
            &&& listing(w, parent) is Ok
            &&& scan_to(w, parent, 0, no_scan(), c, o) matches Some(q) && !q.ended && (q.lfn.len()
                == 0 || name.len() % 13 != 0) && forall|i: int|
                0 <= i < q.out.len() ==> !is_wanted(#[trigger] q.out[i], name, Want::Any)
        }),
    ensures
        ({
            let w = file_put(v, parent, name, content, now).1;
            let e = lookup(listing(w, parent)->Ok_0, name, Want::File);
            &&& e is Some
            &&& file_data(w, e->0.first_cluster, e->0.size as nat) == Ok::<Seq<u8>, FatError>(
                content,
            )
        }),
{
    let y = stored(v, content).1;
    let first = stored(v, content).0->Ok_0;
    let size = content.len() as u32;
    let slots = entry_slots(name, false, now, first, size);
    let n = (lfn_count(name.len()) + 1) as int;
    lemma_encoded_len(name);
    lemma_lfn_slots(
        name_units(name),
        lfn_count(name.len()),
        short_checksum(short_name(name)),
    );
    assert(slots.len() == n);
    let cs = lemma_stored(v, content);
    lemma_entered_keeps(v, y, cs, parent, slots);
    let (c, o) = entry_place(y, parent, n);
    let x = slots_stored(slots_place(y, parent, n).1, c, o, slots).1;
    assert(entered(y, parent, name, first, size, false, now).1 == x);
    let w = flushed(x, 0).1;
    lemma_cluster_sector_bound(x, c);
    assert(0 <= (c - 2) * x.spc) by (nonlinear_arith)
        requires
            c >= 2,
            x.spc >= 0,
    ;
    lemma_flush_keeps(x, 0, cluster_sector(x, c) + o / 512);
    assert(cluster_sector(w, c) == cluster_sector(x, c));
    assert(slots_in_place(w, c, o, slots)) by {
        let old_sec = choose|old_sec: Seq<u8>|
            old_sec.len() == 512 && sector_read(x.drive, cluster_sector(x, c) + o / 512) == Ok::<
                Seq<u8>,
                FatError,
            >(#[trigger] splice(old_sec, o % 512, slot_bytes(slots)));
        assert(sector_read(w.drive, cluster_sector(w, c) + o / 512) == Ok::<Seq<u8>, FatError>(
            splice(old_sec, o % 512, slot_bytes(slots)),
        ));
    }
    if content.len() == 0 {
        assert(Seq::<u8>::empty() =~= content);
    } else {
        lemma_data_survives(y, x, cs, content);
    }
    lemma_new_entry_found(w, parent, c, o, name, false, now, first, size);
}

/// Data that no other cluster's change touched reads back after the FAT
/// was flushed.
pub(crate) proof fn lemma_data_survives(y: Volume, x: Volume, cs: Seq<u32>, content: Seq<u8>)
    requires
        sound(y),
        sound(x),
        same_frame(y, x),
        x.fat_count >= 1,
        x.fat.len() <= 0x0FFF_FFFF,
        content.len() > 0,
        cs.len() == clusters_for(y, content.len()),
        cs.len() <= 1_000_001,
        forall|i: int| 0 <= i < cs.len() ==> 2 <= #[trigger] cs[i] < y.fat.len(),
        forall|i: int| 0 <= i < cs.len() - 1 ==> y.fat[#[trigger] cs[i] as int] == cs[i + 1],
        forall|j: int| 0 <= 512 * j < content.len() ==> part_in_place(y, cs, content, j),
        forall|i: int| 0 <= i < cs.len() ==> x.fat[#[trigger] cs[i] as int] == y.fat[cs[i] as int],
        forall|i: int, t: int|
            #![trigger cs[i], cluster_sector(y, cs[i]) + t]
            0 <= i < cs.len() && 0 <= t < y.spc ==> sector_read(
                x.drive,
                cluster_sector(y, cs[i]) + t,
            ) == sector_read(y.drive, cluster_sector(y, cs[i]) + t),
    ensures
        file_data(flushed(x, 0).1, cs[0], content.len()) == Ok::<Seq<u8>, FatError>(content),
{
    let w = flushed(x, 0).1;
    lemma_cluster_sector_bound(x, 2);
    assert((2 - 2) * x.spc == 0) by (nonlinear_arith);
    lemma_flush_keeps(x, 0, cluster_sector(x, 2));
    assert forall|j: int| 0 <= 512 * j < content.len() implies part_in_place(w, cs, content, j) by {
        lemma_sector_of_part(y, cs, content.len(), j);
        let (i, t) = (j / (y.spc as int), j % (y.spc as int));
        let lba = cluster_sector(y, cs[i]) + t;
        assert(part_in_place(y, cs, content, j));
        assert(data_sector(y, cs, j) == lba);
        assert(sector_read(x.drive, lba) == sector_read(y.drive, lba));
        lemma_cluster_sector_bound(y, cs[i]);
        assert(0 <= (cs[i] - 2) * y.spc) by (nonlinear_arith)
            requires
                cs[i] >= 2,
                y.spc >= 0,
        ;
        lemma_flush_keeps(x, 0, lba);
        assert(data_sector(w, cs, j) == lba);
    }
    assert forall|i: int| 0 <= i < cs.len() - 1 implies w.fat[#[trigger] cs[i] as int] == cs[i
        + 1] by {
        assert(x.fat[cs[i] as int] == y.fat[cs[i] as int]);
    }
    assert(0int * w.spc == 0) by (nonlinear_arith);
    lemma_clusters_enough(w, content.len(), 0);
    lemma_chain_reads(w, cs, content, 0);
    assert(up_to(content, 0) =~= Seq::<u8>::empty());
}

/// A directory in which an entry's slots are in place, with nothing in the
/// way before them, lists the entry, and a lookup finds it.
#[verifier::spinoff_prover]
#[verifier::rlimit(60)]
pub(crate) proof fn lemma_new_entry_found(
    w: Volume,
    parent: u32,
    c: u32,
    o: int,
    name: Seq<char>,
    is_dir: bool,
    now: DateTime,
    first: u32,
    size: u32,
)
    requires
        sound(w),
        valid_name(name),
        storable(name),
        slots_in_place(w, c, o, entry_slots(name, is_dir, now, first, size)),
        listing(w, parent) is Ok,
        scan_to(w, parent, 0, no_scan(), c, o) matches Some(q) && !q.ended && (q.lfn.len() == 0
            || name.len() % 13 != 0) && forall|i: int|
            0 <= i < q.out.len() ==> !is_wanted(#[trigger] q.out[i], name, Want::Any),
    ensures
        ({
            let es = listing(w, parent)->Ok_0;
            let want = if is_dir { Want::Dir } else { Want::File };
            &&& lookup(es, name, Want::Any) matches Some(e) && e.is_dir == is_dir
                && e.first_cluster == first && e.size == size
            &&& lookup(es, name, want) == lookup(es, name, Want::Any)
        }),
{
    let slots = entry_slots(name, is_dir, now, first, size);
    let n = (lfn_count(name.len()) + 1) as int;
    lemma_encoded_len(name);
    lemma_lfn_slots(
        name_units(name),
        lfn_count(name.len()),
        short_checksum(short_name(name)),
    );
    assert(slots.len() == n);
    let sec = sector_read(w.drive, cluster_sector(w, c) + o / 512)->Ok_0;
    let b = (o % 512 / 32) as nat;
    let q = scan_to(w, parent, 0, no_scan(), c, o)->0;
    let e = Entry {
        name,
        is_dir,
        size,
        first_cluster: first,
        cluster: c,
        offset: (o / 512) * 512 + 32 * (b + lfn_count(name.len())),
    };
    let found = q.out.push(e);
    let old_sec = choose|old_sec: Seq<u8>|
        old_sec.len() == 512 && sector_read(w.drive, cluster_sector(w, c) + o / 512) == Ok::<
            Seq<u8>,
            FatError,
        >(#[trigger] splice(old_sec, o % 512, slot_bytes(slots)));
    assert(sec.len() == 512);
    assert forall|k: int, p: int|
        #![trigger sec[32 * (b + k) + p]]
        0 <= k < slots.len() && 0 <= p < 32 implies sec[32 * (b + k) + p] == slots[k][p] by {
        let at = 32 * k + p;
        assert(at / 32 == k && at % 32 == p);
        assert(32 * b == o % 512);
        assert(slot_bytes(slots)[at] == slots[k][p]);
    }
    assert forall|r: Scan|
        #![trigger after_slots(sec, c, o / 512, r, b)]
        Some(after_slots(sec, c, o / 512, r, b)) == scan_to(w, parent, 0, no_scan(), c, o) implies
        after_slots(sec, c, o / 512, r, (o % 512 / 32 + n) as nat).out == found by {
        lemma_entry_slots_list(sec, c, o / 512, r, b, name, is_dir, now, first, size);
    }
    lemma_scan_through(w, parent, 0, no_scan(), c, o, n as nat, found);
    let es = listing(w, parent)->Ok_0;
    crate::fatname::law_same_name_is_equivalence(name, name, name);
    assert(found.last() == e);
    let want = if is_dir { Want::Dir } else { Want::File };
    assert forall|k: int| 0 <= k < found.len() - 1 implies !is_wanted(
        #[trigger] found[k],
        name,
        Want::Any,
    ) && !is_wanted(found[k], name, want) by {
        assert(found[k] == q.out[k]);
    }
    lemma_no_earlier(es, found, name, Want::Any, 0);
    lemma_no_earlier(es, found, name, want, 0);
    assert(es[found.len() - 1] == es.take(found.len() as int)[found.len() - 1]);
    assert(lookup(es, name, want) == Some(e));
}

/// The clusters that stored content lies in, and what is known of them.
#[verifier::spinoff_prover]
pub(crate) proof fn lemma_stored(v: Volume, content: Seq<u8>) -> (cs: Seq<u32>)
    requires
        sound(v),
        v.fat.len() <= 0x0FFF_FFFF,
        stored(v, content).0 is Ok,
    ensures
        ({
            let y = stored(v, content).1;
            &&& sound(y)
            &&& same_frame(v, y)
            &&& keeps_used(v, y)
            &&& forall|i: int| 0 <= i < cs.len() ==> is_free(v, #[trigger] cs[i]) && !is_free(
                y,
                cs[i],
            )
            &&& forall|k: int|
                2 <= k < v.fat.len() && #[trigger] y.fat[k] % 0x1000_0000 == 0 ==> v.fat[k]
                    % 0x1000_0000 == 0
            &&& forall|k: u32, t: int|
                #![trigger sector_read(y.drive, cluster_sector(v, k) + t)]
                k >= 2 && !is_free(v, k) && 0 <= t < v.spc ==> sector_read(
                    y.drive,
                    cluster_sector(v, k) + t,
                ) == sector_read(v.drive, cluster_sector(v, k) + t)
            &&& content.len() > 0 ==> {
                &&& cs.len() == clusters_for(v, content.len())
                &&& cs.len() > 0
                &&& stored(v, content).0->Ok_0 == cs[0]
                &&& forall|i: int|
                    0 <= i < cs.len() - 1 ==> y.fat[#[trigger] cs[i] as int] == cs[i + 1]
                &&& y.fat[cs.last() as int] == EOF_MARK
                &&& forall|j: int| 0 <= 512 * j < content.len() ==> part_in_place(y, cs, content, j)
            }
        }),
{
    let n = clusters_for(v, content.len());
    if content.len() == 0 {
        let b = v.spc as int * 512;
        assert(b - 1 < b && 0 <= b - 1);
        vstd::arithmetic::div_mod::lemma_basic_div(b - 1, b);
        assert(n == 0);
        return Seq::empty();
    }
    assert(0int * v.spc == 0) by (nonlinear_arith);
    lemma_clusters_enough(v, content.len(), 0);
    let (r, u) = allocated_many(v, n, Seq::empty());
    let cs = r->Ok_0;
    lemma_allocated_many(v, n, Seq::empty());
    lemma_linked(u, cs, (n - 1) as nat);
    let l = linked(u, cs, (n - 1) as nat);
    let w = with_entry(l, cs[n - 1] as int, EOF_MARK);
    assert forall|i: int| 0 <= i < cs.len() - 1 implies w.fat[#[trigger] cs[i] as int] == cs[i
        + 1] by {
        assert(cs[i] != cs[n - 1]);
    }
    let y = data_written(w, cs, content, 0).1;
    assert(sound(w));
    lemma_data_written(w, cs, content, 0, 0);
    assert forall|j: int| 0 <= 512 * j < content.len() implies part_in_place(y, cs, content, j) by {
        lemma_data_written(w, cs, content, 0, j);
    }
    assert forall|k: int|
        0 <= k < v.fat.len() && !(2 <= k && v.fat[k] % 0x1000_0000 == 0) implies y.fat[k]
        == #[trigger] v.fat[k] by {
        assert forall|i: int| 0 <= i < cs.len() implies cs[i] != k by {
            assert(is_free(v, cs[i]));
        }
        assert(u.fat[k] == v.fat[k]);
        assert(l.fat[k] == u.fat[k]);
        assert(is_free(v, cs[n - 1]));
    }
    assert forall|i: int| 0 <= i < cs.len() implies is_free(v, #[trigger] cs[i]) && !is_free(
        y,
        cs[i],
    ) by {
        if i < cs.len() - 1 {
            assert(y.fat[cs[i] as int] == cs[i + 1]);
            assert(is_free(v, cs[i + 1]));
        }
    }
    assert forall|k: u32, t: int|
        #![trigger sector_read(y.drive, cluster_sector(v, k) + t)]
        k >= 2 && !is_free(v, k) && 0 <= t < v.spc implies sector_read(
        y.drive,
        cluster_sector(v, k) + t,
    ) == sector_read(v.drive, cluster_sector(v, k) + t) by {
        assert(!cs.contains(k)) by {
            if cs.contains(k) {
                let i = choose|i: int| 0 <= i < cs.len() && cs[i] == k;
                assert(is_free(v, cs[i]));
            }
        }
        lemma_data_written_keeps(w, cs, content, 0, k, t);
        assert(cluster_sector(w, k) == cluster_sector(v, k));
    }
    cs
}

/// Writing data into clusters leaves the sectors of any other alone.
pub(crate) proof fn lemma_data_written_keeps(v: Volume, cs: Seq<u32>, content: Seq<u8>, j: nat, k: u32, t: int)
    requires
        sound(v),
        cs.len() == clusters_for(v, content.len()),
        forall|i: int| 0 <= i < cs.len() ==> 2 <= #[trigger] cs[i],
        data_written(v, cs, content, j).0 is Ok,
        k >= 2,
        !cs.contains(k),
        0 <= t < v.spc,
    ensures
        sector_read(data_written(v, cs, content, j).1.drive, cluster_sector(v, k) + t)
            == sector_read(v.drive, cluster_sector(v, k) + t),
    decreases (if 512 * j < content.len() { content.len() - 512 * j } else { 0 }),
{
    if 512 * j < content.len() {
        let lba = data_sector(v, cs, j as int);
        let bytes = padded_sector(content, j as int);
        let u = Volume { drive: sector_written(v.drive, lba, bytes)->Ok_0, ..v };
        lemma_sector_of_part(v, cs, content.len(), j as int);
        lemma_cluster_sector_bound(v, k);
        let i = j as int / (v.spc as int);
        assert(cs.contains(cs[i]));
        lemma_cluster_disjoint(v, cs[i], k, j as int % (v.spc as int), t);
        lemma_write_keeps_others(v.drive, lba, cluster_sector(v, k) + t, bytes);
        assert(cluster_sector(u, k) == cluster_sector(v, k));
        lemma_data_written_keeps(u, cs, content, j + 1, k, t);
    }
}

// ---------------------------------------------------------------------
// Files read back as written
// ---------------------------------------------------------------------

/// Whether every sector of a cluster can be read.
pub open spec fn readable(v: Volume, c: u32) -> bool {
    forall|t: int|
        0 <= t < v.spc ==> (#[trigger] sector_read(v.drive, cluster_sector(v, c) + t)) is Ok
}

/// Whether the chain that goes on with `c` leads through readable clusters
/// in use to an end mark, with room for one more cluster.
pub open spec fn chain_intact(v: Volume, c: u32, guard: nat) -> bool
    decreases 1_000_001 - guard,
{
    if guard < 1_000_000 && 2 <= c < v.fat.len() {
        let n = (v.fat[c as int] % 0x1000_0000) as u32;
        &&& !is_free(v, c)
        &&& readable(v, c)
        &&& n >= EOF_MARK || chain_intact(v, n, guard + 1)
    } else {
        false
    }
}

/// Whether cluster `k` is on the chain that goes on with `c`.
pub open spec fn on_chain(v: Volume, c: u32, guard: nat, k: u32) -> bool
    decreases 1_000_001 - guard,
{
    guard <= 1_000_000 && (c == k || match next_of(v, c) {
        None => false,
        Some(n) => n < EOF_MARK && on_chain(v, n, guard + 1, k),
    })
}

/// Whether every cluster on the chain that goes on with `c` is in use and
/// not on that of the directory `parent`.
pub open spec fn apart(v: Volume, c: u32, guard: nat, parent: u32) -> bool
    decreases 1_000_001 - guard,
{
    guard > 1_000_000 || (!is_free(v, c) && !on_chain(v, parent, 0, c) && match next_of(v, c) {
        None => true,
        Some(n) => n >= EOF_MARK || apart(v, n, guard + 1, parent),
    })
}

/// Whether the directories that the components lead through from `c` on in
/// `v` are, in `u`, in use and apart from `parent`.
pub open spec fn way_apart(v: Volume, u: Volume, c: u32, comps: Seq<Seq<char>>, parent: u32) -> bool
    decreases comps.len(),
{
    comps.len() > 0 ==> {
        &&& apart(u, c, 0, parent)
        &&& match listing(v, c) {
            Err(_) => true,
            Ok(es) => match lookup(es, comps[0], Want::Dir) {
                None => true,
                Some(e) => way_apart(v, u, e.first_cluster, comps.skip(1), parent),
            },
        }
    }
}

/// The scan of a directory right before a place in it or, without one, up
/// to its end; none if the scan does not get there.
pub open spec fn scan_before(
    v: Volume,
    c: u32,
    guard: nat,
    p: Scan,
    place: Option<(u32, int)>,
) -> Option<Scan>
    decreases 1_000_001 - guard,
{
    if c < 2 || guard > 1_000_000 {
        None
    } else if place matches Some((pc, _)) && pc == c {
        scan_to(v, c, guard, p, c, (place->0).1)
    } else {
        match after_sectors(v, c, p, v.spc) {
            Err(_) => None,
            Ok(q) => if q.ended {
                None
            } else {
                match next_of(v, c) {
                    None => None,
                    Some(n) => if n >= EOF_MARK {
                        if place is None {
                            Some(q)
                        } else {
                            None
                        }
                    } else {
                        scan_before(v, n, guard + 1, q, place)
                    },
                }
            },
        }
    }
}

/// Whether a reader of the directory gets to the place where the slots of
/// a new entry go: before it there is no end mark, no entry of that name,
/// and no long-name slot without its short-name slot that the name would
/// run into.
pub open spec fn place_in_sight(v: Volume, parent: u32, name: Seq<char>) -> bool {
    let n = (lfn_count(name.len()) + 1) as int;
    &&& dir_run(v, parent, n, 0) is Ok
    &&& scan_before(v, parent, 0, no_scan(), dir_run(v, parent, n, 0)->Ok_0) matches Some(q)
        && !q.ended && (q.lfn.len() == 0 || name.len() % 13 != 0) && forall|i: int|
        0 <= i < q.out.len() ==> !is_wanted(#[trigger] q.out[i], name, Want::Any)
}

/// The cluster has the same successor and the same sectors in both.
pub open spec fn untouched(v: Volume, w: Volume, k: u32) -> bool {
    &&& next_of(w, k) == next_of(v, k)
    &&& same_sectors(v, w, k)
}

pub open spec fn same_sectors(v: Volume, w: Volume, k: u32) -> bool {
    forall|t: int|
        0 <= t < v.spc ==> #[trigger] sector_read(w.drive, cluster_sector(v, k) + t)
            == sector_read(v.drive, cluster_sector(v, k) + t)
}

pub(crate) proof fn lemma_untouched_trans(u: Volume, v: Volume, w: Volume, k: u32)
    requires
        same_frame(u, v),
        untouched(u, v, k),
        untouched(v, w, k),
    ensures
        untouched(u, w, k),
{
    assert(cluster_sector(u, k) == cluster_sector(v, k));
    assert forall|t: int| 0 <= t < u.spc implies #[trigger] sector_read(
        w.drive,
        cluster_sector(u, k) + t,
    ) == sector_read(u.drive, cluster_sector(u, k) + t) by {
        assert(sector_read(w.drive, cluster_sector(v, k) + t) == sector_read(
            v.drive,
            cluster_sector(v, k) + t,
        ));
        assert(sector_read(v.drive, cluster_sector(u, k) + t) == sector_read(
            u.drive,
            cluster_sector(u, k) + t,
        ));
    }
}

pub(crate) proof fn lemma_readable_frame(v: Volume, w: Volume, c: u32)
    requires
        same_frame(v, w),
        readable(v, c),
    ensures
        readable(w, c),
{
    assert forall|t: int| 0 <= t < w.spc implies (#[trigger] sector_read(
        w.drive,
        cluster_sector(w, c) + t,
    )) is Ok by {
        assert(sector_read(v.drive, cluster_sector(v, c) + t) is Ok);
    }
}

pub(crate) proof fn lemma_intact_in_use(v: Volume, c: u32, guard: nat)
    requires
        chain_intact(v, c, guard),
    ensures
        chain_in_use(v, c, guard),
    decreases 1_000_001 - guard,
{
    let n = (v.fat[c as int] % 0x1000_0000) as u32;
    if n < EOF_MARK {
        lemma_intact_in_use(v, n, guard + 1);
    }
}

pub(crate) proof fn lemma_keeps_intact(v: Volume, y: Volume, c: u32, guard: nat)
    requires
        chain_intact(v, c, guard),
        keeps_used(v, y),
        same_frame(v, y),
    ensures
        chain_intact(y, c, guard),
        forall|k: u32| on_chain(y, c, guard, k) == #[trigger] on_chain(v, c, guard, k),
        chain_end(y, c, guard) == chain_end(v, c, guard),
    decreases 1_000_001 - guard,
{
    assert(y.fat[c as int] == v.fat[c as int]);
    lemma_readable_frame(v, y, c);
    let n = (v.fat[c as int] % 0x1000_0000) as u32;
    if n < EOF_MARK {
        lemma_keeps_intact(v, y, n, guard + 1);
        assert forall|k: u32| on_chain(y, c, guard, k) == #[trigger] on_chain(v, c, guard, k) by {
            assert(on_chain(y, n, guard + 1, k) == on_chain(v, n, guard + 1, k));
        }
    }
}

/// The end of an intact chain is on it, and so is nothing that is free.
pub(crate) proof fn lemma_chain_end(v: Volume, c: u32, guard: nat)
    requires
        chain_intact(v, c, guard),
    ensures
        chain_end(v, c, guard) is Some,
        ({
            let last = chain_end(v, c, guard)->0;
            &&& on_chain(v, c, guard, last)
            &&& 2 <= last < v.fat.len()
            &&& !is_free(v, last)
            &&& next_of(v, last)->0 >= EOF_MARK
        }),
        forall|k: u32| #[trigger] on_chain(v, c, guard, k) ==> 2 <= k < v.fat.len() && !is_free(v, k),
    decreases 1_000_001 - guard,
{
    let n = (v.fat[c as int] % 0x1000_0000) as u32;
    if n < EOF_MARK {
        lemma_chain_end(v, n, guard + 1);
        assert forall|k: u32| #[trigger] on_chain(v, c, guard, k) implies 2 <= k < v.fat.len()
            && !is_free(v, k) by {
            if k != c {
                assert(on_chain(v, n, guard + 1, k));
            }
        }
    }
}

/// Whether the chain that goes on with `c` can be listed whatever stands in
/// it.
pub open spec fn chain_listable(v: Volume, c: u32, guard: nat) -> bool
    decreases 1_000_001 - guard,
{
    if guard <= 1_000_000 && 2 <= c < v.fat.len() {
        let n = (v.fat[c as int] % 0x1000_0000) as u32;
        readable(v, c) && (n >= EOF_MARK || chain_listable(v, n, guard + 1))
    } else {
        false
    }
}

pub(crate) proof fn lemma_readable_scans(v: Volume, c: u32, p: Scan, k: nat)
    requires
        readable(v, c),
        k <= v.spc,
    ensures
        after_sectors(v, c, p, k) is Ok,
    decreases k,
{
    if k > 0 {
        lemma_readable_scans(v, c, p, (k - 1) as nat);
        assert(sector_read(v.drive, cluster_sector(v, c) + (k - 1)) is Ok);
    }
}

pub(crate) proof fn lemma_listable_lists(v: Volume, c: u32, guard: nat, p: Scan)
    requires
        chain_listable(v, c, guard),
    ensures
        scanned(v, c, guard, p) is Ok,
    decreases 1_000_001 - guard,
{
    lemma_readable_scans(v, c, p, v.spc);
    let q = after_sectors(v, c, p, v.spc)->Ok_0;
    let n = (v.fat[c as int] % 0x1000_0000) as u32;
    if !q.ended && n < EOF_MARK {
        lemma_listable_lists(v, n, guard + 1, q);
    }
}

pub(crate) proof fn lemma_intact_listable(v: Volume, w: Volume, c: u32, guard: nat)
    requires
        chain_intact(v, c, guard),
        same_frame(v, w),
        w.fat == v.fat,
    ensures
        chain_listable(w, c, guard),
    decreases 1_000_001 - guard,
{
    lemma_readable_frame(v, w, c);
    let n = (v.fat[c as int] % 0x1000_0000) as u32;
    if n < EOF_MARK {
        lemma_intact_listable(v, w, n, guard + 1);
    }
}

/// An intact chain with one more readable cluster at its end can be listed.
pub(crate) proof fn lemma_longer_listable(v: Volume, w: Volume, c: u32, guard: nat, more: u32)
    requires
        chain_intact(v, c, guard),
        same_frame(v, w),
        2 <= more < EOF_MARK,
        more < w.fat.len(),
        readable(w, more),
        w.fat[more as int] % 0x1000_0000 >= EOF_MARK,
        chain_end(v, c, guard) matches Some(last) && w.fat[last as int] == more && forall|k: int|
            0 <= k < v.fat.len() && k != last && !(2 <= k && v.fat[k] % 0x1000_0000 == 0)
                ==> w.fat[k] == #[trigger] v.fat[k],
    ensures
        chain_listable(w, c, guard),
    decreases 1_000_001 - guard,
{
    lemma_readable_frame(v, w, c);
    lemma_chain_end(v, c, guard);
    let n = (v.fat[c as int] % 0x1000_0000) as u32;
    if n < EOF_MARK {
        lemma_longer_listable(v, w, n, guard + 1, more);
        assert(w.fat[c as int] == v.fat[c as int]);
    } else {
        assert(chain_listable(w, more, guard + 1));
    }
}

// What a change leaves alone.

pub(crate) proof fn lemma_cleared_readable(v: Volume, c: u32, s: nat)
    requires
        sound(v),
        c >= 2,
        s <= v.spc,
        cleared(v, c, s as int).0 is Ok,
    ensures
        same_frame(v, cleared(v, c, s as int).1),
        cleared(v, c, s as int).1.fat == v.fat,
        forall|t: int|
            s <= t < v.spc ==> (#[trigger] sector_read(
                cleared(v, c, s as int).1.drive,
                cluster_sector(v, c) + t,
            )) is Ok,
    decreases v.spc - s,
{
    if s < v.spc {
        let lba = cluster_sector(v, c) + s;
        lemma_cluster_sector_bound(v, c);
        lemma_write_keeps_others(v.drive, lba, lba, zeros());
        let u = Volume { drive: sector_written(v.drive, lba, zeros())->Ok_0, ..v };
        lemma_cleared_readable(u, c, s + 1);
        let w = cleared(v, c, s as int).1;
        assert(cluster_sector(u, c) == cluster_sector(v, c));
        assert forall|t: int| s <= t < v.spc implies (#[trigger] sector_read(
            w.drive,
            cluster_sector(v, c) + t,
        )) is Ok by {
            if t == s {
                assert(sector_read(u.drive, lba) is Ok);
            } else {
                assert(sector_read(w.drive, cluster_sector(u, c) + t) is Ok);
            }
        }
    }
}

/// Where slots go in an intact directory, and what finding the place
/// changes: nothing, or one more cluster at the directory's end.
pub(crate) proof fn lemma_place(y: Volume, parent: u32, n: int)
    requires
        sound(y),
        y.fat.len() <= 0x0FFF_FFFF,
        0 < n <= 16,
        chain_intact(y, parent, 0),
        slots_place(y, parent, n).0 is Ok,
    ensures
        ({
            let p = slots_place(y, parent, n).1;
            let (c, o) = entry_place(y, parent, n);
            &&& same_frame(y, p)
            &&& c >= 2
            &&& 0 <= o && 0 <= o / 512 < y.spc && o % 32 == 0 && o % 512 + 32 * n <= 512
            &&& forall|k: u32|
                k >= 2 && k != c && !is_free(y, k) ==> #[trigger] same_sectors(y, p, k)
            &&& dir_run(y, parent, n, 0) is Ok
            &&& match dir_run(y, parent, n, 0)->Ok_0 {
                Some(place) => place == (c, o) && p == y && on_chain(y, parent, 0, c),
                None => {
                    let last = chain_end(y, parent, 0)->0;
                    &&& is_free(y, c) && o == 0
                    &&& p.fat == y.fat.update(c as int, EOF_MARK).update(last as int, c)
                    &&& readable(p, c)
                },
            }
        }),
{
    lemma_dir_run_on_chain(y, parent, parent, n, 0);
    lemma_chain_end(y, parent, 0);
    let p = slots_place(y, parent, n).1;
    let (c, o) = entry_place(y, parent, n);
    match dir_run(y, parent, n, 0)->Ok_0 {
        Some(place) => {
            assert forall|k: u32| k >= 2 && k != c && !is_free(y, k) implies #[trigger] same_sectors(
                y,
                p,
                k,
            ) by {}
        },
        None => {
            let (r, u) = allocated(y);
            lemma_lowest_free(y.fat, 2);
            let last = chain_end(y, parent, 0)->0;
            assert(is_free(y, c));
            assert(keeps_used(y, u));
            lemma_keeps_intact(y, u, parent, 0);
            let x = with_entry(u, last as int, c);
            assert(sound(x));
            assert(same_frame(y, x));
            lemma_cleared_readable(x, c, 0);
            assert(p == cleared(x, c, 0).1);
            assert(readable(p, c)) by {
                assert(cluster_sector(p, c) == cluster_sector(x, c));
            }
            assert forall|k: u32| k >= 2 && k != c && !is_free(y, k) implies #[trigger] same_sectors(
                y,
                p,
                k,
            ) by {
                assert forall|t: int| 0 <= t < y.spc implies #[trigger] sector_read(
                    p.drive,
                    cluster_sector(y, k) + t,
                ) == sector_read(y.drive, cluster_sector(y, k) + t) by {
                    lemma_cleared_keeps(x, c, 0, k, t);
                    assert(cluster_sector(x, k) == cluster_sector(y, k));
                }
            }
        },
    }
}

pub(crate) proof fn lemma_dir_run_on_chain(y: Volume, parent: u32, c: u32, n: int, guard: nat)
    requires
        chain_intact(y, c, guard),
        n > 0,
        forall|k: u32| #[trigger] on_chain(y, c, guard, k) ==> on_chain(y, parent, 0, k),
    ensures
        dir_run(y, c, n, guard) matches Ok(Some((pc, o))) ==> on_chain(y, parent, 0, pc) && pc >= 2
            && 0 <= o && o % 32 == 0 && o % 512 + 32 * n <= 512 && 0 <= o / 512 < y.spc,
    decreases 1_000_001 - guard,
{
    assert(on_chain(y, c, guard, c));
    lemma_cluster_run_place(y, c, 0, n);
    let m = (y.fat[c as int] % 0x1000_0000) as u32;
    if let Ok(None) = cluster_run(y, c, 0, n) {
        if m < EOF_MARK {
            assert forall|k: u32| #[trigger] on_chain(y, m, guard + 1, k) implies on_chain(
                y,
                parent,
                0,
                k,
            ) by {
                assert(on_chain(y, c, guard, k));
            }
            lemma_dir_run_on_chain(y, parent, m, n, guard + 1);
        }
    }
}

/// Storing slots in a cluster leaves every other alone, and in that cluster
/// every sector but one.
pub(crate) proof fn lemma_slots_stored_keeps(v: Volume, c: u32, o: int, slots: Seq<Seq<u8>>)
    requires
        sound(v),
        c >= 2,
        0 <= o,
        0 <= o / 512 < v.spc,
        o % 512 + 32 * slots.len() <= 512,
        slots_stored(v, c, o, slots).0 is Ok,
    ensures
        ({
            let w = slots_stored(v, c, o, slots).1;
            &&& same_frame(v, w)
            &&& w.fat == v.fat
            &&& forall|k: u32| k >= 2 && k != c ==> #[trigger] same_sectors(v, w, k)
            &&& forall|t: int|
                0 <= t < v.spc && t != o / 512 ==> #[trigger] sector_read(
                    w.drive,
                    cluster_sector(v, c) + t,
                ) == sector_read(v.drive, cluster_sector(v, c) + t)
            &&& sector_read(w.drive, cluster_sector(v, c) + o / 512) == Ok::<Seq<u8>, FatError>(
                splice(
                    sector_read(v.drive, cluster_sector(v, c) + o / 512)->Ok_0,
                    o % 512,
                    slot_bytes(slots),
                ),
            )
            &&& sector_read(v.drive, cluster_sector(v, c) + o / 512) is Ok
        }),
{
    let lba = cluster_sector(v, c) + o / 512;
    let sec = sector_read(v.drive, lba)->Ok_0;
    let bytes = splice(sec, o % 512, slot_bytes(slots));
    let w = slots_stored(v, c, o, slots).1;
    lemma_cluster_sector_bound(v, c);
    lemma_write_keeps_others(v.drive, lba, lba, bytes);
    assert forall|k: u32| k >= 2 && k != c implies #[trigger] same_sectors(v, w, k) by {
        lemma_cluster_sector_bound(v, k);
        assert forall|t: int| 0 <= t < v.spc implies #[trigger] sector_read(
            w.drive,
            cluster_sector(v, k) + t,
        ) == sector_read(v.drive, cluster_sector(v, k) + t) by {
            lemma_cluster_disjoint(v, c, k, o / 512, t);
            lemma_write_keeps_others(v.drive, lba, cluster_sector(v, k) + t, bytes);
        }
    }
    assert forall|t: int| 0 <= t < v.spc && t != o / 512 implies #[trigger] sector_read(
        w.drive,
        cluster_sector(v, c) + t,
    ) == sector_read(v.drive, cluster_sector(v, c) + t) by {
        lemma_write_keeps_others(v.drive, lba, cluster_sector(v, c) + t, bytes);
    }
}

pub(crate) proof fn lemma_flush_untouched(v: Volume, k: u32)
    requires
        sound(v),
        v.fat_count >= 1,
        k >= 2,
    ensures
        untouched(v, flushed(v, 0).1, k),
        same_frame(v, flushed(v, 0).1),
        flushed(v, 0).1.fat == v.fat,
{
    let w = flushed(v, 0).1;
    lemma_cluster_sector_bound(v, k);
    assert(0 <= (k - 2) * v.spc) by (nonlinear_arith)
        requires
            k >= 2,
            v.spc >= 0,
    ;
    lemma_flush_keeps(v, 0, cluster_sector(v, k));
    assert forall|t: int| 0 <= t < v.spc implies #[trigger] sector_read(
        w.drive,
        cluster_sector(v, k) + t,
    ) == sector_read(v.drive, cluster_sector(v, k) + t) by {
        lemma_flush_keeps(v, 0, cluster_sector(v, k) + t);
    }
}

// Scans that see the same.

pub(crate) proof fn lemma_after_slot_same(a: Seq<u8>, b: Seq<u8>, at: int, c: u32, s: int, p: Scan)
    requires
        0 <= at,
        at + 32 <= a.len(),
        at + 32 <= b.len(),
        forall|i: int| 0 <= i < 32 ==> #[trigger] a[at + i] == b[at + i],
    ensures
        after_slot(a, at, c, s, p) == after_slot(b, at, c, s, p),
{
    let slot = Seq::new(32, |i: int| b[at + i]);
    lemma_slot_part(a, at, slot);
    lemma_slot_part(b, at, slot);
    assert(a.subrange(at, at + 11) =~= b.subrange(at, at + 11)) by {
        assert forall|i: int| 0 <= i < 11 implies #[trigger] a.subrange(at, at + 11)[i]
            == b.subrange(at, at + 11)[i] by {
            assert(a[at + i] == b[at + i]);
        }
    }
    assert(a[at + 0x14] == b[at + 0x14] && a[at + 0x15] == b[at + 0x15]);
    assert(a[at + 0x1A] == b[at + 0x1A] && a[at + 0x1B] == b[at + 0x1B]);
    assert(a[at + 0x1C] == b[at + 0x1C] && a[at + 0x1D] == b[at + 0x1D]);
    assert(a[at + 0x1E] == b[at + 0x1E] && a[at + 0x1F] == b[at + 0x1F]);
    assert(le32(a, at + 0x1C) == le32(b, at + 0x1C));
    assert(slot_cluster(a, at) == slot_cluster(b, at));
}

pub(crate) proof fn lemma_after_slots_same(a: Seq<u8>, b: Seq<u8>, c: u32, s: int, p: Scan, k: nat)
    requires
        32 * k <= a.len(),
        32 * k <= b.len(),
        forall|i: int| 0 <= i < 32 * k ==> #[trigger] a[i] == b[i],
    ensures
        after_slots(a, c, s, p, k) == after_slots(b, c, s, p, k),
    decreases k,
{
    if k > 0 {
        lemma_after_slots_same(a, b, c, s, p, (k - 1) as nat);
        let q = after_slots(b, c, s, p, (k - 1) as nat);
        lemma_after_slot_same(a, b, 32 * (k - 1), c, s, q);
    }
}

pub(crate) proof fn lemma_after_sectors_same(v: Volume, w: Volume, c: u32, p: Scan, k: nat)
    requires
        same_frame(v, w),
        k <= v.spc,
        forall|t: int|
            0 <= t < k ==> #[trigger] sector_read(w.drive, cluster_sector(v, c) + t)
                == sector_read(v.drive, cluster_sector(v, c) + t),
    ensures
        after_sectors(w, c, p, k) == after_sectors(v, c, p, k),
    decreases k,
{
    if k > 0 {
        lemma_after_sectors_same(v, w, c, p, (k - 1) as nat);
        let t = k - 1;
        assert(sector_read(w.drive, cluster_sector(v, c) + t) == sector_read(
            v.drive,
            cluster_sector(v, c) + t,
        ));
    }
}

/// What is in use in `u` and not on the chain of `parent` is the same in
/// `v` and `w`.
pub open spec fn rest_untouched(u: Volume, v: Volume, w: Volume, parent: u32) -> bool {
    forall|k: u32|
        k >= 2 && !is_free(u, k) && !on_chain(u, parent, 0, k) ==> #[trigger] untouched(v, w, k)
            && next_of(v, k) == next_of(u, k)
}

pub(crate) proof fn lemma_scan_agrees(
    u: Volume,
    v: Volume,
    w: Volume,
    parent: u32,
    c: u32,
    guard: nat,
    p: Scan,
)
    requires
        same_frame(v, w),
        apart(u, c, guard, parent),
        rest_untouched(u, v, w, parent),
    ensures
        scanned(w, c, guard, p) == scanned(v, c, guard, p),
    decreases 1_000_001 - guard,
{
    if c >= 2 && guard <= 1_000_000 {
        assert(untouched(v, w, c));
        lemma_after_sectors_same(v, w, c, p, v.spc);
        if let Ok(q) = after_sectors(v, c, p, v.spc) {
            if let Some(n) = next_of(v, c) {
                if !q.ended && n < EOF_MARK {
                    lemma_scan_agrees(u, v, w, parent, n, guard + 1, q);
                }
            }
        }
    }
}

pub(crate) proof fn lemma_walk_agrees(
    u: Volume,
    v: Volume,
    w: Volume,
    parent: u32,
    c: u32,
    comps: Seq<Seq<char>>,
)
    requires
        same_frame(v, w),
        way_apart(v, u, c, comps, parent),
        rest_untouched(u, v, w, parent),
    ensures
        walked(w, c, comps) == walked(v, c, comps),
    decreases comps.len(),
{
    if comps.len() > 0 {
        lemma_scan_agrees(u, v, w, parent, c, 0, no_scan());
        if let Ok(es) = listing(v, c) {
            if let Some(e) = lookup(es, comps[0], Want::Dir) {
                lemma_walk_agrees(u, v, w, parent, e.first_cluster, comps.skip(1));
            }
        }
    }
}

pub(crate) proof fn lemma_cluster_run_same(v: Volume, w: Volume, c: u32, s: int, n: int)
    requires
        same_frame(v, w),
        0 <= s,
        same_sectors(v, w, c),
    ensures
        cluster_run(w, c, s, n) == cluster_run(v, c, s, n),
    decreases v.spc - s,
{
    if s < v.spc {
        assert(sector_read(w.drive, cluster_sector(v, c) + s) == sector_read(
            v.drive,
            cluster_sector(v, c) + s,
        ));
        lemma_cluster_run_same(v, w, c, s + 1, n);
    }
}

pub(crate) proof fn lemma_dir_run_same(v: Volume, w: Volume, c: u32, n: int, guard: nat)
    requires
        same_frame(v, w),
        chain_intact(v, c, guard),
        forall|k: u32| k >= 2 && !is_free(v, k) ==> #[trigger] untouched(v, w, k),
    ensures
        dir_run(w, c, n, guard) == dir_run(v, c, n, guard),
    decreases 1_000_001 - guard,
{
    assert(untouched(v, w, c));
    lemma_cluster_run_same(v, w, c, 0, n);
    let m = (v.fat[c as int] % 0x1000_0000) as u32;
    if m < EOF_MARK {
        lemma_dir_run_same(v, w, m, n, guard + 1);
    }
}

/// A reader gets to a place in a directory as before where only that place
/// and what is behind it changed.
pub(crate) proof fn lemma_scan_to_place(
    v: Volume,
    w: Volume,
    c: u32,
    guard: nat,
    p: Scan,
    pc: u32,
    o: int,
)
    requires
        same_frame(v, w),
        chain_intact(v, c, guard),
        0 <= o,
        0 <= o / 512 < v.spc,
        o % 32 == 0,
        forall|k: u32| k >= 2 && k != pc && !is_free(v, k) ==> #[trigger] untouched(v, w, k),
        forall|t: int|
            0 <= t < o / 512 ==> #[trigger] sector_read(w.drive, cluster_sector(v, pc) + t)
                == sector_read(v.drive, cluster_sector(v, pc) + t),
        ({
            let a = sector_read(w.drive, cluster_sector(v, pc) + o / 512);
            let b = sector_read(v.drive, cluster_sector(v, pc) + o / 512);
            &&& a is Ok && a->Ok_0.len() == 512
            &&& b is Ok && b->Ok_0.len() == 512
            &&& forall|i: int| 0 <= i < o % 512 ==> #[trigger] a->Ok_0[i] == b->Ok_0[i]
        }),
    ensures
        scan_to(w, c, guard, p, pc, o) == scan_before(v, c, guard, p, Some((pc, o))),
    decreases 1_000_001 - guard,
{
    if c == pc {
        lemma_after_sectors_same(v, w, c, p, (o / 512) as nat);
        let a = sector_read(w.drive, cluster_sector(v, pc) + o / 512)->Ok_0;
        let b = sector_read(v.drive, cluster_sector(v, pc) + o / 512)->Ok_0;
        let k = (o % 512 / 32) as nat;
        if let Ok(q) = after_sectors(v, c, p, (o / 512) as nat) {
            lemma_after_slots_same(a, b, c, o / 512, q, k);
        }
    } else {
        assert(untouched(v, w, c));
        lemma_after_sectors_same(v, w, c, p, v.spc);
        let n = (v.fat[c as int] % 0x1000_0000) as u32;
        if let Ok(q) = after_sectors(v, c, p, v.spc) {
            if n < EOF_MARK {
                lemma_scan_to_place(v, w, n, guard + 1, q, pc, o);
            } else {
                assert(next_of(w, c) == next_of(v, c));
            }
        }
    }
}

/// A reader gets through a directory to a cluster that was added at its
/// end.
pub(crate) proof fn lemma_scan_to_end(
    v: Volume,
    w: Volume,
    c: u32,
    guard: nat,
    p: Scan,
    more: u32,
)
    requires
        same_frame(v, w),
        chain_intact(v, c, guard),
        is_free(v, more),
        more < EOF_MARK,
        readable(w, more),
        v.spc >= 1,
        chain_end(v, c, guard) matches Some(last) && next_of(w, last) == Some(more) && forall|k: u32|
            k >= 2 && k != last && !is_free(v, k) ==> #[trigger] untouched(v, w, k),
        forall|k: u32| k >= 2 && !is_free(v, k) ==> #[trigger] same_sectors(v, w, k),
    ensures
        scan_to(w, c, guard, p, more, 0) == scan_before(v, c, guard, p, None),
    decreases 1_000_001 - guard,
{
    lemma_chain_end(v, c, guard);
    assert(same_sectors(v, w, c));
    lemma_after_sectors_same(v, w, c, p, v.spc);
    let n = (v.fat[c as int] % 0x1000_0000) as u32;
    if let Ok(q) = after_sectors(v, c, p, v.spc) {
        if n < EOF_MARK {
            lemma_scan_to_end(v, w, n, guard + 1, q, more);
            assert(untouched(v, w, c));
        } else if !q.ended {
            assert(sector_read(w.drive, cluster_sector(w, more) + 0int) is Ok);
            assert(scan_to(w, more, guard + 1, q, more, 0) == Some(q));
        }
    }
}

/// What storing data in free clusters leaves alone.
pub open spec fn used_untouched(v: Volume, y: Volume) -> bool {
    &&& sound(y)
    &&& same_frame(v, y)
    &&& keeps_used(v, y)
    &&& forall|k: u32| k >= 2 && !is_free(v, k) ==> #[trigger] untouched(v, y, k)
    &&& forall|k: u32| #[trigger] is_free(y, k) ==> is_free(v, k)
}

pub(crate) proof fn lemma_stored_untouched(v: Volume, content: Seq<u8>)
    requires
        sound(v),
        v.fat.len() <= 0x0FFF_FFFF,
        stored(v, content).0 is Ok,
    ensures
        used_untouched(v, stored(v, content).1),
{
    let y = stored(v, content).1;
    let _cs = lemma_stored(v, content);
    assert forall|k: u32| k >= 2 && !is_free(v, k) implies #[trigger] untouched(v, y, k) by {
        if k < v.fat.len() {
            assert(y.fat[k as int] == v.fat[k as int]);
        }
        assert forall|t: int| 0 <= t < v.spc implies #[trigger] sector_read(
            y.drive,
            cluster_sector(v, k) + t,
        ) == sector_read(v.drive, cluster_sector(v, k) + t) by {}
    }
    assert forall|k: u32| #[trigger] is_free(y, k) implies is_free(v, k) by {
        assert(y.fat[k as int] % 0x1000_0000 == 0);
    }
}

/// How the volume `w` differs from `v` once slots were entered at byte `o`
/// of cluster `c` of an intact directory; `y` is the volume in between,
/// with the data stored.
pub open spec fn slots_entered(
    v: Volume,
    y: Volume,
    w: Volume,
    parent: u32,
    c: u32,
    o: int,
    slots: Seq<Seq<u8>>,
    run: Option<(u32, int)>,
) -> bool {
    let last = chain_end(v, parent, 0)->0;
    &&& same_frame(v, w)
    &&& c >= 2 && 0 <= o && 0 <= o / 512 < v.spc && o % 32 == 0 && o % 512 + 32 * slots.len() <= 512
    &&& forall|k: u32| k >= 2 && k != c && !is_free(v, k) ==> #[trigger] same_sectors(v, w, k)
    &&& match run {
        Some(place) => {
            let at = cluster_sector(v, c) + o / 512;
            &&& place == (c, o)
            &&& w.fat == y.fat
            &&& on_chain(v, parent, 0, c)
            &&& forall|t: int|
                0 <= t < v.spc && t != o / 512 ==> #[trigger] sector_read(
                    w.drive,
                    cluster_sector(v, c) + t,
                ) == sector_read(v.drive, cluster_sector(v, c) + t)
            &&& sector_read(v.drive, at) is Ok
            &&& sector_read(w.drive, at) == Ok::<Seq<u8>, FatError>(
                splice(sector_read(v.drive, at)->Ok_0, o % 512, slot_bytes(slots)),
            )
        },
        None => {
            &&& is_free(v, c)
            &&& o == 0
            &&& w.fat == y.fat.update(c as int, EOF_MARK).update(last as int, c)
            &&& readable(w, c)
        },
    }
}

#[verifier::spinoff_prover]
pub(crate) proof fn lemma_slots_entered(v: Volume, y: Volume, parent: u32, slots: Seq<Seq<u8>>)
    requires
        sound(v),
        v.fat_count >= 1,
        v.fat.len() <= 0x0FFF_FFFF,
        used_untouched(v, y),
        chain_intact(v, parent, 0),
        0 < slots.len() <= 16,
        slots_place(y, parent, slots.len() as int).0 is Ok,
        slots_stored(
            slots_place(y, parent, slots.len() as int).1,
            entry_place(y, parent, slots.len() as int).0,
            entry_place(y, parent, slots.len() as int).1,
            slots,
        ).0 is Ok,
    ensures
        ({
            let n = slots.len() as int;
            let (c, o) = entry_place(y, parent, n);
            let w = flushed(slots_stored(slots_place(y, parent, n).1, c, o, slots).1, 0).1;
            &&& dir_run(v, parent, n, 0) is Ok
            &&& slots_entered(v, y, w, parent, c, o, slots, dir_run(v, parent, n, 0)->Ok_0)
        }),
{
    let n = slots.len() as int;
    lemma_keeps_intact(v, y, parent, 0);
    lemma_dir_run_same(v, y, parent, n, 0);
    lemma_place(y, parent, n);
    lemma_chain_end(v, parent, 0);
    let p = slots_place(y, parent, n).1;
    let (c, o) = entry_place(y, parent, n);
    lemma_slots_stored_keeps(p, c, o, slots);
    let x = slots_stored(p, c, o, slots).1;
    let w = flushed(x, 0).1;
    lemma_flush_untouched(x, c);
    assert(cluster_sector(x, c) == cluster_sector(v, c));
    assert(cluster_sector(p, c) == cluster_sector(v, c));
    assert forall|k: u32| k >= 2 && k != c && !is_free(v, k) implies #[trigger] same_sectors(
        v,
        w,
        k,
    ) by {
        lemma_sectors_through(v, y, p, x, k, c);
    }
    let run = dir_run(v, parent, n, 0)->Ok_0;
    if run is Some {
        assert(on_chain(v, parent, 0, c));
        assert(untouched(v, y, c));
        assert forall|t: int| 0 <= t < v.spc && t != o / 512 implies #[trigger] sector_read(
            w.drive,
            cluster_sector(v, c) + t,
        ) == sector_read(v.drive, cluster_sector(v, c) + t) by {
            assert(sector_read(w.drive, cluster_sector(x, c) + t) == sector_read(
                x.drive,
                cluster_sector(x, c) + t,
            ));
            assert(sector_read(x.drive, cluster_sector(p, c) + t) == sector_read(
                p.drive,
                cluster_sector(p, c) + t,
            ));
            assert(sector_read(y.drive, cluster_sector(v, c) + t) == sector_read(
                v.drive,
                cluster_sector(v, c) + t,
            ));
        }
        let t = o / 512;
        assert(sector_read(w.drive, cluster_sector(x, c) + t) == sector_read(
            x.drive,
            cluster_sector(x, c) + t,
        ));
        assert(sector_read(y.drive, cluster_sector(v, c) + t) == sector_read(
            v.drive,
            cluster_sector(v, c) + t,
        ));
    } else {
        assert(is_free(y, c));
        lemma_readable_frame(p, w, c);
    }
}

pub(crate) proof fn lemma_sectors_through(v: Volume, y: Volume, p: Volume, x: Volume, k: u32, c: u32)
    requires
        sound(x),
        x.fat_count >= 1,
        used_untouched(v, y),
        same_frame(y, p),
        same_frame(p, x),
        forall|k: u32| k >= 2 && k != c && !is_free(y, k) ==> #[trigger] same_sectors(y, p, k),
        forall|k: u32| k >= 2 && k != c ==> #[trigger] same_sectors(p, x, k),
        k >= 2,
        k != c,
        !is_free(v, k),
    ensures
        same_sectors(v, flushed(x, 0).1, k),
{
    let w = flushed(x, 0).1;
    assert(untouched(v, y, k));
    assert(!is_free(y, k));
    assert(same_sectors(y, p, k));
    assert(same_sectors(p, x, k));
    lemma_flush_untouched(x, k);
    assert(cluster_sector(v, k) == cluster_sector(y, k));
    assert(cluster_sector(v, k) == cluster_sector(p, k));
    assert(cluster_sector(v, k) == cluster_sector(x, k));
    assert forall|t: int| 0 <= t < v.spc implies #[trigger] sector_read(
        w.drive,
        cluster_sector(v, k) + t,
    ) == sector_read(v.drive, cluster_sector(v, k) + t) by {
        assert(sector_read(w.drive, cluster_sector(x, k) + t) == sector_read(
            x.drive,
            cluster_sector(x, k) + t,
        ));
        assert(sector_read(x.drive, cluster_sector(p, k) + t) == sector_read(
            p.drive,
            cluster_sector(p, k) + t,
        ));
        assert(sector_read(p.drive, cluster_sector(y, k) + t) == sector_read(
            y.drive,
            cluster_sector(y, k) + t,
        ));
        assert(sector_read(y.drive, cluster_sector(v, k) + t) == sector_read(
            v.drive,
            cluster_sector(v, k) + t,
        ));
    }
}

/// A cluster in use, other than the one with the slots, that keeps its
/// successor as well.
pub(crate) proof fn lemma_entered_untouched(
    v: Volume,
    y: Volume,
    w: Volume,
    parent: u32,
    c: u32,
    o: int,
    slots: Seq<Seq<u8>>,
    run: Option<(u32, int)>,
    k: u32,
)
    requires
        used_untouched(v, y),
        chain_intact(v, parent, 0),
        slots_entered(v, y, w, parent, c, o, slots, run),
        k >= 2,
        k != c,
        !is_free(v, k),
        run is None ==> Some(k) != chain_end(v, parent, 0),
    ensures
        untouched(v, w, k),
{
    lemma_chain_end(v, parent, 0);
    assert(untouched(v, y, k));
    assert(same_sectors(v, w, k));
}

pub(crate) proof fn lemma_rest_untouched(
    v: Volume,
    y: Volume,
    w: Volume,
    parent: u32,
    c: u32,
    o: int,
    slots: Seq<Seq<u8>>,
    run: Option<(u32, int)>,
)
    requires
        used_untouched(v, y),
        chain_intact(v, parent, 0),
        slots_entered(v, y, w, parent, c, o, slots, run),
    ensures
        rest_untouched(v, v, w, parent),
{
    lemma_chain_end(v, parent, 0);
    assert forall|k: u32| k >= 2 && !is_free(v, k) && !on_chain(v, parent, 0, k) implies #[trigger] untouched(
        v,
        w,
        k,
    ) && next_of(v, k) == next_of(v, k) by {
        lemma_entered_untouched(v, y, w, parent, c, o, slots, run, k);
    }
}

pub(crate) proof fn lemma_entered_lists(
    v: Volume,
    y: Volume,
    w: Volume,
    parent: u32,
    c: u32,
    o: int,
    slots: Seq<Seq<u8>>,
    run: Option<(u32, int)>,
)
    requires
        v.fat.len() <= 0x0FFF_FFFF,
        used_untouched(v, y),
        chain_intact(v, parent, 0),
        slots_entered(v, y, w, parent, c, o, slots, run),
    ensures
        listing(w, parent) is Ok,
{
    lemma_chain_end(v, parent, 0);
    if run is Some {
        lemma_keeps_intact(v, y, parent, 0);
        lemma_intact_listable(y, w, parent, 0);
    } else {
        let last = chain_end(v, parent, 0)->0;
        assert(last != c);
        assert forall|k: int|
            0 <= k < v.fat.len() && k != last && !(2 <= k && v.fat[k] % 0x1000_0000 == 0) implies w.fat[k]
            == #[trigger] v.fat[k] by {
            assert(y.fat[k] == v.fat[k]);
        }
        lemma_longer_listable(v, w, parent, 0, c);
    }
    lemma_listable_lists(w, parent, 0, no_scan());
}

pub(crate) proof fn lemma_entered_scan(
    v: Volume,
    y: Volume,
    w: Volume,
    parent: u32,
    c: u32,
    o: int,
    slots: Seq<Seq<u8>>,
    run: Option<(u32, int)>,
)
    requires
        sound(v),
        v.fat.len() <= 0x0FFF_FFFF,
        used_untouched(v, y),
        chain_intact(v, parent, 0),
        slots_entered(v, y, w, parent, c, o, slots, run),
    ensures
        scan_to(w, parent, 0, no_scan(), c, o) == scan_before(v, parent, 0, no_scan(), run),
{
    lemma_chain_end(v, parent, 0);
    match run {
        Some(_) => {
            assert forall|k: u32| k >= 2 && k != c && !is_free(v, k) implies #[trigger] untouched(
                v,
                w,
                k,
            ) by {
                lemma_entered_untouched(v, y, w, parent, c, o, slots, run, k);
            }
            let at = cluster_sector(v, c) + o / 512;
            lemma_cluster_sector_bound(v, c);
            assert(sector_read(v.drive, at)->Ok_0.len() == 512);
            lemma_scan_to_place(v, w, parent, 0, no_scan(), c, o);
        },
        None => {
            let last = chain_end(v, parent, 0)->0;
            assert forall|k: u32| k >= 2 && k != last && !is_free(v, k) implies #[trigger] untouched(
                v,
                w,
                k,
            ) by {
                lemma_entered_untouched(v, y, w, parent, c, o, slots, run, k);
            }
            lemma_scan_to_end(v, w, parent, 0, no_scan(), c);
        },
    }
}

// An overwritten file's entry and data go first.

pub(crate) proof fn lemma_freed_fat(v: Volume, c: u32, guard: nat)
    ensures
        freed(v, c, guard).1.drive == v.drive,
        freed(v, c, guard).1.fat.len() == v.fat.len(),
        forall|k: int|
            0 <= k < v.fat.len() ==> #[trigger] freed(v, c, guard).1.fat[k] == v.fat[k] || freed(
                v,
                c,
                guard,
            ).1.fat[k] == 0,
    decreases 1_000_001 - guard,
{
    if c < EOF_MARK && !(c < 2 || guard > 1_000_000 || c >= v.fat.len()) {
        let u = Volume {
            free: if v.free < u32::MAX {
                (v.free + 1) as u32
            } else {
                v.free
            },
            ..with_entry(v, c as int, 0)
        };
        lemma_freed_fat(u, (v.fat[c as int] % 0x1000_0000) as u32, guard + 1);
        let w = freed(v, c, guard).1;
        assert forall|k: int| 0 <= k < v.fat.len() implies #[trigger] w.fat[k] == v.fat[k]
            || w.fat[k] == 0 by {
            assert(w.fat[k] == u.fat[k] || w.fat[k] == 0);
        }
    }
}

/// Where an entry of the directory `parent` stands.
pub open spec fn stands_in(v: Volume, parent: u32, e: Entry) -> bool {
    on_chain(v, parent, 0, e.cluster) && e.cluster >= 2 && 0 <= e.offset && e.offset / 512 < v.spc
}

pub open spec fn all_stand_in(v: Volume, parent: u32, es: Seq<Entry>) -> bool {
    forall|i: int| 0 <= i < es.len() ==> stands_in(v, parent, #[trigger] es[i])
}

pub(crate) proof fn lemma_slots_stand(
    v: Volume,
    parent: u32,
    sec: Seq<u8>,
    c: u32,
    s: int,
    p: Scan,
    k: nat,
)
    requires
        on_chain(v, parent, 0, c),
        c >= 2,
        0 <= s < v.spc,
        k <= 16,
        all_stand_in(v, parent, p.out),
    ensures
        all_stand_in(v, parent, after_slots(sec, c, s, p, k).out),
    decreases k,
{
    if k > 0 {
        lemma_slots_stand(v, parent, sec, c, s, p, (k - 1) as nat);
        let q0 = after_slots(sec, c, s, p, (k - 1) as nat);
        let q1 = after_slots(sec, c, s, p, k);
        assert forall|i: int| 0 <= i < q1.out.len() implies stands_in(
            v,
            parent,
            #[trigger] q1.out[i],
        ) by {
            if i < q0.out.len() {
                assert(q1.out[i] == q0.out[i]);
            } else {
                let at = s * 512 + 32 * (k - 1);
                assert(at / 512 == s);
            }
        }
    }
}

pub(crate) proof fn lemma_sectors_stand(v: Volume, parent: u32, c: u32, p: Scan, k: nat)
    requires
        on_chain(v, parent, 0, c),
        c >= 2,
        k <= v.spc,
        after_sectors(v, c, p, k) is Ok,
        all_stand_in(v, parent, p.out),
    ensures
        all_stand_in(v, parent, after_sectors(v, c, p, k)->Ok_0.out),
    decreases k,
{
    if k > 0 {
        lemma_sectors_stand(v, parent, c, p, (k - 1) as nat);
        let q = after_sectors(v, c, p, (k - 1) as nat)->Ok_0;
        if !q.ended {
            let sec = sector_read(v.drive, cluster_sector(v, c) + k - 1)->Ok_0;
            lemma_slots_stand(v, parent, sec, c, k - 1, q, 16);
        }
    }
}

pub(crate) proof fn lemma_scan_stands(v: Volume, parent: u32, c: u32, guard: nat, p: Scan)
    requires
        scanned(v, c, guard, p) is Ok,
        all_stand_in(v, parent, p.out),
        forall|k: u32| #[trigger] on_chain(v, c, guard, k) ==> on_chain(v, parent, 0, k),
    ensures
        all_stand_in(v, parent, scanned(v, c, guard, p)->Ok_0),
    decreases 1_000_001 - guard,
{
    assert(on_chain(v, c, guard, c));
    lemma_sectors_stand(v, parent, c, p, v.spc);
    let q = after_sectors(v, c, p, v.spc)->Ok_0;
    if !q.ended && next_of(v, c)->0 < EOF_MARK {
        let n = next_of(v, c)->0;
        assert forall|k: u32| #[trigger] on_chain(v, n, guard + 1, k) implies on_chain(
            v,
            parent,
            0,
            k,
        ) by {
            assert(on_chain(v, c, guard, k));
        }
        lemma_scan_stands(v, parent, n, guard + 1, q);
    }
}

pub(crate) proof fn lemma_found_stands(v: Volume, parent: u32, name: Seq<char>)
    requires
        entry_in(v, parent, name) is Some,
    ensures
        stands_in(v, parent, entry_in(v, parent, name)->0),
{
    let es = listing(v, parent)->Ok_0;
    lemma_lookup_place(es, name, Want::Any, 0);
    lemma_scan_stands(v, parent, parent, 0, no_scan());
}

/// A chain of clusters that are in use after some were freed was the same
/// before.
pub(crate) proof fn lemma_chain_before(v: Volume, u: Volume, c: u32, guard: nat, k: u32)
    requires
        u.fat.len() == v.fat.len(),
        chain_intact(u, c, guard),
        forall|k: u32| #![trigger next_of(u, k)] !is_free(u, k) ==> next_of(u, k) == next_of(v, k),
    ensures
        on_chain(v, c, guard, k) == on_chain(u, c, guard, k),
    decreases 1_000_001 - guard,
{
    assert(next_of(u, c) == next_of(v, c));
    let n = (u.fat[c as int] % 0x1000_0000) as u32;
    if n < EOF_MARK {
        lemma_chain_before(v, u, n, guard + 1, k);
    }
}

#[verifier::spinoff_prover]
pub(crate) proof fn lemma_dropped_untouched(v: Volume, e: Entry, parent: u32)
    requires
        sound(v),
        dropped(v, e).0 is Ok,
        stands_in(v, parent, e),
        chain_intact(dropped(v, e).1, parent, 0),
    ensures
        same_frame(v, dropped(v, e).1),
        rest_untouched(dropped(v, e).1, v, dropped(v, e).1, parent),
{
    let u = dropped(v, e).1;
    let d = entry_deleted(v, e.cluster, e.offset).1;
    lemma_freed_fat(d, e.first_cluster, 0);
    lemma_freed_frame_of(v, e);
    assert(u.drive == d.drive);
    assert forall|k: u32| #![trigger next_of(u, k)] !is_free(u, k) implies next_of(u, k) == next_of(
        v,
        k,
    ) by {
        if k < v.fat.len() && k >= 2 {
            assert(u.fat[k as int] == d.fat[k as int] || u.fat[k as int] == 0);
        } else if k < 2 && k < v.fat.len() {
            lemma_freed_low(d, e.first_cluster, 0, k as int);
        }
    }
    lemma_chain_before(v, u, parent, 0, e.cluster);
    let lba = cluster_sector(v, e.cluster) + e.offset / 512;
    let sec = sector_read(v.drive, lba)->Ok_0;
    let bytes = wiped(sec.update(e.offset % 512, 0xE5), e.offset % 512);
    lemma_cluster_sector_bound(v, e.cluster);
    lemma_wiped_len(sec.update(e.offset % 512, 0xE5), e.offset % 512);
    assert(sec.len() == 512);
    assert forall|k: u32| k >= 2 && !is_free(u, k) && !on_chain(u, parent, 0, k) implies #[trigger] untouched(
        v,
        u,
        k,
    ) && next_of(v, k) == next_of(u, k) by {
        assert(next_of(u, k) == next_of(v, k));
        lemma_cluster_sector_bound(v, k);
        assert forall|t: int| 0 <= t < v.spc implies #[trigger] sector_read(
            u.drive,
            cluster_sector(v, k) + t,
        ) == sector_read(v.drive, cluster_sector(v, k) + t) by {
            lemma_cluster_disjoint(v, e.cluster, k, e.offset / 512, t);
            lemma_write_keeps_others(v.drive, lba, cluster_sector(v, k) + t, bytes);
        }
    }
}

pub(crate) proof fn lemma_wiped_len(sec: Seq<u8>, back: int)
    requires
        back <= sec.len(),
    ensures
        wiped(sec, back).len() == sec.len(),
    decreases back,
{
    if back >= 32 && sec[back - 32 + 0x0B] == 0x0F {
        lemma_wiped_len(sec.update(back - 32, 0xE5), back - 32);
    }
}

pub(crate) proof fn lemma_freed_low(v: Volume, c: u32, guard: nat, k: int)
    requires
        0 <= k < 2,
        k < v.fat.len(),
    ensures
        freed(v, c, guard).1.fat[k] == v.fat[k],
    decreases 1_000_001 - guard,
{
    if c < EOF_MARK && !(c < 2 || guard > 1_000_000 || c >= v.fat.len()) {
        let u = Volume {
            free: if v.free < u32::MAX {
                (v.free + 1) as u32
            } else {
                v.free
            },
            ..with_entry(v, c as int, 0)
        };
        lemma_freed_low(u, (v.fat[c as int] % 0x1000_0000) as u32, guard + 1, k);
    }
}

pub(crate) proof fn lemma_freed_frame_of(v: Volume, e: Entry)
    requires
        sound(v),
        entry_deleted(v, e.cluster, e.offset).0 is Ok,
    ensures
        same_frame(v, dropped(v, e).1),
{
    let u = entry_deleted(v, e.cluster, e.offset).1;
    assert(u.drive.media.len() == v.drive.media.len());
    lemma_freed_frame(u, e.first_cluster, 0);
}

} // verus!
