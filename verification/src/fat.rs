//! FAT32 filesystem on top of the ATA driver.
//!
//! The whole FAT is cached in RAM at mount time, which makes cluster-chain
//! walks cheap. Directory scans read sectors on demand. Mutating
//! operations keep a per-sector dirty map for the FAT and flush it back
//! to disk before returning.

use crate::ata::{sectors_at, transfer_error, Drive};
use crate::bytes::{copy_into, get_le16, get_le32, le16, le32, le32_bytes, splice};
use crate::disk::Disk;
use crate::fatname::{
    assemble_lfn, build_slots, byte_len, entry_slots, joined, lfn_count, lfn_part, lfn_text,
    name_matches, part_views, read_lfn_part, read_slot_cluster, read_slot_size, same_name,
    sfn_name, shown_short, slot_cluster, slot_views, valid_name, validate_name,
};
use crate::rtc::DateTime;
use crate::text::{chars_of, pieces, split_at_each, string_of, views};
use vstd::utf8::{encode_scalar, encode_utf8};
use vstd::prelude::*;
use vstd::slice::slice_subrange;

verus! {

#[derive(Clone, Copy, Debug)]
pub enum FatError {
    NoDisk,
    Io(&'static str),
    InvalidVolume,
    NotFound,
    NotDir,
    AlreadyExists,
    NotEmpty,
    InvalidName,
    OutOfSpace,
    Corrupt,
}

/// The text shown for an error.
pub open spec fn message_of(e: FatError) -> &'static str {
    match e {
        FatError::NoDisk => "no disk mounted",
        FatError::Io(e) => e,
        FatError::InvalidVolume => "not a FAT32 volume",
        FatError::NotFound => "not found",
        FatError::NotDir => "not a directory",
        FatError::AlreadyExists => "already exists",
        FatError::NotEmpty => "directory not empty",
        FatError::InvalidName => "invalid name",
        FatError::OutOfSpace => "out of space",
        FatError::Corrupt => "corrupt filesystem",
    }
}

impl FatError {
    /// The text shown for the error.
    pub fn message(&self) -> (r: &'static str)
        ensures
            r == message_of(*self),
    {
        match self {
            FatError::NoDisk => "no disk mounted",
            FatError::Io(e) => *e,
            FatError::InvalidVolume => "not a FAT32 volume",
            FatError::NotFound => "not found",
            FatError::NotDir => "not a directory",
            FatError::AlreadyExists => "already exists",
            FatError::NotEmpty => "directory not empty",
            FatError::InvalidName => "invalid name",
            FatError::OutOfSpace => "out of space",
            FatError::Corrupt => "corrupt filesystem",
        }
    }
}

pub const EOF_MARK: u32 = 0x0FFF_FFFF;

pub const CHAIN_GUARD: u32 = 1_000_000;

pub struct DirEntry {
    pub name: String,
    pub is_dir: bool,
    pub size: u32,
    pub first_cluster: u32,
    /// Where the entry lives on disk: directory cluster and byte offset in
    /// it.
    pub location: (u32, usize),
}

/// A directory entry.
pub struct Entry {
    pub name: Seq<char>,
    pub is_dir: bool,
    pub size: u32,
    pub first_cluster: u32,
    pub cluster: u32,
    pub offset: int,
}

impl View for DirEntry {
    type V = Entry;

    open spec fn view(&self) -> Entry {
        Entry {
            name: self.name@,
            is_dir: self.is_dir,
            size: self.size,
            first_cluster: self.first_cluster,
            cluster: self.location.0,
            offset: self.location.1 as int,
        }
    }
}

pub open spec fn entry_views(v: Seq<DirEntry>) -> Seq<Entry> {
    Seq::new(v.len(), |i: int| v[i]@)
}

pub struct VolumeInfo {
    pub total_sectors: u32,
    pub sectors_per_cluster: u8,
    pub fat_sectors: u32,
    pub free_clusters: u32,
    pub root_cluster: u32,
}

pub struct Fat32 {
    device: Disk,
    sectors_per_cluster: u8,
    reserved_sectors: u32,
    fat_count: u8,
    fat_size_sectors: u32,
    root_cluster: u32,
    first_data_sector: u64,
    total_sectors: u32,
    fat: Vec<u32>,
    fat_dirty: Vec<bool>,
    free_clusters: u32,
}

/// A mounted volume.
pub struct Volume {
    pub drive: Drive,
    pub spc: nat,
    pub reserved: nat,
    pub fat_count: u8,
    pub fat_size: nat,
    pub root: u32,
    pub first_data: nat,
    pub total: u32,
    pub fat: Seq<u32>,
    pub dirty: Seq<bool>,
    pub free: u32,
}

impl View for Fat32 {
    type V = Volume;

    closed spec fn view(&self) -> Volume {
        Volume {
            drive: self.device@,
            spc: self.sectors_per_cluster as nat,
            reserved: self.reserved_sectors as nat,
            fat_count: self.fat_count,
            fat_size: self.fat_size_sectors as nat,
            root: self.root_cluster,
            first_data: self.first_data_sector as nat,
            total: self.total_sectors,
            fat: self.fat@,
            dirty: self.fat_dirty@,
            free: self.free_clusters,
        }
    }
}

/// The geometry is consistent and cluster numbers fit 32 bits.
pub open spec fn sound(v: Volume) -> bool {
    &&& 1 <= v.spc <= 255
    &&& v.fat_size < 0x200_0000
    &&& v.reserved <= 0xFFFF
    &&& v.first_data == v.reserved + v.fat_count * v.fat_size
    &&& v.fat.len() == v.fat_size * 128
    &&& v.dirty.len() == v.fat_size
}

// ---------------------------------------------------------------------
// Sectors and clusters
// ---------------------------------------------------------------------

/// What reading a sector gives.
pub open spec fn sector_read(d: Drive, lba: int) -> Result<Seq<u8>, FatError> {
    match transfer_error(d, lba as u64, 1, 512, "invalid read request") {
        Some(e) => Err(FatError::Io(e)),
        None => Ok(sectors_at(d, lba, 1)),
    }
}

/// What writing a sector gives.
pub open spec fn sector_written(d: Drive, lba: int, bytes: Seq<u8>) -> Result<Drive, FatError> {
    match transfer_error(d, lba as u64, 1, 512, "invalid write request") {
        Some(e) => Err(FatError::Io(e)),
        None => Ok(Drive { media: splice(d.media, lba * 512, bytes), ..d }),
    }
}

/// The first sector of a cluster.
pub open spec fn cluster_sector(v: Volume, c: u32) -> int {
    v.first_data + (c - 2) * v.spc
}

/// The cluster behind `c` in its chain, if the FAT has an entry for `c`.
pub open spec fn next_of(v: Volume, c: u32) -> Option<u32> {
    if c < v.fat.len() {
        Some((v.fat[c as int] % 0x1000_0000) as u32)
    } else {
        None
    }
}

pub(crate) proof fn lemma_cluster_sector_bound(v: Volume, c: u32)
    requires
        sound(v),
        c >= 2,
    ensures
        0 <= cluster_sector(v, c) <= 0x1FF_FFFF_FFFF,
{
    assert(0 <= v.fat_count * v.fat_size <= 0xFF * 0x200_0000) by (nonlinear_arith)
        requires
            0 <= v.fat_count <= 0xFF,
            0 <= v.fat_size <= 0x200_0000,
    ;
    assert(0 <= (c - 2) * v.spc <= 0xFFFF_FFFF * 0xFF) by (nonlinear_arith)
        requires
            0 <= c - 2 <= 0xFFFF_FFFF,
            0 <= v.spc <= 0xFF,
    ;
}

impl Fat32 {
    pub open spec fn wf(&self) -> bool {
        sound(self@)
    }

    fn read_sector(&self, lba: u64) -> (r: Result<Vec<u8>, FatError>)
        ensures
            match sector_read(self@.drive, lba as int) {
                Ok(s) => r is Ok && r->Ok_0@ == s && s.len() == 512,
                Err(e) => r is Err && r->Err_0 == e,
            },
    {
        let mut buf: Vec<u8> = Vec::new();
        buf.resize(512, 0);
        let ghost before = buf@;
        match self.device.read_sectors(lba, 1, &mut buf) {
            Ok(_) => {
                assert(buf@ =~= sectors_at(self@.drive, lba as int, 1));
                Ok(buf)
            },
            Err(e) => Err(FatError::Io(e)),
        }
    }

    fn write_sector(&mut self, lba: u64, bytes: &Vec<u8>) -> (r: Result<(), FatError>)
        requires
            bytes@.len() == 512,
        ensures
            match sector_written(old(self)@.drive, lba as int, bytes@) {
                Ok(d) => r == Ok::<(), FatError>(()) && final(self)@ == (Volume {
                    drive: d,
                    ..old(self)@
                }),
                Err(e) => r == Err::<(), FatError>(e) && final(self)@ == old(self)@,
            },
    {
        assert(bytes@.take(512) =~= bytes@);
        match self.device.write_sectors(lba, 1, bytes.as_slice()) {
            Ok(_) => Ok(()),
            Err(e) => Err(FatError::Io(e)),
        }
    }

    fn cluster_to_sector(&self, cluster: u32) -> (r: u64)
        requires
            self.wf(),
            cluster >= 2,
        ensures
            r == cluster_sector(self@, cluster),
            r <= 0x1FF_FFFF_FFFF,
    {
        proof {
            lemma_cluster_sector_bound(self@, cluster);
            assert((cluster - 2) * (self.sectors_per_cluster as nat) <= 0xFFFF_FFFF * 0xFF)
                by (nonlinear_arith)
                requires
                    0 <= cluster - 2 <= 0xFFFF_FFFF,
                    0 <= self.sectors_per_cluster <= 0xFF,
            ;
        }
        self.first_data_sector + (cluster - 2) as u64 * self.sectors_per_cluster as u64
    }

    fn next_cluster(&self, cluster: u32) -> (r: Option<u32>)
        ensures
            r == next_of(self@, cluster),
    {
        if (cluster as usize) < self.fat.len() {
            Some(self.fat[cluster as usize] % 0x1000_0000)
        } else {
            None
        }
    }
}

// ---------------------------------------------------------------------
// Directories
// ---------------------------------------------------------------------

/// A directory scan under way: the entries found, the long-name parts that
/// wait for their short-name slot, and whether the end mark was seen.
pub struct Scan {
    pub out: Seq<Entry>,
    pub lfn: Seq<Seq<u16>>,
    pub ended: bool,
}

pub open spec fn no_scan() -> Scan {
    Scan { out: Seq::empty(), lfn: Seq::empty(), ended: false }
}

/// The name that a slot has, given the long-name parts before it.
pub open spec fn slot_name(sec: Seq<u8>, at: int, lfn: Seq<Seq<u16>>) -> Seq<char> {
    if lfn.len() == 0 {
        shown_short(sec.subrange(at, at + 11))
    } else {
        lfn_text(joined(lfn))
    }
}

/// Whether a name is listed: the two entries for the directory itself and
/// its parent are not.
pub open spec fn listed(name: Seq<char>) -> bool {
    name.len() > 0 && name != seq!['.'] && name != seq!['.', '.']
}

/// The scan after the slot at byte `at` of sector `s` of cluster `c`.
pub open spec fn after_slot(sec: Seq<u8>, at: int, c: u32, s: int, p: Scan) -> Scan {
    if p.ended {
        p
    } else if sec[at] == 0 {
        Scan { ended: true, ..p }
    } else if sec[at] == 0xE5 {
        Scan { lfn: Seq::empty(), ..p }
    } else if sec[at + 0x0B] == 0x0F {
        Scan { lfn: seq![lfn_part(sec, at)] + p.lfn, ..p }
    } else {
        let name = slot_name(sec, at, p.lfn);
        Scan {
            out: if listed(name) {
                p.out.push(
                    Entry {
                        name,
                        is_dir: sec[at + 0x0B] & 0x10 != 0,
                        size: le32(sec, at + 0x1C),
                        first_cluster: slot_cluster(sec, at),
                        cluster: c,
                        offset: s * 512 + at,
                    },
                )
            } else {
                p.out
            },
            lfn: Seq::empty(),
            ended: false,
        }
    }
}

/// The scan after the first `k` slots of a sector.
pub open spec fn after_slots(sec: Seq<u8>, c: u32, s: int, p: Scan, k: nat) -> Scan
    decreases k,
{
    if k == 0 {
        p
    } else {
        after_slot(sec, 32 * (k - 1), c, s, after_slots(sec, c, s, p, (k - 1) as nat))
    }
}

/// The scan after the first `k` sectors of cluster `c`.
pub open spec fn after_sectors(v: Volume, c: u32, p: Scan, k: nat) -> Result<Scan, FatError>
    decreases k,
{
    if k == 0 {
        Ok(p)
    } else {
        match after_sectors(v, c, p, (k - 1) as nat) {
            Err(e) => Err(e),
            Ok(q) => if q.ended {
                Ok(q)
            } else {
                match sector_read(v.drive, cluster_sector(v, c) + k - 1) {
                    Err(e) => Err(e),
                    Ok(sec) => Ok(after_slots(sec, c, k - 1, q, 16)),
                }
            },
        }
    }
}

/// The entries of the directory whose chain goes on with cluster `c`.
pub open spec fn scanned(v: Volume, c: u32, guard: nat, p: Scan) -> Result<Seq<Entry>, FatError>
    decreases 1_000_001 - guard,
{
    if c < 2 || guard > 1_000_000 {
        Err(FatError::Corrupt)
    } else {
        match after_sectors(v, c, p, v.spc) {
            Err(e) => Err(e),
            Ok(q) => if q.ended {
                Ok(q.out)
            } else {
                match next_of(v, c) {
                    None => Err(FatError::Corrupt),
                    Some(n) => if n >= EOF_MARK {
                        Ok(q.out)
                    } else {
                        scanned(v, n, guard + 1, q)
                    },
                }
            },
        }
    }
}

/// The entries of the directory that starts at cluster `c`.
pub open spec fn listing(v: Volume, c: u32) -> Result<Seq<Entry>, FatError> {
    scanned(v, c, 0, no_scan())
}

fn is_listed(name: &Vec<char>) -> (r: bool)
    ensures
        r == listed(name@),
{
    if name.len() == 0 {
        return false;
    }
    if name.len() == 1 && name[0] == '.' {
        assert(name@ =~= seq!['.']);
        return false;
    }
    if name.len() == 2 && name[0] == '.' && name[1] == '.' {
        assert(name@ =~= seq!['.', '.']);
        return false;
    }
    proof {
        if name@ == seq!['.'] {
            assert(name@[0] == '.');
        }
        if name@ == seq!['.', '.'] {
            assert(name@[0] == '.' && name@[1] == '.');
        }
    }
    true
}

spec fn scan_view(out: Seq<DirEntry>, lfn: Seq<Vec<u16>>, ended: bool) -> Scan {
    Scan { out: entry_views(out), lfn: part_views(lfn), ended }
}

/// Takes in one slot.
fn scan_slot(
    sector: &Vec<u8>,
    at: usize,
    c: u32,
    s: usize,
    out: &mut Vec<DirEntry>,
    lfn: &mut Vec<Vec<u16>>,
) -> (ended: bool)
    requires
        sector@.len() == 512,
        at + 32 <= 512,
        s <= 255,
    ensures
        scan_view(final(out)@, final(lfn)@, ended) == after_slot(
            sector@,
            at as int,
            c,
            s as int,
            scan_view(old(out)@, old(lfn)@, false),
        ),
{
    let ghost p = scan_view(out@, lfn@, false);
    if sector[at] == 0 {
        return true;
    }
    if sector[at] == 0xE5 {
        lfn.clear();
        assert(part_views(lfn@) =~= Seq::<Seq<u16>>::empty());
        return false;
    }
    let attr = sector[at + 0x0B];
    if attr == 0x0F {
        let part = read_lfn_part(sector, at);
        let ghost pv = part@;
        lfn.insert(0, part);
        assert(part_views(lfn@) =~= seq![pv] + p.lfn);
        return false;
    }
    let name = if lfn.len() == 0 { sfn_name(sector, at) } else { assemble_lfn(lfn) };
    assert(name@ == slot_name(sector@, at as int, p.lfn));
    lfn.clear();
    assert(part_views(lfn@) =~= Seq::<Seq<u16>>::empty());
    if is_listed(&name) {
        let entry = DirEntry {
            name: string_of(&name),
            is_dir: attr & 0x10 != 0,
            size: read_slot_size(sector, at),
            first_cluster: read_slot_cluster(sector, at),
            location: (c, s * 512 + at),
        };
        let ghost ev = entry@;
        out.push(entry);
        assert(entry_views(out@) =~= p.out.push(ev));
    }
    false
}

/// Takes in the slots of a sector.
fn scan_sector(
    sector: &Vec<u8>,
    c: u32,
    s: usize,
    out: &mut Vec<DirEntry>,
    lfn: &mut Vec<Vec<u16>>,
) -> (ended: bool)
    requires
        sector@.len() == 512,
        s <= 255,
    ensures
        scan_view(final(out)@, final(lfn)@, ended) == after_slots(
            sector@,
            c,
            s as int,
            scan_view(old(out)@, old(lfn)@, false),
            16,
        ),
{
    let ghost p = scan_view(out@, lfn@, false);
    let mut k: usize = 0;
    let mut ended = false;
    while k < 16
        invariant
            k <= 16,
            sector@.len() == 512,
            s <= 255,
            scan_view(out@, lfn@, ended) == after_slots(sector@, c, s as int, p, k as nat),
        decreases 16 - k,
    {
        if !ended {
            ended = scan_slot(sector, k * 32, c, s, out, lfn);
        }
        k += 1;
    }
    ended
}

impl Fat32 {
    /// Takes in the sectors of a cluster.
    fn scan_cluster(&self, c: u32, out: &mut Vec<DirEntry>, lfn: &mut Vec<Vec<u16>>) -> (r: Result<
        bool,
        FatError,
    >)
        requires
            self.wf(),
            c >= 2,
        ensures
            match after_sectors(self@, c, scan_view(old(out)@, old(lfn)@, false), self@.spc) {
                Ok(q) => r is Ok && q == scan_view(final(out)@, final(lfn)@, r->Ok_0),
                Err(e) => r is Err && r->Err_0 == e,
            },
    {
        let ghost v = self@;
        let ghost p = scan_view(out@, lfn@, false);
        let first = self.cluster_to_sector(c);
        let n = self.sectors_per_cluster as usize;
        let mut k: usize = 0;
        let mut ended = false;
        while k < n
            invariant
                k <= n <= 255,
                n == v.spc,
                v == self@,
                p == scan_view(old(out)@, old(lfn)@, false),
                first == cluster_sector(v, c),
                first <= 0x1FF_FFFF_FFFF,
                after_sectors(v, c, p, k as nat) == Ok::<Scan, FatError>(
                    scan_view(out@, lfn@, ended),
                ),
            decreases n - k,
        {
            if !ended {
                let sector = match self.read_sector(first + k as u64) {
                    Ok(s) => s,
                    Err(e) => {
                        proof {
                            lemma_sector_fault_persists(v, c, p, (k + 1) as nat, n as nat);
                        }
                        return Err(e);
                    },
                };
                ended = scan_sector(&sector, c, k, out, lfn);
            }
            k += 1;
        }
        Ok(ended)
    }

    /// Lists the entries of the directory that starts at `cluster`.
    fn read_dir(&self, cluster: u32) -> (r: Result<Vec<DirEntry>, FatError>)
        requires
            self.wf(),
        ensures
            match listing(self@, cluster) {
                Ok(es) => r is Ok && entry_views(r->Ok_0@) == es,
                Err(e) => r is Err && r->Err_0 == e,
            },
    {
        let mut out: Vec<DirEntry> = Vec::new();
        let mut lfn: Vec<Vec<u16>> = Vec::new();
        let mut current: u32 = cluster;
        let mut guard: u32 = 0;
        assert(entry_views(out@) =~= Seq::<Entry>::empty());
        assert(part_views(lfn@) =~= Seq::<Seq<u16>>::empty());
        loop
            invariant
                self.wf(),
                guard <= 1_000_001,
                listing(self@, cluster) == scanned(
                    self@,
                    current,
                    guard as nat,
                    scan_view(out@, lfn@, false),
                ),
            decreases 1_000_001 - guard,
        {
            if current < 2 || guard > CHAIN_GUARD {
                return Err(FatError::Corrupt);
            }
            match self.scan_cluster(current, &mut out, &mut lfn) {
                Err(e) => {
                    return Err(e);
                },
                Ok(ended) => {
                    if ended {
                        return Ok(out);
                    }
                },
            }
            match self.next_cluster(current) {
                None => {
                    return Err(FatError::Corrupt);
                },
                Some(n) => {
                    if n >= EOF_MARK {
                        return Ok(out);
                    }
                    current = n;
                },
            }
            guard += 1;
        }
    }
}

proof fn lemma_sector_fault_persists(v: Volume, c: u32, p: Scan, k: nat, n: nat)
    requires
        k <= n,
        after_sectors(v, c, p, k) is Err,
    ensures
        after_sectors(v, c, p, n) == after_sectors(v, c, p, k),
    decreases n,
{
    if k < n {
        lemma_sector_fault_persists(v, c, p, k, (n - 1) as nat);
    }
}

// ---------------------------------------------------------------------
// Paths
// ---------------------------------------------------------------------

/// Which entries a lookup is after.
#[derive(Clone, Copy, Debug, PartialEq, Eq, Structural)]
pub enum Want {
    Any,
    Dir,
    File,
}

/// Whether an entry is the one looked for.
pub open spec fn is_wanted(e: Entry, name: Seq<char>, want: Want) -> bool {
    same_name(e.name, name) && match want {
        Want::Any => true,
        Want::Dir => e.is_dir,
        Want::File => !e.is_dir,
    }
}

/// The first wanted entry from `i` on, or the length of the list.
pub open spec fn first_wanted(es: Seq<Entry>, name: Seq<char>, want: Want, i: int) -> int
    decreases es.len() - i,
{
    if i >= es.len() || is_wanted(es[i], name, want) {
        i
    } else {
        first_wanted(es, name, want, i + 1)
    }
}

/// The first wanted entry.
pub open spec fn lookup(es: Seq<Entry>, name: Seq<char>, want: Want) -> Option<Entry> {
    let i = first_wanted(es, name, want, 0);
    if i < es.len() {
        Some(es[i])
    } else {
        None
    }
}

fn find_entry(es: &Vec<DirEntry>, name: &Vec<char>, want: Want) -> (r: Option<usize>)
    ensures
        match lookup(entry_views(es@), name@, want) {
            Some(e) => r is Some && r->0 < es@.len() && es@[r->0 as int]@ == e,
            None => r is None,
        },
{
    let ghost ev = entry_views(es@);
    let mut i: usize = 0;
    while i < es.len()
        invariant
            i <= es@.len(),
            ev == entry_views(es@),
            first_wanted(ev, name@, want, 0) == first_wanted(ev, name@, want, i as int),
        decreases es@.len() - i,
    {
        let e = &es[i];
        let kind = match want {
            Want::Any => true,
            Want::Dir => e.is_dir,
            Want::File => !e.is_dir,
        };
        let chars = chars_of(e.name.as_str());
        assert(ev[i as int] == e@);
        if kind && name_matches(&chars, name) {
            return Some(i);
        }
        i += 1;
    }
    None
}

/// The pieces that are not empty.
pub open spec fn nonempty(p: Seq<Seq<char>>) -> Seq<Seq<char>>
    decreases p.len(),
{
    if p.len() == 0 {
        Seq::empty()
    } else if p.last().len() > 0 {
        nonempty(p.drop_last()).push(p.last())
    } else {
        nonempty(p.drop_last())
    }
}

/// The components of a path.
pub open spec fn components(path: Seq<char>) -> Seq<Seq<char>> {
    nonempty(pieces(path, '/'))
}

fn split_path(path: &str) -> (r: Vec<Vec<char>>)
    ensures
        views(r@) == components(path@),
{
    let chars = chars_of(path);
    let parts = split_at_each(&chars, '/');
    let ghost pv = views(parts@);
    let mut out: Vec<Vec<char>> = Vec::new();
    let mut i: usize = 0;
    assert(pv.take(0) =~= Seq::<Seq<char>>::empty());
    assert(views(out@) =~= nonempty(pv.take(0)));
    while i < parts.len()
        invariant
            i <= parts@.len(),
            pv == views(parts@),
            views(out@) == nonempty(pv.take(i as int)),
        decreases parts@.len() - i,
    {
        let ghost before = views(out@);
        assert(pv.take(i + 1).drop_last() =~= pv.take(i as int));
        assert(pv.take(i + 1).last() == parts@[i as int]@);
        if parts[i].len() > 0 {
            let copy = copy_chars(&parts[i]);
            out.push(copy);
            assert(views(out@) =~= before.push(parts@[i as int]@));
        }
        i += 1;
    }
    assert(pv.take(i as int) =~= pv);
    out
}

fn copy_chars(s: &Vec<char>) -> (r: Vec<char>)
    ensures
        r@ == s@,
{
    let mut out: Vec<char> = Vec::new();
    let mut i: usize = 0;
    while i < s.len()
        invariant
            i <= s@.len(),
            out@ =~= s@.take(i as int),
        decreases s@.len() - i,
    {
        out.push(s[i]);
        i += 1;
    }
    assert(out@ =~= s@);
    out
}

/// The directory that the components lead to from cluster `c`.
pub open spec fn walked(v: Volume, c: u32, comps: Seq<Seq<char>>) -> Result<u32, FatError>
    decreases comps.len(),
{
    if comps.len() == 0 {
        Ok(c)
    } else {
        match listing(v, c) {
            Err(e) => Err(e),
            Ok(es) => match lookup(es, comps[0], Want::Dir) {
                None => Err(FatError::NotFound),
                Some(e) => walked(v, e.first_cluster, comps.skip(1)),
            },
        }
    }
}

/// The directory that a path's last component is in, and that component.
pub open spec fn parent_of(v: Volume, path: Seq<char>) -> Result<(u32, Seq<char>), FatError> {
    let comps = components(path);
    if comps.len() == 0 || encode_utf8(comps.last()).len() > 128 {
        Err(FatError::InvalidName)
    } else {
        match walked(v, v.root, comps.drop_last()) {
            Ok(c) => Ok((c, comps.last())),
            Err(e) => Err(e),
        }
    }
}

impl Fat32 {
    fn walk(&self, comps: &Vec<Vec<char>>, n: usize) -> (r: Result<u32, FatError>)
        requires
            self.wf(),
            n <= comps@.len(),
        ensures
            match walked(self@, self@.root, views(comps@).take(n as int)) {
                Ok(c) => r is Ok && r->Ok_0 == c,
                Err(e) => r is Err && r->Err_0 == e,
            },
    {
        let ghost all = views(comps@).take(n as int);
        let mut cluster: u32 = self.root_cluster;
        let mut i: usize = 0;
        assert(all.skip(0) =~= all);
        while i < n
            invariant
                self.wf(),
                i <= n <= comps@.len(),
                all == views(comps@).take(n as int),
                walked(self@, self@.root, all) == walked(self@, cluster, all.skip(i as int)),
            decreases n - i,
        {
            let entries = match self.read_dir(cluster) {
                Ok(es) => es,
                Err(e) => {
                    return Err(e);
                },
            };
            assert(all.skip(i as int)[0] == comps@[i as int]@);
            assert(all.skip(i as int).skip(1) =~= all.skip(i + 1));
            match find_entry(&entries, &comps[i], Want::Dir) {
                None => {
                    return Err(FatError::NotFound);
                },
                Some(k) => {
                    cluster = entries[k].first_cluster;
                },
            }
            i += 1;
        }
        Ok(cluster)
    }

    fn resolve_parent(&self, path: &str) -> (r: Result<(u32, Vec<char>), FatError>)
        requires
            self.wf(),
        ensures
            match parent_of(self@, path@) {
                Ok((c, name)) => r matches Ok((rc, rname)) && rc == c && rname@ == name,
                Err(e) => r is Err && r->Err_0 == e,
            },
    {
        let parts = split_path(path);
        let n = parts.len();
        let ghost comps = components(path@);
        assert(comps.len() == n);
        if n == 0 {
            return Err(FatError::InvalidName);
        }
        let name = copy_chars(&parts[n - 1]);
        assert(comps.last() == name@);
        if byte_len(&name) > crate::fatname::MAX_NAME {
            return Err(FatError::InvalidName);
        }
        assert(comps.drop_last() =~= views(parts@).take(n - 1));
        match self.walk(&parts, n - 1) {
            Ok(c) => Ok((c, name)),
            Err(e) => Err(e),
        }
    }

    /// The entry of this name in a directory; none if the directory cannot
    /// be read.
    fn find_dir_entry(&self, parent: u32, name: &Vec<char>) -> (r: Option<DirEntry>)
        requires
            self.wf(),
        ensures
            match entry_in(self@, parent, name@) {
                Some(e) => r is Some && r->0@ == e,
                None => r is None,
            },
    {
        let mut entries = match self.read_dir(parent) {
            Ok(es) => es,
            Err(_) => {
                return None;
            },
        };
        match find_entry(&entries, name, Want::Any) {
            None => None,
            Some(k) => Some(entries.remove(k)),
        }
    }
}

/// The entry of this name in a directory, whatever its kind; none if the
/// directory cannot be read.
pub open spec fn entry_in(v: Volume, parent: u32, name: Seq<char>) -> Option<Entry> {
    match listing(v, parent) {
        Err(_) => None,
        Ok(es) => lookup(es, name, Want::Any),
    }
}

// ---------------------------------------------------------------------
// File data
// ---------------------------------------------------------------------

pub open spec fn min(a: int, b: int) -> int {
    if a < b {
        a
    } else {
        b
    }
}

/// The data after the first `k` sectors of cluster `c`, and how many bytes
/// are still missing.
pub open spec fn cluster_data(
    v: Volume,
    c: u32,
    acc: Seq<u8>,
    missing: nat,
    k: nat,
) -> Result<(Seq<u8>, nat), FatError>
    decreases k,
{
    if k == 0 {
        Ok((acc, missing))
    } else {
        match cluster_data(v, c, acc, missing, (k - 1) as nat) {
            Err(e) => Err(e),
            Ok((a, m)) => if m == 0 {
                Ok((a, m))
            } else {
                match sector_read(v.drive, cluster_sector(v, c) + k - 1) {
                    Err(e) => Err(e),
                    Ok(sec) => {
                        let n = min(m as int, 512);
                        Ok((a + sec.take(n), (m - n) as nat))
                    },
                }
            },
        }
    }
}

/// The data of a file whose chain goes on with cluster `c`.
pub open spec fn chain_data(v: Volume, c: u32, acc: Seq<u8>, missing: nat, guard: nat) -> Result<
    Seq<u8>,
    FatError,
>
    decreases 1_000_001 - guard,
{
    if missing == 0 {
        Ok(acc)
    } else if c < 2 || guard > 1_000_000 {
        Err(FatError::Corrupt)
    } else {
        match cluster_data(v, c, acc, missing, v.spc) {
            Err(e) => Err(e),
            Ok((a, m)) => if m == 0 {
                Ok(a)
            } else {
                match next_of(v, c) {
                    None => Err(FatError::Corrupt),
                    Some(n) => if n >= EOF_MARK {
                        Err(FatError::Corrupt)
                    } else {
                        chain_data(v, n, a, m, guard + 1)
                    },
                }
            },
        }
    }
}

/// The data of a file of `size` bytes that starts at cluster `first`.
pub open spec fn file_data(v: Volume, first: u32, size: nat) -> Result<Seq<u8>, FatError> {
    chain_data(v, first, Seq::empty(), size, 0)
}

proof fn lemma_data_fault_persists(v: Volume, c: u32, acc: Seq<u8>, missing: nat, k: nat, n: nat)
    requires
        k <= n,
        cluster_data(v, c, acc, missing, k) is Err,
    ensures
        cluster_data(v, c, acc, missing, n) == cluster_data(v, c, acc, missing, k),
    decreases n,
{
    if k < n {
        lemma_data_fault_persists(v, c, acc, missing, k, (n - 1) as nat);
    }
}

impl Fat32 {
    /// Appends what cluster `c` holds of a file with `missing` bytes to come.
    fn read_cluster(&self, c: u32, data: &mut Vec<u8>, missing: usize) -> (r: Result<
        usize,
        FatError,
    >)
        requires
            self.wf(),
            c >= 2,
        ensures
            match cluster_data(self@, c, old(data)@, missing as nat, self@.spc) {
                Ok((a, m)) => r is Ok && final(data)@ == a && r->Ok_0 == m,
                Err(e) => r is Err && r->Err_0 == e,
            },
    {
        let ghost v = self@;
        let ghost acc = data@;
        let first = self.cluster_to_sector(c);
        let n = self.sectors_per_cluster as usize;
        let mut left: usize = missing;
        let mut k: usize = 0;
        while k < n
            invariant
                k <= n <= 255,
                n == v.spc,
                v == self@,
                acc == old(data)@,
                first == cluster_sector(v, c),
                first <= 0x1FF_FFFF_FFFF,
                cluster_data(v, c, acc, missing as nat, k as nat) == Ok::<(Seq<u8>, nat), FatError>(
                    (data@, left as nat),
                ),
            decreases n - k,
        {
            if left > 0 {
                let sector = match self.read_sector(first + k as u64) {
                    Ok(s) => s,
                    Err(e) => {
                        proof {
                            lemma_data_fault_persists(
                                v,
                                c,
                                acc,
                                missing as nat,
                                (k + 1) as nat,
                                n as nat,
                            );
                        }
                        return Err(e);
                    },
                };
                let take: usize = if left < 512 { left } else { 512 };
                let part = slice_subrange(sector.as_slice(), 0, take);
                let ghost before = data@;
                data.extend_from_slice(part);
                assert(data@ =~= before + sector@.take(take as int));
                left = left - take;
            }
            k += 1;
        }
        Ok(left)
    }

    fn read_file_data(&self, first_cluster: u32, size: usize) -> (r: Result<Vec<u8>, FatError>)
        requires
            self.wf(),
        ensures
            match file_data(self@, first_cluster, size as nat) {
                Ok(d) => r is Ok && r->Ok_0@ == d,
                Err(e) => r is Err && r->Err_0 == e,
            },
    {
        let mut data: Vec<u8> = Vec::new();
        let mut cluster: u32 = first_cluster;
        let mut missing: usize = size;
        let mut guard: u32 = 0;
        assert(data@ =~= Seq::<u8>::empty());
        while missing > 0
            invariant
                self.wf(),
                guard <= 1_000_001,
                file_data(self@, first_cluster, size as nat) == chain_data(
                    self@,
                    cluster,
                    data@,
                    missing as nat,
                    guard as nat,
                ),
            decreases (if missing > 0 { 1_000_002 - guard } else { 0 }),
        {
            if cluster < 2 || guard > CHAIN_GUARD {
                return Err(FatError::Corrupt);
            }
            match self.read_cluster(cluster, &mut data, missing) {
                Err(e) => {
                    return Err(e);
                },
                Ok(left) => {
                    missing = left;
                },
            }
            if missing == 0 {
                return Ok(data);
            }
            match self.next_cluster(cluster) {
                None => {
                    return Err(FatError::Corrupt);
                },
                Some(n) => {
                    if n >= EOF_MARK {
                        return Err(FatError::Corrupt);
                    }
                    cluster = n;
                },
            }
            guard += 1;
        }
        Ok(data)
    }
}

// ---------------------------------------------------------------------
// The FAT
// ---------------------------------------------------------------------

/// The volume with the FAT entry of `c` set.
pub open spec fn with_entry(v: Volume, c: int, value: u32) -> Volume {
    Volume { fat: v.fat.update(c, value), dirty: v.dirty.update(c / 128, true), ..v }
}

/// The lowest free cluster from `i` on, or the length of the FAT.
pub open spec fn lowest_free(fat: Seq<u32>, i: int) -> int
    decreases fat.len() - i,
{
    if i >= fat.len() {
        fat.len() as int
    } else if fat[i] % 0x1000_0000 == 0 {
        i
    } else {
        lowest_free(fat, i + 1)
    }
}

/// What taking a free cluster comes to.
pub open spec fn allocated(v: Volume) -> (Result<u32, FatError>, Volume) {
    let c = lowest_free(v.fat, 2);
    if c < v.fat.len() {
        (
            Ok(c as u32),
            Volume {
                free: if v.free > 0 {
                    (v.free - 1) as u32
                } else {
                    0
                },
                ..with_entry(v, c, EOF_MARK)
            },
        )
    } else {
        (Err(FatError::OutOfSpace), v)
    }
}

/// What freeing the chain that goes on with cluster `c` comes to.
pub open spec fn freed(v: Volume, c: u32, guard: nat) -> (Result<(), FatError>, Volume)
    decreases 1_000_001 - guard,
{
    if c >= EOF_MARK {
        (Ok(()), v)
    } else if c < 2 || guard > 1_000_000 || c >= v.fat.len() {
        (Err(FatError::Corrupt), v)
    } else {
        let u = Volume {
            free: if v.free < u32::MAX {
                (v.free + 1) as u32
            } else {
                v.free
            },
            ..with_entry(v, c as int, 0)
        };
        freed(u, (v.fat[c as int] % 0x1000_0000) as u32, guard + 1)
    }
}

/// How many of the entries below `n` are free.
pub open spec fn free_count(fat: Seq<u32>, n: int) -> nat
    decreases n,
{
    if n <= 2 {
        0
    } else {
        free_count(fat, n - 1) + if fat[n - 1] % 0x1000_0000 == 0 {
            1nat
        } else {
            0
        }
    }
}

/// The bytes of sector `i` of the FAT.
pub open spec fn fat_sector(fat: Seq<u32>, i: int) -> Seq<u8> {
    Seq::new(512, |p: int| le32_bytes(fat[i * 128 + p / 4])[p % 4])
}

/// What flushing the dirty FAT sectors from `i` on comes to.
pub open spec fn flushed(v: Volume, i: nat) -> (Result<(), FatError>, Volume)
    decreases v.dirty.len() - i,
{
    if i >= v.dirty.len() {
        (Ok(()), v)
    } else if !v.dirty[i as int] {
        flushed(v, i + 1)
    } else {
        match sector_written(v.drive, (v.reserved + i) as int, fat_sector(v.fat, i as int)) {
            Err(e) => (Err(e), v),
            Ok(d) => flushed(
                Volume { drive: d, dirty: v.dirty.update(i as int, false), ..v },
                i + 1,
            ),
        }
    }
}

impl Fat32 {
    fn scan_free_clusters(&mut self)
        requires
            old(self).wf(),
        ensures
            final(self)@ == (Volume {
                free: free_count(old(self)@.fat, old(self)@.fat.len() as int) as u32,
                ..old(self)@
            }),
    {
        let mut free: u32 = 0;
        let n = self.fat.len();
        let mut i: usize = 2;
        while i < n
            invariant
                i >= 2,
                n == self.fat@.len(),
                n <= 0x1_0000_0000,
                i <= n || i == 2,
                free <= i - 2,
                free == free_count(self.fat@, i as int),
                *self == *old(self),
            decreases n - i,
        {
            if self.fat[i] % 0x1000_0000 == 0 {
                free = free + 1;
            }
            i += 1;
        }
        assert(free == free_count(self.fat@, n as int));
        self.free_clusters = free;
    }

    fn set_cluster(&mut self, cluster: u32, value: u32)
        requires
            old(self).wf(),
            cluster < old(self)@.fat.len(),
        ensures
            final(self).wf(),
            final(self)@ == with_entry(old(self)@, cluster as int, value),
    {
        self.fat.set(cluster as usize, value);
        self.fat_dirty.set(cluster as usize / 128, true);
    }

    fn alloc_cluster(&mut self) -> (r: Result<u32, FatError>)
        requires
            old(self).wf(),
        ensures
            final(self).wf(),
            r == allocated(old(self)@).0,
            final(self)@ == allocated(old(self)@).1,
            r matches Ok(c) ==> 2 <= c < final(self)@.fat.len(),
    {
        let n = self.fat.len();
        let mut c: usize = 2;
        while c < n
            invariant
                2 <= c,
                n == self.fat@.len(),
                *self == *old(self),
                self.wf(),
                lowest_free(self.fat@, 2) == lowest_free(self.fat@, c as int),
            decreases n - c,
        {
            if self.fat[c] % 0x1000_0000 == 0 {
                self.set_cluster(c as u32, EOF_MARK);
                self.free_clusters = self.free_clusters.saturating_sub(1);
                return Ok(c as u32);
            }
            c += 1;
        }
        Err(FatError::OutOfSpace)
    }

    fn free_chain(&mut self, first: u32) -> (r: Result<(), FatError>)
        requires
            old(self).wf(),
        ensures
            final(self).wf(),
            r == freed(old(self)@, first, 0).0,
            final(self)@ == freed(old(self)@, first, 0).1,
    {
        let mut cluster: u32 = first;
        let mut guard: u32 = 0;
        while cluster < EOF_MARK
            invariant
                self.wf(),
                guard <= 1_000_001,
                freed(old(self)@, first, 0) == freed(self@, cluster, guard as nat),
            decreases (if cluster < EOF_MARK { 1_000_002 - guard } else { 0 }),
        {
            if cluster < 2 || guard > CHAIN_GUARD {
                return Err(FatError::Corrupt);
            }
            let next = match self.next_cluster(cluster) {
                None => {
                    return Err(FatError::Corrupt);
                },
                Some(n) => n,
            };
            self.set_cluster(cluster, 0);
            self.free_clusters = self.free_clusters.saturating_add(1);
            cluster = next;
            guard += 1;
        }
        Ok(())
    }

    fn flush_fat(&mut self) -> (r: Result<(), FatError>)
        requires
            old(self).wf(),
        ensures
            final(self).wf(),
            r == flushed(old(self)@, 0).0,
            final(self)@ == flushed(old(self)@, 0).1,
    {
        let n = self.fat_dirty.len();
        let mut i: usize = 0;
        while i < n
            invariant
                i <= n,
                n == self.fat_dirty@.len(),
                self.wf(),
                flushed(old(self)@, 0) == flushed(self@, i as nat),
            decreases n - i,
        {
            if self.fat_dirty[i] {
                let mut sector: Vec<u8> = Vec::new();
                let mut j: usize = 0;
                while j < 128
                    invariant
                        j <= 128,
                        i < n == self.fat_dirty@.len(),
                        self.wf(),
                        sector@ =~= fat_sector(self@.fat, i as int).take(4 * j),
                    decreases 128 - j,
                {
                    assert(self.fat@.len() == self.fat.len());
                    let word = self.fat[i * 128 + j];
                    crate::bytes::push_le32(&mut sector, word);
                    j += 1;
                }
                assert(sector@ =~= fat_sector(self@.fat, i as int));
                let lba = self.reserved_sectors as u64 + i as u64;
                match self.write_sector(lba, &sector) {
                    Err(e) => {
                        return Err(e);
                    },
                    Ok(_) => {},
                }
                self.fat_dirty.set(i, false);
            }
            i += 1;
        }
        Ok(())
    }
}

// ---------------------------------------------------------------------
// Directory slots
// ---------------------------------------------------------------------

/// The sector with the long-name slots right before byte `back` marked
/// free.
pub open spec fn wiped(sec: Seq<u8>, back: int) -> Seq<u8>
    decreases back,
{
    if back >= 32 && sec[back - 32 + 0x0B] == 0x0F {
        wiped(sec.update(back - 32, 0xE5), back - 32)
    } else {
        sec
    }
}

/// What deleting the entry at byte `offset` of directory cluster `c` comes
/// to: its slot and the long-name slots before it in the sector are marked
/// free.
pub open spec fn entry_deleted(v: Volume, c: u32, offset: int) -> (Result<(), FatError>, Volume) {
    let lba = cluster_sector(v, c) + offset / 512;
    let at = offset % 512;
    match sector_read(v.drive, lba) {
        Err(e) => (Err(e), v),
        Ok(sec) => match sector_written(v.drive, lba, wiped(sec.update(at, 0xE5), at)) {
            Err(e) => (Err(e), v),
            Ok(d) => (Ok(()), Volume { drive: d, ..v }),
        },
    }
}

/// Whether slot `j` of a sector is free.
pub open spec fn free_slot(sec: Seq<u8>, j: int) -> bool {
    sec[32 * j] == 0 || sec[32 * j] == 0xE5
}

/// Whether `n` slots from slot `b` on are free.
pub open spec fn run_at(sec: Seq<u8>, b: int, n: int) -> bool {
    b + n <= 16 && forall|j: int| b <= j < b + n ==> #[trigger] free_slot(sec, j)
}

/// The lowest slot from `b` on at which `n` free slots start, or 16.
pub open spec fn lowest_run(sec: Seq<u8>, b: int, n: int) -> int
    decreases 16 - b,
{
    if b >= 16 || run_at(sec, b, n) {
        b
    } else {
        lowest_run(sec, b + 1, n)
    }
}

/// The byte offset in cluster `c` of the first run of `n` free slots
/// inside one of its sectors from `s` on.
pub open spec fn cluster_run(v: Volume, c: u32, s: int, n: int) -> Result<Option<int>, FatError>
    decreases v.spc - s,
{
    if s >= v.spc {
        Ok(None)
    } else {
        match sector_read(v.drive, cluster_sector(v, c) + s) {
            Err(e) => Err(e),
            Ok(sec) => {
                let b = lowest_run(sec, 0, n);
                if b < 16 {
                    Ok(Some(s * 512 + b * 32))
                } else {
                    cluster_run(v, c, s + 1, n)
                }
            },
        }
    }
}

/// Where in the directory whose chain goes on with cluster `c` the first
/// run of `n` free slots inside a single sector starts.
pub open spec fn dir_run(v: Volume, c: u32, n: int, guard: nat) -> Result<
    Option<(u32, int)>,
    FatError,
>
    decreases 1_000_001 - guard,
{
    if c < 2 || guard > 1_000_000 {
        Err(FatError::Corrupt)
    } else {
        match cluster_run(v, c, 0, n) {
            Err(e) => Err(e),
            Ok(Some(o)) => Ok(Some((c, o))),
            Ok(None) => match next_of(v, c) {
                None => Err(FatError::Corrupt),
                Some(m) => if m >= EOF_MARK {
                    Ok(None)
                } else {
                    dir_run(v, m, n, guard + 1)
                },
            },
        }
    }
}

/// The last cluster of the chain that goes on with `c`.
pub open spec fn chain_end(v: Volume, c: u32, guard: nat) -> Option<u32>
    decreases 1_000_001 - guard,
{
    if guard > 1_000_000 {
        None
    } else {
        match next_of(v, c) {
            None => None,
            Some(n) => if n >= EOF_MARK {
                Some(c)
            } else {
                chain_end(v, n, guard + 1)
            },
        }
    }
}

pub open spec fn zeros() -> Seq<u8> {
    Seq::new(512, |i: int| 0u8)
}

/// What clearing the sectors of cluster `c` from `s` on comes to.
pub open spec fn cleared(v: Volume, c: u32, s: int) -> (Result<(), FatError>, Volume)
    decreases v.spc - s,
{
    if s >= v.spc {
        (Ok(()), v)
    } else {
        match sector_written(v.drive, cluster_sector(v, c) + s, zeros()) {
            Err(e) => (Err(e), v),
            Ok(d) => cleared(Volume { drive: d, ..v }, c, s + 1),
        }
    }
}

/// What appending a zeroed cluster to a directory comes to.
pub open spec fn extended(v: Volume, parent: u32) -> (Result<u32, FatError>, Volume) {
    let (r, u) = allocated(v);
    match r {
        Err(e) => (Err(e), u),
        Ok(c) => match chain_end(u, parent, 0) {
            None => (Err(FatError::Corrupt), u),
            Some(last) => {
                let (done, w) = cleared(with_entry(u, last as int, c), c, 0);
                match done {
                    Err(e) => (Err(e), w),
                    Ok(_) => (Ok(c), w),
                }
            },
        },
    }
}

/// Where new slots go: into a free run, or into a new cluster at the end
/// of the directory.
pub open spec fn slots_place(v: Volume, parent: u32, n: int) -> (
    Result<(u32, int), FatError>,
    Volume,
) {
    match dir_run(v, parent, n, 0) {
        Err(e) => (Err(e), v),
        Ok(Some((c, o))) => (Ok((c, o)), v),
        Ok(None) => {
            let (r, u) = extended(v, parent);
            match r {
                Err(e) => (Err(e), u),
                Ok(c) => (Ok((c, 0)), u),
            }
        },
    }
}

/// The slots as one run of bytes.
pub open spec fn slot_bytes(slots: Seq<Seq<u8>>) -> Seq<u8> {
    Seq::new(32 * slots.len(), |p: int| slots[p / 32][p % 32])
}

/// What writing slots at byte `offset` of directory cluster `c` comes to.
pub open spec fn slots_stored(v: Volume, c: u32, offset: int, slots: Seq<Seq<u8>>) -> (
    Result<(), FatError>,
    Volume,
) {
    let lba = cluster_sector(v, c) + offset / 512;
    match sector_read(v.drive, lba) {
        Err(e) => (Err(e), v),
        Ok(sec) => match sector_written(
            v.drive,
            lba,
            splice(sec, offset % 512, slot_bytes(slots)),
        ) {
            Err(e) => (Err(e), v),
            Ok(d) => (Ok(()), Volume { drive: d, ..v }),
        },
    }
}

/// A directory sector with the end marks among its first `b` slots turned
/// into free slots, so that a reader goes on behind them.
pub open spec fn unended(sec: Seq<u8>, b: int) -> Seq<u8> {
    Seq::new(
        sec.len(),
        |i: int|
            if i % 32 == 0 && i / 32 < b && sec[i] == 0 {
                0xE5u8
            } else {
                sec[i]
            },
    )
}

/// What opening sector `s` of directory cluster `c` for `n` new slots comes
/// to: the end marks before them go. Says whether there is room.
pub open spec fn sector_opened(v: Volume, c: u32, s: int, n: int) -> (
    Result<bool, FatError>,
    Volume,
) {
    let lba = cluster_sector(v, c) + s;
    match sector_read(v.drive, lba) {
        Err(e) => (Err(e), v),
        Ok(sec) => {
            let b = lowest_run(sec, 0, n);
            if unended(sec, b) == sec {
                (Ok(b < 16), v)
            } else {
                match sector_written(v.drive, lba, unended(sec, b)) {
                    Err(e) => (Err(e), v),
                    Ok(d) => (Ok(b < 16), Volume { drive: d, ..v }),
                }
            }
        },
    }
}

/// The same for the sectors of a cluster from `s` on, up to one with room.
pub open spec fn cluster_opened(v: Volume, c: u32, s: int, n: int) -> (
    Result<bool, FatError>,
    Volume,
)
    decreases v.spc - s,
{
    if s >= v.spc {
        (Ok(false), v)
    } else {
        let (r, u) = sector_opened(v, c, s, n);
        match r {
            Err(e) => (Err(e), u),
            Ok(true) => (Ok(true), u),
            Ok(false) => cluster_opened(u, c, s + 1, n),
        }
    }
}

/// The same for the directory whose chain goes on with cluster `c`.
pub open spec fn dir_opened(v: Volume, c: u32, n: int, guard: nat) -> (
    Result<(), FatError>,
    Volume,
)
    decreases 1_000_001 - guard,
{
    if c < 2 || guard > 1_000_000 {
        (Err(FatError::Corrupt), v)
    } else {
        let (r, u) = cluster_opened(v, c, 0, n);
        match r {
            Err(e) => (Err(e), u),
            Ok(true) => (Ok(()), u),
            Ok(false) => match next_of(u, c) {
                None => (Err(FatError::Corrupt), u),
                Some(m) => if m >= EOF_MARK {
                    (Ok(()), u)
                } else {
                    dir_opened(u, m, n, guard + 1)
                },
            },
        }
    }
}

/// How many slots an entry takes.
pub open spec fn slots_for(name: Seq<char>) -> int {
    lfn_count(name.len()) as int + 1
}

/// What entering a file or directory into its parent comes to.
pub open spec fn entered(
    v: Volume,
    parent: u32,
    name: Seq<char>,
    first: u32,
    size: u32,
    is_dir: bool,
    now: DateTime,
) -> (Result<(), FatError>, Volume) {
    let slots = entry_slots(name, is_dir, now, first, size);
    let (r, u) = slots_place(v, parent, slots.len() as int);
    match r {
        Err(e) => (Err(e), u),
        Ok((c, o)) => slots_stored(u, c, o, slots),
    }
}

pub(crate) proof fn lemma_lowest_run(sec: Seq<u8>, b: int, n: int)
    requires
        0 <= b <= 16,
        n > 0,
    ensures
        b <= lowest_run(sec, b, n) <= 16,
        lowest_run(sec, b, n) < 16 ==> run_at(sec, lowest_run(sec, b, n), n),
    decreases 16 - b,
{
    if b < 16 && !run_at(sec, b, n) {
        lemma_lowest_run(sec, b + 1, n);
    }
}

fn slot_count(len: usize) -> (r: usize)
    requires
        len <= 128,
    ensures
        r == lfn_count(len as nat) + 1,
{
    (len + 12) / 13 + 1
}

fn find_run(sector: &Vec<u8>, slots: usize) -> (r: usize)
    requires
        sector@.len() == 512,
        1 <= slots,
    ensures
        r == lowest_run(sector@, 0, slots as int),
        r <= 16,
        r < 16 ==> r + slots <= 16,
{
    let mut b: usize = 0;
    while b < 16
        invariant
            b <= 16,
            1 <= slots,
            sector@.len() == 512,
            lowest_run(sector@, 0, slots as int) == lowest_run(sector@, b as int, slots as int),
        decreases 16 - b,
    {
        let mut n: usize = 0;
        while b + n < 16 && n < slots && (sector[32 * (b + n)] == 0 || sector[32 * (b + n)] == 0xE5)
            invariant
                b < 16,
                n <= slots,
                b + n <= 16,
                sector@.len() == 512,
                forall|j: int| b <= j < b + n ==> #[trigger] free_slot(sector@, j),
            decreases 16 - n,
        {
            n += 1;
        }
        if n == slots {
            assert(run_at(sector@, b as int, slots as int));
            return b;
        }
        assert(!run_at(sector@, b as int, slots as int)) by {
            if b + slots <= 16 {
                assert(!free_slot(sector@, b + n));
            }
        }
        b += 1;
    }
    b
}

impl Fat32 {
    fn delete_entry_at(&mut self, cluster: u32, offset: usize) -> (r: Result<(), FatError>)
        requires
            old(self).wf(),
            cluster >= 2,
            offset < 0x2_0000,
            offset % 32 == 0,
        ensures
            final(self).wf(),
            r == entry_deleted(old(self)@, cluster, offset as int).0,
            final(self)@ == entry_deleted(old(self)@, cluster, offset as int).1,
    {
        let lba = self.cluster_to_sector(cluster) + (offset / 512) as u64;
        let at = offset % 512;
        let mut sector = match self.read_sector(lba) {
            Ok(s) => s,
            Err(e) => {
                return Err(e);
            },
        };
        sector.set(at, 0xE5);
        let ghost all = wiped(sector@, at as int);
        let mut back: usize = at;
        while back >= 32 && sector[back - 32 + 0x0B] == 0x0F
            invariant
                back <= 512,
                sector@.len() == 512,
                all == wiped(sector@, back as int),
            decreases back,
        {
            sector.set(back - 32, 0xE5);
            back = back - 32;
        }
        self.write_sector(lba, &sector)
    }

    /// Locates a run of free slots inside a single sector of cluster `c`.
    fn find_cluster_run(&self, c: u32, slots: usize) -> (r: Result<Option<usize>, FatError>)
        requires
            self.wf(),
            c >= 2,
            1 <= slots,
        ensures
            match cluster_run(self@, c, 0, slots as int) {
                Ok(Some(o)) => r matches Ok(Some(x)) && x == o && x < 0x2_0000 && x % 32 == 0 && x
                    % 512 + 32 * slots <= 512,
                Ok(None) => r matches Ok(None),
                Err(e) => r is Err && r->Err_0 == e,
            },
    {
        let first = self.cluster_to_sector(c);
        let n = self.sectors_per_cluster as usize;
        let mut s: usize = 0;
        while s < n
            invariant
                self.wf(),
                s <= n <= 255,
                n == self@.spc,
                1 <= slots,
                first == cluster_sector(self@, c),
                first <= 0x1FF_FFFF_FFFF,
                cluster_run(self@, c, 0, slots as int) == cluster_run(
                    self@,
                    c,
                    s as int,
                    slots as int,
                ),
            decreases n - s,
        {
            let sector = match self.read_sector(first + s as u64) {
                Ok(x) => x,
                Err(e) => {
                    return Err(e);
                },
            };
            let b = find_run(&sector, slots);
            if b < 16 {
                return Ok(Some(s * 512 + b * 32));
            }
            s += 1;
        }
        Ok(None)
    }

    /// Locates a run of `slots` free (0x00/0xE5) directory slots inside a
    /// single sector of `parent`'s chain, returning (cluster, byte offset).
    fn find_free_run(&self, parent: u32, slots: usize) -> (r: Result<
        Option<(u32, usize)>,
        FatError,
    >)
        requires
            self.wf(),
            1 <= slots,
        ensures
            match dir_run(self@, parent, slots as int, 0) {
                Ok(Some((c, o))) => r matches Ok(Some((rc, ro))) && rc == c && ro == o && c >= 2
                    && ro < 0x2_0000 && ro % 32 == 0 && ro % 512 + 32 * slots <= 512,
                Ok(None) => r matches Ok(None),
                Err(e) => r is Err && r->Err_0 == e,
            },
    {
        let mut current: u32 = parent;
        let mut guard: u32 = 0;
        loop
            invariant
                self.wf(),
                1 <= slots,
                guard <= 1_000_001,
                dir_run(self@, parent, slots as int, 0) == dir_run(
                    self@,
                    current,
                    slots as int,
                    guard as nat,
                ),
            decreases 1_000_001 - guard,
        {
            if current < 2 || guard > CHAIN_GUARD {
                return Err(FatError::Corrupt);
            }
            match self.find_cluster_run(current, slots) {
                Err(e) => {
                    return Err(e);
                },
                Ok(Some(o)) => {
                    return Ok(Some((current, o)));
                },
                Ok(None) => {},
            }
            match self.next_cluster(current) {
                None => {
                    return Err(FatError::Corrupt);
                },
                Some(n) => {
                    if n >= EOF_MARK {
                        return Ok(None);
                    }
                    current = n;
                },
            }
            guard += 1;
        }
    }

    /// Turns the end marks of a directory's sector that stand before `slots`
    /// new slots into free slots. Says whether there is room in it.
    fn open_sector(&mut self, c: u32, s: usize, slots: usize) -> (r: Result<bool, FatError>)
        requires
            old(self).wf(),
            c >= 2,
            s < 256,
            1 <= slots,
        ensures
            final(self).wf(),
            r == sector_opened(old(self)@, c, s as int, slots as int).0,
            final(self)@ == sector_opened(old(self)@, c, s as int, slots as int).1,
    {
        let lba = self.cluster_to_sector(c) + s as u64;
        let mut sector = match self.read_sector(lba) {
            Ok(x) => x,
            Err(e) => {
                return Err(e);
            },
        };
        let ghost sec = sector@;
        let b = find_run(&sector, slots);
        let mut changed = false;
        let mut j: usize = 0;
        assert(sector@ =~= unended(sec, 0));
        while j < b
            invariant
                j <= b <= 16,
                sec.len() == 512,
                sector@ == unended(sec, j as int),
                changed <==> exists|k: int| 0 <= k < j && #[trigger] sec[32 * k] == 0,
            decreases b - j,
        {
            let ghost had = sector@;
            assert(had[32 * j] == sec[32 * j as int]);
            if sector[32 * j] == 0 {
                sector.set(32 * j, 0xE5);
                changed = true;
            }
            assert forall|i: int| 0 <= i < 512 implies sector@[i] == unended(sec, j + 1)[i] by {
                assert(had[i] == unended(sec, j as int)[i]);
            }
            assert(sector@ =~= unended(sec, j + 1));
            j += 1;
        }
        if !changed {
            assert(unended(sec, b as int) =~= sec) by {
                assert forall|i: int| 0 <= i < 512 implies unended(sec, b as int)[i] == sec[i] by {
                    if i % 32 == 0 && i / 32 < b {
                        assert(sec[32 * (i / 32)] != 0);
                    }
                }
            }
            return Ok(b < 16);
        }
        proof {
            let k = choose|k: int| 0 <= k < b && #[trigger] sec[32 * k] == 0;
            assert(unended(sec, b as int)[32 * k] == 0xE5);
        }
        match self.write_sector(lba, &sector) {
            Err(e) => Err(e),
            Ok(_) => Ok(b < 16),
        }
    }

    fn open_cluster(&mut self, c: u32, slots: usize) -> (r: Result<bool, FatError>)
        requires
            old(self).wf(),
            c >= 2,
            1 <= slots,
        ensures
            final(self).wf(),
            r == cluster_opened(old(self)@, c, 0, slots as int).0,
            final(self)@ == cluster_opened(old(self)@, c, 0, slots as int).1,
    {
        let n = self.sectors_per_cluster as usize;
        let mut s: usize = 0;
        while s < n
            invariant
                self.wf(),
                c >= 2,
                1 <= slots,
                s <= n <= 255,
                n == self@.spc,
                cluster_opened(old(self)@, c, 0, slots as int) == cluster_opened(
                    self@,
                    c,
                    s as int,
                    slots as int,
                ),
            decreases n - s,
        {
            match self.open_sector(c, s, slots) {
                Err(e) => {
                    return Err(e);
                },
                Ok(room) => {
                    if room {
                        return Ok(true);
                    }
                },
            }
            s += 1;
        }
        Ok(false)
    }

    /// Makes sure that a reader of the directory gets to where `slots` new
    /// slots go: an end mark in a sector without room for them, which would
    /// stop the reader, becomes a free slot.
    fn open_dir(&mut self, parent: u32, slots: usize) -> (r: Result<(), FatError>)
        requires
            old(self).wf(),
            1 <= slots,
        ensures
            final(self).wf(),
            r == dir_opened(old(self)@, parent, slots as int, 0).0,
            final(self)@ == dir_opened(old(self)@, parent, slots as int, 0).1,
    {
        let mut current: u32 = parent;
        let mut guard: u32 = 0;
        loop
            invariant
                self.wf(),
                1 <= slots,
                guard <= 1_000_001,
                dir_opened(old(self)@, parent, slots as int, 0) == dir_opened(
                    self@,
                    current,
                    slots as int,
                    guard as nat,
                ),
            decreases 1_000_001 - guard,
        {
            if current < 2 || guard > CHAIN_GUARD {
                return Err(FatError::Corrupt);
            }
            match self.open_cluster(current, slots) {
                Err(e) => {
                    return Err(e);
                },
                Ok(room) => {
                    if room {
                        return Ok(());
                    }
                },
            }
            match self.next_cluster(current) {
                None => {
                    return Err(FatError::Corrupt);
                },
                Some(n) => {
                    if n >= EOF_MARK {
                        return Ok(());
                    }
                    current = n;
                },
            }
            guard += 1;
        }
    }

    fn find_chain_end(&self, first: u32) -> (r: Option<u32>)
        requires
            self.wf(),
        ensures
            r == chain_end(self@, first, 0),
            r matches Some(c) ==> c < self@.fat.len(),
    {
        let mut current: u32 = first;
        let mut guard: u32 = 0;
        loop
            invariant
                self.wf(),
                guard <= 1_000_001,
                chain_end(self@, first, 0) == chain_end(self@, current, guard as nat),
            decreases 1_000_001 - guard,
        {
            if guard > CHAIN_GUARD {
                return None;
            }
            match self.next_cluster(current) {
                None => {
                    return None;
                },
                Some(n) => {
                    if n >= EOF_MARK {
                        return Some(current);
                    }
                    current = n;
                },
            }
            guard += 1;
        }
    }

    fn clear_cluster(&mut self, c: u32) -> (r: Result<(), FatError>)
        requires
            old(self).wf(),
            c >= 2,
        ensures
            final(self).wf(),
            r == cleared(old(self)@, c, 0).0,
            final(self)@ == cleared(old(self)@, c, 0).1,
    {
        let mut zero: Vec<u8> = Vec::new();
        zero.resize(512, 0);
        assert(zero@ =~= zeros());
        let first = self.cluster_to_sector(c);
        let n = self.sectors_per_cluster as usize;
        let mut s: usize = 0;
        while s < n
            invariant
                self.wf(),
                s <= n <= 255,
                n == self@.spc,
                zero@ == zeros(),
                zero@.len() == 512,
                first == cluster_sector(self@, c),
                first <= 0x1FF_FFFF_FFFF,
                cleared(old(self)@, c, 0) == cleared(self@, c, s as int),
            decreases n - s,
        {
            match self.write_sector(first + s as u64, &zero) {
                Err(e) => {
                    return Err(e);
                },
                Ok(_) => {},
            }
            s += 1;
        }
        Ok(())
    }

    /// Appends one zeroed cluster to a directory chain, returning it.
    fn extend_dir(&mut self, parent: u32) -> (r: Result<u32, FatError>)
        requires
            old(self).wf(),
        ensures
            final(self).wf(),
            r == extended(old(self)@, parent).0,
            final(self)@ == extended(old(self)@, parent).1,
            r matches Ok(c) ==> c >= 2,
    {
        let new_cluster = match self.alloc_cluster() {
            Ok(c) => c,
            Err(e) => {
                return Err(e);
            },
        };
        let last = match self.find_chain_end(parent) {
            None => {
                return Err(FatError::Corrupt);
            },
            Some(c) => c,
        };
        self.set_cluster(last, new_cluster);
        match self.clear_cluster(new_cluster) {
            Err(e) => Err(e),
            Ok(_) => Ok(new_cluster),
        }
    }

    /// Writes slots into a directory sector.
    fn store_slots(&mut self, c: u32, offset: usize, slots: &Vec<Vec<u8>>) -> (r: Result<
        (),
        FatError,
    >)
        requires
            old(self).wf(),
            c >= 2,
            offset < 0x2_0000,
            offset % 512 + 32 * slots@.len() <= 512,
            forall|k: int| 0 <= k < slots@.len() ==> (#[trigger] slots@[k])@.len() == 32,
        ensures
            final(self).wf(),
            r == slots_stored(old(self)@, c, offset as int, slot_views(slots@)).0,
            final(self)@ == slots_stored(old(self)@, c, offset as int, slot_views(slots@)).1,
    {
        let lba = self.cluster_to_sector(c) + (offset / 512) as u64;
        let at = offset % 512;
        let mut sector = match self.read_sector(lba) {
            Ok(s) => s,
            Err(e) => {
                return Err(e);
            },
        };
        let ghost before = sector@;
        let ghost all = slot_bytes(slot_views(slots@));
        let mut i: usize = 0;
        assert(sector@ =~= splice(before, at as int, all.take(0)));
        while i < slots.len()
            invariant
                i <= slots@.len(),
                at + 32 * slots@.len() <= 512,
                sector@.len() == 512,
                before.len() == 512,
                all == slot_bytes(slot_views(slots@)),
                forall|k: int| 0 <= k < slots@.len() ==> (#[trigger] slots@[k])@.len() == 32,
                sector@ == splice(before, at as int, all.take(32 * i)),
            decreases slots@.len() - i,
        {
            copy_into(&mut sector, at + 32 * i, slots[i].as_slice());
            assert forall|p: int| 0 <= p < 32 implies all[32 * i + p] == slots@[i as int]@[p] by {
                assert((32 * i + p) / 32 == i);
            }
            i += 1;
            assert(sector@ =~= splice(before, at as int, all.take(32 * i)));
        }
        assert(all.take(32 * i) =~= all);
        self.write_sector(lba, &sector)
    }

    /// Writes an LFN + SFN entry pair for `name` into `parent`'s
    /// directory, extending the directory if it is full.
    fn write_dir_entries(
        &mut self,
        parent: u32,
        name: &Vec<char>,
        first_cluster: u32,
        size: u32,
        is_dir: bool,
        now: DateTime,
    ) -> (r: Result<(), FatError>)
        requires
            old(self).wf(),
            name@.len() <= 128,
        ensures
            final(self).wf(),
            r == entered(old(self)@, parent, name@, first_cluster, size, is_dir, now).0,
            final(self)@ == entered(
                old(self)@,
                parent,
                name@,
                first_cluster,
                size,
                is_dir,
                now,
            ).1,
    {
        let slots = build_slots(name, is_dir, now, first_cluster, size);
        assert(slot_views(slots@).len() == slots@.len());
        let (c, o) = match self.find_free_run(parent, slots.len()) {
            Err(e) => {
                return Err(e);
            },
            Ok(Some(place)) => place,
            Ok(None) => match self.extend_dir(parent) {
                Err(e) => {
                    return Err(e);
                },
                Ok(c) => (c, 0),
            },
        };
        self.store_slots(c, o, &slots)
    }
}

// ---------------------------------------------------------------------
// Mounting
// ---------------------------------------------------------------------

pub open spec fn power_of_two(n: u8) -> bool {
    n == 1 || n == 2 || n == 4 || n == 8 || n == 16 || n == 32 || n == 64 || n == 128
}

/// Whether a boot sector describes a FAT32 volume whose cluster numbers
/// fit 32 bits.
pub open spec fn good_boot_sector(b: Seq<u8>) -> bool {
    &&& le16(b, 0x0B) == 512
    &&& power_of_two(b[0x0D])
    &&& b[0x1FE] == 0x55
    &&& b[0x1FF] == 0xAA
    &&& le32(b, 0x24) != 0
    &&& le32(b, 0x24) < 0x200_0000
    &&& le32(b, 0x2C) >= 2
    &&& le32(b, 0x20) != 0
}

/// The entries of FAT sector `k` as read from the drive.
pub open spec fn fat_entry(d: Drive, reserved: int, i: int) -> u32 {
    le32(sectors_at(d, reserved + i / 128, 1), 4 * (i % 128))
}

/// The first of the FAT sectors below `n` that cannot be read.
pub open spec fn fat_read_error(d: Drive, reserved: int, n: nat) -> Option<FatError>
    decreases n,
{
    if n == 0 {
        None
    } else {
        match fat_read_error(d, reserved, (n - 1) as nat) {
            Some(e) => Some(e),
            None => match sector_read(d, reserved + n - 1) {
                Err(e) => Some(e),
                Ok(_) => None,
            },
        }
    }
}

/// The volume on a drive.
pub open spec fn opened(d: Drive) -> Result<Volume, FatError> {
    match sector_read(d, 0) {
        Err(e) => Err(e),
        Ok(b) => if !good_boot_sector(b) {
            Err(FatError::InvalidVolume)
        } else {
            let reserved = le16(b, 0x0E) as nat;
            let fat_size = le32(b, 0x24) as nat;
            match fat_read_error(d, reserved as int, fat_size) {
                Some(e) => Err(e),
                None => {
                    let fat = Seq::new(fat_size * 128, |i: int| fat_entry(d, reserved as int, i));
                    Ok(
                        Volume {
                            drive: d,
                            spc: b[0x0D] as nat,
                            reserved,
                            fat_count: b[0x10],
                            fat_size,
                            root: le32(b, 0x2C),
                            first_data: reserved + b[0x10] as nat * fat_size,
                            total: le32(b, 0x20),
                            fat,
                            dirty: Seq::new(fat_size, |i: int| false),
                            free: free_count(fat, fat.len() as int) as u32,
                        },
                    )
                },
            }
        },
    }
}

proof fn lemma_fat_read_error(d: Drive, reserved: int, k: nat, n: nat)
    requires
        k <= n,
        fat_read_error(d, reserved, k) is Some,
    ensures
        fat_read_error(d, reserved, n) == fat_read_error(d, reserved, k),
    decreases n,
{
    if k < n {
        lemma_fat_read_error(d, reserved, k, (n - 1) as nat);
    }
}

fn read_sector_of(device: &Disk, lba: u64) -> (r: Result<Vec<u8>, FatError>)
    ensures
        match sector_read(device@, lba as int) {
            Ok(s) => r is Ok && r->Ok_0@ == s && s.len() == 512,
            Err(e) => r is Err && r->Err_0 == e,
        },
{
    let mut buf: Vec<u8> = Vec::new();
    buf.resize(512, 0);
    match device.read_sectors(lba, 1, &mut buf) {
        Ok(_) => {
            assert(buf@ =~= sectors_at(device@, lba as int, 1));
            Ok(buf)
        },
        Err(e) => Err(FatError::Io(e)),
    }
}

/// Reads the whole FAT.
fn read_fat(device: &Disk, reserved: u32, fat_size: u32) -> (r: Result<Vec<u32>, FatError>)
    requires
        fat_size < 0x200_0000,
        reserved <= 0xFFFF,
    ensures
        match fat_read_error(device@, reserved as int, fat_size as nat) {
            Some(e) => r is Err && r->Err_0 == e,
            None => r is Ok && r->Ok_0@ == Seq::new(
                fat_size as nat * 128,
                |i: int| fat_entry(device@, reserved as int, i),
            ),
        },
{
    let ghost d = device@;
    let mut fat: Vec<u32> = Vec::new();
    let mut i: u32 = 0;
    while i < fat_size
        invariant
            i <= fat_size < 0x200_0000,
            reserved <= 0xFFFF,
            d == device@,
            fat_read_error(d, reserved as int, i as nat) is None,
            fat@ =~= Seq::new(i as nat * 128, |k: int| fat_entry(d, reserved as int, k)),
        decreases fat_size - i,
    {
        let sector = match read_sector_of(device, reserved as u64 + i as u64) {
            Ok(s) => s,
            Err(e) => {
                proof {
                    lemma_fat_read_error(d, reserved as int, (i + 1) as nat, fat_size as nat);
                }
                return Err(e);
            },
        };
        let mut j: usize = 0;
        while j < 128
            invariant
                j <= 128,
                d == device@,
                sector@.len() == 512,
                sector@ == sectors_at(d, reserved + i, 1),
                fat@ =~= Seq::new(
                    (i as nat * 128 + j) as nat,
                    |k: int| fat_entry(d, reserved as int, k),
                ),
            decreases 128 - j,
        {
            let word = get_le32(sector.as_slice(), 4 * j);
            assert((i * 128 + j) / 128 == i && (i * 128 + j) % 128 == j);
            fat.push(word);
            j += 1;
        }
        i += 1;
    }
    Ok(fat)
}

impl Fat32 {
    fn open(device: Disk) -> (r: Result<Fat32, FatError>)
        ensures
            match opened(device@) {
                Ok(v) => r is Ok && r->Ok_0@ == v && r->Ok_0.wf(),
                Err(e) => r is Err && r->Err_0 == e,
            },
    {
        let b = match read_sector_of(&device, 0) {
            Ok(s) => s,
            Err(e) => {
                return Err(e);
            },
        };
        assert(b@.len() == b.len());
        let s = b.as_slice();
        let bytes_per_sector = get_le16(s, 0x0B);
        let spc = b[0x0D];
        let reserved = get_le16(s, 0x0E) as u32;
        let fat_count = b[0x10];
        let total = get_le32(s, 0x20);
        let fat_size = get_le32(s, 0x24);
        let root = get_le32(s, 0x2C);
        if bytes_per_sector != 512 || !(spc == 1 || spc == 2 || spc == 4 || spc == 8 || spc == 16
            || spc == 32 || spc == 64 || spc == 128) || b[0x1FE] != 0x55 || b[0x1FF] != 0xAA
            || fat_size == 0 || fat_size >= 0x200_0000 || root < 2 || total == 0 {
            return Err(FatError::InvalidVolume);
        }
        proof {
            assert(0 <= (fat_count as nat) * (fat_size as nat) <= 0xFF * 0x200_0000)
                by (nonlinear_arith)
                requires
                    0 <= fat_count <= 0xFF,
                    0 <= fat_size <= 0x200_0000,
            ;
        }
        let first_data = reserved as u64 + fat_count as u64 * fat_size as u64;
        let fat = match read_fat(&device, reserved, fat_size) {
            Ok(f) => f,
            Err(e) => {
                return Err(e);
            },
        };
        let mut dirty: Vec<bool> = Vec::new();
        dirty.resize(fat_size as usize, false);
        assert(dirty@ =~= Seq::new(fat_size as nat, |i: int| false));
        let mut volume = Fat32 {
            device,
            sectors_per_cluster: spc,
            reserved_sectors: reserved,
            fat_count,
            fat_size_sectors: fat_size,
            root_cluster: root,
            first_data_sector: first_data,
            total_sectors: total,
            fat,
            fat_dirty: dirty,
            free_clusters: 0,
        };
        volume.scan_free_clusters();
        Ok(volume)
    }
}

// ---------------------------------------------------------------------
// Writing
// ---------------------------------------------------------------------

/// What taking `n` clusters comes to; `acc` holds those already taken.
pub open spec fn allocated_many(v: Volume, n: nat, acc: Seq<u32>) -> (
    Result<Seq<u32>, FatError>,
    Volume,
)
    decreases n,
{
    if n == 0 {
        (Ok(acc), v)
    } else {
        let (r, u) = allocated(v);
        match r {
            Err(e) => (Err(e), u),
            Ok(c) => allocated_many(u, (n - 1) as nat, acc.push(c)),
        }
    }
}

/// The volume with the first `n` clusters linked each to the one behind
/// it.
pub open spec fn linked(v: Volume, cs: Seq<u32>, n: nat) -> Volume
    decreases n,
{
    if n == 0 {
        v
    } else {
        with_entry(linked(v, cs, (n - 1) as nat), cs[n - 1] as int, cs[n as int])
    }
}

/// Bytes `512 * j` and following of the content, filled up with zeros.
pub open spec fn padded_sector(content: Seq<u8>, j: int) -> Seq<u8> {
    Seq::new(
        512,
        |i: int|
            if 512 * j + i < content.len() {
                content[512 * j + i]
            } else {
                0u8
            },
    )
}

/// The sector that holds part `j` of a file in clusters `cs`.
pub open spec fn data_sector(v: Volume, cs: Seq<u32>, j: int) -> int {
    cluster_sector(v, cs[j / v.spc as int]) + j % (v.spc as int)
}

/// What writing the content from part `j` on into clusters `cs` comes to.
pub open spec fn data_written(v: Volume, cs: Seq<u32>, content: Seq<u8>, j: nat) -> (
    Result<(), FatError>,
    Volume,
)
    decreases (if 512 * j < content.len() { content.len() - 512 * j } else { 0 }),
{
    if 512 * j >= content.len() {
        (Ok(()), v)
    } else {
        match sector_written(
            v.drive,
            data_sector(v, cs, j as int),
            padded_sector(content, j as int),
        ) {
            Err(e) => (Err(e), v),
            Ok(d) => data_written(Volume { drive: d, ..v }, cs, content, j + 1),
        }
    }
}

/// How many clusters hold `len` bytes.
pub open spec fn clusters_for(v: Volume, len: nat) -> nat {
    (len + v.spc * 512 - 1) as nat / (v.spc * 512)
}

/// What storing content in new clusters comes to: the first cluster, or 0
/// for empty content.
pub open spec fn stored(v: Volume, content: Seq<u8>) -> (Result<u32, FatError>, Volume) {
    let n = clusters_for(v, content.len());
    if n == 0 {
        (Ok(0), v)
    } else {
        let (r, u) = allocated_many(v, n, Seq::empty());
        match r {
            Err(e) => (Err(e), u),
            Ok(cs) => {
                let w = with_entry(
                    linked(u, cs, (n - 1) as nat),
                    cs[n - 1] as int,
                    EOF_MARK,
                );
                let (done, x) = data_written(w, cs, content, 0);
                match done {
                    Err(e) => (Err(e), x),
                    Ok(_) => (Ok(cs[0]), x),
                }
            },
        }
    }
}

/// What removing an entry and its data comes to.
pub open spec fn dropped(v: Volume, e: Entry) -> (Result<(), FatError>, Volume) {
    let (r, u) = entry_deleted(v, e.cluster, e.offset);
    match r {
        Err(e) => (Err(e), u),
        Ok(_) => if e.first_cluster == 0 {
            (Ok(()), u)
        } else {
            freed(u, e.first_cluster, 0)
        },
    }
}

/// What writing a file into a directory that has no entry of its name
/// comes to: the directory is opened for the new slots first.
pub open spec fn file_added(
    v: Volume,
    parent: u32,
    name: Seq<char>,
    content: Seq<u8>,
    now: DateTime,
) -> (Result<(), FatError>, Volume) {
    let (r, u) = dir_opened(v, parent, slots_for(name), 0);
    match r {
        Err(e) => (Err(e), u),
        Ok(_) => file_put(u, parent, name, content, now),
    }
}

/// What writing a file into an opened directory comes to.
pub open spec fn file_put(
    v: Volume,
    parent: u32,
    name: Seq<char>,
    content: Seq<u8>,
    now: DateTime,
) -> (Result<(), FatError>, Volume) {
    let (r, u) = stored(v, content);
    match r {
        Err(e) => (Err(e), u),
        Ok(first) => {
            let (done, w) = entered(u, parent, name, first, content.len() as u32, false, now);
            match done {
                Err(e) => (Err(e), w),
                Ok(_) => flushed(w, 0),
            }
        },
    }
}

/// What writing (or overwriting) a file comes to.
pub open spec fn file_written(v: Volume, path: Seq<char>, content: Seq<u8>, now: DateTime) -> (
    Result<(), FatError>,
    Volume,
) {
    match parent_of(v, path) {
        Err(e) => (Err(e), v),
        Ok((parent, name)) => if !valid_name(name) {
            (Err(FatError::InvalidName), v)
        } else {
            match entry_in(v, parent, name) {
                None => file_added(v, parent, name, content, now),
                Some(e) => if e.is_dir {
                    (Err(FatError::NotDir), v)
                } else {
                    let (r, u) = dropped(v, e);
                    match r {
                        Err(e) => (Err(e), u),
                        Ok(_) => file_added(u, parent, name, content, now),
                    }
                },
            }
        },
    }
}

/// The first bytes of a directory's "." or ".." slot.
pub open spec fn dot_slot(two: bool, c: u32) -> Seq<u8> {
    Seq::new(
        32,
        |p: int|
            if p == 0 || (p == 1 && two) {
                46u8
            } else if p < 11 {
                32
            } else if p == 0x0B {
                0x10
            } else if p == 0x14 {
                (c / 0x1_0000 % 0x100) as u8
            } else if p == 0x15 {
                (c / 0x100_0000) as u8
            } else if p == 0x1A {
                (c % 0x100) as u8
            } else if p == 0x1B {
                (c / 0x100 % 0x100) as u8
            } else {
                0
            },
    )
}

/// The first sector of a fresh directory.
pub open spec fn fresh_dir(c: u32, parent: u32) -> Seq<u8> {
    splice(splice(zeros(), 0, dot_slot(false, c)), 32, dot_slot(true, parent))
}

/// What creating a directory comes to.
pub open spec fn dir_made(v: Volume, path: Seq<char>, now: DateTime) -> (
    Result<(), FatError>,
    Volume,
) {
    match parent_of(v, path) {
        Err(e) => (Err(e), v),
        Ok((parent, name)) => if !valid_name(name) {
            (Err(FatError::InvalidName), v)
        } else if entry_in(v, parent, name) is Some {
            (Err(FatError::AlreadyExists), v)
        } else {
            let (r, u) = dir_opened(v, parent, slots_for(name), 0);
            match r {
                Err(e) => (Err(e), u),
                Ok(_) => dir_put(u, parent, name, now),
            }
        },
    }
}

/// What setting up the cluster of a new directory comes to: it holds the
/// "." and ".." entries and is clear behind them.
pub open spec fn dir_begun(v: Volume, parent: u32) -> (Result<u32, FatError>, Volume) {
    let (r, u) = allocated(v);
    match r {
        Err(e) => (Err(e), u),
        Ok(c) => {
            let (done, w) = cleared(with_entry(u, c as int, EOF_MARK), c, 0);
            match done {
                Err(e) => (Err(e), w),
                Ok(_) => match sector_written(
                    w.drive,
                    cluster_sector(w, c),
                    fresh_dir(c, parent),
                ) {
                    Err(e) => (Err(e), w),
                    Ok(d) => (Ok(c), Volume { drive: d, ..w }),
                },
            }
        },
    }
}

/// What creating a directory in an opened one comes to.
pub open spec fn dir_put(v: Volume, parent: u32, name: Seq<char>, now: DateTime) -> (
    Result<(), FatError>,
    Volume,
) {
    let (r, x) = dir_begun(v, parent);
    match r {
        Err(e) => (Err(e), x),
        Ok(c) => {
            let (done, y) = entered(x, parent, name, c, 0, true, now);
            match done {
                Err(e) => (Err(e), y),
                Ok(_) => flushed(y, 0),
            }
        },
    }
}

/// What removing a file or an empty directory comes to.
pub open spec fn removed(v: Volume, path: Seq<char>) -> (Result<(), FatError>, Volume) {
    match parent_of(v, path) {
        Err(e) => (Err(e), v),
        Ok((parent, name)) => match entry_in(v, parent, name) {
            None => (Err(FatError::NotFound), v),
            Some(e) => {
                let contents = if e.is_dir { listing(v, e.first_cluster) } else { Ok(Seq::empty()) };
                match contents {
                    Err(x) => (Err(x), v),
                    Ok(es) => if es.len() > 0 {
                        (Err(FatError::NotEmpty), v)
                    } else {
                        let (r, u) = dropped(v, e);
                        match r {
                            Err(x) => (Err(x), u),
                            Ok(_) => flushed(u, 0),
                        }
                    },
                }
            },
        },
    }
}

proof fn lemma_entry_places(v: Volume, c: u32, guard: nat, p: Scan, i: int)
    requires
        scanned(v, c, guard, p) is Ok,
        forall|k: int| #![trigger p.out[k]] 0 <= k < p.out.len() ==> good_place(p.out[k]),
        0 <= i < scanned(v, c, guard, p)->Ok_0.len(),
        v.spc <= 255,
    ensures
        good_place(scanned(v, c, guard, p)->Ok_0[i]),
    decreases 1_000_001 - guard,
{
    let q = after_sectors(v, c, p, v.spc)->Ok_0;
    lemma_sector_places(v, c, p, v.spc);
    if !q.ended && next_of(v, c) is Some && next_of(v, c)->0 < EOF_MARK {
        lemma_entry_places(v, next_of(v, c)->0, guard + 1, q, i);
    }
}

/// Where an entry can stand: in a real cluster, at a slot boundary.
pub open spec fn good_place(e: Entry) -> bool {
    e.cluster >= 2 && 0 <= e.offset < 0x2_0000 && e.offset % 32 == 0
}

proof fn lemma_sector_places(v: Volume, c: u32, p: Scan, k: nat)
    requires
        c >= 2,
        k <= 255,
        after_sectors(v, c, p, k) is Ok,
        forall|i: int| #![trigger p.out[i]] 0 <= i < p.out.len() ==> good_place(p.out[i]),
    ensures
        ({
            let q = after_sectors(v, c, p, k)->Ok_0;
            forall|i: int| #![trigger q.out[i]] 0 <= i < q.out.len() ==> good_place(q.out[i])
        }),
    decreases k,
{
    if k > 0 {
        lemma_sector_places(v, c, p, (k - 1) as nat);
        let q = after_sectors(v, c, p, (k - 1) as nat)->Ok_0;
        if !q.ended {
            let sec = sector_read(v.drive, cluster_sector(v, c) + k - 1)->Ok_0;
            lemma_slot_places(sec, c, k - 1, q, 16);
        }
    }
}

proof fn lemma_slot_places(sec: Seq<u8>, c: u32, s: int, p: Scan, k: nat)
    requires
        c >= 2,
        0 <= s < 255,
        k <= 16,
        forall|i: int| #![trigger p.out[i]] 0 <= i < p.out.len() ==> good_place(p.out[i]),
    ensures
        ({
            let q = after_slots(sec, c, s, p, k);
            forall|i: int| #![trigger q.out[i]] 0 <= i < q.out.len() ==> good_place(q.out[i])
        }),
    decreases k,
{
    if k > 0 {
        lemma_slot_places(sec, c, s, p, (k - 1) as nat);
        let q0 = after_slots(sec, c, s, p, (k - 1) as nat);
        let q1 = after_slots(sec, c, s, p, k);
        let at = s * 512 + 32 * (k - 1);
        assert(0 <= at < 0x2_0000 && at % 32 == 0);
        assert forall|i: int| #![trigger q1.out[i]] 0 <= i < q1.out.len() implies good_place(
            q1.out[i],
        ) by {
            if i < q0.out.len() {
                assert(q1.out[i] == q0.out[i]);
            }
        }
    }
}

pub(crate) proof fn lemma_lookup_place(es: Seq<Entry>, name: Seq<char>, want: Want, i: int)
    requires
        0 <= i,
    ensures
        first_wanted(es, name, want, i) < es.len() ==> i <= first_wanted(es, name, want, i),
    decreases es.len() - i,
{
    if i < es.len() && !is_wanted(es[i], name, want) {
        lemma_lookup_place(es, name, want, i + 1);
    }
}

proof fn lemma_found_place(v: Volume, parent: u32, name: Seq<char>)
    requires
        v.spc <= 255,
    ensures
        entry_in(v, parent, name) matches Some(e) ==> good_place(e),
{
    if entry_in(v, parent, name) is Some {
        let es = listing(v, parent)->Ok_0;
        lemma_lookup_place(es, name, Want::Any, 0);
        let i = first_wanted(es, name, Want::Any, 0);
        lemma_entry_places(v, parent, 0, no_scan(), i);
    }
}

pub(crate) proof fn lemma_encoded_len(s: Seq<char>)
    ensures
        s.len() <= encode_utf8(s).len(),
    decreases s.len(),
{
    if s.len() > 0 {
        lemma_encoded_len(s.drop_first());
        assert(encode_scalar(s[0] as u32).len() >= 1);
    }
}

impl Fat32 {
    fn drop_entry(&mut self, e: &DirEntry) -> (r: Result<(), FatError>)
        requires
            old(self).wf(),
            good_place(e@),
        ensures
            final(self).wf(),
            r == dropped(old(self)@, e@).0,
            final(self)@ == dropped(old(self)@, e@).1,
    {
        match self.delete_entry_at(e.location.0, e.location.1) {
            Err(x) => {
                return Err(x);
            },
            Ok(_) => {},
        }
        if e.first_cluster == 0 {
            return Ok(());
        }
        self.free_chain(e.first_cluster)
    }

    fn alloc_many(&mut self, n: usize) -> (r: Result<Vec<u32>, FatError>)
        requires
            old(self).wf(),
        ensures
            final(self).wf(),
            final(self)@ == allocated_many(old(self)@, n as nat, Seq::empty()).1,
            match allocated_many(old(self)@, n as nat, Seq::empty()).0 {
                Ok(cs) => r is Ok && r->Ok_0@ == cs && cs.len() == n,
                Err(e) => r is Err && r->Err_0 == e,
            },
            r matches Ok(cs) ==> forall|i: int|
                0 <= i < cs@.len() ==> 2 <= #[trigger] cs@[i] < final(self)@.fat.len(),
    {
        let mut cs: Vec<u32> = Vec::new();
        let mut i: usize = 0;
        assert(cs@ =~= Seq::<u32>::empty());
        while i < n
            invariant
                self.wf(),
                i <= n,
                cs@.len() == i,
                self@.fat.len() == old(self)@.fat.len(),
                forall|k: int| 0 <= k < cs@.len() ==> 2 <= #[trigger] cs@[k] < self@.fat.len(),
                allocated_many(old(self)@, n as nat, Seq::empty()) == allocated_many(
                    self@,
                    (n - i) as nat,
                    cs@,
                ),
            decreases n - i,
        {
            match self.alloc_cluster() {
                Err(e) => {
                    return Err(e);
                },
                Ok(c) => {
                    cs.push(c);
                },
            }
            i += 1;
        }
        Ok(cs)
    }

    fn link(&mut self, cs: &Vec<u32>)
        requires
            old(self).wf(),
            cs@.len() > 0,
            forall|i: int| 0 <= i < cs@.len() ==> 2 <= #[trigger] cs@[i] < old(self)@.fat.len(),
        ensures
            final(self).wf(),
            final(self)@ == with_entry(
                linked(old(self)@, cs@, (cs@.len() - 1) as nat),
                cs@.last() as int,
                EOF_MARK,
            ),
    {
        let n = cs.len();
        let mut i: usize = 0;
        while i < n - 1
            invariant
                self.wf(),
                n == cs@.len(),
                i <= n - 1,
                self@.fat.len() == old(self)@.fat.len(),
                forall|i: int| 0 <= i < cs@.len() ==> 2 <= #[trigger] cs@[i] < old(self)@.fat.len(),
                self@ == linked(old(self)@, cs@, i as nat),
            decreases n - 1 - i,
        {
            self.set_cluster(cs[i], cs[i + 1]);
            i += 1;
        }
        self.set_cluster(cs[n - 1], EOF_MARK);
    }

    #[verifier::rlimit(30)]
    fn write_data(&mut self, cs: &Vec<u32>, content: &[u8]) -> (r: Result<(), FatError>)
        requires
            old(self).wf(),
            cs@.len() == clusters_for(old(self)@, content@.len()),
            forall|i: int| 0 <= i < cs@.len() ==> 2 <= #[trigger] cs@[i],
            content.len() <= 0xFFFF_FFFF,
        ensures
            final(self).wf(),
            r == data_written(old(self)@, cs@, content@, 0).0,
            final(self)@ == data_written(old(self)@, cs@, content@, 0).1,
    {
        let spc = self.sectors_per_cluster as usize;
        let n = content.len();
        let ghost mut j: nat = 0;
        let mut written: usize = 0;
        let mut ci: usize = 0;
        let mut s: usize = 0;
        while written < n
            invariant
                self.wf(),
                n == content@.len(),
                n == content.len(),
                n <= 0xFFFF_FFFF,
                spc == self@.spc,
                1 <= spc <= 255,
                self@.spc == old(self)@.spc,
                written <= n,
                written < n ==> written == 512 * j,
                written == n ==> 512 * j >= n,
                j == ci * spc + s,
                s < spc,
                cs@.len() == clusters_for(old(self)@, content@.len()),
                forall|i: int| 0 <= i < cs@.len() ==> 2 <= #[trigger] cs@[i],
                data_written(old(self)@, cs@, content@, 0) == data_written(
                    self@,
                    cs@,
                    content@,
                    j,
                ),
            decreases n - written,
        {
            proof {
                lemma_cluster_index(j as int, ci as int, s as int, spc as int, n as int);
            }
            let mut sector: Vec<u8> = Vec::new();
            let take: usize = if n - written < 512 { n - written } else { 512 };
            let part = slice_subrange(content, written, written + take);
            sector.extend_from_slice(part);
            assert(sector@ =~= content@.subrange(written as int, written + take));
            let ghost head = sector@;
            sector.resize(512, 0);
            assert forall|i: int| 0 <= i < 512 implies sector@[i] == padded_sector(
                content@,
                j as int,
            )[i] by {
                if i < take {
                    assert(sector@[i] == head[i]);
                }
            }
            assert(sector@ =~= padded_sector(content@, j as int));
            assert(cs@.len() == cs.len());
            let lba = self.cluster_to_sector(cs[ci]) + s as u64;
            assert(lba == data_sector(self@, cs@, j as int));
            match self.write_sector(lba, &sector) {
                Err(e) => {
                    return Err(e);
                },
                Ok(_) => {},
            }
            written = written + take;
            proof {
                j = j + 1;
                assert((ci + 1) * spc == ci * spc + spc) by (nonlinear_arith);
            }
            s += 1;
            if s == spc {
                s = 0;
                ci += 1;
            }
        }
        Ok(())
    }

    fn store(&mut self, content: &[u8]) -> (r: Result<u32, FatError>)
        requires
            old(self).wf(),
            content.len() <= 0xFFFF_FFFF,
        ensures
            final(self).wf(),
            r == stored(old(self)@, content@).0,
            final(self)@ == stored(old(self)@, content@).1,
    {
        let cluster_bytes = self.sectors_per_cluster as u64 * 512;
        let needed = ((content.len() as u64 + cluster_bytes - 1) / cluster_bytes) as usize;
        proof {
            lemma_needed_bound(content@.len() as int, cluster_bytes as int);
        }
        assert(needed == clusters_for(self@, content@.len()));
        if needed == 0 {
            return Ok(0);
        }
        let clusters = match self.alloc_many(needed) {
            Ok(cs) => cs,
            Err(e) => {
                return Err(e);
            },
        };
        let ghost u = self@;
        self.link(&clusters);
        proof {
            lemma_linked_geometry(u, clusters@, (clusters@.len() - 1) as nat);
            lemma_allocated_geometry(old(self)@, needed as nat, Seq::empty());
        }
        match self.write_data(&clusters, content) {
            Err(e) => {
                return Err(e);
            },
            Ok(_) => {},
        }
        Ok(clusters[0])
    }

    fn add_file(&mut self, parent: u32, name: &Vec<char>, content: &[u8], now: DateTime) -> (r:
        Result<(), FatError>)
        requires
            old(self).wf(),
            name@.len() <= 128,
            content.len() <= 0xFFFF_FFFF,
        ensures
            final(self).wf(),
            r == file_added(old(self)@, parent, name@, content@, now).0,
            final(self)@ == file_added(old(self)@, parent, name@, content@, now).1,
    {
        match self.open_dir(parent, slot_count(name.len())) {
            Err(e) => {
                return Err(e);
            },
            Ok(_) => {},
        }
        let first = match self.store(content) {
            Ok(c) => c,
            Err(e) => {
                return Err(e);
            },
        };
        match self.write_dir_entries(parent, name, first, content.len() as u32, false, now) {
            Err(e) => {
                return Err(e);
            },
            Ok(_) => {},
        }
        self.flush_fat()
    }

    fn write_file_impl(&mut self, path: &str, content: &[u8], now: DateTime) -> (r: Result<
        (),
        FatError,
    >)
        requires
            old(self).wf(),
            content.len() <= 0xFFFF_FFFF,
        ensures
            final(self).wf(),
            r == file_written(old(self)@, path@, content@, now).0,
            final(self)@ == file_written(old(self)@, path@, content@, now).1,
    {
        let (parent, name) = match self.resolve_parent(path) {
            Ok(x) => x,
            Err(e) => {
                return Err(e);
            },
        };
        if !validate_name(&name) {
            return Err(FatError::InvalidName);
        }
        proof {
            lemma_encoded_len(name@);
            lemma_found_place(self@, parent, name@);
        }
        if let Some(existing) = self.find_dir_entry(parent, &name) {
            if existing.is_dir {
                return Err(FatError::NotDir);
            }
            match self.drop_entry(&existing) {
                Err(e) => {
                    return Err(e);
                },
                Ok(_) => {},
            }
        }
        self.add_file(parent, &name, content, now)
    }

    /// Sets up the cluster of a new directory.
    fn begin_dir(&mut self, parent: u32) -> (r: Result<u32, FatError>)
        requires
            old(self).wf(),
        ensures
            final(self).wf(),
            r == dir_begun(old(self)@, parent).0,
            final(self)@ == dir_begun(old(self)@, parent).1,
    {
        let cluster = match self.alloc_cluster() {
            Ok(c) => c,
            Err(e) => {
                return Err(e);
            },
        };
        self.set_cluster(cluster, EOF_MARK);
        match self.clear_cluster(cluster) {
            Err(e) => {
                return Err(e);
            },
            Ok(_) => {},
        }
        let mut sector: Vec<u8> = Vec::new();
        sector.resize(512, 0);
        assert(sector@ =~= zeros());
        let dot = dot_entry(false, cluster);
        let dotdot = dot_entry(true, parent);
        copy_into(&mut sector, 0, dot.as_slice());
        copy_into(&mut sector, 32, dotdot.as_slice());
        let lba = self.cluster_to_sector(cluster);
        match self.write_sector(lba, &sector) {
            Err(e) => Err(e),
            Ok(_) => Ok(cluster),
        }
    }

    fn make_dir_impl(&mut self, path: &str, now: DateTime) -> (r: Result<(), FatError>)
        requires
            old(self).wf(),
        ensures
            final(self).wf(),
            r == dir_made(old(self)@, path@, now).0,
            final(self)@ == dir_made(old(self)@, path@, now).1,
    {
        let (parent, name) = match self.resolve_parent(path) {
            Ok(x) => x,
            Err(e) => {
                return Err(e);
            },
        };
        if !validate_name(&name) {
            return Err(FatError::InvalidName);
        }
        proof {
            lemma_encoded_len(name@);
        }
        if self.find_dir_entry(parent, &name).is_some() {
            return Err(FatError::AlreadyExists);
        }
        match self.open_dir(parent, slot_count(name.len())) {
            Err(e) => {
                return Err(e);
            },
            Ok(_) => {},
        }
        let cluster = match self.begin_dir(parent) {
            Ok(c) => c,
            Err(e) => {
                return Err(e);
            },
        };
        match self.write_dir_entries(parent, &name, cluster, 0, true, now) {
            Err(e) => {
                return Err(e);
            },
            Ok(_) => {},
        }
        self.flush_fat()
    }

    fn remove_impl(&mut self, path: &str) -> (r: Result<(), FatError>)
        requires
            old(self).wf(),
        ensures
            final(self).wf(),
            r == removed(old(self)@, path@).0,
            final(self)@ == removed(old(self)@, path@).1,
    {
        let (parent, name) = match self.resolve_parent(path) {
            Ok(x) => x,
            Err(e) => {
                return Err(e);
            },
        };
        proof {
            lemma_found_place(self@, parent, name@);
        }
        let entry = match self.find_dir_entry(parent, &name) {
            None => {
                return Err(FatError::NotFound);
            },
            Some(e) => e,
        };
        if entry.is_dir {
            match self.read_dir(entry.first_cluster) {
                Err(e) => {
                    return Err(e);
                },
                Ok(contents) => {
                    assert(entry_views(contents@).len() == contents@.len());
                    if contents.len() > 0 {
                        return Err(FatError::NotEmpty);
                    }
                },
            }
        }
        match self.drop_entry(&entry) {
            Err(e) => {
                return Err(e);
            },
            Ok(_) => {},
        }
        self.flush_fat()
    }
}

fn dot_entry(two: bool, c: u32) -> (r: Vec<u8>)
    ensures
        r@ == dot_slot(two, c),
        r@.len() == 32,
{
    let mut e: Vec<u8> = Vec::new();
    let mut p: usize = 0;
    while p < 32
        invariant
            p <= 32,
            e@ =~= dot_slot(two, c).take(p as int),
        decreases 32 - p,
    {
        e.push(
            if p == 0 || (p == 1 && two) {
                46
            } else if p < 11 {
                32
            } else if p == 0x0B {
                0x10
            } else if p == 0x14 {
                (c / 0x1_0000 % 0x100) as u8
            } else if p == 0x15 {
                (c / 0x100_0000) as u8
            } else if p == 0x1A {
                (c % 0x100) as u8
            } else if p == 0x1B {
                (c / 0x100 % 0x100) as u8
            } else {
                0
            },
        );
        p += 1;
    }
    assert(e@ =~= dot_slot(two, c));
    e
}

pub(crate) proof fn lemma_cluster_index(j: int, ci: int, s: int, spc: int, n: int)
    requires
        0 <= ci,
        0 <= s < spc <= 255,
        j == ci * spc + s,
        n > 512 * j,
    ensures
        j / spc == ci,
        j % spc == s,
        ci < (n + spc * 512 - 1) / (spc * 512),
{
    assert(j / spc == ci && j % spc == s) by {
        vstd::arithmetic::div_mod::lemma_fundamental_div_mod_converse(j, spc, ci, s);
    }
    let b = spc * 512;
    let q = (n + b - 1) / b;
    assert(ci * b <= 512 * j) by (nonlinear_arith)
        requires
            b == spc * 512,
            j == ci * spc + s,
            s >= 0,
    ;
    assert(n + b - 1 >= (ci + 1) * b) by (nonlinear_arith)
        requires
            ci * b <= 512 * j,
            n > 512 * j,
            b > 0,
    ;
    vstd::arithmetic::div_mod::lemma_div_is_ordered((ci + 1) * b, n + b - 1, b);
    vstd::arithmetic::div_mod::lemma_div_multiples_vanish(ci + 1, b);
    assert(b * (ci + 1) == (ci + 1) * b) by (nonlinear_arith);
}

proof fn lemma_needed_bound(len: int, b: int)
    requires
        0 <= len,
        b >= 512,
    ensures
        0 <= (len + b - 1) / b <= len,
{
    vstd::arithmetic::div_mod::lemma_div_pos_is_pos(len + b - 1, b);
    let q = (len + b - 1) / b;
    vstd::arithmetic::div_mod::lemma_fundamental_div_mod(len + b - 1, b);
    vstd::arithmetic::div_mod::lemma_mod_bound(len + b - 1, b);
    if q > len {
        assert(b * q >= b * (len + 1)) by (nonlinear_arith)
            requires
                q >= len + 1,
                b >= 0,
        ;
        assert(b * (len + 1) >= len + b) by (nonlinear_arith)
            requires
                b >= 1,
                len >= 0,
        ;
    }
}

pub(crate) proof fn lemma_lowest_free(fat: Seq<u32>, i: int)
    requires
        0 <= i,
    ensures
        lowest_free(fat, i) < fat.len() ==> i <= lowest_free(fat, i) && fat[lowest_free(fat, i)]
            % 0x1000_0000 == 0,
    decreases fat.len() - i,
{
    if i < fat.len() && fat[i] % 0x1000_0000 != 0 {
        lemma_lowest_free(fat, i + 1);
    }
}

proof fn lemma_linked_geometry(v: Volume, cs: Seq<u32>, n: nat)
    ensures
        linked(v, cs, n).spc == v.spc,
        linked(v, cs, n).first_data == v.first_data,
        linked(v, cs, n).drive == v.drive,
    decreases n,
{
    if n > 0 {
        lemma_linked_geometry(v, cs, (n - 1) as nat);
    }
}

proof fn lemma_allocated_geometry(v: Volume, n: nat, acc: Seq<u32>)
    ensures
        allocated_many(v, n, acc).1.spc == v.spc,
        allocated_many(v, n, acc).1.first_data == v.first_data,
        allocated_many(v, n, acc).1.drive == v.drive,
        allocated_many(v, n, acc).1.fat.len() == v.fat.len(),
    decreases n,
{
    if n > 0 {
        let (r, u) = allocated(v);
        lemma_lowest_free(v.fat, 2);
        if r is Ok {
            lemma_allocated_geometry(u, (n - 1) as nat, acc.push(r->Ok_0));
        }
    }
}

// ---------------------------------------------------------------------
// The mounted volume
// ---------------------------------------------------------------------

/// The mounted volume, if there is one.
pub struct Mount {
    volume: Option<Fat32>,
}

impl View for Mount {
    type V = Option<Volume>;

    closed spec fn view(&self) -> Option<Volume> {
        match self.volume {
            Some(f) => Some(f@),
            None => None,
        }
    }
}

impl Mount {
    pub open spec fn wf(&self) -> bool {
        self@ matches Some(v) ==> sound(v)
    }

    /// Nothing mounted yet.
    pub fn new() -> (r: Self)
        ensures
            r@ is None,
            r.wf(),
    {
        Mount { volume: None }
    }

    /// The drive of the mounted volume, to be written back.
    pub fn device(&self) -> (r: Option<&Disk>)
        ensures
            match self@ {
                Some(v) => r is Some && r->0@ == v.drive,
                None => r is None,
            },
    {
        match &self.volume {
            Some(f) => Some(&f.device),
            None => None,
        }
    }
}

pub fn mounted(mount: &Mount) -> (r: bool)
    ensures
        r == (mount@ is Some),
{
    mount.volume.is_some()
}

/// Mounts a block device as FAT32. Safe to call again after
/// a failed attempt, which leaves what was mounted before.
pub fn mount(disk: &mut Mount, device: Option<Disk>) -> (r: Result<(), FatError>)
    requires
        old(disk).wf(),
    ensures
        final(disk).wf(),
        match device {
            Some(d) if d@.usable => match opened(d@) {
                Ok(v) => r == Ok::<(), FatError>(()) && final(disk)@ == Some(v),
                Err(e) => r == Err::<(), FatError>(e) && final(disk)@ == old(disk)@,
            },
            _ => r == Err::<(), FatError>(FatError::NoDisk) && final(disk)@ == old(disk)@,
        },
{
    match device {
        None => Err(FatError::NoDisk),
        Some(d) => {
            if !d.usable() {
                return Err(FatError::NoDisk);
            }
            match Fat32::open(d) {
                Ok(f) => {
                    disk.volume = Some(f);
                    Ok(())
                },
                Err(e) => Err(e),
            }
        },
    }
}

pub fn info(mount: &Mount) -> (r: Option<VolumeInfo>)
    ensures
        match mount@ {
            Some(v) => r matches Some(i) && i.total_sectors == v.total && i.sectors_per_cluster
                == v.spc && i.fat_sectors == v.fat_size && i.free_clusters == v.free
                && i.root_cluster == v.root,
            None => r is None,
        },
{
    match &mount.volume {
        Some(f) => Some(
            VolumeInfo {
                total_sectors: f.total_sectors,
                sectors_per_cluster: f.sectors_per_cluster,
                fat_sectors: f.fat_size_sectors,
                free_clusters: f.free_clusters,
                root_cluster: f.root_cluster,
            },
        ),
        None => None,
    }
}

/// The entries of the directory at a path.
pub open spec fn dir_at(v: Volume, path: Seq<char>) -> Result<Seq<Entry>, FatError> {
    match walked(v, v.root, components(path)) {
        Err(e) => Err(e),
        Ok(c) => listing(v, c),
    }
}

pub fn list_dir(mount: &Mount, path: &str) -> (r: Result<Vec<DirEntry>, FatError>)
    requires
        mount.wf(),
    ensures
        match mount@ {
            None => r is Err && r->Err_0 == FatError::NoDisk,
            Some(v) => match dir_at(v, path@) {
                Ok(es) => r is Ok && entry_views(r->Ok_0@) == es,
                Err(e) => r is Err && r->Err_0 == e,
            },
        },
{
    let fat = match &mount.volume {
        None => {
            return Err(FatError::NoDisk);
        },
        Some(f) => f,
    };
    let parts = split_path(path);
    assert(views(parts@).take(parts@.len() as int) =~= views(parts@));
    match fat.walk(&parts, parts.len()) {
        Err(e) => Err(e),
        Ok(c) => fat.read_dir(c),
    }
}

/// The content of the file at a path.
pub open spec fn file_at(v: Volume, path: Seq<char>) -> Result<Seq<u8>, FatError> {
    match parent_of(v, path) {
        Err(e) => Err(e),
        Ok((parent, name)) => match listing(v, parent) {
            Err(e) => Err(e),
            Ok(es) => match lookup(es, name, Want::File) {
                None => Err(FatError::NotFound),
                Some(e) => file_data(v, e.first_cluster, e.size as nat),
            },
        },
    }
}

pub fn read_file(mount: &Mount, path: &str) -> (r: Result<Vec<u8>, FatError>)
    requires
        mount.wf(),
    ensures
        match mount@ {
            None => r is Err && r->Err_0 == FatError::NoDisk,
            Some(v) => match file_at(v, path@) {
                Ok(d) => r is Ok && r->Ok_0@ == d,
                Err(e) => r is Err && r->Err_0 == e,
            },
        },
{
    let fat = match &mount.volume {
        None => {
            return Err(FatError::NoDisk);
        },
        Some(f) => f,
    };
    let (parent, name) = match fat.resolve_parent(path) {
        Ok(x) => x,
        Err(e) => {
            return Err(e);
        },
    };
    let entries = match fat.read_dir(parent) {
        Ok(es) => es,
        Err(e) => {
            return Err(e);
        },
    };
    match find_entry(&entries, &name, Want::File) {
        None => Err(FatError::NotFound),
        Some(k) => fat.read_file_data(entries[k].first_cluster, entries[k].size as usize),
    }
}

/// Writes (or overwrites) a file, creating an LFN + SFN entry.
pub fn write_file(mount: &mut Mount, path: &str, content: &[u8], now: DateTime) -> (r: Result<
    (),
    FatError,
>)
    requires
        old(mount).wf(),
        content.len() <= 0xFFFF_FFFF,
    ensures
        final(mount).wf(),
        match old(mount)@ {
            None => r == Err::<(), FatError>(FatError::NoDisk) && final(mount)@ is None,
            Some(v) => r == file_written(v, path@, content@, now).0 && final(mount)@ == Some(
                file_written(v, path@, content@, now).1,
            ),
        },
{
    match &mut mount.volume {
        None => Err(FatError::NoDisk),
        Some(f) => f.write_file_impl(path, content, now),
    }
}

/// Creates a directory with `.` and `..` entries.
pub fn make_dir(mount: &mut Mount, path: &str, now: DateTime) -> (r: Result<(), FatError>)
    requires
        old(mount).wf(),
    ensures
        final(mount).wf(),
        match old(mount)@ {
            None => r == Err::<(), FatError>(FatError::NoDisk) && final(mount)@ is None,
            Some(v) => r == dir_made(v, path@, now).0 && final(mount)@ == Some(
                dir_made(v, path@, now).1,
            ),
        },
{
    match &mut mount.volume {
        None => Err(FatError::NoDisk),
        Some(f) => f.make_dir_impl(path, now),
    }
}

/// Removes a file, or an empty directory.
pub fn remove(mount: &mut Mount, path: &str) -> (r: Result<(), FatError>)
    requires
        old(mount).wf(),
    ensures
        final(mount).wf(),
        match old(mount)@ {
            None => r == Err::<(), FatError>(FatError::NoDisk) && final(mount)@ is None,
            Some(v) => r == removed(v, path@).0 && final(mount)@ == Some(removed(v, path@).1),
        },
{
    match &mut mount.volume {
        None => Err(FatError::NoDisk),
        Some(f) => f.remove_impl(path),
    }
}

/// Whether a path names a directory.
pub open spec fn dir_there(v: Volume, path: Seq<char>) -> Result<bool, FatError> {
    if path == seq!['/'] {
        Ok(true)
    } else {
        match parent_of(v, path) {
            Err(e) => Err(e),
            Ok((parent, name)) => match entry_in(v, parent, name) {
                Some(e) => Ok(e.is_dir),
                None => Err(FatError::NotFound),
            },
        }
    }
}

fn is_root(path: &str) -> (r: bool)
    ensures
        r == (path@ == seq!['/']),
{
    let chars = chars_of(path);
    let r = chars.len() == 1 && chars[0] == '/';
    proof {
        if r {
            assert(path@ =~= seq!['/']);
        } else if path@ == seq!['/'] {
            assert(chars@[0] == '/');
        }
    }
    r
}

/// Returns whether `path` exists and is a directory. `/` is a directory.
pub fn is_dir(mount: &Mount, path: &str) -> (r: Result<bool, FatError>)
    requires
        mount.wf(),
    ensures
        r == match mount@ {
            None => Err::<bool, FatError>(FatError::NoDisk),
            Some(v) => dir_there(v, path@),
        },
{
    let fat = match &mount.volume {
        None => {
            return Err(FatError::NoDisk);
        },
        Some(f) => f,
    };
    if is_root(path) {
        return Ok(true);
    }
    let (parent, name) = match fat.resolve_parent(path) {
        Ok(x) => x,
        Err(e) => {
            return Err(e);
        },
    };
    match fat.find_dir_entry(parent, &name) {
        Some(entry) => Ok(entry.is_dir),
        None => Err(FatError::NotFound),
    }
}

/// Whether two paths name one place: the same name, but for the case of its
/// ASCII letters, in the same directory.
pub open spec fn one_place(v: Volume, a: Seq<char>, b: Seq<char>) -> bool {
    match (parent_of(v, a), parent_of(v, b)) {
        (Ok((p, m)), Ok((q, n))) => p == q && same_name(m, n),
        _ => false,
    }
}

/// What moving a file or an empty directory comes to; a file that is moved
/// to where it is stays.
pub open spec fn moved(v: Volume, src: Seq<char>, dst: Seq<char>, now: DateTime) -> (
    Result<(), FatError>,
    Volume,
) {
    if src == dst {
        (Ok(()), v)
    } else {
        match dir_there(v, src) {
            Err(e) => (Err(e), v),
            Ok(true) => match dir_at(v, src) {
                Err(e) => (Err(e), v),
                Ok(es) => if es.len() > 0 {
                    (Err(FatError::NotEmpty), v)
                } else {
                    let (r, u) = dir_made(v, dst, now);
                    match r {
                        Err(e) => (Err(e), u),
                        Ok(_) => removed(u, src),
                    }
                },
            },
            Ok(false) => match file_at(v, src) {
                Err(e) => (Err(e), v),
                Ok(data) => if one_place(v, src, dst) {
                    (Ok(()), v)
                } else {
                    let (r, u) = file_written(v, dst, data, now);
                    match r {
                        Err(e) => (Err(e), u),
                        Ok(_) => removed(u, src),
                    }
                },
            },
        }
    }
}

proof fn lemma_chain_data_len(v: Volume, c: u32, acc: Seq<u8>, missing: nat, guard: nat)
    requires
        sound(v),
    ensures
        chain_data(v, c, acc, missing, guard) matches Ok(d) ==> d.len() == acc.len() + missing,
    decreases 1_000_001 - guard,
{
    if missing > 0 && c >= 2 && guard <= 1_000_000 {
        lemma_cluster_data_len(v, c, acc, missing, v.spc);
        if let Ok((a, m)) = cluster_data(v, c, acc, missing, v.spc) {
            if m > 0 {
                if let Some(n) = next_of(v, c) {
                    if n < EOF_MARK {
                        lemma_chain_data_len(v, n, a, m, guard + 1);
                    }
                }
            }
        }
    }
}

proof fn lemma_cluster_data_len(v: Volume, c: u32, acc: Seq<u8>, missing: nat, k: nat)
    requires
        sound(v),
        c >= 2,
        k <= v.spc,
    ensures
        cluster_data(v, c, acc, missing, k) matches Ok((a, m)) ==> a.len() + m == acc.len()
            + missing,
    decreases k,
{
    if k > 0 {
        lemma_cluster_data_len(v, c, acc, missing, (k - 1) as nat);
        lemma_cluster_sector_bound(v, c);
    }
}

fn same_place(mount: &Mount, a: &str, b: &str) -> (r: bool)
    requires
        mount.wf(),
    ensures
        r == (mount@ matches Some(v) && one_place(v, a@, b@)),
{
    match &mount.volume {
        None => false,
        Some(fat) => match (fat.resolve_parent(a), fat.resolve_parent(b)) {
            (Ok((p, m)), Ok((q, n))) => p == q && name_matches(&m, &n),
            _ => false,
        },
    }
}

/// A file that can be read is exactly as long as its entry says.
pub proof fn law_file_length(v: Volume, first: u32, size: nat)
    requires
        sound(v),
    ensures
        file_data(v, first, size) matches Ok(d) ==> d.len() == size,
{
    lemma_chain_data_len(v, first, Seq::empty(), size, 0);
}

/// Moves a file, or an empty directory, from `src` to `dst`.
///
/// Implemented as copy + delete; an existing file at `dst` is overwritten
/// (a file that is moved to its own place, in another spelling, is kept),
/// an existing directory makes it fail with `AlreadyExists`, and moving a
/// non-empty directory fails with `NotEmpty` (no recursive copy).
pub fn move_file(mount: &mut Mount, src: &str, dst: &str, now: DateTime) -> (r: Result<
    (),
    FatError,
>)
    requires
        old(mount).wf(),
    ensures
        final(mount).wf(),
        match old(mount)@ {
            None => final(mount)@ is None && r == if src@ == dst@ {
                Ok::<(), FatError>(())
            } else {
                Err(FatError::NoDisk)
            },
            Some(v) => r == moved(v, src@, dst@, now).0 && final(mount)@ == Some(
                moved(v, src@, dst@, now).1,
            ),
        },
{
    let a = chars_of(src);
    let b = chars_of(dst);
    if crate::text::same(&a, &b) {
        return Ok(());
    }
    let dir = match is_dir(mount, src) {
        Ok(d) => d,
        Err(e) => {
            return Err(e);
        },
    };
    if dir {
        match list_dir(mount, src) {
            Err(e) => {
                return Err(e);
            },
            Ok(es) => {
                assert(entry_views(es@).len() == es@.len());
                if es.len() > 0 {
                    return Err(FatError::NotEmpty);
                }
            },
        }
        match make_dir(mount, dst, now) {
            Err(e) => {
                return Err(e);
            },
            Ok(_) => {},
        }
        remove(mount, src)
    } else {
        let data = match read_file(mount, src) {
            Ok(d) => d,
            Err(e) => {
                return Err(e);
            },
        };
        if same_place(mount, src, dst) {
            return Ok(());
        }
        proof {
            lemma_file_at_len(old(mount)@->0, src@);
        }
        match write_file(mount, dst, data.as_slice(), now) {
            Err(e) => {
                return Err(e);
            },
            Ok(_) => {},
        }
        remove(mount, src)
    }
}

proof fn lemma_file_at_len(v: Volume, path: Seq<char>)
    requires
        sound(v),
    ensures
        file_at(v, path) matches Ok(d) ==> d.len() <= 0xFFFF_FFFF,
{
    if let Ok((parent, name)) = parent_of(v, path) {
        if let Ok(es) = listing(v, parent) {
            if let Some(e) = lookup(es, name, Want::File) {
                law_file_length(v, e.first_cluster, e.size as nat);
            }
        }
    }
}

} // verus!
