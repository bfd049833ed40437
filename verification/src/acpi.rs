//! Minimal ACPI support for a real S5 (power-off) transition: the RSDP ->
//! RSDT/XSDT -> FADT chain for the PM1a control port, and the sleep type
//! from the DSDT's `\_S5` package, found by scanning for its name.
//!
//! All functions read physical memory, given from address 0 on; what lies
//! behind its end reads as all ones.

use vstd::prelude::*;

verus! {

/// `RSD PTR `.
pub const RSDP_SIG: [u8; 8] = [0x52, 0x53, 0x44, 0x20, 0x50, 0x54, 0x52, 0x20];

/// The FADT's signature is `FACP`.
pub const FADT_SIG: [u8; 4] = [0x46, 0x41, 0x43, 0x50];

pub const XSDT_SIG: [u8; 4] = [0x58, 0x53, 0x44, 0x54];

pub const RSDT_SIG: [u8; 4] = [0x52, 0x53, 0x44, 0x54];

/// `_S5` in AML.
pub const S5_NAME: [u8; 3] = [0x5F, 0x53, 0x35];

/// Everything `s5_shutdown` needs, decoded from the tables.
#[derive(Clone, Copy, Debug, PartialEq, Eq, Structural)]
pub struct AcpiS5 {
    /// PM1a control-block I/O port.
    pub pm1a_cnt: u16,
    /// S5 sleep type from `\_S5`.
    pub slp_typa: u16,
    /// SMI command port for enabling ACPI (0 = none).
    pub smi_cmd: u16,
    /// Value to write to the SMI command port to enable ACPI (0 = none).
    pub acpi_enable: u8,
}

// ---------------------------------------------------------------------
// Memory
// ---------------------------------------------------------------------

/// The byte at an address.
pub open spec fn at8(m: Seq<u8>, p: int) -> u8 {
    if 0 <= p < m.len() {
        m[p]
    } else {
        0xFF
    }
}

pub open spec fn at16(m: Seq<u8>, p: int) -> u16 {
    (at8(m, p) + at8(m, p + 1) * 0x100) as u16
}

pub open spec fn at32(m: Seq<u8>, p: int) -> u32 {
    (at16(m, p) + at16(m, p + 2) * 0x1_0000) as u32
}

pub open spec fn at64(m: Seq<u8>, p: int) -> u64 {
    (at32(m, p) + at32(m, p + 4) * 0x1_0000_0000) as u64
}

/// The byte `i` behind `p`.
fn r8(m: &[u8], p: u64, i: u64) -> (r: u8)
    ensures
        r == at8(m@, p + i),
{
    assert(m@.len() == m.len());
    let n = m.len() as u64;
    if p < n && i < n - p {
        m[(p + i) as usize]
    } else {
        0xFF
    }
}

fn r16(m: &[u8], p: u64, i: u64) -> (r: u16)
    requires
        i < 0x1_0000_0000_0000,
    ensures
        r == at16(m@, p + i),
{
    r8(m, p, i) as u16 + r8(m, p, i + 1) as u16 * 0x100
}

fn r32(m: &[u8], p: u64, i: u64) -> (r: u32)
    requires
        i < 0x1_0000_0000_0000 - 2,
    ensures
        r == at32(m@, p + i),
{
    r16(m, p, i) as u32 + r16(m, p, i + 2) as u32 * 0x1_0000
}

fn r64(m: &[u8], p: u64, i: u64) -> (r: u64)
    requires
        i < 0x1_0000_0000_0000 - 6,
    ensures
        r == at64(m@, p + i),
{
    r32(m, p, i) as u64 + r32(m, p, i + 4) as u64 * 0x1_0000_0000
}

/// Whether these bytes stand at an address.
pub open spec fn signed(m: Seq<u8>, p: int, want: Seq<u8>) -> bool {
    forall|i: int| 0 <= i < want.len() ==> at8(m, p + i) == #[trigger] want[i]
}

fn sig(m: &[u8], p: u64, i: u64, want: &[u8]) -> (r: bool)
    requires
        i < 0x1_0000_0000_0000,
        want.len() <= 8,
    ensures
        r == signed(m@, p + i, want@),
{
    let mut k: usize = 0;
    while k < want.len()
        invariant
            k <= want@.len() <= 8,
            i < 0x1_0000_0000_0000,
            forall|j: int| 0 <= j < k ==> at8(m@, p + i + j) == #[trigger] want@[j],
        decreases want@.len() - k,
    {
        if r8(m, p, i + k as u64) != want[k] {
            assert(at8(m@, p + i + k) != want@[k as int]);
            return false;
        }
        k += 1;
    }
    true
}

// ---------------------------------------------------------------------
// Tables
// ---------------------------------------------------------------------

/// The sum of `n` bytes.
pub open spec fn sum(m: Seq<u8>, p: int, n: nat) -> int
    decreases n,
{
    if n == 0 {
        0
    } else {
        sum(m, p, (n - 1) as nat) + at8(m, p + n - 1)
    }
}

/// A root pointer: the signature, and 20 bytes that sum to zero.
pub open spec fn rsdp_at(m: Seq<u8>, p: int) -> bool {
    signed(m, p, RSDP_SIG@) && sum(m, p, 20) % 256 == 0
}

fn valid_rsdp(m: &[u8], p: u64) -> (r: bool)
    ensures
        r == rsdp_at(m@, p as int),
{
    let want = RSDP_SIG;
    if !sig(m, p, 0, &want) {
        return false;
    }
    let mut total: u32 = 0;
    let mut i: u64 = 0;
    while i < 20
        invariant
            i <= 20,
            total == sum(m@, p as int, i as nat),
            total <= 255 * i,
        decreases 20 - i,
    {
        total = total + r8(m, p, i) as u32;
        i += 1;
    }
    total % 256 == 0
}

/// The first root pointer at a 16-byte step from `a` on, before `end`.
pub open spec fn first_rsdp(m: Seq<u8>, a: int, end: int) -> Option<u64>
    decreases
            (if a < end {
                end - a
            } else {
                0
            }),
{
    if a >= end {
        None
    } else if rsdp_at(m, a) {
        Some(a as u64)
    } else {
        first_rsdp(m, a + 16, end)
    }
}

/// Where the extended BIOS data area is.
pub open spec fn ebda(m: Seq<u8>) -> int {
    at16(m, 0x40E) * 16
}

/// The root pointer: in the first KiB of the extended BIOS data area, or in
/// the BIOS ROM area.
pub open spec fn rsdp(m: Seq<u8>) -> Option<u64> {
    let low = if ebda(m) >= 0x400 {
        first_rsdp(m, ebda(m), ebda(m) + 0x400)
    } else {
        None
    };
    if low is Some {
        low
    } else {
        first_rsdp(m, 0xE0000, 0x100000)
    }
}

fn scan_rsdp(m: &[u8], from: u64, end: u64) -> (r: Option<u64>)
    requires
        end <= 0x20_0000,
    ensures
        r == first_rsdp(m@, from as int, end as int),
{
    let mut a = from;
    while a < end
        invariant
            end <= 0x20_0000,
            first_rsdp(m@, from as int, end as int) == first_rsdp(m@, a as int, end as int),
        decreases (if a < end {
            end - a
        } else {
            0
        }),
    {
        if valid_rsdp(m, a) {
            return Some(a);
        }
        a += 16;
    }
    None
}

/// Locates the RSDP.
fn find_rsdp(m: &[u8]) -> (r: Option<u64>)
    ensures
        r == rsdp(m@),
{
    let area = r16(m, 0x40E, 0) as u64 * 16;
    if area >= 0x400 {
        if let Some(a) = scan_rsdp(m, area, area + 0x400) {
            return Some(a);
        }
    }
    scan_rsdp(m, 0xE0000, 0x100000)
}

/// A sane table header: the expected signature and a plausible length.
pub open spec fn table_at(m: Seq<u8>, p: int, want: Seq<u8>) -> bool {
    signed(m, p, want) && 36 <= at32(m, p + 4) < 0x10000
}

fn valid_table(m: &[u8], p: u64, want: &[u8]) -> (r: bool)
    requires
        want.len() <= 8,
    ensures
        r == table_at(m@, p as int, want@),
{
    if !sig(m, p, 0, want) {
        return false;
    }
    let len = r32(m, p, 4);
    36 <= len && len < 0x10000
}

/// The first FADT among the entries of a table of `len` bytes at `t`, from
/// offset `off` on; an entry has `width` bytes.
pub open spec fn first_fadt(m: Seq<u8>, t: int, off: int, len: int, width: int) -> Option<u64>
    decreases len - off,
{
    if width <= 0 || off + width > len {
        None
    } else {
        let ent = if width == 8 {
            at64(m, t + off)
        } else {
            at32(m, t + off) as u64
        };
        if signed(m, ent as int, FADT_SIG@) {
            Some(ent)
        } else {
            first_fadt(m, t, off + width, len, width)
        }
    }
}

/// The FADT: by the XSDT where the root pointer says there is one, else by
/// the RSDT.
pub open spec fn fadt(m: Seq<u8>) -> Option<u64> {
    match rsdp(m) {
        None => None,
        Some(p) => {
            let x = at64(m, p + 24) as int;
            let wide = if at8(m, p + 15) >= 2 && table_at(m, x, XSDT_SIG@) {
                first_fadt(m, x, 36, at32(m, x + 4) as int, 8)
            } else {
                None
            };
            let t = at32(m, p + 16) as int;
            if wide is Some {
                wide
            } else if table_at(m, t, RSDT_SIG@) {
                first_fadt(m, t, 36, at32(m, t + 4) as int, 4)
            } else {
                None
            }
        },
    }
}

fn scan_table(m: &[u8], t: u64, len: u64, wide: bool) -> (r: Option<u64>)
    requires
        len < 0x10000,
    ensures
        r == first_fadt(
            m@,
            t as int,
            36,
            len as int,
            if wide {
                8
            } else {
                4
            },
        ),
{
    let want = FADT_SIG;
    let width: u64 = if wide { 8 } else { 4 };
    let mut off: u64 = 36;
    while off + width <= len
        invariant
            len < 0x10000,
            off <= 0x10000 + 36,
            want@ == FADT_SIG@,
            width == if wide {
                8u64
            } else {
                4
            },
            first_fadt(m@, t as int, 36, len as int, width as int) == first_fadt(
                m@,
                t as int,
                off as int,
                len as int,
                width as int,
            ),
        decreases (if off < len {
            len - off
        } else {
            0
        }),
    {
        let ent = if wide { r64(m, t, off) } else { r32(m, t, off) as u64 };
        if sig(m, ent, 0, &want) {
            return Some(ent);
        }
        off += width;
    }
    None
}

/// Scans the RSDT/XSDT entry lists for the FADT.
fn fadt_addr(m: &[u8]) -> (r: Option<u64>)
    ensures
        r == fadt(m@),
{
    let p = match find_rsdp(m) {
        None => {
            return None;
        },
        Some(p) => p,
    };
    if r8(m, p, 15) >= 2 {
        let x = r64(m, p, 24);
        let want = XSDT_SIG;
        if valid_table(m, x, &want) {
            let len = r32(m, x, 4) as u64;
            if let Some(a) = scan_table(m, x, len, true) {
                return Some(a);
            }
        }
    }
    let t = r32(m, p, 16) as u64;
    let want = RSDT_SIG;
    if valid_table(m, t, &want) {
        let len = r32(m, t, 4) as u64;
        return scan_table(m, t, len, false);
    }
    None
}

// ---------------------------------------------------------------------
// AML
// ---------------------------------------------------------------------

/// A package length and how many bytes it takes: one byte when bit 7 is
/// clear (length in bits 0-5); otherwise bits 6-7 say how many bytes follow
/// and bits 0-3 are the most significant nibble.
pub open spec fn package_length(m: Seq<u8>, p: int) -> (int, int) {
    let b = at8(m, p);
    if b < 0x80 {
        (b as int % 64, 1)
    } else if b < 0xC0 {
        ((b as int % 16) * 0x1_0000 + at8(m, p + 1) * 0x100 + at8(m, p + 2), 3)
    } else {
        (
            (b as int % 16) * 0x100_0000 + at8(m, p + 1) * 0x1_0000 + at8(m, p + 2) * 0x100 + at8(
                m,
                p + 3,
            ),
            4,
        )
    }
}

fn pkg_length(m: &[u8], p: u64, i: u64) -> (r: (u64, u64))
    requires
        i < 0x1_0000_0000_0000 - 8,
    ensures
        (r.0 as int, r.1 as int) == package_length(m@, p + i),
        r.0 < 0x1000_0000,
        r.1 <= 4,
{
    let b = r8(m, p, i);
    if b < 0x80 {
        return (b as u64 % 64, 1);
    }
    let top = b as u64 % 16;
    let b1 = r8(m, p, i + 1) as u64;
    let b2 = r8(m, p, i + 2) as u64;
    if b < 0xC0 {
        return (top * 0x1_0000 + b1 * 0x100 + b2, 3);
    }
    let b3 = r8(m, p, i + 3) as u64;
    (top * 0x100_0000 + b1 * 0x1_0000 + b2 * 0x100 + b3, 4)
}

/// The integer constant at offset `q` of a block that ends at `end`, capped
/// at 16 bits: zero, one, or a prefix with a byte, a 4-byte or an 8-byte
/// number.
pub open spec fn constant(m: Seq<u8>, p: int, q: int, end: int) -> Option<u16> {
    let op = at8(m, p + q);
    if q + 1 > end {
        None
    } else if op == 0 || op == 1 {
        Some(op as u16)
    } else if op == 0x0B && q + 2 <= end {
        Some(at8(m, p + q + 1) as u16)
    } else if op == 0x0A && q + 5 <= end {
        Some(capped(at32(m, p + q + 1) as int))
    } else if op == 0x0C && q + 9 <= end {
        Some(capped(at64(m, p + q + 1) as int))
    } else {
        None
    }
}

pub open spec fn capped(v: int) -> u16 {
    if v > 0xFFFF {
        0xFFFF
    } else {
        v as u16
    }
}

fn aml_int(m: &[u8], p: u64, q: u64, end: u64) -> (r: Option<u16>)
    requires
        q < 0x1_0000_0000_0000 - 16,
    ensures
        r == constant(m@, p as int, q as int, end as int),
{
    if q + 1 > end {
        return None;
    }
    let op = r8(m, p, q);
    let v: u64 = if op == 0 || op == 1 {
        op as u64
    } else if op == 0x0B && q + 2 <= end {
        r8(m, p, q + 1) as u64
    } else if op == 0x0A && q + 5 <= end {
        r32(m, p, q + 1) as u64
    } else if op == 0x0C && q + 9 <= end {
        r64(m, p, q + 1)
    } else {
        return None;
    };
    Some(if v > 0xFFFF { 0xFFFF } else { v as u16 })
}

/// Where the byte behind a name at `i` is: the name may have a trailing
/// underscore.
pub open spec fn behind_name(m: Seq<u8>, d: int, i: int) -> int {
    if at8(m, d + i + 3) == 0x5F {
        i + 4
    } else {
        i + 3
    }
}

/// The sleep type of a package at `q`, behind its opcode: its first element.
/// One that is no plain constant counts as 0; an empty package as none.
pub open spec fn package_type(m: Seq<u8>, d: int, q: int) -> Option<u16> {
    let (len, n) = package_length(m, d + q);
    let body = q + n;
    if len <= 0 {
        None
    } else if at8(m, d + body) >= 1 && constant(m, d, body + 1, body + len) is Some {
        constant(m, d, body + 1, body + len)
    } else {
        Some(0)
    }
}

/// The sleep type in a DSDT of `len` bytes at `d`, from offset `i` on: that
/// of the first `_S5` that a package follows.
pub open spec fn sleep_type(m: Seq<u8>, d: int, i: int, len: int) -> Option<u16>
    decreases len - i,
{
    if i + 5 >= len {
        None
    } else if signed(m, d + i, S5_NAME@) && at8(m, d + behind_name(m, d, i)) == 0x12 {
        package_type(m, d, behind_name(m, d, i) + 1)
    } else {
        sleep_type(m, d, i + 1, len)
    }
}

/// Finds the S5 sleep type by scanning the DSDT.
fn dsdt_s5(m: &[u8], dsdt: u64) -> (r: Option<u16>)
    ensures
        r == sleep_type(m@, dsdt as int, 36, at32(m@, dsdt + 4) as int),
{
    let len = r32(m, dsdt, 4) as u64;
    let want = S5_NAME;
    let mut i: u64 = 36;
    while i + 5 < len
        invariant
            len <= 0xFFFF_FFFF,
            i <= 0x1_0000_0000,
            want@ == S5_NAME@,
            len == at32(m@, dsdt + 4),
            sleep_type(m@, dsdt as int, 36, len as int) == sleep_type(
                m@,
                dsdt as int,
                i as int,
                len as int,
            ),
        decreases (if i < len {
            len - i
        } else {
            0
        }),
    {
        if sig(m, dsdt, i, &want) {
            let mut q = i + 3;
            if r8(m, dsdt, q) == 0x5F {
                q += 1;
            }
            if r8(m, dsdt, q) == 0x12 {
                q += 1;
                let (plen, n) = pkg_length(m, dsdt, q);
                let body = q + n;
                let pkg_end = body + plen;
                if body >= pkg_end {
                    return None;
                }
                if r8(m, dsdt, body) >= 1 {
                    if let Some(a) = aml_int(m, dsdt, body + 1, pkg_end) {
                        return Some(a);
                    }
                }
                return Some(0);
            }
        }
        i += 1;
    }
    None
}

// ---------------------------------------------------------------------
// Power-off
// ---------------------------------------------------------------------

/// What the tables say about S5.
pub open spec fn s5(m: Seq<u8>) -> Option<AcpiS5> {
    match fadt(m) {
        None => None,
        Some(f) => {
            let d = at32(m, f + 0x28) as int;
            match sleep_type(m, d, 36, at32(m, d + 4) as int) {
                None => None,
                Some(slp_typa) => Some(
                    AcpiS5 {
                        pm1a_cnt: at16(m, f + 0x40),
                        slp_typa,
                        smi_cmd: at16(m, f + 0x30),
                        acpi_enable: at8(m, f + 0x34),
                    },
                ),
            }
        },
    }
}

/// Decodes the ACPI parameters needed for an S5 transition.
pub fn s5_params(memory: &[u8]) -> (r: Option<AcpiS5>)
    ensures
        r == s5(memory@),
{
    let f = match fadt_addr(memory) {
        None => {
            return None;
        },
        Some(f) => f,
    };
    let pm1a_cnt = r16(memory, f, 0x40);
    let dsdt = r32(memory, f, 0x28) as u64;
    let smi_cmd = r16(memory, f, 0x30);
    let acpi_enable = r8(memory, f, 0x34);
    match dsdt_s5(memory, dsdt) {
        None => None,
        Some(slp_typa) => Some(AcpiS5 { pm1a_cnt, slp_typa, smi_cmd, acpi_enable }),
    }
}

/// The control-register value that enters the sleep state of a type: the
/// type in bits 10 to 12 and up, the enable bit 13 set.
pub open spec fn sleep_value(typ: u16) -> u16 {
    let shifted = (typ % 64) * 1024;
    if shifted / 0x2000 % 2 == 1 {
        shifted as u16
    } else {
        (shifted + 0x2000) as u16
    }
}

/// The sleep types to try in order: the table's own first. 7 and 5 are
/// tried too where the table says 0, or are the table's own again.
pub open spec fn types_tried(typ: u16) -> Seq<u16> {
    if typ == 0 {
        seq![0u16, 7, 5]
    } else if typ == 7 || typ == 5 {
        seq![typ, typ]
    } else {
        seq![typ]
    }
}

/// A power-off in port writes: first a byte to enable ACPI, if one is due,
/// then words to the control port, with a wait after each.
pub struct PowerOff {
    pub enable: Option<(u16, u8)>,
    pub port: u16,
    pub values: Vec<u16>,
}

/// Whether a plan does what the tables ask for.
pub open spec fn carries_out(off: PowerOff, p: AcpiS5) -> bool {
    &&& off.port == p.pm1a_cnt
    &&& off.enable == if p.smi_cmd != 0 && p.acpi_enable != 0 {
        Some((p.smi_cmd, p.acpi_enable))
    } else {
        None
    }
    &&& off.values@ == types_tried(p.slp_typa).map_values(|t: u16| sleep_value(t))
}

fn sleep_word(typ: u16) -> (r: u16)
    ensures
        r == sleep_value(typ),
{
    let shifted = typ % 64 * 1024;
    if shifted / 0x2000 % 2 == 1 {
        shifted
    } else {
        shifted + 0x2000
    }
}

/// Plans a real S5 transition. `None` when ACPI tables are missing or
/// malformed.
pub fn s5_shutdown(memory: &[u8]) -> (r: Option<PowerOff>)
    ensures
        match s5(memory@) {
            None => r is None,
            Some(p) => r matches Some(off) && carries_out(off, p),
        },
{
    let p = match s5_params(memory) {
        None => {
            return None;
        },
        Some(p) => p,
    };
    let typ = p.slp_typa;
    let enable = if p.smi_cmd != 0 && p.acpi_enable != 0 {
        Some((p.smi_cmd, p.acpi_enable))
    } else {
        None
    };
    let mut values: Vec<u16> = Vec::new();
    values.push(sleep_word(typ));
    if typ == 0 || typ == 7 {
        values.push(sleep_word(7));
    }
    if typ == 0 || typ == 5 {
        values.push(sleep_word(5));
    }
    assert(values@ =~= types_tried(typ).map_values(|t: u16| sleep_value(t)));
    Some(PowerOff { enable, port: p.pm1a_cnt, values })
}

/// The word that enters a sleep state has the enable bit 13 set and the
/// type's three bits in bits 10 to 12.
pub proof fn law_sleep_value(typ: u16)
    requires
        typ < 8,
    ensures
        sleep_value(typ) / 0x2000 % 2 == 1,
        sleep_value(typ) / 0x400 % 8 == typ,
        sleep_value(typ) % 0x400 == 0,
        types_tried(typ)[0] == typ,
{
}

} // verus!
