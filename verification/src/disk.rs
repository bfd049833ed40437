//! Block-device abstraction: AHCI (SATA) when the driver is up, otherwise
//! the first ATA PIO device. The FAT layer only talks to `Disk`.

use crate::ahci::{active, sectors_moved, transfer_result, Ahci};
use crate::ata::{push_model, shown_model, transfer_error, AtaDevice, Drive};
use crate::bytes::splice;
use crate::text::{dec, push_dec, push_str, string_of};
use vstd::prelude::*;

verus! {

pub enum Disk {
    Ata(AtaDevice),
    Ahci(Ahci),
}

impl View for Disk {
    type V = Drive;

    open spec fn view(&self) -> Drive {
        match *self {
            Disk::Ata(d) => d@,
            Disk::Ahci(a) => a@,
        }
    }
}

/// Whether two are the same drive, up to what is on it.
pub open spec fn same_drive(a: Disk, b: Disk) -> bool {
    match (a, b) {
        (Disk::Ata(d), Disk::Ata(e)) => e == (AtaDevice { media: e.media, ..d }),
        (Disk::Ahci(d), Disk::Ahci(e)) => e == (Ahci { media: e.media, ..d }),
        _ => false,
    }
}

/// One line about an ATA drive.
pub open spec fn ata_description(d: AtaDevice) -> Seq<char> {
    "ATA "@ + shown_model(d.model@) + " ("@ + dec(d.sectors as nat / 2048) + " MiB)"@
}

/// A transfer of a few sectors through one command fails or goes through as
/// a whole.
pub proof fn lemma_single_command(d: Drive, lba: u64, count: nat, len: nat, invalid: &'static str)
    requires
        d.sata,
        0 < count <= 128,
    ensures
        match transfer_error(d, lba, count, len, invalid) {
            Some(e) => transfer_result(d, lba as int, count as int) == Err::<(), &'static str>(e)
                && sectors_moved(d, lba as int, count as int, 0) == 0,
            None => transfer_result(d, lba as int, count as int) == Ok::<(), &'static str>(())
                && sectors_moved(d, lba as int, count as int, 0) == count,
        },
{
    reveal_with_fuel(sectors_moved, 2);
}

impl Disk {
    pub fn read_sectors(&self, lba: u64, count: usize, buf: &mut Vec<u8>) -> (r: Result<
        (),
        &'static str,
    >)
        requires
            *self is Ahci ==> count * 512 <= old(buf)@.len(),
        ensures
            *self is Ata || 0 < count <= 128 ==> match transfer_error(
                self@,
                lba,
                count as nat,
                old(buf)@.len(),
                "invalid read request",
            ) {
                Some(e) => r == Err::<(), &'static str>(e) && final(buf)@ == old(buf)@,
                None => r == Ok::<(), &'static str>(()) && final(buf)@ == splice(
                    old(buf)@,
                    0,
                    self@.media.subrange(lba * 512, (lba + count) * 512),
                ),
            },
            *self is Ahci ==> {
                let n = sectors_moved(self@, lba as int, count as int, 0);
                &&& r == transfer_result(self@, lba as int, count as int)
                &&& final(buf)@ == if n > 0 {
                    splice(old(buf)@, 0, self@.media.subrange(lba * 512, (lba + n) * 512))
                } else {
                    old(buf)@
                }
            },
    {
        match self {
            Disk::Ata(d) => d.read_sectors(lba, count, buf),
            Disk::Ahci(a) => {
                proof {
                    if 0 < count <= 128 {
                        lemma_single_command(
                            self@,
                            lba,
                            count as nat,
                            buf@.len(),
                            "invalid read request",
                        );
                    }
                }
                a.read_sectors(lba, count, buf)
            },
        }
    }

    pub fn write_sectors(&mut self, lba: u64, count: usize, buf: &[u8]) -> (r: Result<
        (),
        &'static str,
    >)
        requires
            *old(self) is Ahci ==> count * 512 <= buf@.len(),
        ensures
            *old(self) is Ata || 0 < count <= 128 ==> match transfer_error(
                old(self)@,
                lba,
                count as nat,
                buf@.len(),
                "invalid write request",
            ) {
                Some(e) => r == Err::<(), &'static str>(e) && final(self)@ == old(self)@,
                None => r == Ok::<(), &'static str>(()) && final(self)@ == (Drive {
                    media: splice(old(self)@.media, lba * 512, buf@.subrange(0, count * 512)),
                    ..old(self)@
                }),
            },
            *old(self) is Ahci ==> {
                let n = sectors_moved(old(self)@, lba as int, count as int, 0);
                &&& r == transfer_result(old(self)@, lba as int, count as int)
                &&& final(self)@ == if n > 0 {
                    Drive {
                        media: splice(old(self)@.media, lba * 512, buf@.subrange(0, n * 512)),
                        ..old(self)@
                    }
                } else {
                    old(self)@
                }
            },
            same_drive(*old(self), *final(self)),
    {
        proof {
            if *old(self) is Ahci && 0 < count <= 128 {
                lemma_single_command(
                    self@,
                    lba,
                    count as nat,
                    buf@.len(),
                    "invalid write request",
                );
            }
        }
        match self {
            Disk::Ata(d) => d.write_sectors(lba, count, buf),
            Disk::Ahci(a) => a.write_sectors(lba, count, buf),
        }
    }

    /// Whether the drive takes transfers at all.
    pub fn usable(&self) -> (r: bool)
        ensures
            r == self@.usable,
    {
        match self {
            Disk::Ata(d) => d.present && !d.atapi,
            Disk::Ahci(a) => a.port.present,
        }
    }

    pub fn sectors(&self) -> (r: u64)
        ensures
            r == match *self {
                Disk::Ata(d) => d.sectors,
                Disk::Ahci(a) => a.sectors,
            },
    {
        match self {
            Disk::Ata(d) => d.sectors,
            Disk::Ahci(a) => a.sectors,
        }
    }

    pub fn description(&self) -> (r: String)
        ensures
            r@ == match *self {
                Disk::Ata(d) => ata_description(d),
                Disk::Ahci(a) => crate::ahci::description(a),
            },
    {
        match self {
            Disk::Ata(d) => {
                let mut out: Vec<char> = Vec::new();
                push_str(&mut out, "ATA ");
                push_model(&mut out, d);
                push_str(&mut out, " (");
                push_dec(&mut out, d.sectors / 2048);
                push_str(&mut out, " MiB)");
                assert(out@ =~= ata_description(*d));
                string_of(&out)
            },
            Disk::Ahci(a) => a.describe(),
        }
    }
}

/// The first usable block device: AHCI port 0 if the SATA driver is up,
/// otherwise ATA PIO device 0 unless it is an ATAPI drive.
pub fn first_disk(ahci: Option<Ahci>, ata: Option<AtaDevice>) -> (r: Option<Disk>)
    ensures
        r == if ahci matches Some(a) && a.port.present {
            Some(Disk::Ahci(ahci->0))
        } else if ata matches Some(d) && d.present && !d.atapi {
            Some(Disk::Ata(ata->0))
        } else {
            None
        },
{
    if active(&ahci) {
        return match ahci {
            Some(a) => Some(Disk::Ahci(a)),
            None => None,
        };
    }
    match ata {
        Some(d) => if d.present && !d.atapi {
            Some(Disk::Ata(d))
        } else {
            None
        },
        None => None,
    }
}

} // verus!
