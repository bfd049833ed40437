//! PCI configuration space: enough to find a device on bus 0. No bridge
//! scanning.

use vstd::prelude::*;

verus! {

pub const CONFIG_ADDRESS: u16 = 0xCF8;

pub const CONFIG_DATA: u16 = 0xCFC;

/// The address word that selects a configuration register.
pub open spec fn address_of(bus: u8, dev: u8, func: u8, offset: u8) -> u32 {
    0x8000_0000u32 | ((bus as u32) << 16) | ((dev as u32) << 11) | ((func as u32) << 8) | (
    offset as u32 & 0xFC)
}

/// The word to write to `CONFIG_ADDRESS` before a register is read or
/// written through `CONFIG_DATA`.
pub fn config_address(bus: u8, dev: u8, func: u8, offset: u8) -> (r: u32)
    ensures
        r == address_of(bus, dev, func, offset),
{
    0x8000_0000u32 | ((bus as u32) << 16) | ((dev as u32) << 11) | ((func as u32) << 8) | (
    offset as u32 & 0xFC)
}

/// A word for an I/O port.
#[derive(Clone, Copy, Debug, PartialEq, Eq, Structural)]
pub struct WordWrite {
    pub port: u16,
    pub value: u32,
}

/// What has to be written before a configuration word is read from
/// `CONFIG_DATA`.
pub fn config_read(bus: u8, dev: u8, func: u8, offset: u8) -> (r: WordWrite)
    ensures
        r.port == CONFIG_ADDRESS,
        r.value == address_of(bus, dev, func, offset),
{
    WordWrite { port: CONFIG_ADDRESS, value: config_address(bus, dev, func, offset) }
}

/// The two writes that set a configuration word.
pub fn config_write(bus: u8, dev: u8, func: u8, offset: u8, value: u32) -> (r: (WordWrite, WordWrite))
    ensures
        r.0.port == CONFIG_ADDRESS,
        r.0.value == address_of(bus, dev, func, offset),
        r.1.port == CONFIG_DATA,
        r.1.value == value,
{
    (
        WordWrite { port: CONFIG_ADDRESS, value: config_address(bus, dev, func, offset) },
        WordWrite { port: CONFIG_DATA, value },
    )
}

/// What bus 0 answers: for each device the id words of its eight functions
/// and the word that function 0 gives at offset 0x0C, whose third byte is the
/// header type.
pub struct Bus {
    pub ids: Vec<u32>,
    pub headers: Vec<u32>,
}

impl Bus {
    pub open spec fn wf(&self) -> bool {
        self.ids@.len() == 256 && self.headers@.len() == 32
    }

    /// The id word of a function.
    pub open spec fn id(&self, dev: int, func: int) -> u32 {
        self.ids@[dev * 8 + func]
    }

    /// Whether functions beyond the first are looked at: the top bit of the
    /// header type marks a device with several.
    pub open spec fn scanned(&self, dev: int, func: int) -> bool {
        func == 0 || self.id(dev, 0) == 0xFFFF_FFFF || self.headers@[dev] & 0x80_0000
            != 0
    }

    /// Whether the scan reaches the function and finds the ids there.
    pub open spec fn answers(&self, dev: int, func: int, vendor: u16, device: u16) -> bool {
        &&& self.scanned(dev, func)
        &&& self.id(dev, func) % 0x1_0000 == vendor
        &&& self.id(dev, func) / 0x1_0000 == device
    }
}

/// Scans bus 0 for the first function matching `vendor`/`device`.
/// Returns `(bus, dev, func)`.
pub fn find_device(bus: &Bus, vendor: u16, device: u16) -> (r: Option<(u8, u8, u8)>)
    requires
        bus.wf(),
    ensures
        match r {
            Some((b, dev, func)) => {
                &&& b == 0 && dev < 32 && func < 8
                &&& bus.answers(dev as int, func as int, vendor, device)
                &&& forall|d: int, f: int|
                    0 <= f < 8 && 0 <= d && (d < dev || d == dev && f < func)
                        ==> !#[trigger] bus.answers(d, f, vendor, device)
            },
            None => forall|d: int, f: int|
                0 <= d < 32 && 0 <= f < 8 ==> !#[trigger] bus.answers(d, f, vendor, device),
        },
{
    let mut dev: u8 = 0;
    while dev < 32
        invariant
            dev <= 32,
            bus.wf(),
            forall|d: int, f: int|
                0 <= d < dev && 0 <= f < 8 ==> !#[trigger] bus.answers(d, f, vendor, device),
        decreases 32 - dev,
    {
        let mut func: u8 = 0;
        let single = bus.ids[dev as usize * 8] != 0xFFFF_FFFF && bus.headers[dev as usize]
            & 0x80_0000 == 0;
        while func < 8
            invariant
                dev < 32,
                func <= 8,
                bus.wf(),
                single == !bus.scanned(dev as int, 1),
                forall|d: int, f: int|
                    0 <= d < dev && 0 <= f < 8 ==> !#[trigger] bus.answers(d, f, vendor, device),
                forall|f: int|
                    0 <= f < func ==> !#[trigger] bus.answers(dev as int, f, vendor, device),
                func > 0 ==> !single || func == 8,
            decreases 8 - func,
        {
            let id = bus.ids[dev as usize * 8 + func as usize];
            assert(id & 0xFFFF == id % 0x1_0000 && id >> 16 == id / 0x1_0000) by (bit_vector);
            if id & 0xFFFF == vendor as u32 && (id >> 16) as u16 == device {
                return Some((0, dev, func));
            }
            if func == 0 && single {
                func = 8;
            } else {
                func += 1;
            }
        }
        dev += 1;
    }
    None
}

/// The address word has its top bit set and the bus, device, function and
/// register of the aligned word below it, each in its field.
pub proof fn law_address_fields(bus: u8, dev: u8, func: u8, offset: u8)
    requires
        dev < 32,
        func < 8,
    ensures
        ({
            let a = address_of(bus, dev, func, offset);
            &&& a / 0x8000_0000 == 1
            &&& a / 0x1_0000 % 0x100 == bus
            &&& a / 0x800 % 32 == dev
            &&& a / 0x100 % 8 == func
            &&& a % 0x100 == offset / 4 * 4
        }),
{
    let (b, d, f, o) = (bus as u32, dev as u32, func as u32, offset as u32);
    let a = 0x8000_0000u32 | (b << 16) | (d << 11) | (f << 8) | (o & 0xFC);
    assert(a / 0x8000_0000 == 1 && a / 0x1_0000 % 0x100 == b && a / 0x800 % 32 == d && a / 0x100 % 8 == f && a % 0x100
        == o / 4 * 4) by (bit_vector)
        requires
            a == 0x8000_0000u32 | (b << 16) | (d << 11) | (f << 8) | (o & 0xFC),
            b < 256,
            d < 32,
            f < 8,
            o < 256,
    ;
}

} // verus!
