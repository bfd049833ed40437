//! CMOS real-time clock: turns the raw clock registers into a date and
//! time.

use vstd::prelude::*;

verus! {

#[derive(Clone, Copy, Debug, PartialEq, Eq, Structural)]
pub struct DateTime {
    pub year: u16,
    pub month: u8,
    pub day: u8,
    pub hour: u8,
    pub minute: u8,
    pub second: u8,
}

/// The clock registers, read while no update is in progress.
#[derive(Clone, Copy, Debug, PartialEq, Eq, Structural)]
pub struct Registers {
    pub status_b: u8,
    pub second: u8,
    pub minute: u8,
    pub hour: u8,
    pub day: u8,
    pub month: u8,
    pub year: u8,
    pub century: u8,
}

pub const STATUS_A_UIP: u8 = 0x80;

const STATUS_B_BINARY: u8 = 0x04;

const STATUS_B_24H: u8 = 0x02;

/// Two decimal digits packed in a byte.
pub open spec fn bcd(v: u8) -> u8 {
    (v % 16 + v / 16 * 10) as u8
}

/// The byte with its top bit cleared.
pub open spec fn low7(v: u8) -> u8 {
    (v % 128) as u8
}

/// A register in binary form.
pub open spec fn plain(binary: bool, v: u8) -> u8 {
    if binary {
        v
    } else {
        bcd(v)
    }
}

/// Hour of the day out of a clock face and whether it is past noon.
pub open spec fn hour_of_12(clock: u8, pm: bool) -> u8 {
    if pm && clock < 12 {
        (clock + 12) as u8
    } else if !pm && clock == 12 {
        0
    } else {
        clock
    }
}

/// The hour that a 12-hour clock shows; the register's top bit marks PM.
pub open spec fn clock_face(r: Registers) -> u8 {
    plain(r.status_b & 0x04 != 0, low7(r.hour))
}

/// The date and time that the registers stand for.
pub open spec fn date_time(r: Registers) -> DateTime {
    let binary = r.status_b & 0x04 != 0;
    let hour24 = r.status_b & 0x02 != 0;
    let raw_century = plain(binary, r.century);
    let century: int = if 19 <= raw_century <= 20 { raw_century as int } else { 20 };
    DateTime {
        year: (century * 100 + plain(binary, r.year)) as u16,
        month: plain(binary, r.month),
        day: plain(binary, r.day),
        hour: if !hour24 {
            hour_of_12(clock_face(r), r.hour >= 0x80)
        } else if binary {
            r.hour
        } else {
            bcd(low7(r.hour))
        },
        minute: plain(binary, r.minute),
        second: plain(binary, r.second),
    }
}

fn bcd_to_bin(value: u8) -> (r: u8)
    ensures
        r == bcd(value),
{
    assert(value & 0x0F == value % 16 && value >> 4 == value / 16) by (bit_vector);
    (value & 0x0F) + (value >> 4) * 10
}

/// True while the clock is updating its registers: they must not be read
/// until status register A says otherwise.
pub fn update_in_progress(status_a: u8) -> (r: bool)
    ensures
        r == (status_a & 0x80 != 0),
{
    status_a & STATUS_A_UIP != 0
}

/// The current date and time, out of the clock's registers.
pub fn now(regs: &Registers) -> (r: DateTime)
    ensures
        r == date_time(*regs),
{
    let binary = regs.status_b & STATUS_B_BINARY != 0;
    let hour24 = regs.status_b & STATUS_B_24H != 0;

    let mut second: u8 = regs.second;
    let mut minute: u8 = regs.minute;
    let mut hour: u8 = regs.hour;
    let mut day: u8 = regs.day;
    let mut month: u8 = regs.month;
    let mut year: u8 = regs.year;
    let mut century: u8 = regs.century;

    assert((hour & 0x80 != 0) == (hour >= 0x80) && hour & 0x7F == hour % 128) by (bit_vector);
    let pm = hour & 0x80 != 0;
    if !binary || !hour24 {
        hour = hour & 0x7F;
    }
    if !binary {
        second = bcd_to_bin(second);
        minute = bcd_to_bin(minute);
        hour = bcd_to_bin(hour);
        day = bcd_to_bin(day);
        month = bcd_to_bin(month);
        year = bcd_to_bin(year);
        century = bcd_to_bin(century);
    }
    if !hour24 {
        if pm && hour < 12 {
            hour = hour + 12;
        } else if !pm && hour == 12 {
            hour = 0;
        }
    }
    if !(19 <= century && century <= 20) {
        century = 20;
    }
    DateTime { year: century as u16 * 100 + year as u16, month, day, hour, minute, second }
}

/// On a 12-hour clock the hour is below 24 whenever the reading is a clock
/// hour; it agrees with the clock's face, and is past noon when the clock
/// says so.
pub proof fn law_hour_below_24(r: Registers)
    requires
        r.status_b & 0x02 == 0,
        1 <= clock_face(r) <= 12,
    ensures
        date_time(r).hour < 24,
        date_time(r).hour % 12 == clock_face(r) % 12,
        date_time(r).hour >= 12 <==> r.hour >= 0x80,
{
}

/// A register with the decimal digits `tens` and `ones` in its halves.
pub open spec fn digits(tens: int, ones: int) -> u8 {
    (16 * tens + ones) as u8
}

/// A 24-hour clock that counts in decimal digits is read digit by digit,
/// the century register giving the first two digits of the year.
#[verifier::spinoff_prover]
#[verifier::rlimit(30)]
pub proof fn law_digits_are_read(
    b: u8,
    s: (int, int),
    mi: (int, int),
    h: (int, int),
    d: (int, int),
    mo: (int, int),
    y: (int, int),
    c: int,
)
    requires
        b & 0x04 == 0,
        b & 0x02 != 0,
        0 <= s.0 < 10 && 0 <= s.1 < 10,
        0 <= mi.0 < 10 && 0 <= mi.1 < 10,
        0 <= h.0 < 8 && 0 <= h.1 < 10,
        0 <= d.0 < 10 && 0 <= d.1 < 10,
        0 <= mo.0 < 10 && 0 <= mo.1 < 10,
        0 <= y.0 < 10 && 0 <= y.1 < 10,
        c == 19 || c == 20,
    ensures
        ({
            let t = date_time(
                Registers {
                    status_b: b,
                    second: digits(s.0, s.1),
                    minute: digits(mi.0, mi.1),
                    hour: digits(h.0, h.1),
                    day: digits(d.0, d.1),
                    month: digits(mo.0, mo.1),
                    year: digits(y.0, y.1),
                    century: digits(c / 10, c % 10),
                },
            );
            &&& t.second == 10 * s.0 + s.1
            &&& t.minute == 10 * mi.0 + mi.1
            &&& t.hour == 10 * h.0 + h.1
            &&& t.day == 10 * d.0 + d.1
            &&& t.month == 10 * mo.0 + mo.1
            &&& t.year == 100 * c + 10 * y.0 + y.1
        }),
{
    lemma_digits(s.0, s.1);
    lemma_digits(mi.0, mi.1);
    lemma_digits(h.0, h.1);
    lemma_digits(d.0, d.1);
    lemma_digits(mo.0, mo.1);
    lemma_digits(y.0, y.1);
    lemma_digits(c / 10, c % 10);
}

proof fn lemma_digits(tens: int, ones: int)
    requires
        0 <= tens < 10,
        0 <= ones < 10,
    ensures
        bcd(digits(tens, ones)) == 10 * tens + ones,
        tens < 8 ==> low7(digits(tens, ones)) == digits(tens, ones),
{
    let v = digits(tens, ones);
    assert(v == 16 * tens + ones);
    assert(v / 16 == tens && v % 16 == ones);
}

/// A 24-hour clock that counts in binary is read as it is.
pub proof fn law_binary_is_read(r: Registers)
    requires
        r.status_b & 0x04 != 0,
        r.status_b & 0x02 != 0,
        r.century == 19 || r.century == 20,
    ensures
        date_time(r) == (DateTime {
            year: (r.century * 100 + r.year) as u16,
            month: r.month,
            day: r.day,
            hour: r.hour,
            minute: r.minute,
            second: r.second,
        }),
{
}

/// On a 12-hour clock twelve in the morning is midnight, twelve past noon is
/// noon, and any other hour past noon is twelve more than the face shows.
pub proof fn law_twelve_hours(r: Registers, face: int)
    requires
        r.status_b & 0x04 != 0,
        r.status_b & 0x02 == 0,
        1 <= face <= 12,
        r.hour == face || r.hour == 128 + face,
    ensures
        date_time(r).hour == face % 12 + (if r.hour == face {
            0int
        } else {
            12
        }),
{
}

} // verus!
