use vstd::prelude::*;
use vstd::arithmetic::div_mod::lemma_fundamental_div_mod_converse;

use crate::calendar::{civil_cmp, shift_seconds, shifted, valid_date, CivilTime};
use crate::error::Error;
use crate::types::{DATE, DATETIME, DEFAULT_FSP, MAX_FSP, TIMESTAMP, UN_SPECIFIED_FSP};

verus! {

/// A time-zone offset in seconds east of UTC is valid when it is less than a day.
pub open spec fn valid_tz(tz: int) -> bool {
    -86400 < tz < 86400
}

pub open spec fn pow10(n: nat) -> nat
    decreases n,
{
    if n == 0 {
        1
    } else {
        10 * pow10((n - 1) as nat)
    }
}

pub fn pow10_u32(n: u32) -> (r: u32)
    requires
        n <= 9,
    ensures
        r == pow10(n as nat),
{
    proof {
        reveal_with_fuel(pow10, 10);
    }
    match n {
        0 => 1,
        1 => 10,
        2 => 100,
        3 => 1000,
        4 => 10000,
        5 => 100000,
        6 => 1000000,
        7 => 10000000,
        8 => 100000000,
        _ => 1000000000,
    }
}

/// What `check_fsp` gives for `fsp`: the unspecified precision stands for the default.
pub open spec fn spec_check_fsp(fsp: int) -> Result<u8, Error> {
    if fsp == UN_SPECIFIED_FSP {
        Ok(DEFAULT_FSP as u8)
    } else if 0 <= fsp <= MAX_FSP {
        Ok(fsp as u8)
    } else {
        Err(Error::InvalidFsp)
    }
}

pub fn check_fsp(fsp: i8) -> (r: Result<u8, Error>)
    ensures
        r == spec_check_fsp(fsp as int),
{
    if fsp == UN_SPECIFIED_FSP {
        Ok(DEFAULT_FSP as u8)
    } else if 0 <= fsp && fsp <= MAX_FSP {
        Ok(fsp as u8)
    } else {
        Err(Error::InvalidFsp)
    }
}

/// The civil time that stands for "0000-00-00 00:00:00".
pub open spec fn zero_civil() -> CivilTime {
    CivilTime { year: 0, month: 0, day: 0, hour: 0, minute: 0, second: 0, nanos: 0 }
}

/// The instant of the zero sentinel, `-0001-11-30 00:00:00` UTC: earlier than any real time.
pub open spec fn zero_instant() -> CivilTime {
    CivilTime { year: -1i32, month: 11, day: 30, hour: 0, minute: 0, second: 0, nanos: 0 }
}

/// A civil time that a `Time` can hold as its local time.
pub open spec fn in_year_range(c: CivilTime) -> bool {
    c.wf() && 0 <= c.year <= 9999
}

/// A DATE, DATETIME or TIMESTAMP value: a local civil time at a fixed offset,
/// or the zero sentinel.
#[derive(Clone, Copy, Debug)]
pub struct Time {
    /// Local date and time of day under `tz`; all zero for the zero sentinel.
    pub local: CivilTime,
    /// Offset of the local time, in seconds east of UTC.
    pub tz: i32,
    pub tp: u8,
    pub fsp: u8,
}

impl Time {
    pub open spec fn is_zero_spec(&self) -> bool {
        self.local == zero_civil()
    }

    /// The UTC civil time of a non-zero time.
    pub open spec fn utc(&self) -> CivilTime {
        shifted(self.local, -self.tz)
    }

    /// The instant, as a UTC civil time; the sentinel's is before all others.
    pub open spec fn instant(&self) -> CivilTime {
        if self.is_zero_spec() {
            zero_instant()
        } else {
            self.utc()
        }
    }

    pub open spec fn wf(&self) -> bool {
        &&& valid_tz(self.tz as int)
        &&& self.fsp <= MAX_FSP
        &&& self.is_zero_spec() || (in_year_range(self.local) && (self.tp == TIMESTAMP
            ==> in_year_range(self.utc())))
    }

    /// The civil time that a packed value holds: UTC for TIMESTAMP, local otherwise.
    pub open spec fn packed_civil(&self) -> CivilTime {
        if self.tp == TIMESTAMP {
            self.utc()
        } else {
            self.local
        }
    }

    pub fn new(local: CivilTime, tz: i32, tp: u8, fsp: i8) -> (r: Result<Time, Error>)
        requires
            valid_tz(tz as int),
            local == zero_civil() || in_year_range(local),
            tp == TIMESTAMP && local != zero_civil() ==> in_year_range(shifted(local, -tz)),
        ensures
            r == match spec_check_fsp(fsp as int) {
                Ok(f) => Ok(Time { local, tz, tp, fsp: f }),
                Err(e) => Err(e),
            },
            r is Ok ==> r->Ok_0.wf(),
    {
        let f = check_fsp(fsp)?;
        Ok(Time { local, tz, tp, fsp: f })
    }

    /// The zero sentinel of DATETIME type at offset `tz`.
    pub fn zero_datetime(tz: i32) -> (r: Time)
        requires
            valid_tz(tz as int),
        ensures
            r == (Time { local: zero_civil(), tz, tp: DATETIME, fsp: DEFAULT_FSP as u8 }),
            r.wf(),
    {
        Time {
            local: CivilTime { year: 0, month: 0, day: 0, hour: 0, minute: 0, second: 0, nanos: 0 },
            tz,
            tp: DATETIME,
            fsp: DEFAULT_FSP as u8,
        }
    }

    pub fn get_tp(&self) -> (r: u8)
        ensures
            r == self.tp,
    {
        self.tp
    }

    pub fn get_fsp(&self) -> (r: u8)
        ensures
            r == self.fsp,
    {
        self.fsp
    }

    pub fn set_fsp(&mut self, fsp: u8)
        requires
            fsp <= MAX_FSP,
        ensures
            *final(self) == (Time { fsp, ..*old(self) }),
    {
        self.fsp = fsp;
    }

    pub fn is_zero(&self) -> (r: bool)
        ensures
            r == self.is_zero_spec(),
    {
        self.local.year == 0 && self.local.month == 0 && self.local.day == 0 && self.local.hour == 0
            && self.local.minute == 0 && self.local.second == 0 && self.local.nanos == 0
    }

    /// The instant of this time as a UTC civil time.
    pub fn to_instant(&self) -> (r: CivilTime)
        requires
            self.wf(),
        ensures
            r == self.instant(),
    {
        if self.is_zero() {
            CivilTime { year: -1i32, month: 11, day: 30, hour: 0, minute: 0, second: 0, nanos: 0 }
        } else {
            shift_seconds(self.local, -(self.tz as i64))
        }
    }

    /// Orders two times by their instants; the zero sentinel is earliest.
    pub fn cmp(&self, right: &Time) -> (r: core::cmp::Ordering)
        requires
            self.wf(),
            right.wf(),
        ensures
            r == ordering_of(self.instant().spec_cmp(&right.instant())),
    {
        let a = self.to_instant();
        let b = right.to_instant();
        let c = civil_cmp(&a, &b);
        if c < 0 {
            core::cmp::Ordering::Less
        } else if c > 0 {
            core::cmp::Ordering::Greater
        } else {
            core::cmp::Ordering::Equal
        }
    }

    /// Whether the two times are the same instant.
    pub fn eq(&self, right: &Time) -> (r: bool)
        requires
            self.wf(),
            right.wf(),
        ensures
            r == (self.instant() == right.instant()),
    {
        let a = self.to_instant();
        let b = right.to_instant();
        a.year == b.year && a.month == b.month && a.day == b.day && a.hour == b.hour && a.minute
            == b.minute && a.second == b.second && a.nanos == b.nanos
    }

    /// The packed 64-bit form: `ymd << 41 | hms << 24 | micros`, where
    /// `ymd = (year * 13 + month) << 5 | day` and `hms = hour << 12 | minute << 6 | second`.
    /// A TIMESTAMP packs its UTC time, other types their local time; the zero
    /// sentinel packs to 0.
    pub open spec fn packed(&self) -> u64 {
        if self.is_zero_spec() {
            0
        } else {
            pack_civil(self.packed_civil()) as u64
        }
    }

    pub fn to_packed_u64(&self) -> (r: u64)
        requires
            self.wf(),
        ensures
            r == self.packed(),
    {
        if self.is_zero() {
            return 0;
        }
        let c = if self.tp == TIMESTAMP {
            shift_seconds(self.local, -(self.tz as i64))
        } else {
            self.local
        };
        proof {
            lemma_pack_bounds(c);
        }
        let ymd: u64 = (c.year as u64 * 13 + c.month as u64) * 32 + c.day as u64;
        let hms: u64 = c.hour as u64 * 4096 + c.minute as u64 * 64 + c.second as u64;
        (ymd * 131072 + hms) * 16777216 + (c.nanos / 1000) as u64
    }

    /// Reads a packed time. For TIMESTAMP the packed fields are UTC and the result
    /// is moved to `tz`; for other types they are local to `tz`. Fields that are no
    /// valid date and time of day, and results outside the years 0 to 9999, are
    /// refused.
    pub fn from_packed_u64(u: u64, tp: u8, fsp: i8, tz: i32) -> (r: Result<Time, Error>)
        requires
            valid_tz(tz as int),
        ensures
            r == spec_from_packed(u, tp, fsp as int, tz),
            r is Ok ==> r->Ok_0.wf(),
    {
        let f = check_fsp(fsp)?;
        if u == 0 {
            return Ok(Time { local: CivilTime { year: 0, month: 0, day: 0, hour: 0, minute: 0, second: 0, nanos: 0 }, tz, tp, fsp: f });
        }
        let micro = u % 16777216;
        let ymdhms = u / 16777216;
        let hms = ymdhms % 131072;
        let ymd = ymdhms / 131072;
        let day = (ymd % 32) as u32;
        let ym = ymd / 32;
        let month = (ym % 13) as u32;
        let year = (ym / 13) as i32;
        let second = (hms % 64) as u32;
        let minute = ((hms / 64) % 64) as u32;
        let hour = (hms / 4096) as u32;
        proof {
            assert(ym / 13 <= 20165) by (nonlinear_arith)
                requires ym as int == (u as int / 16777216) / 131072 / 32, u < 0x1_0000_0000_0000_0000int;
        }
        if !(1 <= month && month <= 12) {
            return Err(Error::InvalidTime);
        }
        if !(1 <= day && day <= crate::calendar::month_days(year, month)) || hour >= 24 || minute >= 60 || second >= 60 {
            return Err(Error::InvalidTime);
        }
        let raw: u64 = (micro * 1000) % 0x1_0000_0000;
        let c0 = CivilTime { year, month, day, hour, minute, second, nanos: (raw % 1_000_000_000) as u32 };
        let c1 = shift_seconds(c0, (raw / 1_000_000_000) as i64);
        let local = if tp == TIMESTAMP {
            shift_seconds(c1, tz as i64)
        } else {
            c1
        };
        if !(0 <= local.year && local.year <= 9999) {
            return Err(Error::InvalidTime);
        }
        if tp == TIMESTAMP && !(0 <= c1.year && c1.year <= 9999) {
            return Err(Error::InvalidTime);
        }
        proof {
            if tp == TIMESTAMP {
                crate::calendar::lemma_shift_back(c1, tz as int);
            }
        }
        Ok(Time { local, tz, tp, fsp: f })
    }

    /// Rounds the fractional seconds to `fsp` digits, half away from zero; a carry
    /// moves the seconds on through days and years. DATE values and the zero
    /// sentinel are left as they are.
    pub fn round_frac(&mut self, fsp: i8) -> (r: Result<(), Error>)
        requires
            old(self).wf(),
        ensures
            r == (match spec_round_frac(*old(self), fsp as int) {
                Ok(_) => Ok(()),
                Err(e) => Err(e),
            }),
            r is Ok ==> *final(self) == spec_round_frac(*old(self), fsp as int)->Ok_0,
            r is Err ==> *final(self) == *old(self),
            final(self).wf(),
    {
        if self.tp == DATE || self.is_zero() {
            return Ok(());
        }
        let f = check_fsp(fsp)?;
        if f == self.fsp {
            return Ok(());
        }
        let base = pow10_u32(9 - f as u32);
        let nanos = self.local.nanos;
        proof {
            reveal_with_fuel(pow10, 10);
            assert(base >= 1000);
        }
        let q: u64 = (nanos as u64 + base as u64 / 2) / base as u64;
        proof {
            assert(q * base <= nanos as int + base as int) by (nonlinear_arith)
                requires q as int == (nanos as int + base as int / 2) / base as int, base > 0;
        }
        let expect: u64 = q * base as u64;
        let local = if expect >= 1_000_000_000 {
            shift_seconds(CivilTime { nanos: 0, ..self.local }, 1)
        } else {
            CivilTime { nanos: expect as u32, ..self.local }
        };
        if !(0 <= local.year && local.year <= 9999) {
            return Err(Error::Overflow);
        }
        if self.tp == TIMESTAMP {
            let u = shift_seconds(local, -(self.tz as i64));
            if !(0 <= u.year && u.year <= 9999) {
                return Err(Error::Overflow);
            }
        }
        self.local = local;
        self.fsp = f;
        Ok(())
    }

    /// Changes the type. Becoming DATE drops the time of day; becoming
    /// TIMESTAMP from another type is refused.
    pub fn set_tp(&mut self, tp: u8) -> (r: Result<(), Error>)
        requires
            old(self).wf(),
        ensures
            final(self).wf(),
            r is Err <==> (old(self).tp != tp && tp == TIMESTAMP),
            r is Err ==> *final(self) == *old(self),
            r is Ok ==> *final(self) == (if old(self).tp != tp && tp == DATE {
                Time { local: date_only(old(self).local), tp, ..*old(self) }
            } else {
                Time { tp, ..*old(self) }
            }),
    {
        if self.tp != tp && tp == TIMESTAMP {
            return Err(Error::Unsupported);
        }
        if self.tp != tp && tp == DATE {
            self.local = CivilTime { hour: 0, minute: 0, second: 0, nanos: 0, ..self.local };
        }
        self.tp = tp;
        Ok(())
    }
}

/// The same date at midnight.
pub open spec fn date_only(c: CivilTime) -> CivilTime {
    CivilTime { hour: 0, minute: 0, second: 0, nanos: 0, ..c }
}

pub open spec fn ordering_of(c: int) -> core::cmp::Ordering {
    if c < 0 {
        core::cmp::Ordering::Less
    } else if c > 0 {
        core::cmp::Ordering::Greater
    } else {
        core::cmp::Ordering::Equal
    }
}

/// Mixed-radix integer of the packed layout.
pub open spec fn pack_civil(c: CivilTime) -> int {
    let ymd = (c.year * 13 + c.month) * 32 + c.day;
    let hms = c.hour * 4096 + c.minute * 64 + c.second;
    (ymd * 131072 + hms) * 16777216 + c.nanos / 1000
}

proof fn lemma_pack_bounds(c: CivilTime)
    requires
        in_year_range(c),
    ensures
        0 < pack_civil(c) < 0x1_0000_0000_0000_0000,
        (c.year * 13 + c.month) * 32 + c.day <= 4160479,
        c.hour * 4096 + c.minute * 64 + c.second < 131072,
{
    let ymd = (c.year * 13 + c.month) * 32 + c.day;
    let hms = c.hour * 4096 + c.minute * 64 + c.second;
    assert(32 <= ymd <= 4160479) by (nonlinear_arith)
        requires
            ymd == (c.year * 13 + c.month) * 32 + c.day,
            0 <= c.year <= 9999,
            1 <= c.month <= 12,
            1 <= c.day <= 31,
    ;
    assert(0 <= hms < 131072) by (nonlinear_arith)
        requires
            hms == c.hour * 4096 + c.minute * 64 + c.second,
            c.hour < 24,
            c.minute < 60,
            c.second < 60,
    ;
    assert(0 < pack_civil(c) < 0x1_0000_0000_0000_0000) by (nonlinear_arith)
        requires
            pack_civil(c) == (ymd * 131072 + hms) * 16777216 + c.nanos / 1000,
            32 <= ymd <= 4160479,
            0 <= hms < 131072,
            c.nanos / 1000 < 1000000,
            c.nanos / 1000 >= 0,
    ;
}

/// The fields of a packed value: year, month, day, hour, minute, second, micros.
pub open spec fn packed_fields(u: int) -> (int, int, int, int, int, int, int) {
    let ymdhms = u / 16777216;
    let hms = ymdhms % 131072;
    let ymd = ymdhms / 131072;
    let ym = ymd / 32;
    (ym / 13, ym % 13, ymd % 32, hms / 4096, (hms / 64) % 64, hms % 64, u % 16777216)
}

/// What `from_packed_u64` gives.
pub open spec fn spec_from_packed(u: u64, tp: u8, fsp: int, tz: i32) -> Result<Time, Error> {
    match spec_check_fsp(fsp) {
        Err(e) => Err(e),
        Ok(f) => if u == 0 {
            Ok(Time { local: zero_civil(), tz, tp, fsp: f })
        } else {
            let p = packed_fields(u as int);
            if !(valid_date(p.0, p.1, p.2) && p.3 < 24 && p.4 < 60 && p.5 < 60) {
                Err(Error::InvalidTime)
            } else {
                let raw = (p.6 * 1000) % 0x1_0000_0000;
                let c0 = CivilTime {
                    year: p.0 as i32,
                    month: p.1 as u32,
                    day: p.2 as u32,
                    hour: p.3 as u32,
                    minute: p.4 as u32,
                    second: p.5 as u32,
                    nanos: (raw % 1_000_000_000) as u32,
                };
                let c1 = shifted(c0, raw / 1_000_000_000);
                let local = if tp == TIMESTAMP {
                    shifted(c1, tz as int)
                } else {
                    c1
                };
                if 0 <= local.year <= 9999 && (tp == TIMESTAMP ==> 0 <= c1.year <= 9999) {
                    Ok(Time { local, tz, tp, fsp: f })
                } else {
                    Err(Error::InvalidTime)
                }
            }
        },
    }
}

/// What `round_frac` makes of `t`.
pub open spec fn spec_round_frac(t: Time, fsp: int) -> Result<Time, Error> {
    if t.tp == DATE || t.is_zero_spec() {
        Ok(t)
    } else {
        match spec_check_fsp(fsp) {
            Err(e) => Err(e),
            Ok(f) => if f == t.fsp {
                Ok(t)
            } else {
                let base = pow10((9 - f) as nat);
                let expect = ((t.local.nanos as int + base / 2) / base as int) * base;
                let local = if expect >= 1_000_000_000 {
                    shifted(CivilTime { nanos: 0, ..t.local }, 1)
                } else {
                    CivilTime { nanos: expect as u32, ..t.local }
                };
                let r = Time { local, fsp: f, ..t };
                if 0 <= local.year <= 9999 && (t.tp == TIMESTAMP ==> 0 <= r.utc().year <= 9999) {
                    Ok(r)
                } else {
                    Err(Error::Overflow)
                }
            },
        }
    }
}

proof fn lemma_unpack_pack(c: CivilTime)
    requires
        in_year_range(c),
    ensures
        packed_fields(pack_civil(c)) == (c.year as int, c.month as int, c.day as int,
            c.hour as int, c.minute as int, c.second as int, (c.nanos / 1000) as int),
{
    lemma_pack_bounds(c);
    let ymd = (c.year * 13 + c.month) * 32 + c.day;
    let hms = c.hour * 4096 + c.minute * 64 + c.second;
    let u = pack_civil(c);
    lemma_fundamental_div_mod_converse(u, 16777216, ymd * 131072 + hms, (c.nanos / 1000) as int);
    lemma_fundamental_div_mod_converse(ymd * 131072 + hms, 131072, ymd, hms);
    lemma_fundamental_div_mod_converse(ymd, 32, c.year * 13 + c.month, c.day as int);
    lemma_fundamental_div_mod_converse(c.year * 13 + c.month, 13, c.year as int, c.month as int);
    lemma_fundamental_div_mod_converse(hms, 4096, c.hour as int, c.minute * 64 + c.second);
    lemma_fundamental_div_mod_converse(hms, 64, c.hour * 64 + c.minute, c.second as int);
    lemma_fundamental_div_mod_converse(c.hour * 64 + c.minute, 64, c.hour as int, c.minute as int);
}

pub(crate) proof fn lemma_shift_zero(c: CivilTime)
    requires
        c.wf(),
        crate::calendar::shift_in_range(c, 0),
    ensures
        shifted(c, 0) == c,
{
    crate::calendar::lemma_shifted_wf(c, 0);
    let sod = c.secs_of_day();
    assert(sod / 3600 == c.hour && (sod % 3600) / 60 == c.minute && sod % 60 == c.second)
        by (nonlinear_arith)
        requires
            sod == c.hour * 3600 + c.minute * 60 + c.second,
            c.minute < 60,
            c.second < 60,
            c.hour < 24,
    ;
}

/// Packing a legal time and reading it back with the same type, precision and
/// offset gives the same time. A legal time is well formed and holds whole
/// microseconds, which is all the packed form keeps.
pub proof fn lemma_packed_round_trip(t: Time)
    requires
        t.wf(),
        t.local.nanos % 1000 == 0,
    ensures
        spec_from_packed(t.packed(), t.tp, t.fsp as int, t.tz) == Ok::<Time, Error>(t),
{
    if !t.is_zero_spec() {
        let c = t.packed_civil();
        if t.tp == TIMESTAMP {
            crate::calendar::lemma_shifted_wf(t.local, -t.tz);
            crate::calendar::lemma_shift_back(t.local, -t.tz);
            assert(c.nanos == t.local.nanos);
        }
        lemma_pack_bounds(c);
        lemma_unpack_pack(c);
        let raw = ((c.nanos / 1000) * 1000) % 0x1_0000_0000;
        assert((c.nanos / 1000) * 1000 == c.nanos) by (nonlinear_arith)
            requires
                c.nanos % 1000 == 0,
        ;
        assert(raw == c.nanos);
        lemma_shift_zero(c);
        let c0 = CivilTime { nanos: (raw % 1_000_000_000) as u32, ..c };
        assert(c0 == c);
    }
}

/// Rounding a time to its own precision leaves it unchanged.
pub proof fn lemma_round_frac_own_fsp(t: Time)
    requires
        t.wf(),
    ensures
        spec_round_frac(t, t.fsp as int) == Ok::<Time, Error>(t),
{
}

/// The zero sentinel is earlier than every real time, whatever the offsets.
pub proof fn lemma_zero_earliest(z: Time, t: Time)
    requires
        z.wf(),
        t.wf(),
        z.is_zero_spec(),
        !t.is_zero_spec(),
    ensures
        z.instant().spec_cmp(&t.instant()) == -1,
{
    reveal_with_fuel(crate::calendar::lex_cmp, 3);
    crate::calendar::lemma_shifted_wf(t.local, -t.tz);
    crate::calendar::lemma_next_prev_day(t.local.year as int, t.local.month as int, t.local.day as int);
}

} // verus!
