use vstd::prelude::*;

use chrono::Datelike;

use crate::calendar::{shift_seconds, shifted, civil_at, month_days, next_day, prev_day, valid_date, CivilTime};
use crate::datum::Duration;
use crate::error::Error;
use crate::render::{ascii_chars, is_ascii_bytes, pad};
use crate::time::{pow10, pow10_u32, valid_tz, Time};
use crate::types::DATE;

verus! {

pub const NANOS_PER_DAY: i64 = 86_400_000_000_000;

/// The date `k` days after `date` (before it when `k` is negative).
pub open spec fn add_days(date: (int, int, int), k: int) -> (int, int, int)
    decreases (if k >= 0 { k } else { -k }),
{
    if k == 0 {
        date
    } else if k > 0 {
        let p = add_days(date, k - 1);
        next_day(p.0, p.1, p.2)
    } else {
        let p = add_days(date, k + 1);
        prev_day(p.0, p.1, p.2)
    }
}

/// What `from_duration` gives when today is `today` at offset `tz`: midnight of
/// today moved by the duration, a DATE keeping only the date; years outside
/// 1000 to 9999 (for a TIMESTAMP, also in UTC) are refused.
pub open spec fn spec_from_duration(today: (int, int, int), tz: i32, tp: u8, d: Duration) -> Result<Time, Error> {
    let days = d.nanos / NANOS_PER_DAY;
    let rem = d.nanos % NANOS_PER_DAY;
    let date = add_days(today, days);
    if !(1000 <= date.0 <= 9999) {
        Err(Error::Overflow)
    } else {
        let c = civil_at(date, rem / 1_000_000_000, (rem % 1_000_000_000) as u32);
        let local = if tp == DATE {
            CivilTime { hour: 0, minute: 0, second: 0, nanos: 0, ..c }
        } else {
            c
        };
        if tp == crate::types::TIMESTAMP && shifted(local, -tz).year > 9999 {
            Err(Error::Overflow)
        } else {
            Ok(Time { local, tz, tp, fsp: d.fsp })
        }
    }
}

/// Relies on chrono's `Utc::now`, moved to a fixed offset: the calendar date
/// there now. chrono dates are valid dates within its year range.
#[verifier::external_body]
fn today_at(tz: i32) -> (r: (i32, u32, u32))
    requires
        valid_tz(tz as int),
    ensures
        valid_date(r.0 as int, r.1 as int, r.2 as int),
        -262144 < r.0 < 262143,
{
    let off = chrono::FixedOffset::east_opt(tz).unwrap();
    let d = chrono::Utc::now().with_timezone(&off).date_naive();
    (d.year(), d.month(), d.day())
}

fn step_date(y: i32, m: u32, d: u32, forward: bool) -> (r: (i32, u32, u32))
    requires
        valid_date(y as int, m as int, d as int),
        -300000 < y < 300000,
    ensures
        forward ==> (r.0 as int, r.1 as int, r.2 as int) == next_day(y as int, m as int, d as int),
        !forward ==> (r.0 as int, r.1 as int, r.2 as int) == prev_day(y as int, m as int, d as int),
        valid_date(r.0 as int, r.1 as int, r.2 as int),
        y - 1 <= r.0 <= y + 1,
{
    proof {
        crate::calendar::lemma_next_prev_day(y as int, m as int, d as int);
    }
    if forward {
        if d < month_days(y, m) {
            (y, m, d + 1)
        } else if m < 12 {
            (y, m + 1, 1)
        } else {
            (y + 1, 1, 1)
        }
    } else {
        if d > 1 {
            (y, m, d - 1)
        } else if m > 1 {
            (y, m - 1, month_days(y, m - 1))
        } else {
            (y - 1, 12, 31)
        }
    }
}

impl Time {
    /// The time of day as a duration, at this time's precision; zero for the
    /// zero sentinel.
    pub fn to_duration(&self) -> (r: Result<Duration, Error>)
        requires
            self.wf(),
        ensures
            r is Ok,
            self.is_zero_spec() ==> r->Ok_0 == (Duration { nanos: 0, fsp: 0 }),
            !self.is_zero_spec() ==> r->Ok_0 == (Duration {
                nanos: (self.local.secs_of_day() * 1_000_000_000 + self.local.nanos) as i64,
                fsp: self.fsp,
            }),
    {
        if self.is_zero() {
            return Ok(Duration::zero());
        }
        let c = self.local;
        let nanos: i64 = (c.hour as i64 * 3600 + c.minute as i64 * 60 + c.second as i64) * 1_000_000_000
            + c.nanos as i64;
        Duration::from_nanos(nanos, self.fsp as i8)
    }

    /// Today's midnight at offset `tz`, moved by `d`.
    pub fn from_duration(tz: i32, tp: u8, d: &Duration) -> (r: Result<Time, Error>)
        requires
            valid_tz(tz as int),
            d.wf(),
        ensures
            exists|today: (int, int, int)|
                valid_date(today.0, today.1, today.2) && r == spec_from_duration(today, tz, tp, *d),
    {
        let (y, m, dd) = today_at(tz);
        Time::from_duration_on(y, m, dd, tz, tp, d)
    }

    /// Midnight of the date `y-m-d` at offset `tz`, moved by `d`.
    pub fn from_duration_on(y: i32, m: u32, dd: u32, tz: i32, tp: u8, d: &Duration) -> (r: Result<Time, Error>)
        requires
            valid_tz(tz as int),
            d.wf(),
            valid_date(y as int, m as int, dd as int),
            -262144 < y < 262143,
        ensures
            r == spec_from_duration((y as int, m as int, dd as int), tz, tp, *d),
            r is Ok ==> r->Ok_0.wf(),
    {
        let n = d.nanos;
        // floor division by a day, remainder in [0, a day)
        let (days, rem): (i64, i64) = if n >= 0 {
            (n / NANOS_PER_DAY, n % NANOS_PER_DAY)
        } else {
            let q = (-n) / NANOS_PER_DAY;
            let r0 = (-n) % NANOS_PER_DAY;
            if r0 == 0 {
                (-q, 0)
            } else {
                (-q - 1, NANOS_PER_DAY - r0)
            }
        };
        proof {
            assert(days as int == d.nanos / NANOS_PER_DAY && rem as int == d.nanos % NANOS_PER_DAY) by {
                if n < 0 {
                    let m = -(n as int);
                    let q = m / (NANOS_PER_DAY as int);
                    let r0 = m % (NANOS_PER_DAY as int);
                    vstd::arithmetic::div_mod::lemma_fundamental_div_mod(m, NANOS_PER_DAY as int);
                    if r0 == 0 {
                        vstd::arithmetic::div_mod::lemma_fundamental_div_mod_converse(n as int, NANOS_PER_DAY as int, -q, 0);
                    } else {
                        vstd::arithmetic::div_mod::lemma_fundamental_div_mod_converse(n as int, NANOS_PER_DAY as int, -q - 1, NANOS_PER_DAY - r0);
                    }
                }
            }
            assert(-36502 <= days <= 36502) by (nonlinear_arith)
                requires
                    days as int == d.nanos / NANOS_PER_DAY,
                    -3_153_686_400_000_000_000 < d.nanos < 3_153_686_400_000_000_000,
            ;
        }
        let forward = days >= 0;
        let steps: u64 = if forward { days as u64 } else { (-days) as u64 };
        let mut cur = (y, m, dd);
        let mut i: u64 = 0;
        while i < steps
            invariant
                i <= steps <= 36502,
                forward == (days >= 0),
                steps == (if forward { days as int } else { -days }),
                valid_date(cur.0 as int, cur.1 as int, cur.2 as int),
                y - i <= cur.0 <= y + i,
                -262144 < y < 262143,
                (cur.0 as int, cur.1 as int, cur.2 as int) == add_days(
                    (y as int, m as int, dd as int),
                    if forward { i as int } else { -i },
                ),
            decreases steps - i,
        {
            cur = step_date(cur.0, cur.1, cur.2, forward);
            i = i + 1;
        }
        let (ny, nm, nd) = cur;
        if !(1000 <= ny && ny <= 9999) {
            return Err(Error::Overflow);
        }
        let secs = (rem / 1_000_000_000) as u64;
        let c = CivilTime {
            year: ny,
            month: nm,
            day: nd,
            hour: (secs / 3600) as u32,
            minute: ((secs % 3600) / 60) as u32,
            second: (secs % 60) as u32,
            nanos: (rem % 1_000_000_000) as u32,
        };
        proof {
            assert(0 <= secs < 86400);
            assert(secs / 3600 < 24) by (nonlinear_arith)
                requires secs < 86400;
        }
        let local = if tp == DATE {
            CivilTime { hour: 0, minute: 0, second: 0, nanos: 0, ..c }
        } else {
            c
        };
        if tp == crate::types::TIMESTAMP {
            let u = shift_seconds(local, -(tz as i64));
            if u.year > 9999 {
                return Err(Error::Overflow);
            }
        }
        Ok(Time { local, tz, tp, fsp: d.fsp })
    }
}

/// Number of decimal digits of `n`.
pub open spec fn ndigits(n: nat) -> nat
    decreases n,
{
    if n < 10 {
        1
    } else {
        1 + ndigits(n / 10)
    }
}

/// `HH:MM:SS` of a duration, the hours with at least two digits, a leading
/// `-` when negative, and `fsp` fraction digits.
pub open spec fn duration_text(d: Duration) -> Seq<u8> {
    let a = (if d.nanos < 0 { -d.nanos } else { d.nanos as int }) as nat;
    let secs = a / 1_000_000_000;
    let h = secs / 3600;
    let sign = if d.nanos < 0 { seq![45u8] } else { Seq::empty() };
    let hw = if ndigits(h) < 2 { 2 } else { ndigits(h) };
    let frac = if d.fsp > 0 {
        seq![46u8] + pad((a % 1_000_000_000) / pow10((9 - d.fsp) as nat), d.fsp as nat)
    } else {
        Seq::empty()
    };
    sign + pad(h, hw) + seq![58u8] + pad((secs % 3600) / 60, 2) + seq![58u8] + pad(secs % 60, 2) + frac
}

fn digit_count(n: u64) -> (r: usize)
    ensures
        r == ndigits(n as nat),
        r <= 20,
    decreases n,
{
    if n < 10 {
        1
    } else {
        proof {
            assert(n / 10 < n);
        }
        let k = digit_count(n / 10);
        proof {
            lemma_ndigits_bound(n as nat);
        }
        1 + k
    }
}

proof fn lemma_ndigits_bound(n: nat)
    requires
        n < 0x1_0000_0000_0000_0000,
    ensures
        ndigits(n) <= 20,
{
    reveal_with_fuel(ndigits, 21);
}

fn push_ascii(v: &mut Vec<u8>, b: u8)
    requires
        b < 128,
        is_ascii_bytes(old(v)@),
    ensures
        final(v)@ == old(v)@.push(b),
        is_ascii_bytes(final(v)@),
{
    v.push(b);
    assert forall|i: int| 0 <= i < v@.len() implies #[trigger] v@[i] < 128 by {
        if i < v@.len() - 1 {
            assert(v@[i] == old(v)@[i]);
        }
    }
}

fn push_pad64(v: &mut Vec<u8>, n: u64, w: usize)
    requires
        w <= 20,
        is_ascii_bytes(old(v)@),
    ensures
        final(v)@ == old(v)@ + pad(n as nat, w as nat),
        is_ascii_bytes(final(v)@),
    decreases w,
{
    if w > 0 {
        push_pad64(v, n / 10, w - 1);
        push_ascii(v, (n % 10) as u8 + 48);
        assert(v@ =~= old(v)@ + pad(n as nat, w as nat));
    }
}

impl Duration {
    /// The bytes of `to_string`.
    pub fn text_bytes(&self) -> (r: Vec<u8>)
        requires
            self.wf(),
        ensures
            r@ == duration_text(*self),
            is_ascii_bytes(r@),
    {
        let a: u64 = if self.nanos < 0 { (-self.nanos) as u64 } else { self.nanos as u64 };
        let secs = a / 1_000_000_000;
        let h = secs / 3600;
        let mut v: Vec<u8> = Vec::new();
        if self.nanos < 0 {
            push_ascii(&mut v, 45);
        }
        let hd = digit_count(h);
        let hw = if hd < 2 { 2 } else { hd };
        push_pad64(&mut v, h, hw);
        push_ascii(&mut v, 58);
        push_pad64(&mut v, (secs % 3600) / 60, 2);
        push_ascii(&mut v, 58);
        push_pad64(&mut v, secs % 60, 2);
        if self.fsp > 0 {
            push_ascii(&mut v, 46);
            let base = pow10_u32(9 - self.fsp as u32);
            proof {
                reveal_with_fuel(pow10, 10);
            }
            push_pad64(&mut v, (a % 1_000_000_000) / base as u64, self.fsp as usize);
        }
        assert(v@ =~= duration_text(*self));
        v
    }

    /// The duration written as `[-]HH:MM:SS[.fff…]`.
    pub fn to_string(&self) -> (r: String)
        requires
            self.wf(),
        ensures
            r@ == ascii_chars(duration_text(*self)),
    {
        crate::render::ascii_string(self.text_bytes())
    }
}

/// Decimal digits of an integer, with a leading `-` when it is negative.
pub open spec fn int_text(x: int) -> Seq<u8> {
    let a = (if x < 0 { -x } else { x }) as nat;
    let digits = pad(a, ndigits(a));
    if x < 0 {
        seq![45u8] + digits
    } else {
        digits
    }
}

/// The decimal text of an integer.
pub fn int_text_bytes(x: i128) -> (r: Vec<u8>)
    requires
        -0x1_0000_0000_0000_0000 < x < 0x1_0000_0000_0000_0000,
    ensures
        r@ == int_text(x as int),
{
    let a: u64 = if x < 0 { (-x) as u64 } else { x as u64 };
    let mut v: Vec<u8> = Vec::new();
    if x < 0 {
        push_ascii(&mut v, 45);
    }
    let n = digit_count(a);
    push_pad64(&mut v, a, n);
    assert(v@ =~= int_text(x as int));
    v
}

} // verus!
