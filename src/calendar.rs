use vstd::prelude::*;

verus! {

pub const NANOS_PER_SEC: u32 = 1_000_000_000;

/// Proleptic Gregorian leap year.
pub open spec fn is_leap_year(y: int) -> bool {
    (y % 4 == 0 && y % 100 != 0) || y % 400 == 0
}

pub open spec fn days_in_month(y: int, m: int) -> int {
    if m == 2 {
        if is_leap_year(y) {
            29
        } else {
            28
        }
    } else if m == 4 || m == 6 || m == 9 || m == 11 {
        30
    } else {
        31
    }
}

pub open spec fn valid_date(y: int, m: int, d: int) -> bool {
    1 <= m <= 12 && 1 <= d <= days_in_month(y, m)
}

/// The day after `(y, m, d)`.
pub open spec fn next_day(y: int, m: int, d: int) -> (int, int, int) {
    if d < days_in_month(y, m) {
        (y, m, d + 1)
    } else if m < 12 {
        (y, m + 1, 1)
    } else {
        (y + 1, 1, 1)
    }
}

/// The day before `(y, m, d)`.
pub open spec fn prev_day(y: int, m: int, d: int) -> (int, int, int) {
    if d > 1 {
        (y, m, d - 1)
    } else if m > 1 {
        (y, m - 1, days_in_month(y, m - 1))
    } else {
        (y - 1, 12, 31)
    }
}

pub proof fn lemma_next_prev_day(y: int, m: int, d: int)
    requires
        valid_date(y, m, d),
    ensures
        ({
            let n = next_day(y, m, d);
            valid_date(n.0, n.1, n.2) && prev_day(n.0, n.1, n.2) == (y, m, d)
        }),
        ({
            let p = prev_day(y, m, d);
            valid_date(p.0, p.1, p.2) && next_day(p.0, p.1, p.2) == (y, m, d)
        }),
{
}

pub fn month_days(y: i32, m: u32) -> (r: u32)
    requires
        1 <= m <= 12,
    ensures
        r == days_in_month(y as int, m as int),
{
    let leap = (y % 4 == 0 && y % 100 != 0) || y % 400 == 0;
    if m == 2 {
        if leap {
            29
        } else {
            28
        }
    } else if m == 4 || m == 6 || m == 9 || m == 11 {
        30
    } else {
        31
    }
}

/// Calendar date and time of day, without a time zone.
#[derive(Clone, Copy, Debug, PartialEq, Eq, Structural)]
pub struct CivilTime {
    pub year: i32,
    pub month: u32,
    pub day: u32,
    pub hour: u32,
    pub minute: u32,
    pub second: u32,
    pub nanos: u32,
}

pub const MIN_CIVIL_YEAR: i32 = -100000;

pub const MAX_CIVIL_YEAR: i32 = 100000;

impl CivilTime {
    pub open spec fn wf(&self) -> bool {
        MIN_CIVIL_YEAR <= self.year <= MAX_CIVIL_YEAR && valid_date(
            self.year as int,
            self.month as int,
            self.day as int,
        ) && self.hour < 24 && self.minute < 60 && self.second < 60 && self.nanos < NANOS_PER_SEC
    }

    pub open spec fn secs_of_day(&self) -> int {
        self.hour * 3600 + self.minute * 60 + self.second
    }

    /// Lexicographic order on (date, time of day, nanos): -1, 0 or 1.
    pub open spec fn spec_cmp(&self, o: &CivilTime) -> int {
        let a = seq![self.year as int, self.month as int, self.day as int, self.hour as int,
            self.minute as int, self.second as int, self.nanos as int];
        let b = seq![o.year as int, o.month as int, o.day as int, o.hour as int,
            o.minute as int, o.second as int, o.nanos as int];
        lex_cmp(a, b)
    }
}

pub open spec fn lex_cmp(a: Seq<int>, b: Seq<int>) -> int
    decreases a.len(),
{
    if a.len() == 0 || b.len() == 0 {
        0
    } else if a[0] < b[0] {
        -1
    } else if a[0] > b[0] {
        1
    } else {
        lex_cmp(a.drop_first(), b.drop_first())
    }
}

pub proof fn lemma_lex_cmp_range(a: Seq<int>, b: Seq<int>)
    ensures
        -1 <= lex_cmp(a, b) <= 1,
    decreases a.len(),
{
    if a.len() > 0 && b.len() > 0 && a[0] == b[0] {
        lemma_lex_cmp_range(a.drop_first(), b.drop_first());
    }
}

/// Date and time of day from a date and a second of that day.
pub open spec fn civil_at(date: (int, int, int), sod: int, nanos: u32) -> CivilTime {
    CivilTime {
        year: date.0 as i32,
        month: date.1 as u32,
        day: date.2 as u32,
        hour: (sod / 3600) as u32,
        minute: ((sod % 3600) / 60) as u32,
        second: (sod % 60) as u32,
        nanos,
    }
}

/// `c` moved by `delta` seconds, where the move crosses at most one midnight.
pub open spec fn shifted(c: CivilTime, delta: int) -> CivilTime {
    let t = c.secs_of_day() + delta;
    let ymd = (c.year as int, c.month as int, c.day as int);
    if t < 0 {
        civil_at(prev_day(ymd.0, ymd.1, ymd.2), t + 86400, c.nanos)
    } else if t >= 86400 {
        civil_at(next_day(ymd.0, ymd.1, ymd.2), t - 86400, c.nanos)
    } else {
        civil_at(ymd, t, c.nanos)
    }
}

pub open spec fn shift_in_range(c: CivilTime, delta: int) -> bool {
    MIN_CIVIL_YEAR < c.year < MAX_CIVIL_YEAR && -86400 < delta < 86400
}

proof fn lemma_civil_at(date: (int, int, int), sod: int, nanos: u32)
    requires
        0 <= sod < 86400,
        valid_date(date.0, date.1, date.2),
        MIN_CIVIL_YEAR <= date.0 <= MAX_CIVIL_YEAR,
        nanos < NANOS_PER_SEC,
    ensures
        civil_at(date, sod, nanos).wf(),
        civil_at(date, sod, nanos).secs_of_day() == sod,
{
    assert(sod == (sod / 3600) * 3600 + ((sod % 3600) / 60) * 60 + sod % 60) by (nonlinear_arith)
        requires
            0 <= sod,
    ;
    assert(sod / 3600 < 24) by (nonlinear_arith)
        requires
            0 <= sod < 86400,
    ;
}

/// Moving by `delta` keeps the time well formed.
pub proof fn lemma_shifted_wf(c: CivilTime, delta: int)
    requires
        c.wf(),
        shift_in_range(c, delta),
    ensures
        shifted(c, delta).wf(),
        shifted(c, delta).secs_of_day() == ((c.secs_of_day() + delta) % 86400),
        shifted(c, delta).nanos == c.nanos,
{
    let t = c.secs_of_day() + delta;
    lemma_next_prev_day(c.year as int, c.month as int, c.day as int);
    if t < 0 {
        lemma_civil_at(prev_day(c.year as int, c.month as int, c.day as int), t + 86400, c.nanos);
    } else if t >= 86400 {
        lemma_civil_at(next_day(c.year as int, c.month as int, c.day as int), t - 86400, c.nanos);
    } else {
        lemma_civil_at((c.year as int, c.month as int, c.day as int), t, c.nanos);
    }
}

/// Moving by `delta` and back by `delta` gives the starting time.
pub proof fn lemma_shift_back(c: CivilTime, delta: int)
    requires
        c.wf(),
        shift_in_range(c, delta),
        shift_in_range(shifted(c, delta), -delta),
    ensures
        shifted(shifted(c, delta), -delta) == c,
{
    lemma_shifted_wf(c, delta);
    let s = shifted(c, delta);
    let ymd = (c.year as int, c.month as int, c.day as int);
    let sod = c.secs_of_day();
    let t = sod + delta;
    lemma_next_prev_day(ymd.0, ymd.1, ymd.2);
    lemma_civil_at(ymd, sod, c.nanos);
    if t < 0 {
        lemma_civil_at(prev_day(ymd.0, ymd.1, ymd.2), t + 86400, c.nanos);
        assert(shifted(s, -delta) == civil_at(ymd, sod, c.nanos));
    } else if t >= 86400 {
        lemma_civil_at(next_day(ymd.0, ymd.1, ymd.2), t - 86400, c.nanos);
        assert(shifted(s, -delta) == civil_at(ymd, sod, c.nanos));
    } else {
        lemma_civil_at(ymd, t, c.nanos);
        assert(shifted(s, -delta) == civil_at(ymd, sod, c.nanos));
    }
    lemma_civil_at_parts(c);
}

proof fn lemma_civil_at_parts(c: CivilTime)
    requires
        c.wf(),
    ensures
        civil_at((c.year as int, c.month as int, c.day as int), c.secs_of_day(), c.nanos) == c,
{
    let sod = c.secs_of_day();
    assert(sod / 3600 == c.hour && (sod % 3600) / 60 == c.minute && sod % 60 == c.second)
        by (nonlinear_arith)
        requires
            sod == c.hour * 3600 + c.minute * 60 + c.second,
            c.minute < 60,
            c.second < 60,
            c.hour < 24,
    ;
}

/// Moves `c` by `delta` seconds (at most one day either way).
pub fn shift_seconds(c: CivilTime, delta: i64) -> (r: CivilTime)
    requires
        c.wf(),
        shift_in_range(c, delta as int),
    ensures
        r == shifted(c, delta as int),
        r.wf(),
{
    proof {
        lemma_shifted_wf(c, delta as int);
    }
    let t: i64 = c.hour as i64 * 3600 + c.minute as i64 * 60 + c.second as i64 + delta;
    let mut y = c.year;
    let mut m = c.month;
    let mut d = c.day;
    let sod: u64;
    if t < 0 {
        if d > 1 {
            d = d - 1;
        } else if m > 1 {
            m = m - 1;
            d = month_days(y, m);
        } else {
            y = y - 1;
            m = 12;
            d = 31;
        }
        sod = (t + 86400) as u64;
    } else if t >= 86400 {
        if d < month_days(y, m) {
            d = d + 1;
        } else if m < 12 {
            m = m + 1;
            d = 1;
        } else {
            y = y + 1;
            m = 1;
            d = 1;
        }
        sod = (t - 86400) as u64;
    } else {
        sod = t as u64;
    }
    CivilTime {
        year: y,
        month: m,
        day: d,
        hour: (sod / 3600) as u32,
        minute: ((sod % 3600) / 60) as u32,
        second: (sod % 60) as u32,
        nanos: c.nanos,
    }
}

/// Orders two civil times lexicographically: -1, 0 or 1.
pub fn civil_cmp(a: &CivilTime, b: &CivilTime) -> (r: i8)
    ensures
        r as int == a.spec_cmp(b),
{
    proof {
        reveal_with_fuel(lex_cmp, 8);
    }
    let x = [a.year as i64, a.month as i64, a.day as i64, a.hour as i64, a.minute as i64,
        a.second as i64, a.nanos as i64];
    let z = [b.year as i64, b.month as i64, b.day as i64, b.hour as i64, b.minute as i64,
        b.second as i64, b.nanos as i64];
    if x[0] != z[0] {
        return if x[0] < z[0] { -1 } else { 1 };
    }
    if x[1] != z[1] {
        return if x[1] < z[1] { -1 } else { 1 };
    }
    if x[2] != z[2] {
        return if x[2] < z[2] { -1 } else { 1 };
    }
    if x[3] != z[3] {
        return if x[3] < z[3] { -1 } else { 1 };
    }
    if x[4] != z[4] {
        return if x[4] < z[4] { -1 } else { 1 };
    }
    if x[5] != z[5] {
        return if x[5] < z[5] { -1 } else { 1 };
    }
    if x[6] != z[6] {
        return if x[6] < z[6] { -1 } else { 1 };
    }
    0
}

} // verus!
