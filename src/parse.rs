use vstd::prelude::*;

use vstd::string::StringSliceAdditionalSpecFns;
use crate::calendar::{month_days, shift_seconds, shifted, valid_date, CivilTime};
use crate::error::Error;
use crate::time::{check_fsp, pow10, pow10_u32, spec_check_fsp, valid_tz, zero_civil, Time};
use crate::types::DATETIME;

verus! {

pub open spec fn is_digit(b: u8) -> bool {
    48 <= b <= 57
}

/// ASCII white space: space, tab, line feed, vertical tab, form feed, carriage return.
pub open spec fn is_space(b: u8) -> bool {
    b == 32 || (9 <= b <= 13)
}

pub open spec fn all_digits(s: Seq<u8>) -> bool {
    forall|i: int| 0 <= i < s.len() ==> is_digit(#[trigger] s[i])
}

pub open spec fn trim_start(s: Seq<u8>) -> Seq<u8>
    decreases s.len(),
{
    if s.len() > 0 && is_space(s[0]) {
        trim_start(s.drop_first())
    } else {
        s
    }
}

pub open spec fn trim_end(s: Seq<u8>) -> Seq<u8>
    decreases s.len(),
{
    if s.len() > 0 && is_space(s.last()) {
        trim_end(s.drop_last())
    } else {
        s
    }
}

/// A byte that continues a multi-byte UTF-8 character.
pub open spec fn is_continuation(b: u8) -> bool {
    128 <= b < 192
}

/// `s` cut at every character that is no digit; the separators are dropped,
/// so `n` separators give `n + 1` pieces, some of them maybe empty. The
/// continuation bytes of a multi-byte character belong to the separator
/// that it starts.
pub open spec fn split_non_digits(s: Seq<u8>) -> Seq<Seq<u8>>
    decreases s.len(),
{
    if s.len() == 0 {
        seq![Seq::<u8>::empty()]
    } else {
        let r = split_non_digits(s.drop_last());
        if is_digit(s.last()) {
            r.update(r.len() - 1, r.last().push(s.last()))
        } else if is_continuation(s.last()) {
            r
        } else {
            r.push(Seq::<u8>::empty())
        }
    }
}

pub proof fn lemma_split_len(s: Seq<u8>)
    ensures
        split_non_digits(s).len() >= 1,
    decreases s.len(),
{
    if s.len() > 0 {
        lemma_split_len(s.drop_last());
    }
}

/// The digit runs of a datetime string: trimmed, cut at each non-digit; no
/// pieces at all when the trimmed string is empty or a piece is empty.
pub open spec fn datetime_parts(s: Seq<u8>) -> Seq<Seq<u8>> {
    let t = trim_end(trim_start(s));
    let p = split_non_digits(t);
    if t.len() == 0 || exists|i: int| 0 <= i < p.len() && (#[trigger] p[i]).len() == 0 {
        Seq::empty()
    } else {
        p
    }
}

/// The contents of a list of byte vectors.
pub open spec fn views(p: Seq<Vec<u8>>) -> Seq<Seq<u8>> {
    p.map_values(|v: Vec<u8>| v@)
}

/// Splits a datetime string into its digit runs.
pub fn parse_datetime_format(s: &[u8]) -> (r: Vec<Vec<u8>>)
    ensures
        views(r@) == datetime_parts(s@),
{
    let n = s.len();
    let mut lo: usize = 0;
    assert(s@.subrange(0, n as int) =~= s@);
    while lo < n && (s[lo] == 32 || (9 <= s[lo] && s[lo] <= 13))
        invariant
            lo <= n == s@.len(),
            trim_start(s@) == trim_start(s@.subrange(lo as int, n as int)),
        decreases n - lo,
    {
        assert(s@.subrange(lo as int, n as int).drop_first() =~= s@.subrange(lo + 1, n as int));
        lo = lo + 1;
    }
    assert(trim_start(s@) == s@.subrange(lo as int, n as int));
    let mut hi: usize = n;
    while hi > lo && (s[hi - 1] == 32 || (9 <= s[hi - 1] && s[hi - 1] <= 13))
        invariant
            lo <= hi <= n == s@.len(),
            trim_end(trim_start(s@)) == trim_end(s@.subrange(lo as int, hi as int)),
        decreases hi,
    {
        assert(s@.subrange(lo as int, hi as int).drop_last() =~= s@.subrange(lo as int, hi - 1));
        hi = hi - 1;
    }
    let ghost t = s@.subrange(lo as int, hi as int);
    assert(trim_end(trim_start(s@)) == t);
    if lo == hi {
        return Vec::new();
    }
    let mut parts: Vec<Vec<u8>> = Vec::new();
    let mut cur: Vec<u8> = Vec::new();
    let mut i: usize = lo;
    assert(t.subrange(0, 0) =~= Seq::<u8>::empty());
    assert(views(parts@).push(cur@) =~= seq![Seq::<u8>::empty()]);
    while i < hi
        invariant
            lo <= i <= hi <= n == s@.len(),
            t == s@.subrange(lo as int, hi as int),
            views(parts@).push(cur@) == split_non_digits(t.subrange(0, i - lo)),
        decreases hi - i,
    {
        let b = s[i];
        let ghost pre = t.subrange(0, i - lo);
        let ghost r = views(parts@).push(cur@);
        assert(t.subrange(0, i + 1 - lo).drop_last() =~= pre);
        assert(t.subrange(0, i + 1 - lo).last() == b);
        if 48 <= b && b <= 57 {
            cur.push(b);
            assert(views(parts@).push(cur@) =~= r.update(r.len() - 1, r.last().push(b)));
        } else if 128 <= b && b < 192 {
        } else {
            let done = cur;
            parts.push(done);
            cur = Vec::new();
            assert(views(parts@).push(cur@) =~= r.push(Seq::<u8>::empty()));
        }
        i = i + 1;
    }
    assert(t.subrange(0, hi - lo) =~= t);
    parts.push(cur);
    let ghost p = split_non_digits(t);
    assert(views(parts@) =~= p);
    let mut k: usize = 0;
    while k < parts.len()
        invariant
            k <= parts.len(),
            views(parts@) == p,
            p == split_non_digits(t),
            t.len() > 0,
            t == trim_end(trim_start(s@)),
            forall|j: int| 0 <= j < k ==> (#[trigger] p[j]).len() != 0,
        decreases parts.len() - k,
    {
        if parts[k].len() == 0 {
            assert(p[k as int].len() == 0);
            return Vec::new();
        }
        k = k + 1;
    }
    parts
}

/// Decimal value of a run of digits.
pub open spec fn digits_value(s: Seq<u8>) -> nat
    decreases s.len(),
{
    if s.len() == 0 {
        0
    } else {
        digits_value(s.drop_last()) * 10 + (s.last() - 48) as nat
    }
}

/// Values from this one up are all out of range for any datetime field.
pub const FIELD_CAP: u64 = 1_000_000;

/// The value of a field, read up to `FIELD_CAP`.
pub open spec fn field_value(s: Seq<u8>) -> int {
    if digits_value(s) > FIELD_CAP {
        FIELD_CAP as int
    } else {
        digits_value(s) as int
    }
}

fn parse_field(s: &[u8], from: usize, to: usize) -> (r: u32)
    requires
        from <= to <= s@.len(),
        all_digits(s@.subrange(from as int, to as int)),
    ensures
        r as int == field_value(s@.subrange(from as int, to as int)),
{
    let mut v: u64 = 0;
    let mut i: usize = from;
    while i < to
        invariant
            from <= i <= to <= s@.len(),
            all_digits(s@.subrange(from as int, to as int)),
            v as int == field_value(s@.subrange(from as int, i as int)),
        decreases to - i,
    {
        let ghost pre = s@.subrange(from as int, i as int);
        let ghost nxt = s@.subrange(from as int, i + 1);
        assert(nxt.drop_last() =~= pre);
        assert(s@.subrange(from as int, to as int)[i - from] == s@[i as int]);
        let d = (s[i] - 48) as u64;
        proof {
            assert(digits_value(nxt) == digits_value(pre) * 10 + d);
        }
        v = v * 10 + d;
        if v > FIELD_CAP {
            v = FIELD_CAP;
        }
        proof {
            if digits_value(pre) > FIELD_CAP {
                assert(digits_value(nxt) > FIELD_CAP) by (nonlinear_arith)
                    requires digits_value(nxt) == digits_value(pre) * 10 + d, digits_value(pre) > FIELD_CAP;
            }
        }
        i = i + 1;
    }
    v as u32
}

/// Year, month, day, hour, minute and second of a run of 6, 8, 12 or 14
/// digits: the year takes four digits when the run has 8 or 14, else two;
/// the other fields two each, zero when the run ends before them.
pub open spec fn spec_split_ymd_hms(s: Seq<u8>) -> (int, int, int, int, int, int) {
    let yl: int = if s.len() == 14 || s.len() == 8 { 4 } else { 2 };
    let f = |k: int| if yl + 2 * k + 2 <= s.len() { field_value(s.subrange(yl + 2 * k, yl + 2 * k + 2)) } else { 0 };
    (field_value(s.subrange(0, yl)), f(0), f(1), f(2), f(3), f(4))
}

/// Splits a run of digits of length 6, 8, 12 or 14 into its fields.
pub fn split_ymd_hms(s: &[u8]) -> (r: Result<(i32, u32, u32, u32, u32, u32), Error>)
    requires
        s@.len() == 6 || s@.len() == 8 || s@.len() == 12 || s@.len() == 14,
    ensures
        r is Ok <==> all_digits(s@),
        r is Ok ==> ({
            let (y, mo, d, h, mi, se) = r->Ok_0;
            spec_split_ymd_hms(s@) == (y as int, mo as int, d as int, h as int, mi as int, se as int)
        }),
{
    let n = s.len();
    let mut k: usize = 0;
    while k < n
        invariant
            k <= n == s@.len(),
            forall|j: int| 0 <= j < k ==> is_digit(#[trigger] s@[j]),
        decreases n - k,
    {
        if !(48 <= s[k] && s[k] <= 57) {
            return Err(Error::InvalidTime);
        }
        k = k + 1;
    }
    let yl: usize = if n == 14 || n == 8 { 4 } else { 2 };
    proof {
        assert forall|a: int, b: int| 0 <= a <= b <= n implies all_digits(#[trigger] s@.subrange(a, b)) by {
            assert forall|i: int| 0 <= i < b - a implies is_digit(#[trigger] s@.subrange(a, b)[i]) by {
                assert(s@.subrange(a, b)[i] == s@[a + i]);
            }
        }
    }
    let year = parse_field(s, 0, yl);
    let month = parse_field(s, yl, yl + 2);
    let day = parse_field(s, yl + 2, yl + 4);
    let hour = if yl + 6 <= n { parse_field(s, yl + 4, yl + 6) } else { 0 };
    let minute = if yl + 8 <= n { parse_field(s, yl + 6, yl + 8) } else { 0 };
    let second = if yl + 10 <= n { parse_field(s, yl + 8, yl + 10) } else { 0 };
    Ok((year as i32, month, day, hour, minute, second))
}

pub proof fn lemma_split_digits(s: Seq<u8>)
    ensures
        forall|i: int|
            0 <= i < split_non_digits(s).len() ==> all_digits(#[trigger] split_non_digits(s)[i]),
    decreases s.len(),
{
    lemma_split_len(s);
    if s.len() > 0 {
        lemma_split_digits(s.drop_last());
        lemma_split_len(s.drop_last());
        let r = split_non_digits(s.drop_last());
        if is_digit(s.last()) {
            let l = r.last().push(s.last());
            assert(all_digits(r.last()));
            assert forall|j: int| 0 <= j < l.len() implies is_digit(#[trigger] l[j]) by {
                if j < l.len() - 1 {
                    assert(l[j] == r.last()[j]);
                }
            }
        }
    }
}

pub proof fn lemma_digits_bound(s: Seq<u8>)
    requires
        all_digits(s),
    ensures
        digits_value(s) < pow10(s.len()),
    decreases s.len(),
{
    if s.len() > 0 {
        let p = s.drop_last();
        assert(all_digits(p)) by {
            assert forall|i: int| 0 <= i < p.len() implies is_digit(#[trigger] p[i]) by {
                assert(p[i] == s[i]);
            }
        }
        lemma_digits_bound(p);
        assert(is_digit(s[s.len() - 1]));
        let d = (s.last() - 48) as nat;
        let a = digits_value(p);
        let b = pow10(p.len());
        assert(pow10(s.len()) == 10 * b);
        assert(digits_value(s) == a * 10 + d);
        assert(a * 10 + d < 10 * b) by (nonlinear_arith)
            requires
                a < b,
                d < 10,
        ;
    }
}

pub proof fn lemma_pow10_add(a: nat, b: nat)
    ensures
        pow10(a) * pow10(b) == pow10(a + b),
    decreases a,
{
    if a > 0 {
        let a1 = (a - 1) as nat;
        lemma_pow10_add(a1, b);
        assert(a1 + b + 1 == a + b);
        assert(pow10(a + b) == 10 * pow10(a1 + b));
        assert(pow10(a) == 10 * pow10(a1));
        let x = pow10(a1);
        let y = pow10(b);
        assert((10 * x) * y == 10 * (x * y)) by (nonlinear_arith);
        assert(pow10(a) * pow10(b) == (10 * x) * y);
    } else {
        assert(pow10(0) == 1);
        assert(a + b == b);
    }
}

/// The fraction digits read at precision `fsp`: rounded half up when there
/// are more digits than `fsp`, padded with zeros when there are fewer. The
/// result can reach `10^fsp` when the rounding carries.
pub open spec fn spec_parse_frac(s: Seq<u8>, fsp: nat) -> nat {
    if s.len() == 0 {
        0
    } else if s.len() > fsp {
        let v = digits_value(s.subrange(0, fsp as int + 1));
        if v % 10 >= 5 {
            v / 10 + 1
        } else {
            v / 10
        }
    } else {
        digits_value(s) * pow10((fsp - s.len()) as nat)
    }
}

fn digits_u64(s: &[u8], to: usize) -> (r: u64)
    requires
        to <= s@.len(),
        to <= 9,
        all_digits(s@.subrange(0, to as int)),
    ensures
        r == digits_value(s@.subrange(0, to as int)),
{
    let mut v: u64 = 0;
    let mut i: usize = 0;
    while i < to
        invariant
            i <= to <= s@.len(),
            to <= 9,
            all_digits(s@.subrange(0, to as int)),
            v == digits_value(s@.subrange(0, i as int)),
            v < pow10(i as nat),
        decreases to - i,
    {
        let ghost pre = s@.subrange(0, i as int);
        let ghost nxt = s@.subrange(0, i + 1);
        assert(nxt.drop_last() =~= pre);
        assert(s@.subrange(0, to as int)[i as int] == s@[i as int]);
        proof {
            reveal_with_fuel(pow10, 10);
            assert(pow10(i as nat) <= 100000000) by {
                if i < 9 {
                    assert(pow10(i as nat) <= pow10(8)) by {
                        lemma_pow10_mono(i as nat, 8);
                    }
                }
            }
        }
        v = v * 10 + (s[i] - 48) as u64;
        i = i + 1;
    }
    v
}

pub(crate) proof fn lemma_pow10_mono(a: nat, b: nat)
    requires
        a <= b,
    ensures
        pow10(a) <= pow10(b),
    decreases b,
{
    if a < b {
        lemma_pow10_mono(a, (b - 1) as nat);
    }
}

/// Reads the fraction digits at precision `fsp`.
pub fn parse_frac(s: &[u8], fsp: u8) -> (r: u32)
    requires
        all_digits(s@),
        fsp <= 6,
    ensures
        r == spec_parse_frac(s@, fsp as nat),
        r <= pow10(fsp as nat),
{
    assert(s@.subrange(0, s@.len() as int) =~= s@);
    proof {
        reveal_with_fuel(pow10, 10);
    }
    if s.len() == 0 {
        return 0;
    }
    let f = fsp as usize;
    if s.len() > f {
        assert(all_digits(s@.subrange(0, f + 1)));
        proof {
            lemma_digits_bound(s@.subrange(0, f + 1));
        }
        let v = digits_u64(s, f + 1);
        if v % 10 >= 5 {
            (v / 10 + 1) as u32
        } else {
            (v / 10) as u32
        }
    } else {
        proof {
            lemma_digits_bound(s@);
            lemma_pow10_add(s@.len(), (f - s@.len()) as nat);
        }
        let v = digits_u64(s, s.len());
        let m = pow10_u32((f - s.len()) as u32);
        proof {
            assert(v * m < pow10(f as nat)) by (nonlinear_arith)
                requires
                    v < pow10(s@.len()),
                    pow10(s@.len()) * m == pow10(f as nat),
                    m > 0,
            ;
        }
        (v * m as u64) as u32
    }
}

/// Widens a two-digit year: 00-69 to 2000-2069, 70-99 to 1970-1999.
pub open spec fn adjust_year(y: int) -> int {
    if 0 <= y <= 69 {
        y + 2000
    } else if 70 <= y <= 99 {
        y + 1900
    } else {
        y
    }
}

/// Year, month, day, hour, minute, second, the fraction digits, and whether a
/// two-digit year is widened, as the digit runs `p` give them.
pub open spec fn datetime_fields(p: Seq<Seq<u8>>) -> Option<(int, int, int, int, int, int, Seq<u8>, bool)> {
    let two = p.len() > 0 && p[0].len() == 2;
    if p.len() == 1 && (p[0].len() == 14 || p[0].len() == 12 || p[0].len() == 8 || p[0].len() == 6) {
        let f = spec_split_ymd_hms(p[0]);
        Some((f.0, f.1, f.2, f.3, f.4, f.5, Seq::empty(), p[0].len() == 12 || p[0].len() == 6))
    } else if p.len() == 2 && (p[0].len() == 14 || p[0].len() == 12) {
        let f = spec_split_ymd_hms(p[0]);
        Some((f.0, f.1, f.2, f.3, f.4, f.5, p[1], p[0].len() == 12))
    } else if p.len() == 3 {
        Some((field_value(p[0]), field_value(p[1]), field_value(p[2]), 0, 0, 0, Seq::empty(), two))
    } else if p.len() == 6 || p.len() == 7 {
        Some((field_value(p[0]), field_value(p[1]), field_value(p[2]), field_value(p[3]),
            field_value(p[4]), field_value(p[5]), if p.len() == 7 { p[6] } else { Seq::empty() }, two))
    } else {
        None
    }
}

/// What `parse_datetime` gives for the bytes `s`.
pub open spec fn spec_parse_datetime(s: Seq<u8>, fsp: int, tz: i32) -> Result<Time, Error> {
    match spec_check_fsp(fsp) {
        Err(e) => Err(e),
        Ok(f) => match datetime_fields(datetime_parts(s)) {
            None => Err(Error::InvalidTime),
            Some(x) => {
                let y = if x.7 { adjust_year(x.0) } else { x.0 };
                if x.0 == 0 && x.1 == 0 && x.2 == 0 && x.3 == 0 && x.4 == 0 && x.5 == 0 {
                    Ok(Time { local: zero_civil(), tz, tp: DATETIME, fsp: 0 })
                } else if y > 9999 || !valid_date(y, x.1, x.2) || x.3 >= 24 || x.4 >= 60 || x.5 >= 60 {
                    Err(Error::InvalidTime)
                } else {
                    let nanos = spec_parse_frac(x.6, f as nat) * pow10((9 - f) as nat);
                    let c0 = CivilTime {
                        year: y as i32,
                        month: x.1 as u32,
                        day: x.2 as u32,
                        hour: x.3 as u32,
                        minute: x.4 as u32,
                        second: x.5 as u32,
                        nanos: (nanos % 1_000_000_000) as u32,
                    };
                    let c1 = shifted(c0, (nanos / 1_000_000_000) as int);
                    if c1.year <= 9999 {
                        Ok(Time { local: c1, tz, tp: DATETIME, fsp: f })
                    } else {
                        Err(Error::InvalidTime)
                    }
                }
            },
        },
    }
}

pub(crate) proof fn lemma_parts_digits(s: Seq<u8>)
    ensures
        forall|i: int|
            0 <= i < datetime_parts(s).len() ==> all_digits(#[trigger] datetime_parts(s)[i]),
{
    lemma_split_digits(trim_end(trim_start(s)));
}

fn field_of(v: &Vec<u8>) -> (r: u32)
    requires
        all_digits(v@),
    ensures
        r as int == field_value(v@),
{
    assert(v@.subrange(0, v@.len() as int) =~= v@);
    parse_field(v.as_slice(), 0, v.len())
}

impl Time {
    /// Parses a datetime string in UTC.
    pub fn parse_utc_datetime(s: &str, fsp: i8) -> (r: Result<Time, Error>)
        ensures
            r == spec_parse_datetime(s.spec_bytes(), fsp as int, 0),
            r is Ok ==> r->Ok_0.wf(),
    {
        Time::parse_datetime(s, fsp, 0)
    }

    /// Parses a datetime string as a local time at offset `tz`. Accepted forms:
    /// runs of 6, 8, 12 or 14 digits, the longer two with a fraction after one
    /// separator; or 3, 6 or 7 digit runs, each separator any one non-digit.
    /// All-zero fields give the zero sentinel; other two-digit years are widened.
    pub fn parse_datetime(s: &str, fsp: i8, tz: i32) -> (r: Result<Time, Error>)
        requires
            valid_tz(tz as int),
        ensures
            r == spec_parse_datetime(s.spec_bytes(), fsp as int, tz),
            r is Ok ==> r->Ok_0.wf(),
    {
        parse_datetime_bytes(s.as_bytes(), fsp, tz)
    }
}

/// Parses the bytes of a datetime string as a local time at offset `tz`.
pub fn parse_datetime_bytes(s: &[u8], fsp: i8, tz: i32) -> (r: Result<Time, Error>)
    requires
        valid_tz(tz as int),
    ensures
        r == spec_parse_datetime(s@, fsp as int, tz),
        r is Ok ==> r->Ok_0.wf(),
{
    let f = check_fsp(fsp)?;
    let parts = parse_datetime_format(s);
    let ghost p = datetime_parts(s@);
    proof {
        lemma_parts_digits(s@);
        assert forall|i: int| 0 <= i < parts@.len() implies all_digits(#[trigger] parts@[i]@) by {
            assert(views(parts@)[i] == parts@[i]@);
        }
        assert forall|i: int| 0 <= i < parts@.len() implies p[i] == #[trigger] parts@[i]@ by {
            assert(views(parts@)[i] == parts@[i]@);
        }
    }
    let np = parts.len();
    let empty: Vec<u8> = Vec::new();
    let y: u32;
    let m: u32;
    let d: u32;
    let h: u32;
    let mi: u32;
    let se: u32;
    let frac: &Vec<u8>;
    let widen: bool;
    if np == 1 || np == 2 {
        let l = parts[0].len();
        if !((np == 1 && (l == 14 || l == 12 || l == 8 || l == 6)) || (np == 2 && (l == 14 || l
            == 12))) {
            return Err(Error::InvalidTime);
        }
        let fields = match split_ymd_hms(parts[0].as_slice()) {
            Ok(t) => t,
            Err(e) => {
                return Err(e);
            },
        };
        y = fields.0 as u32;
        m = fields.1;
        d = fields.2;
        h = fields.3;
        mi = fields.4;
        se = fields.5;
        if np == 2 {
            frac = &parts[1];
        } else {
            frac = &empty;
        }
        widen = l == 12 || l == 6;
    } else if np == 3 || np == 6 || np == 7 {
        y = field_of(&parts[0]);
        m = field_of(&parts[1]);
        d = field_of(&parts[2]);
        if np == 3 {
            h = 0;
            mi = 0;
            se = 0;
        } else {
            h = field_of(&parts[3]);
            mi = field_of(&parts[4]);
            se = field_of(&parts[5]);
        }
        if np == 7 {
            frac = &parts[6];
        } else {
            frac = &empty;
        }
        widen = parts[0].len() == 2;
    } else {
        return Err(Error::InvalidTime);
    }
    assert(datetime_fields(p) is Some);
    let ghost x = datetime_fields(p)->Some_0;
    assert(x == (y as int, m as int, d as int, h as int, mi as int, se as int, frac@, widen));
    let year: u32 = if widen && y <= 69 {
        y + 2000
    } else if widen && y <= 99 {
        y + 1900
    } else {
        y
    };
    if y == 0 && m == 0 && d == 0 && h == 0 && mi == 0 && se == 0 {
        return Ok(Time::zero_datetime(tz));
    }
    if year > 9999 || m < 1 || m > 12 {
        return Err(Error::InvalidTime);
    }
    if d < 1 || d > month_days(year as i32, m) || h >= 24 || mi >= 60 || se >= 60 {
        return Err(Error::InvalidTime);
    }
    let fr = parse_frac(frac.as_slice(), f);
    let scale = pow10_u32(9 - f as u32);
    proof {
        lemma_pow10_add(f as nat, (9 - f) as nat);
        reveal_with_fuel(pow10, 10);
        assert(fr * scale <= 1_000_000_000) by (nonlinear_arith)
            requires fr <= pow10(f as nat), pow10(f as nat) * scale == 1_000_000_000, scale > 0;
    }
    let nanos: u64 = fr as u64 * scale as u64;
    let c0 = CivilTime {
        year: year as i32,
        month: m,
        day: d,
        hour: h,
        minute: mi,
        second: se,
        nanos: (nanos % 1_000_000_000) as u32,
    };
    let c1 = shift_seconds(c0, (nanos / 1_000_000_000) as i64);
    if c1.year > 9999 {
        return Err(Error::InvalidTime);
    }
    Ok(Time { local: c1, tz, tp: DATETIME, fsp: f })
}

} // verus!
