use vstd::prelude::*;

use crate::error::Error;
use crate::keys::{compare_keys, key_lt, memcmp_value, partial_be};
use crate::row::{
    datum_end, read_varint, varint_end, varint_value, zigzag, COMPACT_BYTES_FLAG, DURATION_FLAG,
    INT_FLAG, NIL_FLAG, UINT_FLAG, UVARINT_FLAG, VARINT_FLAG,
};
use crate::time::Time;
use crate::types::MAX_FSP;

verus! {

/// Largest magnitude of a duration, in nanoseconds: 36501 days.
pub const MAX_DURATION_NANOS: i64 = 3_153_686_400_000_000_000;

/// A signed span of time in nanoseconds, with a fractional-second precision.
#[derive(Clone, Copy, Debug, PartialEq, Eq, Structural)]
pub struct Duration {
    pub nanos: i64,
    pub fsp: u8,
}

impl Duration {
    pub open spec fn wf(&self) -> bool {
        -MAX_DURATION_NANOS < self.nanos < MAX_DURATION_NANOS && self.fsp <= MAX_FSP
    }

    pub open spec fn spec_from_nanos(nanos: int, fsp: int) -> Result<Duration, Error> {
        match crate::time::spec_check_fsp(fsp) {
            Err(e) => Err(e),
            Ok(f) => if -MAX_DURATION_NANOS < nanos < MAX_DURATION_NANOS {
                Ok(Duration { nanos: nanos as i64, fsp: f })
            } else {
                Err(Error::Overflow)
            },
        }
    }

    pub fn from_nanos(nanos: i64, fsp: i8) -> (r: Result<Duration, Error>)
        ensures
            r == Duration::spec_from_nanos(nanos as int, fsp as int),
            r is Ok ==> r->Ok_0.wf(),
    {
        let f = crate::time::check_fsp(fsp)?;
        if -MAX_DURATION_NANOS < nanos && nanos < MAX_DURATION_NANOS {
            Ok(Duration { nanos, fsp: f })
        } else {
            Err(Error::Overflow)
        }
    }

    pub fn zero() -> (r: Duration)
        ensures
            r == (Duration { nanos: 0, fsp: 0 }),
    {
        Duration { nanos: 0, fsp: 0 }
    }

    pub fn to_nanos(&self) -> (r: i64)
        ensures
            r == self.nanos,
    {
        self.nanos
    }
}

/// The value a `Datum` holds.
pub enum Value {
    Null,
    I64(i64),
    U64(u64),
    Bytes(Seq<u8>),
    Dur(Duration),
    Time(Time),
}

/// A tagged value of the evaluator.
#[derive(Debug)]
pub enum Datum {
    Null,
    I64(i64),
    U64(u64),
    Bytes(Vec<u8>),
    Dur(Duration),
    Time(Time),
}

impl View for Datum {
    type V = Value;

    open spec fn view(&self) -> Value {
        match self {
            Datum::Null => Value::Null,
            Datum::I64(v) => Value::I64(*v),
            Datum::U64(v) => Value::U64(*v),
            Datum::Bytes(b) => Value::Bytes(b@),
            Datum::Dur(d) => Value::Dur(*d),
            Datum::Time(t) => Value::Time(*t),
        }
    }
}

impl Value {
    pub open spec fn wf(&self) -> bool {
        match self {
            Value::Dur(d) => d.wf(),
            Value::Time(t) => t.wf(),
            _ => true,
        }
    }
}

/// Truth value of a comparison or a test, as a datum: 1, 0 or null.
pub open spec fn bool_value(b: Option<bool>) -> Value {
    match b {
        Some(true) => Value::I64(1),
        Some(false) => Value::I64(0),
        None => Value::Null,
    }
}

/// The time of day of a time, in nanoseconds; 0 for the zero sentinel.
pub open spec fn day_nanos(t: Time) -> int {
    if t.is_zero_spec() {
        0
    } else {
        t.local.secs_of_day() * 1_000_000_000 + t.local.nanos
    }
}

/// Order of two values under the offset `tz`: -1, 0 or 1. Null is before
/// everything else; integers compare by value whatever their signedness;
/// byte strings lexicographically; times by instant, a byte string against a
/// time being read as a datetime at `tz`; durations by length, a duration
/// against a time by the time's time of day. Other pairs cannot be compared.
pub open spec fn cmp_values(a: Value, b: Value, tz: i32) -> Result<int, Error> {
    match (a, b) {
        (Value::Null, Value::Null) => Ok(0),
        (Value::Null, _) => Ok(-1),
        (_, Value::Null) => Ok(1),
        (Value::I64(x), Value::I64(y)) => Ok(sign(x as int - y as int)),
        (Value::I64(x), Value::U64(y)) => Ok(sign(x as int - y as int)),
        (Value::U64(x), Value::I64(y)) => Ok(sign(x as int - y as int)),
        (Value::U64(x), Value::U64(y)) => Ok(sign(x as int - y as int)),
        (Value::Bytes(x), Value::Bytes(y)) => Ok(
            if key_lt(x, y) {
                -1
            } else if x == y {
                0
            } else {
                1
            },
        ),
        (Value::Time(x), Value::Time(y)) => Ok(x.instant().spec_cmp(&y.instant())),
        (Value::Dur(x), Value::Dur(y)) => Ok(sign(x.nanos as int - y.nanos as int)),
        (Value::Time(x), Value::Bytes(y)) => match crate::parse::spec_parse_datetime(y, MAX_FSP as int, tz) {
            Ok(t) => Ok(x.instant().spec_cmp(&t.instant())),
            Err(e) => Err(e),
        },
        (Value::Bytes(x), Value::Time(y)) => match crate::parse::spec_parse_datetime(x, MAX_FSP as int, tz) {
            Ok(t) => Ok(t.instant().spec_cmp(&y.instant())),
            Err(e) => Err(e),
        },
        (Value::Time(x), Value::Dur(y)) => Ok(sign(day_nanos(x) - y.nanos as int)),
        (Value::Dur(x), Value::Time(y)) => Ok(sign(x.nanos as int - day_nanos(y))),
        _ => Err(Error::Eval),
    }
}

pub proof fn lemma_instant_cmp_range(x: Time, y: Time)
    ensures
        -1 <= x.instant().spec_cmp(&y.instant()) <= 1,
{
    let xi = x.instant();
    let yi = y.instant();
    crate::calendar::lemma_lex_cmp_range(
        seq![xi.year as int, xi.month as int, xi.day as int, xi.hour as int,
            xi.minute as int, xi.second as int, xi.nanos as int],
        seq![yi.year as int, yi.month as int, yi.day as int, yi.hour as int,
            yi.minute as int, yi.second as int, yi.nanos as int],
    );
}

pub proof fn lemma_cmp_values_range(a: Value, b: Value, tz: i32)
    ensures
        cmp_values(a, b, tz) matches Ok(c) ==> -1 <= c <= 1,
{
    match (a, b) {
        (Value::Time(x), Value::Bytes(y)) => {
            if crate::parse::spec_parse_datetime(y, MAX_FSP as int, tz) is Ok {
                lemma_instant_cmp_range(x, crate::parse::spec_parse_datetime(y, MAX_FSP as int, tz)->Ok_0);
            }
        },
        (Value::Bytes(x), Value::Time(y)) => {
            if crate::parse::spec_parse_datetime(x, MAX_FSP as int, tz) is Ok {
                lemma_instant_cmp_range(crate::parse::spec_parse_datetime(x, MAX_FSP as int, tz)->Ok_0, y);
            }
        },
        (Value::Time(x), Value::Time(y)) => {
            let xi = x.instant();
            let yi = y.instant();
            crate::calendar::lemma_lex_cmp_range(
                seq![xi.year as int, xi.month as int, xi.day as int, xi.hour as int,
                    xi.minute as int, xi.second as int, xi.nanos as int],
                seq![yi.year as int, yi.month as int, yi.day as int, yi.hour as int,
                    yi.minute as int, yi.second as int, yi.nanos as int],
            );
        },
        _ => {},
    }
}

pub open spec fn sign(x: int) -> int {
    if x < 0 {
        -1
    } else if x > 0 {
        1
    } else {
        0
    }
}

/// Boolean reading of a value under three-valued logic: null is unknown;
/// numbers, durations and times are true when not zero.
pub open spec fn truth(v: Value) -> Result<Option<bool>, Error> {
    match v {
        Value::Null => Ok(None),
        Value::I64(x) => Ok(Some(x != 0)),
        Value::U64(x) => Ok(Some(x != 0)),
        Value::Dur(d) => Ok(Some(d.nanos != 0)),
        Value::Time(t) => Ok(Some(!t.is_zero_spec())),
        Value::Bytes(_) => Err(Error::Eval),
    }
}

impl Datum {
    pub fn is_null(&self) -> (r: bool)
        ensures
            r == self@ is Null,
    {
        match self {
            Datum::Null => true,
            _ => false,
        }
    }

    /// A copy with the same value.
    pub fn copy(&self) -> (r: Datum)
        ensures
            r@ == self@,
    {
        match self {
            Datum::Null => Datum::Null,
            Datum::I64(v) => Datum::I64(*v),
            Datum::U64(v) => Datum::U64(*v),
            Datum::Bytes(b) => Datum::Bytes(b.clone()),
            Datum::Dur(d) => Datum::Dur(*d),
            Datum::Time(t) => Datum::Time(*t),
        }
    }

    pub fn from_bool(b: Option<bool>) -> (r: Datum)
        ensures
            r@ == bool_value(b),
    {
        match b {
            Some(true) => Datum::I64(1),
            Some(false) => Datum::I64(0),
            None => Datum::Null,
        }
    }

    /// Compares two datums under the context's offset; see `cmp_values`.
    pub fn cmp(&self, ctx: &crate::eval::EvalContext, other: &Datum) -> (r: Result<i8, Error>)
        requires
            self@.wf(),
            other@.wf(),
            ctx.wf(),
        ensures
            match cmp_values(self@, other@, ctx.tz) {
                Ok(c) => r == Ok::<i8, Error>(c as i8),
                Err(e) => r == Err::<i8, Error>(e),
            },
    {
        match (self, other) {
            (Datum::Null, Datum::Null) => Ok(0),
            (Datum::Null, _) => Ok(-1),
            (_, Datum::Null) => Ok(1),
            (Datum::I64(x), Datum::I64(y)) => Ok(if *x < *y { -1 } else if *x > *y { 1 } else { 0 }),
            (Datum::I64(x), Datum::U64(y)) => Ok(
                if *x < 0 || (*x as u64) < *y {
                    -1
                } else if (*x as u64) > *y {
                    1
                } else {
                    0
                },
            ),
            (Datum::U64(x), Datum::I64(y)) => Ok(
                if *y < 0 || *x > (*y as u64) {
                    1
                } else if *x < (*y as u64) {
                    -1
                } else {
                    0
                },
            ),
            (Datum::U64(x), Datum::U64(y)) => Ok(if *x < *y { -1 } else if *x > *y { 1 } else { 0 }),
            (Datum::Bytes(x), Datum::Bytes(y)) => Ok(compare_keys(x.as_slice(), y.as_slice())),
            (Datum::Time(x), Datum::Time(y)) => Ok(time_order(x, y)),
            (Datum::Time(x), Datum::Bytes(y)) => {
                let t = crate::parse::parse_datetime_bytes(y.as_slice(), MAX_FSP, ctx.tz)?;
                Ok(time_order(x, &t))
            },
            (Datum::Bytes(x), Datum::Time(y)) => {
                let t = crate::parse::parse_datetime_bytes(x.as_slice(), MAX_FSP, ctx.tz)?;
                Ok(time_order(&t, y))
            },
            (Datum::Time(x), Datum::Dur(y)) => {
                let n = day_nanos_of(x);
                Ok(if n < y.nanos { -1 } else if n > y.nanos { 1 } else { 0 })
            },
            (Datum::Dur(x), Datum::Time(y)) => {
                let n = day_nanos_of(y);
                Ok(if x.nanos < n { -1 } else if x.nanos > n { 1 } else { 0 })
            },
            (Datum::Dur(x), Datum::Dur(y)) => Ok(
                if x.nanos < y.nanos {
                    -1
                } else if x.nanos > y.nanos {
                    1
                } else {
                    0
                },
            ),
            _ => Err(Error::Eval),
        }
    }

    /// The boolean reading of the datum; see `truth`.
    pub fn into_bool(&self) -> (r: Result<Option<bool>, Error>)
        requires
            self@.wf(),
        ensures
            r == truth(self@),
    {
        match self {
            Datum::Null => Ok(None),
            Datum::I64(x) => Ok(Some(*x != 0)),
            Datum::U64(x) => Ok(Some(*x != 0)),
            Datum::Dur(d) => Ok(Some(d.nanos != 0)),
            Datum::Time(t) => Ok(Some(!t.is_zero())),
            Datum::Bytes(_) => Err(Error::Eval),
        }
    }
}

/// Order of two times by instant: -1, 0 or 1.
fn time_order(x: &Time, y: &Time) -> (r: i8)
    requires
        x.wf(),
        y.wf(),
    ensures
        r as int == x.instant().spec_cmp(&y.instant()),
{
    let o = x.cmp(y);
    proof {
        lemma_instant_cmp_range(*x, *y);
    }
    match o {
        core::cmp::Ordering::Less => -1,
        core::cmp::Ordering::Greater => 1,
        core::cmp::Ordering::Equal => 0,
    }
}

fn day_nanos_of(t: &Time) -> (r: i64)
    requires
        t.wf(),
    ensures
        r as int == day_nanos(*t),
{
    if t.is_zero() {
        0
    } else {
        let c = t.local;
        (c.hour as i64 * 3600 + c.minute as i64 * 60 + c.second as i64) * 1_000_000_000 + c.nanos as i64
    }
}

/// The value of the datum encoded at `i`, and where the next one starts.
pub open spec fn decode_datum_at(s: Seq<u8>, i: int) -> Option<(Value, int)> {
    match datum_end(s, i) {
        None => None,
        Some(e) => {
            let f = s[i];
            if f == NIL_FLAG {
                Some((Value::Null, e))
            } else if f == INT_FLAG {
                Some((Value::I64(memcmp_value(s.subrange(i + 1, i + 9)) as i64), e))
            } else if f == UINT_FLAG {
                Some((Value::U64(partial_be(s, i + 1, i + 9) as u64), e))
            } else if f == VARINT_FLAG {
                Some((Value::I64(zigzag(varint_value(s, i + 1, e)) as i64), e))
            } else if f == UVARINT_FLAG {
                Some((Value::U64(varint_value(s, i + 1, e) as u64), e))
            } else if f == COMPACT_BYTES_FLAG {
                Some((Value::Bytes(s.subrange(varint_end(s, i + 1)->Some_0, e)), e))
            } else if f == DURATION_FLAG {
                let n = memcmp_value(s.subrange(i + 1, i + 9));
                if -MAX_DURATION_NANOS < n < MAX_DURATION_NANOS {
                    Some((Value::Dur(Duration { nanos: n as i64, fsp: MAX_FSP as u8 }), e))
                } else {
                    None
                }
            } else {
                None
            }
        },
    }
}

/// The values of the datums encoded from byte `i` on.
pub open spec fn decode_datums(s: Seq<u8>, i: int) -> Option<Seq<Value>>
    decreases s.len() - i,
{
    if i < 0 || i >= s.len() {
        Some(Seq::empty())
    } else {
        match decode_datum_at(s, i) {
            None => None,
            Some((v, e)) => if i < e <= s.len() {
                match decode_datums(s, e) {
                    None => None,
                    Some(rest) => Some(seq![v] + rest),
                }
            } else {
                None
            },
        }
    }
}

pub(crate) fn read_be_u64(s: &[u8], i: usize) -> (r: u64)
    requires
        i + 8 <= s@.len(),
    ensures
        r as int == partial_be(s@, i as int, i + 8),
{
    let mut u: u64 = 0;
    let mut k: usize = i;
    let n = s.len();
    let end: usize = i + 8;
    while k < end
        invariant
            end == i + 8,
            i <= k <= i + 8 <= s@.len(),
            u as int == partial_be(s@, i as int, k as int),
            u < crate::keys::pow256((k - i) as nat),
        decreases i + 8 - k,
    {
        proof {
            assert(u * 256 + s@[k as int] < crate::keys::pow256((k - i) as nat) * 256) by (nonlinear_arith)
                requires u < crate::keys::pow256((k - i) as nat), s@[k as int] < 256;
            assert(crate::keys::pow256((k + 1 - i) as nat) == crate::keys::pow256((k - i) as nat) * 256);
            assert(crate::keys::pow256((k - i) as nat) <= 0x100_0000_0000_0000) by {
                reveal_with_fuel(crate::keys::pow256, 9);
            }
        }
        u = u * 256 + s[k] as u64;
        k = k + 1;
    }
    u
}

proof fn lemma_be_memcmp(s: Seq<u8>, i: int)
    requires
        0 <= i,
        i + 8 <= s.len(),
    ensures
        partial_be(s, i, i + 8) == memcmp_value(s.subrange(i, i + 8)) + 0x8000_0000_0000_0000,
{
    reveal_with_fuel(partial_be, 9);
    let b = s.subrange(i, i + 8);
    assert(b[0] == s[i] && b[1] == s[i + 1] && b[2] == s[i + 2] && b[3] == s[i + 3]);
    assert(b[4] == s[i + 4] && b[5] == s[i + 5] && b[6] == s[i + 6] && b[7] == s[i + 7]);
}

pub(crate) fn memcmp_i64_at(s: &[u8], i: usize) -> (r: i64)
    requires
        i + 8 <= s@.len(),
    ensures
        r as int == memcmp_value(s@.subrange(i as int, i + 8)),
{
    let u = read_be_u64(s, i);
    proof {
        lemma_be_memcmp(s@, i as int);
    }
    if u >= 0x8000_0000_0000_0000 {
        (u - 0x8000_0000_0000_0000) as i64
    } else {
        (u as i64) - 0x7fff_ffff_ffff_ffff - 1
    }
}

fn decode_datum(s: &[u8], i: usize) -> (r: Option<(Datum, usize)>)
    ensures
        match decode_datum_at(s@, i as int) {
            None => r is None,
            Some((v, e)) => r is Some && r->Some_0.0@ == v && r->Some_0.1 as int == e,
        },
        r is Some ==> r->Some_0.0@.wf(),
{
    let e = match crate::row::skip_datum(s, i) {
        Some(e) => e,
        None => {
            return None;
        },
    };
    let f = s[i];
    if f == NIL_FLAG {
        Some((Datum::Null, e))
    } else if f == INT_FLAG {
        Some((Datum::I64(memcmp_i64_at(s, i + 1)), e))
    } else if f == UINT_FLAG {
        Some((Datum::U64(read_be_u64(s, i + 1)), e))
    } else if f == VARINT_FLAG {
        match crate::row::datum_i64(s, i, e) {
            Some(v) => Some((Datum::I64(v), e)),
            None => None,
        }
    } else if f == UVARINT_FLAG {
        match read_varint(s, i + 1) {
            Some((_, v)) => Some((Datum::U64(v), e)),
            None => None,
        }
    } else if f == COMPACT_BYTES_FLAG {
        match read_varint(s, i + 1) {
            Some((j, _)) => {
                let mut b: Vec<u8> = Vec::new();
                let mut k: usize = j;
                while k < e
                    invariant
                        j <= k <= e <= s@.len(),
                        b@ == s@.subrange(j as int, k as int),
                    decreases e - k,
                {
                    b.push(s[k]);
                    assert(b@ =~= s@.subrange(j as int, k + 1));
                    k = k + 1;
                }
                Some((Datum::Bytes(b), e))
            },
            None => None,
        }
    } else if f == DURATION_FLAG {
        let n = memcmp_i64_at(s, i + 1);
        if -MAX_DURATION_NANOS < n && n < MAX_DURATION_NANOS {
            Some((Datum::Dur(Duration { nanos: n, fsp: MAX_FSP as u8 }), e))
        } else {
            None
        }
    } else {
        None
    }
}

pub open spec fn values_of(v: Seq<Datum>) -> Seq<Value> {
    v.map_values(|d: Datum| d@)
}

/// Decodes a list of encoded datums.
pub fn decode_value_list(s: &[u8]) -> (r: Result<Vec<Datum>, Error>)
    ensures
        match decode_datums(s@, 0) {
            None => r == Err::<Vec<Datum>, Error>(Error::Decode),
            Some(vs) => r is Ok && values_of(r->Ok_0@) == vs,
        },
        r is Ok ==> forall|i: int| 0 <= i < r->Ok_0@.len() ==> (#[trigger] r->Ok_0@[i])@.wf(),
{
    let mut out: Vec<Datum> = Vec::new();
    let mut i: usize = 0;
    while i < s.len()
        invariant
            i <= s@.len(),
            decode_datums(s@, 0) is Some <==> decode_datums(s@, i as int) is Some,
            forall|j: int| 0 <= j < out@.len() ==> (#[trigger] out@[j])@.wf(),
            decode_datums(s@, 0) is Some ==> decode_datums(s@, 0)->Some_0 == values_of(out@)
                + decode_datums(s@, i as int)->Some_0,
        decreases s@.len() - i,
    {
        let (d, e) = match decode_datum(s, i) {
            Some(p) => p,
            None => {
                return Err(Error::Decode);
            },
        };
        if !(i < e && e <= s.len()) {
            return Err(Error::Decode);
        }
        let ghost before = out@;
        let ghost v = d@;
        out.push(d);
        proof {
            assert(values_of(out@) =~= values_of(before) + seq![v]);
            if decode_datums(s@, e as int) is Some {
                let rest = decode_datums(s@, e as int)->Some_0;
                assert(values_of(before) + (seq![v] + rest) =~= values_of(out@) + rest);
            }
        }
        i = e;
    }
    assert(values_of(out@) + Seq::<Value>::empty() =~= values_of(out@));
    Ok(out)
}

/// LEB128 bytes of `v`, least significant group first.
pub open spec fn varint_bytes(v: nat) -> Seq<u8>
    decreases v,
{
    if v < 128 {
        seq![v as u8]
    } else {
        seq![(v % 128 + 128) as u8] + varint_bytes(v / 128)
    }
}

/// Zigzag form of a signed integer.
pub open spec fn zig(v: int) -> nat {
    if v >= 0 {
        (2 * v) as nat
    } else {
        (-2 * v - 1) as nat
    }
}

/// Big-endian bytes of `u`.
pub open spec fn be_bytes(u: nat) -> Seq<u8> {
    seq![(u / 0x100_0000_0000_0000) as u8, ((u / 0x1_0000_0000_0000) % 256) as u8,
        ((u / 0x100_0000_0000) % 256) as u8, ((u / 0x1_0000_0000) % 256) as u8,
        ((u / 0x100_0000) % 256) as u8, ((u / 0x1_0000) % 256) as u8, ((u / 0x100) % 256) as u8,
        (u % 256) as u8]
}

/// The encoding of one value in a value list.
pub open spec fn encode_spec(v: Value) -> Seq<u8> {
    match v {
        Value::Null => seq![NIL_FLAG],
        Value::I64(x) => seq![VARINT_FLAG] + varint_bytes(zig(x as int)),
        Value::U64(x) => seq![UVARINT_FLAG] + varint_bytes(x as nat),
        Value::Bytes(b) => seq![COMPACT_BYTES_FLAG] + varint_bytes(zig(b.len() as int)) + b,
        Value::Dur(d) => seq![DURATION_FLAG] + crate::keys::memcmp_i64(d.nanos),
        Value::Time(t) => seq![UINT_FLAG] + be_bytes(t.packed() as nat),
    }
}

pub open spec fn encode_all(vs: Seq<Value>) -> Seq<u8>
    decreases vs.len(),
{
    if vs.len() == 0 {
        Seq::empty()
    } else {
        encode_all(vs.drop_last()) + encode_spec(vs.last())
    }
}

fn push_varint(buf: &mut Vec<u8>, v: u64)
    ensures
        final(buf)@ == old(buf)@ + varint_bytes(v as nat),
    decreases v,
{
    if v < 128 {
        buf.push(v as u8);
        assert(buf@ =~= old(buf)@ + varint_bytes(v as nat));
    } else {
        buf.push((v % 128 + 128) as u8);
        push_varint(buf, v / 128);
        assert(buf@ =~= old(buf)@ + varint_bytes(v as nat));
    }
}

fn zig_u64(v: i64) -> (r: u64)
    ensures
        r as nat == zig(v as int),
{
    if v >= 0 {
        (v as u64) * 2
    } else {
        ((-(v + 1)) as u64) * 2 + 1
    }
}

/// Encodes values into a value list, in order.
pub fn encode_value(values: &[Datum]) -> (r: Vec<u8>)
    requires
        forall|i: int| 0 <= i < values@.len() ==> (#[trigger] values@[i])@.wf(),
        forall|i: int|
            0 <= i < values@.len() ==> ((#[trigger] values@[i])@ matches Value::Bytes(b) ==> b.len()
                < 0x8000_0000_0000_0000),
    ensures
        r@ == encode_all(values_of(values@)),
{
    let mut buf: Vec<u8> = Vec::new();
    let mut i: usize = 0;
    while i < values.len()
        invariant
            i <= values@.len(),
            forall|j: int| 0 <= j < values@.len() ==> (#[trigger] values@[j])@.wf(),
            forall|j: int|
                0 <= j < values@.len() ==> ((#[trigger] values@[j])@ matches Value::Bytes(b) ==> b.len()
                    < 0x8000_0000_0000_0000),
            buf@ == encode_all(values_of(values@.subrange(0, i as int))),
        decreases values@.len() - i,
    {
        let ghost before = buf@;
        match &values[i] {
            Datum::Null => {
                buf.push(NIL_FLAG);
            },
            Datum::I64(x) => {
                buf.push(VARINT_FLAG);
                push_varint(&mut buf, zig_u64(*x));
            },
            Datum::U64(x) => {
                buf.push(UVARINT_FLAG);
                push_varint(&mut buf, *x);
            },
            Datum::Bytes(b) => {
                buf.push(COMPACT_BYTES_FLAG);
                let n = b.len();
                assert(values@[i as int]@ matches Value::Bytes(bb) && bb == b@);
                push_varint(&mut buf, (n as u64) * 2);
                let mut k: usize = 0;
                let ghost mid = buf@;
                while k < n
                    invariant
                        k <= n == b@.len(),
                        buf@ == mid + b@.subrange(0, k as int),
                    decreases n - k,
                {
                    buf.push(b[k]);
                    assert(buf@ =~= mid + b@.subrange(0, k + 1));
                    k = k + 1;
                }
                assert(b@.subrange(0, n as int) =~= b@);
            },
            Datum::Dur(d) => {
                buf.push(DURATION_FLAG);
                crate::keys::encode_i64(&mut buf, d.nanos);
            },
            Datum::Time(t) => {
                buf.push(UINT_FLAG);
                let u = t.to_packed_u64();
                buf.push((u / 0x100_0000_0000_0000) as u8);
                buf.push(((u / 0x1_0000_0000_0000) % 256) as u8);
                buf.push(((u / 0x100_0000_0000) % 256) as u8);
                buf.push(((u / 0x1_0000_0000) % 256) as u8);
                buf.push(((u / 0x100_0000) % 256) as u8);
                buf.push(((u / 0x1_0000) % 256) as u8);
                buf.push(((u / 0x100) % 256) as u8);
                buf.push((u % 256) as u8);
            },
        }
        proof {
            let sub = values@.subrange(0, i + 1);
            assert(values_of(sub).drop_last() =~= values_of(values@.subrange(0, i as int)));
            assert(values_of(sub).last() == values@[i as int]@);
            assert(buf@ =~= before + encode_spec(values@[i as int]@));
        }
        i = i + 1;
    }
    assert(values@.subrange(0, values@.len() as int) =~= values@);
    buf
}

} // verus!
