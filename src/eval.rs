use vstd::prelude::*;

use crate::datum::{
    bool_value, cmp_values, decode_datums, decode_value_list, truth, values_of, Datum, Duration,
    Value,
};
use crate::error::Error;
use crate::keys::memcmp_value;
use crate::time::{spec_from_packed, valid_tz, Time};
use crate::types::MAX_FSP;

verus! {

/// Truncations are not errors.
pub const FLAG_IGNORE_TRUNCATE: u64 = 1;

/// Truncations are warnings, unless ignored.
pub const FLAG_TRUNCATE_AS_WARNING: u64 = 2;

pub const ONE_DAY: i64 = 86400;

/// What one evaluation request shares: the time zone and how truncation is
/// treated.
#[derive(Clone, Copy, Debug, PartialEq, Eq, Structural)]
pub struct EvalContext {
    /// Offset of the time zone, in seconds east of UTC.
    pub tz: i32,
    pub ignore_truncate: bool,
    pub truncate_as_warning: bool,
}

/// Relies on chrono's `FixedOffset::east_opt`: it accepts an offset exactly
/// when it is less than a day either way.
#[verifier::external_body]
fn fixed_offset_ok(secs: i32) -> (r: bool)
    ensures
        r == valid_tz(secs as int),
{
    chrono::FixedOffset::east_opt(secs).is_some()
}

impl EvalContext {
    pub open spec fn wf(&self) -> bool {
        valid_tz(self.tz as int)
    }

    /// A context for offset `tz_offset` (less than a day either way) and the
    /// flag bits `flags`.
    pub fn new(tz_offset: i64, flags: u64) -> (r: Result<EvalContext, Error>)
        ensures
            r is Ok <==> -ONE_DAY < tz_offset < ONE_DAY,
            r is Err ==> r == Err::<EvalContext, Error>(Error::Eval),
            r is Ok ==> r->Ok_0 == (EvalContext {
                tz: tz_offset as i32,
                ignore_truncate: flags & FLAG_IGNORE_TRUNCATE != 0,
                truncate_as_warning: flags & FLAG_TRUNCATE_AS_WARNING != 0,
            }),
            r is Ok ==> r->Ok_0.wf(),
    {
        if tz_offset <= -ONE_DAY || tz_offset >= ONE_DAY {
            return Err(Error::Eval);
        }
        if !fixed_offset_ok(tz_offset as i32) {
            return Err(Error::Eval);
        }
        Ok(EvalContext {
            tz: tz_offset as i32,
            ignore_truncate: flags & FLAG_IGNORE_TRUNCATE != 0,
            truncate_as_warning: flags & FLAG_TRUNCATE_AS_WARNING != 0,
        })
    }
}

impl Default for EvalContext {
    fn default() -> (r: EvalContext)
        ensures
            r == (EvalContext { tz: 0, ignore_truncate: false, truncate_as_warning: false }),
    {
        EvalContext { tz: 0, ignore_truncate: false, truncate_as_warning: false }
    }
}

/// The kinds of expression nodes.
#[derive(Clone, Copy, Debug, PartialEq, Eq, Structural)]
pub enum ExprType {
    Null,
    Int64,
    Uint64,
    Float32,
    Float64,
    String,
    Bytes,
    MysqlDecimal,
    MysqlDuration,
    MysqlTime,
    MysqlJson,
    ValueList,
    ColumnRef,
    LT,
    LE,
    EQ,
    NE,
    GE,
    GT,
    NullEQ,
    And,
    Or,
    Not,
    Like,
    In,
    Plus,
    Div,
    Minus,
    Mul,
    IntDiv,
    Mod,
    Case,
    If,
    Coalesce,
    IfNull,
    IsNull,
    NullIf,
    JsonType,
    JsonExtract,
    JsonUnquote,
    JsonArray,
    JsonObject,
    JsonMerge,
    JsonSet,
    JsonInsert,
    JsonReplace,
    JsonRemove,
    ScalarFunc,
}

/// An expression tree node: its kind, the encoded payload of a literal, its
/// children, and the column type and precision of a time literal.
#[derive(Debug)]
pub struct Expr {
    pub tp: ExprType,
    pub val: Vec<u8>,
    pub children: Vec<Expr>,
    pub field_tp: u8,
    pub field_decimal: i32,
}

/// The comparison operators.
pub open spec fn is_cmp_op(tp: ExprType) -> bool {
    tp == ExprType::LT || tp == ExprType::LE || tp == ExprType::EQ || tp == ExprType::NE || tp
        == ExprType::GE || tp == ExprType::GT
}

/// The truth of `c` (-1, 0 or 1) under a comparison operator.
pub open spec fn cmp_holds(tp: ExprType, c: int) -> bool {
    match tp {
        ExprType::LT => c < 0,
        ExprType::LE => c <= 0,
        ExprType::EQ => c == 0,
        ExprType::NE => c != 0,
        ExprType::GE => c >= 0,
        _ => c > 0,
    }
}

/// The arithmetic operators on integers.
pub open spec fn is_arith_op(tp: ExprType) -> bool {
    tp == ExprType::Plus || tp == ExprType::Minus || tp == ExprType::Mul || tp == ExprType::IntDiv
        || tp == ExprType::Mod || tp == ExprType::Div
}

/// The 8-byte order-preserving integer at the start of a payload.
pub open spec fn payload_i64(val: Seq<u8>) -> Result<i64, Error> {
    if val.len() < 8 {
        Err(Error::Decode)
    } else {
        Ok(memcmp_value(val.subrange(0, 8)) as i64)
    }
}

/// The 8-byte big-endian unsigned integer at the start of a payload.
pub open spec fn payload_u64(val: Seq<u8>) -> Result<u64, Error> {
    if val.len() < 8 {
        Err(Error::Decode)
    } else {
        Ok(crate::keys::partial_be(val, 0, 8) as u64)
    }
}

/// The value of column `id` in a row: its first entry.
pub open spec fn row_lookup(row: Seq<(i64, Value)>, id: i64) -> Option<Value>
    decreases row.len(),
{
    if row.len() == 0 {
        None
    } else if row[0].0 == id {
        Some(row[0].1)
    } else {
        row_lookup(row.drop_first(), id)
    }
}

/// Quotient of integers rounded toward zero.
pub open spec fn trunc_div(a: int, b: int) -> int {
    let q = (if a >= 0 { a } else { -a }) / (if b >= 0 { b } else { -b });
    if (a >= 0) == (b >= 0) {
        q
    } else {
        -q
    }
}

pub open spec fn int_of(v: Value) -> int {
    match v {
        Value::I64(x) => x as int,
        Value::U64(x) => x as int,
        _ => 0,
    }
}

/// Integer arithmetic under SQL rules: null in, null out; division and
/// remainder by zero give null. Two signed operands give a signed result, and
/// one outside `i64` is an overflow. With an unsigned operand: `+`, `-` and
/// `*` wrap modulo 2^64, unless the other operand is negative, which widens
/// both to a decimal; integer division keeps unsigned semantics; the
/// remainder takes the sign of the dividend. `/` of two non-zero exact
/// operands gives a decimal. Decimals, strings, durations and times cannot be
/// represented here.
pub open spec fn spec_arith(op: ExprType, l: Value, r: Value) -> Result<Value, Error> {
    if l is Bytes || l is Dur || l is Time || r is Bytes || r is Dur || r is Time {
        Err(Error::Eval)
    } else if l is Null || r is Null {
        Ok(Value::Null)
    } else {
        let a = int_of(l);
        let b = int_of(r);
        if (op == ExprType::IntDiv || op == ExprType::Mod || op == ExprType::Div) && b == 0 {
            Ok(Value::Null)
        } else if op == ExprType::Div {
            Err(Error::Eval)
        } else {
            let v = match op {
                ExprType::Plus => a + b,
                ExprType::Minus => a - b,
                ExprType::Mul => a * b,
                ExprType::IntDiv => trunc_div(a, b),
                _ => a - trunc_div(a, b) * b,
            };
            if l is I64 && r is I64 {
                if i64::MIN <= v <= i64::MAX {
                    Ok(Value::I64(v as i64))
                } else {
                    Err(Error::Overflow)
                }
            } else if op == ExprType::Mod {
                if v < 0 {
                    Ok(Value::I64(v as i64))
                } else {
                    Ok(Value::U64(v as u64))
                }
            } else if op == ExprType::IntDiv {
                if 0 <= v <= u64::MAX {
                    Ok(Value::U64(v as u64))
                } else {
                    Err(Error::Overflow)
                }
            } else if a < 0 || b < 0 {
                Err(Error::Eval)
            } else {
                Ok(Value::U64((v % 0x1_0000_0000_0000_0000) as u64))
            }
        }
    }
}

pub open spec fn is_ascii_letter(c: u8) -> bool {
    (65 <= c <= 90) || (97 <= c <= 122)
}

pub open spec fn ascii_lower(s: Seq<u8>) -> Seq<u8> {
    s.map_values(|c: u8| if 65 <= c <= 90 { (c + 32) as u8 } else { c })
}

pub open spec fn has_letter(s: Seq<u8>) -> bool {
    exists|i: int| 0 <= i < s.len() && is_ascii_letter(#[trigger] s[i])
}

pub open spec fn starts_with(t: Seq<u8>, p: Seq<u8>) -> bool {
    p.len() <= t.len() && t.subrange(0, p.len() as int) == p
}

pub open spec fn ends_with(t: Seq<u8>, p: Seq<u8>) -> bool {
    p.len() <= t.len() && t.subrange(t.len() - p.len(), t.len() as int) == p
}

pub open spec fn contains_at(t: Seq<u8>, p: Seq<u8>, i: int) -> bool {
    0 <= i && i + p.len() <= t.len() && t.subrange(i, i + p.len()) == p
}

pub open spec fn contains(t: Seq<u8>, p: Seq<u8>) -> bool {
    exists|i: int| contains_at(t, p, i)
}

/// Whether `t` matches the pattern `p` of the shape `%X%`, `%X`, `X%` or `X`,
/// ASCII case-insensitively when `p` holds an ASCII letter.
pub open spec fn like_match(t0: Seq<u8>, p0: Seq<u8>) -> bool {
    let t = if has_letter(p0) { ascii_lower(t0) } else { t0 };
    let p = if has_letter(p0) { ascii_lower(p0) } else { p0 };
    let n = p.len();
    if n > 0 && p[0] == 37 {
        let rest = p.subrange(1, n as int);
        if rest.len() > 0 && rest.last() == 37 {
            contains(t, p.subrange(1, n - 1))
        } else {
            ends_with(t, rest)
        }
    } else if n > 0 && p[n - 1] == 37 {
        starts_with(t, p.subrange(0, n - 1))
    } else {
        t == p
    }
}

/// The string form of a value: bytes as they are, integers in decimal,
/// times and durations as they are written.
pub open spec fn text_of(v: Value) -> Seq<u8> {
    match v {
        Value::Bytes(b) => b,
        Value::I64(x) => crate::convert::int_text(x as int),
        Value::U64(x) => crate::convert::int_text(x as int),
        Value::Time(t) => crate::render::display_text(t),
        Value::Dur(d) => crate::convert::duration_text(d),
        Value::Null => Seq::empty(),
    }
}

/// Whether some value of the list compares equal to `t`, stopping at the
/// first value that cannot be compared with it.
pub open spec fn list_find(t: Value, l: Seq<Value>, tz: i32) -> Result<bool, Error>
    decreases l.len(),
{
    if l.len() == 0 {
        Ok(false)
    } else {
        match cmp_values(l[0], t, tz) {
            Err(e) => Err(e),
            Ok(c) => if c == 0 {
                Ok(true)
            } else {
                list_find(t, l.drop_first(), tz)
            },
        }
    }
}

/// What evaluating `e` on `row` gives.
///
/// Some operators have no value this library can form, and fail with
/// `Error::Eval` once their arity and null rules are passed: the JSON
/// operators on non-null operands, float, decimal and JSON literals, `/` with
/// a non-zero divisor (its result is a decimal), and `+`, `-`, `*` of an
/// unsigned and a negative signed operand (they widen to a decimal). Scalar
/// functions always fail with `Error::Expr`. Kinds not listed here, such as a
/// bare value list, evaluate to null.
pub open spec fn spec_eval(ctx: EvalContext, row: Seq<(i64, Value)>, e: Expr) -> Result<Value, Error>
    decreases e, 1int, 0int,
{
    let ch = e.children@;
    let n = ch.len();
    match e.tp {
        ExprType::Int64 => match payload_i64(e.val@) {
            Ok(v) => Ok(Value::I64(v)),
            Err(x) => Err(x),
        },
        ExprType::Uint64 => match payload_u64(e.val@) {
            Ok(v) => Ok(Value::U64(v)),
            Err(x) => Err(x),
        },
        ExprType::String | ExprType::Bytes => Ok(Value::Bytes(e.val@)),
        ExprType::ColumnRef => match payload_i64(e.val@) {
            Err(x) => Err(x),
            Ok(id) => match row_lookup(row, id) {
                Some(v) => Ok(v),
                None => Err(Error::Eval),
            },
        },
        ExprType::MysqlDuration => match payload_i64(e.val@) {
            Err(x) => Err(x),
            Ok(v) => match Duration::spec_from_nanos(v as int, MAX_FSP as int) {
                Ok(d) => Ok(Value::Dur(d)),
                Err(x) => Err(x),
            },
        },
        ExprType::MysqlTime => match payload_u64(e.val@) {
            Err(x) => Err(x),
            Ok(u) => match spec_from_packed(u, e.field_tp, e.field_decimal as i8 as int, ctx.tz) {
                Ok(t) => Ok(Value::Time(t)),
                Err(x) => Err(x),
            },
        },
        ExprType::LT | ExprType::LE | ExprType::EQ | ExprType::NE | ExprType::GE | ExprType::GT
        | ExprType::NullEQ | ExprType::Like | ExprType::NullIf | ExprType::Plus
        | ExprType::Minus | ExprType::Mul | ExprType::IntDiv | ExprType::Mod
        | ExprType::Div => if n != 2 {
            Err(Error::Expr)
        } else {
            match spec_eval(ctx, row, ch[0]) {
                Err(x) => Err(x),
                Ok(l) => match spec_eval(ctx, row, ch[1]) {
                    Err(x) => Err(x),
                    Ok(r) => spec_binary(e.tp, l, r, ctx.tz),
                },
            }
        },
        ExprType::And | ExprType::Or => if n != 2 {
            Err(Error::Expr)
        } else {
            let brk = e.tp == ExprType::Or;
            match spec_eval(ctx, row, ch[0]) {
                Err(x) => Err(x),
                Ok(l) => match truth(l) {
                    Err(x) => Err(x),
                    Ok(lb) => if lb == Some(brk) {
                        Ok(bool_value(lb))
                    } else {
                        match spec_eval(ctx, row, ch[1]) {
                            Err(x) => Err(x),
                            Ok(r) => match truth(r) {
                                Err(x) => Err(x),
                                Ok(rb) => if rb == Some(brk) {
                                    Ok(bool_value(rb))
                                } else if lb == Some(!brk) && rb == Some(!brk) {
                                    Ok(bool_value(Some(!brk)))
                                } else {
                                    Ok(Value::Null)
                                },
                            },
                        }
                    },
                },
            }
        },
        ExprType::Not => if n != 1 {
            Err(Error::Expr)
        } else {
            match spec_eval(ctx, row, ch[0]) {
                Err(x) => Err(x),
                Ok(d) => if d is Null {
                    Ok(Value::Null)
                } else {
                    match truth(d) {
                        Err(x) => Err(x),
                        Ok(b) => Ok(
                            bool_value(
                                match b {
                                    Some(v) => Some(!v),
                                    None => None,
                                },
                            ),
                        ),
                    }
                },
            }
        },
        ExprType::In => if n != 2 {
            Err(Error::Expr)
        } else {
            match spec_eval(ctx, row, ch[0]) {
                Err(x) => Err(x),
                Ok(t) => if t is Null {
                    Ok(Value::Null)
                } else if ch[1].tp != ExprType::ValueList {
                    Err(Error::Expr)
                } else {
                    match decode_datums(ch[1].val@, 0) {
                        None => Err(Error::Decode),
                        Some(l) => match list_find(t, l, ctx.tz) {
                            Err(x) => Err(x),
                            Ok(found) => if found {
                                Ok(Value::I64(1))
                            } else if l.len() > 0 && l[0] is Null {
                                Ok(Value::Null)
                            } else {
                                Ok(Value::I64(0))
                            },
                        },
                    }
                },
            }
        },
        ExprType::Case => spec_case(ctx, row, e, 0),
        ExprType::If => if n != 3 {
            Err(Error::Expr)
        } else {
            match spec_eval(ctx, row, ch[0]) {
                Err(x) => Err(x),
                Ok(c) => match truth(c) {
                    Err(x) => Err(x),
                    Ok(b) => if b == Some(true) {
                        spec_eval(ctx, row, ch[1])
                    } else {
                        spec_eval(ctx, row, ch[2])
                    },
                },
            }
        },
        ExprType::Coalesce => spec_coalesce(ctx, row, e, 0),
        ExprType::IfNull => if n != 2 {
            Err(Error::Expr)
        } else {
            match spec_eval(ctx, row, ch[0]) {
                Err(x) => Err(x),
                Ok(l) => if l is Null {
                    spec_eval(ctx, row, ch[1])
                } else {
                    Ok(l)
                },
            }
        },
        ExprType::IsNull => if n != 1 {
            Err(Error::Expr)
        } else {
            match spec_eval(ctx, row, ch[0]) {
                Err(x) => Err(x),
                Ok(d) => Ok(bool_value(Some(d is Null))),
            }
        },
        ExprType::JsonSet | ExprType::JsonInsert | ExprType::JsonReplace => if n < 2 {
            Err(Error::Expr)
        } else {
            match spec_children(ctx, row, e, 0) {
                Err(x) => Err(x),
                Ok(vs) => if n % 2 == 0 {
                    Err(Error::Expr)
                } else if exists|i: int| 0 <= i < vs.len() && (#[trigger] vs[i]) is Null && (i == 0 || i % 2 == 1) {
                    Ok(Value::Null)
                } else {
                    Err(Error::Eval)
                },
            }
        },
        ExprType::JsonRemove | ExprType::JsonExtract | ExprType::JsonMerge => if n < 2 {
            Err(Error::Expr)
        } else {
            match spec_children(ctx, row, e, 0) {
                Err(x) => Err(x),
                Ok(vs) => if exists|i: int| 0 <= i < vs.len() && (#[trigger] vs[i]) is Null {
                    Ok(Value::Null)
                } else {
                    Err(Error::Eval)
                },
            }
        },
        ExprType::JsonUnquote | ExprType::JsonType => if n != 1 {
            Err(Error::Expr)
        } else {
            match spec_eval(ctx, row, ch[0]) {
                Err(x) => Err(x),
                Ok(d) => if d is Null {
                    Ok(Value::Null)
                } else {
                    Err(Error::Eval)
                },
            }
        },
        ExprType::JsonArray | ExprType::JsonObject => match spec_children(ctx, row, e, 0) {
            Err(x) => Err(x),
            Ok(_) => Err(Error::Eval),
        },
        ExprType::Float32 | ExprType::Float64 | ExprType::MysqlDecimal
        | ExprType::MysqlJson => Err(Error::Eval),
        ExprType::ScalarFunc => Err(Error::Expr),
        _ => Ok(Value::Null),
    }
}

/// The values of the children of `e` from child `i` on, evaluated in order;
/// the first error stops them.
pub open spec fn spec_children(ctx: EvalContext, row: Seq<(i64, Value)>, e: Expr, i: int) -> Result<Seq<Value>, Error>
    decreases e, 0int, e.children@.len() - i,
{
    let ch = e.children@;
    if i < 0 || i >= ch.len() {
        Ok(Seq::empty())
    } else {
        match spec_eval(ctx, row, ch[i]) {
            Err(x) => Err(x),
            Ok(v) => match spec_children(ctx, row, e, i + 1) {
                Err(x) => Err(x),
                Ok(rest) => Ok(seq![v] + rest),
            },
        }
    }
}

/// A binary operator applied to the values of its two operands.
pub open spec fn spec_binary(tp: ExprType, l: Value, r: Value, tz: i32) -> Result<Value, Error> {
    if is_cmp_op(tp) {
        if l is Null || r is Null {
            Ok(Value::Null)
        } else {
            match cmp_values(l, r, tz) {
                Err(x) => Err(x),
                Ok(c) => Ok(bool_value(Some(cmp_holds(tp, c)))),
            }
        }
    } else if tp == ExprType::NullEQ {
        match cmp_values(l, r, tz) {
            Err(x) => Err(x),
            Ok(c) => Ok(bool_value(Some(c == 0))),
        }
    } else if tp == ExprType::Like {
        if l is Null || r is Null {
            Ok(Value::Null)
        } else {
            Ok(bool_value(Some(like_match(text_of(l), text_of(r)))))
        }
    } else if tp == ExprType::NullIf {
        if l is Null || r is Null {
            Ok(l)
        } else {
            match cmp_values(l, r, tz) {
                Err(x) => Err(x),
                Ok(c) => if c == 0 {
                    Ok(Value::Null)
                } else {
                    Ok(l)
                },
            }
        }
    } else {
        spec_arith(tp, l, r)
    }
}

/// CASE from child `i` on: pairs of a condition and a result, a lone last
/// child being the ELSE result.
pub open spec fn spec_case(ctx: EvalContext, row: Seq<(i64, Value)>, e: Expr, i: int) -> Result<Value, Error>
    decreases e, 0int, e.children@.len() - i,
{
    let ch = e.children@;
    if i < 0 || i >= ch.len() {
        Ok(Value::Null)
    } else {
        match spec_eval(ctx, row, ch[i]) {
            Err(x) => Err(x),
            Ok(c) => if i + 1 == ch.len() {
                Ok(c)
            } else {
                match truth(c) {
                    Err(x) => Err(x),
                    Ok(b) => if b == Some(true) {
                        spec_eval(ctx, row, ch[i + 1])
                    } else {
                        spec_case(ctx, row, e, i + 2)
                    },
                }
            },
        }
    }
}

/// COALESCE from child `i` on: the first value that is not null.
pub open spec fn spec_coalesce(ctx: EvalContext, row: Seq<(i64, Value)>, e: Expr, i: int) -> Result<Value, Error>
    decreases e, 0int, e.children@.len() - i,
{
    let ch = e.children@;
    if i < 0 || i >= ch.len() {
        Ok(Value::Null)
    } else {
        match spec_eval(ctx, row, ch[i]) {
            Err(x) => Err(x),
            Ok(d) => if d is Null {
                spec_coalesce(ctx, row, e, i + 1)
            } else {
                Ok(d)
            },
        }
    }
}

fn read_i64(val: &Vec<u8>) -> (r: Result<i64, Error>)
    ensures
        r == payload_i64(val@),
{
    if val.len() < 8 {
        return Err(Error::Decode);
    }
    let v = crate::datum::memcmp_i64_at(val.as_slice(), 0);
    Ok(v)
}

fn read_u64(val: &Vec<u8>) -> (r: Result<u64, Error>)
    ensures
        r == payload_u64(val@),
{
    if val.len() < 8 {
        return Err(Error::Decode);
    }
    Ok(crate::datum::read_be_u64(val.as_slice(), 0))
}

fn lower_bytes(s: &Vec<u8>) -> (r: Vec<u8>)
    ensures
        r@ == ascii_lower(s@),
{
    let mut v: Vec<u8> = Vec::new();
    let mut i: usize = 0;
    while i < s.len()
        invariant
            i <= s@.len(),
            v@ == ascii_lower(s@.subrange(0, i as int)),
        decreases s@.len() - i,
    {
        let c = s[i];
        v.push(if 65 <= c && c <= 90 { c + 32 } else { c });
        assert(v@ =~= ascii_lower(s@.subrange(0, i + 1)));
        i = i + 1;
    }
    assert(s@.subrange(0, s@.len() as int) =~= s@);
    v
}

fn any_letter(s: &Vec<u8>) -> (r: bool)
    ensures
        r == has_letter(s@),
{
    let mut i: usize = 0;
    while i < s.len()
        invariant
            i <= s@.len(),
            forall|j: int| 0 <= j < i ==> !is_ascii_letter(#[trigger] s@[j]),
        decreases s@.len() - i,
    {
        let c = s[i];
        if (65 <= c && c <= 90) || (97 <= c && c <= 122) {
            assert(is_ascii_letter(s@[i as int]));
            return true;
        }
        i = i + 1;
    }
    false
}

/// Whether `t[at..at + p.len()]` equals `p[from..to]`.
fn matches_at(t: &Vec<u8>, at: usize, p: &Vec<u8>, from: usize, to: usize) -> (r: bool)
    requires
        from <= to <= p@.len(),
    ensures
        r == (at + (to - from) <= t@.len() && t@.subrange(at as int, at + (to - from)) == p@.subrange(
            from as int,
            to as int,
        )),
{
    if at > t.len() || t.len() - at < to - from {
        return false;
    }
    let mut k: usize = 0;
    let tl = t.len();
    let pl = p.len();
    while k < to - from
        invariant
            tl == t@.len(),
            pl == p@.len(),
            from <= to <= p@.len(),
            at + (to - from) <= t@.len(),
            k <= to - from,
            forall|j: int| 0 <= j < k ==> #[trigger] t@[at + j] == p@[from + j],
        decreases to - from - k,
    {
        if t[at + k] != p[from + k] {
            assert(t@.subrange(at as int, at + (to - from))[k as int] != p@.subrange(from as int, to as int)[k as int]);
            return false;
        }
        k = k + 1;
    }
    assert forall|j: int| 0 <= j < to - from implies #[trigger] t@.subrange(at as int, at + (to - from))[j]
        == p@.subrange(from as int, to as int)[j] by {
        assert(t@[at + j] == p@[from + j]);
    }
    assert(t@.subrange(at as int, at + (to - from)) =~= p@.subrange(from as int, to as int));
    true
}

proof fn lemma_mul_magnitude(a: int, b: int, ma: int, mb: int)
    requires
        ma == (if a >= 0 { a } else { -a }),
        mb == (if b >= 0 { b } else { -b }),
    ensures
        ma * mb == (if a * b >= 0 { a * b } else { -(a * b) }),
        (a * b < 0) == ((a < 0) != (b < 0) && ma * mb != 0),
{
    if a >= 0 && b >= 0 {
        assert(a * b >= 0) by (nonlinear_arith)
            requires a >= 0, b >= 0;
    } else if a >= 0 {
        assert(ma * mb == -(a * b)) by (nonlinear_arith)
            requires ma == a, mb == -b;
        assert(a * b <= 0) by (nonlinear_arith)
            requires a >= 0, b < 0;
    } else if b >= 0 {
        assert(ma * mb == -(a * b)) by (nonlinear_arith)
            requires ma == -a, mb == b;
        assert(a * b <= 0) by (nonlinear_arith)
            requires a < 0, b >= 0;
    } else {
        assert(ma * mb == a * b) by (nonlinear_arith)
            requires ma == -a, mb == -b;
        assert(a * b > 0) by (nonlinear_arith)
            requires a < 0, b < 0;
    }
}

fn like_bytes(t0: &Vec<u8>, p0: &Vec<u8>) -> (r: bool)
    ensures
        r == like_match(t0@, p0@),
{
    let fold = any_letter(p0);
    let t = if fold { lower_bytes(t0) } else { crate::scan::copy_bytes(t0.as_slice()) };
    let p = if fold { lower_bytes(p0) } else { crate::scan::copy_bytes(p0.as_slice()) };
    let n = p.len();
    if n > 0 && p[0] == 37 {
        if n > 1 && p[n - 1] == 37 {
            assert(p@.subrange(1, n as int).last() == p@[n - 1]);
            let m = n - 2;
            if m == 0 {
                assert(p@.subrange(1, n - 1) =~= Seq::<u8>::empty());
                assert(t@.subrange(0, 0) =~= Seq::<u8>::empty());
                assert(contains_at(t@, p@.subrange(1, n - 1), 0));
                return true;
            }
            if m > t.len() {
                proof {
                    assert forall|i: int| !(#[trigger] contains_at(t@, p@.subrange(1, n - 1), i)) by {}
                }
                return false;
            }
            let mut i: usize = 0;
            let count = t.len() - m + 1;
            while i < count
                invariant
                    t@ == (if has_letter(p0@) { ascii_lower(t0@) } else { t0@ }),
                    p@ == (if has_letter(p0@) { ascii_lower(p0@) } else { p0@ }),
                    p@[0] == 37,
                    p@[n - 1] == 37,
                    p@.subrange(1, n as int).last() == p@[n - 1],
                    count == t@.len() - m + 1,
                    n >= 2,
                    m == n - 2,
                    m >= 1,
                    m <= t@.len(),
                    n == p@.len(),
                    i <= t@.len() - m + 1,
                    forall|j: int| 0 <= j < i ==> !(#[trigger] contains_at(t@, p@.subrange(1, n - 1), j)),
                decreases t@.len() - m + 1 - i,
            {
                if matches_at(&t, i, &p, 1, n - 1) {
                    assert(contains_at(t@, p@.subrange(1, n - 1), i as int));
                    return true;
                }
                i = i + 1;
            }
            proof {
                assert forall|j: int| !(#[trigger] contains_at(t@, p@.subrange(1, n - 1), j)) by {
                    if 0 <= j < i {
                    }
                }
            }
            false
        } else {
            proof {
                if n > 1 {
                    assert(p@.subrange(1, n as int).last() == p@[n - 1]);
                }
            }
            if n - 1 > t.len() {
                return false;
            }
            matches_at(&t, t.len() - (n - 1), &p, 1, n)
        }
    } else if n > 0 && p[n - 1] == 37 {
        matches_at(&t, 0, &p, 0, n - 1)
    } else {
        if t.len() != n {
            return false;
        }
        let r = matches_at(&t, 0, &p, 0, n);
        proof {
            assert(t@.subrange(0, n as int) =~= t@);
            assert(p@.subrange(0, n as int) =~= p@);
        }
        r
    }
}

proof fn lemma_rem_sign(a: int, b: int, ma: int, mb: int, q: int, rm: int)
    requires
        mb > 0,
        ma == (if a >= 0 { a } else { -a }),
        mb == (if b >= 0 { b } else { -b }),
        ma == mb * q + rm,
    ensures
        a - (if (a >= 0) == (b >= 0) { q } else { -q }) * b == (if a >= 0 { rm } else { -rm }),
{
    if a >= 0 && b >= 0 {
        assert(q * b == mb * q) by (nonlinear_arith)
            requires mb == b;
        assert(a - q * b == rm);
    } else if a >= 0 {
        assert((-q) * b == mb * q) by (nonlinear_arith)
            requires mb == -b;
        assert(a - (-q) * b == rm);
    } else if b >= 0 {
        assert((-q) * b == -(mb * q)) by (nonlinear_arith)
            requires mb == b;
        assert(a - (-q) * b == -rm);
    } else {
        assert(q * b == -(mb * q)) by (nonlinear_arith)
            requires mb == -b;
        assert(a - q * b == -rm);
    }
}

fn arith(op: ExprType, l: &Datum, r: &Datum) -> (res: Result<Datum, Error>)
    requires
        is_arith_op(op),
    ensures
        match spec_arith(op, l@, r@) {
            Ok(v) => res is Ok && res->Ok_0@ == v,
            Err(x) => res == Err::<Datum, Error>(x),
        },
{
    let (a, b, signed): (i128, i128, bool) = match (l, r) {
        (Datum::Bytes(_), _) | (Datum::Dur(_), _) | (Datum::Time(_), _) => {
            return Err(Error::Eval);
        },
        (_, Datum::Bytes(_)) | (_, Datum::Dur(_)) | (_, Datum::Time(_)) => {
            return Err(Error::Eval);
        },
        (Datum::Null, _) | (_, Datum::Null) => {
            return Ok(Datum::Null);
        },
        (Datum::I64(x), Datum::I64(y)) => (*x as i128, *y as i128, true),
        (Datum::I64(x), Datum::U64(y)) => (*x as i128, *y as i128, false),
        (Datum::U64(x), Datum::I64(y)) => (*x as i128, *y as i128, false),
        (Datum::U64(x), Datum::U64(y)) => (*x as i128, *y as i128, false),
    };
    assert(a == int_of(l@) && b == int_of(r@));
    assert(-0x8000_0000_0000_0000 <= a < 0x1_0000_0000_0000_0000);
    assert(-0x8000_0000_0000_0000 <= b < 0x1_0000_0000_0000_0000);
    if (op == ExprType::IntDiv || op == ExprType::Mod || op == ExprType::Div) && b == 0 {
        return Ok(Datum::Null);
    }
    if op == ExprType::Div {
        return Err(Error::Eval);
    }
    if !signed && op != ExprType::IntDiv && op != ExprType::Mod {
        if a < 0 || b < 0 {
            return Err(Error::Eval);
        }
        let ua = a as u128;
        let ub = b as u128;
        let m: u128 = 0x1_0000_0000_0000_0000;
        let w: u128 = if op == ExprType::Plus {
            (ua + ub) % m
        } else if op == ExprType::Minus {
            proof {
                vstd::arithmetic::div_mod::lemma_mod_add_multiples_vanish(a - b, m as int);
            }
            (ua + m - ub) % m
        } else {
            proof {
                assert(ua * ub < 0x1_0000_0000_0000_0000_0000_0000_0000_0000) by (nonlinear_arith)
                    requires ua < 0x1_0000_0000_0000_0000, ub < 0x1_0000_0000_0000_0000;
            }
            (ua * ub) % m
        };
        return Ok(Datum::U64(w as u64));
    }
    let ma: u128 = if a >= 0 { a as u128 } else { (-a) as u128 };
    let mb: u128 = if b >= 0 { b as u128 } else { (-b) as u128 };
    // magnitude and sign of the exact result
    let (mag, neg): (u128, bool) = match op {
        ExprType::Plus => {
            let v = a + b;
            if v >= 0 { (v as u128, false) } else { ((-v) as u128, true) }
        },
        ExprType::Minus => {
            let v = a - b;
            if v >= 0 { (v as u128, false) } else { ((-v) as u128, true) }
        },
        ExprType::Mul => {
            proof {
                assert(ma < 0x1_0000_0000_0000_0000 && mb < 0x1_0000_0000_0000_0000);
                assert(ma * mb < 0x1_0000_0000_0000_0000_0000_0000_0000_0000) by (nonlinear_arith)
                    requires ma < 0x1_0000_0000_0000_0000, mb < 0x1_0000_0000_0000_0000;
                lemma_mul_magnitude(a as int, b as int, ma as int, mb as int);
            }
            (ma * mb, (a < 0) != (b < 0) && ma * mb != 0)
        },
        ExprType::IntDiv => {
            let q = ma / mb;
            (q, (a < 0) != (b < 0) && q != 0)
        },
        _ => {
            let rm = ma % mb;
            proof {
                let q = ma as int / mb as int;
                vstd::arithmetic::div_mod::lemma_fundamental_div_mod(ma as int, mb as int);
                assert(trunc_div(a as int, b as int) == (if (a >= 0) == (b >= 0) { q } else { -q }));
                lemma_rem_sign(a as int, b as int, ma as int, mb as int, q, rm as int);
            }
            (rm, a < 0 && rm != 0)
        },
    };
    if signed {
        if !neg && mag <= 0x7fff_ffff_ffff_ffff {
            Ok(Datum::I64(mag as i64))
        } else if neg && mag <= 0x8000_0000_0000_0000 {
            Ok(Datum::I64((-(mag as i128)) as i64))
        } else {
            Err(Error::Overflow)
        }
    } else if op == ExprType::Mod {
        if neg {
            proof {
                assert(mag <= ma) by {
                    vstd::arithmetic::div_mod::lemma_mod_decreases(ma as nat, mb as nat);
                }
            }
            Ok(Datum::I64((-(mag as i128)) as i64))
        } else {
            proof {
                vstd::arithmetic::div_mod::lemma_mod_decreases(ma as nat, mb as nat);
            }
            Ok(Datum::U64(mag as u64))
        }
    } else {
        if !neg && mag <= 0xffff_ffff_ffff_ffff {
            Ok(Datum::U64(mag as u64))
        } else {
            Err(Error::Overflow)
        }
    }
}

/// The values of a row of datums.
pub open spec fn row_values(row: Seq<(i64, Datum)>) -> Seq<(i64, Value)> {
    row.map_values(|p: (i64, Datum)| (p.0, p.1@))
}

pub open spec fn result_value(r: Result<Datum, Error>) -> Result<Value, Error> {
    match r {
        Ok(d) => Ok(d@),
        Err(e) => Err(e),
    }
}

/// Evaluates expressions against one row.
#[derive(Debug)]
pub struct Evaluator {
    /// Column id and value of each column of the current row.
    pub row: Vec<(i64, Datum)>,
}

impl Evaluator {
    /// Each column of the row occurs once, with a well-formed value.
    pub open spec fn wf(&self) -> bool {
        &&& forall|i: int| 0 <= i < self.row@.len() ==> (#[trigger] self.row@[i]).1@.wf()
        &&& forall|i: int, j: int|
            0 <= i < j < self.row@.len() ==> (#[trigger] self.row@[i]).0 != (#[trigger] self.row@[j]).0
    }

    pub open spec fn values(&self) -> Seq<(i64, Value)> {
        row_values(self.row@)
    }

    pub fn new(row: Vec<(i64, Datum)>) -> (r: Evaluator)
        ensures
            r.row@ == row@,
    {
        Evaluator { row }
    }

    fn lookup(&self, id: i64) -> (r: Option<Datum>)
        requires
            self.wf(),
        ensures
            match row_lookup(self.values(), id) {
                Some(v) => r is Some && r->Some_0@ == v && v.wf(),
                None => r is None,
            },
    {
        let mut i: usize = 0;
        assert(self.values().subrange(0, self.row@.len() as int) =~= self.values());
        while i < self.row.len()
            invariant
                i <= self.row@.len(),
                self.wf(),
                row_lookup(self.values(), id) == row_lookup(self.values().subrange(i as int, self.row@.len() as int), id),
            decreases self.row@.len() - i,
        {
            let ghost rest = self.values().subrange(i as int, self.row@.len() as int);
            assert(rest[0] == (self.row@[i as int].0, self.row@[i as int].1@));
            if self.row[i].0 == id {
                return Some(self.row[i].1.copy());
            }
            assert(rest.drop_first() =~= self.values().subrange(i + 1, self.row@.len() as int));
            i = i + 1;
        }
        None
    }

    /// Evaluates `expr` against the current row; see `spec_eval`, including
    /// the operators that always fail (JSON on non-null operands, float,
    /// decimal and JSON literals, `/` with a non-zero divisor, scalar
    /// functions).
    pub fn eval(&mut self, ctx: &EvalContext, expr: &Expr) -> (r: Result<Datum, Error>)
        requires
            old(self).wf(),
            ctx.wf(),
        ensures
            final(self).row@ == old(self).row@,
            result_value(r) == spec_eval(*ctx, old(self).values(), *expr),
            r is Ok ==> r->Ok_0@.wf(),
    {
        self.eval_expr(ctx, expr)
    }

    /// Evaluates each expression in turn, stopping at the first error.
    pub fn batch_eval(&mut self, ctx: &EvalContext, exprs: &[Expr]) -> (r: Result<Vec<Datum>, Error>)
        requires
            old(self).wf(),
            ctx.wf(),
        ensures
            final(self).row@ == old(self).row@,
            r is Ok ==> r->Ok_0@.len() == exprs@.len() && forall|i: int|
                0 <= i < exprs@.len() ==> spec_eval(*ctx, old(self).values(), #[trigger] exprs@[i])
                    == Ok::<Value, Error>(r->Ok_0@[i]@),
            r is Err ==> exists|i: int|
                0 <= i < exprs@.len() && spec_eval(*ctx, old(self).values(), #[trigger] exprs@[i])
                    == Err::<Value, Error>(r->Err_0),
    {
        let mut res: Vec<Datum> = Vec::new();
        let mut i: usize = 0;
        while i < exprs.len()
            invariant
                i <= exprs@.len(),
                res@.len() == i,
                self.wf(),
                ctx.wf(),
                self.row@ == old(self).row@,
                forall|j: int|
                    0 <= j < i ==> spec_eval(*ctx, old(self).values(), #[trigger] exprs@[j])
                        == Ok::<Value, Error>(res@[j]@),
            decreases exprs@.len() - i,
        {
            let d = match self.eval_expr(ctx, &exprs[i]) {
                Ok(d) => d,
                Err(e) => {
                    return Err(e);
                },
            };
            res.push(d);
            i = i + 1;
        }
        Ok(res)
    }

    /// The only child of `expr`.
    pub fn get_one_child<'a>(&mut self, expr: &'a Expr) -> (r: Result<&'a Expr, Error>)
        ensures
            final(self).row@ == old(self).row@,
            r is Ok <==> expr.children@.len() == 1,
            r is Ok ==> *r->Ok_0 == expr.children@[0],
            r is Err ==> r->Err_0 == Error::Expr,
    {
        if expr.children.len() != 1 {
            return Err(Error::Expr);
        }
        Ok(&expr.children[0])
    }

    fn eval_expr(&self, ctx: &EvalContext, expr: &Expr) -> (r: Result<Datum, Error>)
        requires
            self.wf(),
            ctx.wf(),
        ensures
            result_value(r) == spec_eval(*ctx, self.values(), *expr),
            r is Ok ==> r->Ok_0@.wf(),
        decreases expr, 1int, 0int,
    {
        let n = expr.children.len();
        match expr.tp {
            ExprType::Int64 => {
                let v = read_i64(&expr.val)?;
                Ok(Datum::I64(v))
            },
            ExprType::Uint64 => {
                let v = read_u64(&expr.val)?;
                Ok(Datum::U64(v))
            },
            ExprType::String | ExprType::Bytes => Ok(Datum::Bytes(expr.val.clone())),
            ExprType::ColumnRef => {
                let id = read_i64(&expr.val)?;
                match self.lookup(id) {
                    Some(d) => Ok(d),
                    None => Err(Error::Eval),
                }
            },
            ExprType::MysqlDuration => {
                let v = read_i64(&expr.val)?;
                let d = Duration::from_nanos(v, MAX_FSP)?;
                Ok(Datum::Dur(d))
            },
            ExprType::MysqlTime => {
                let u = read_u64(&expr.val)?;
                let t = Time::from_packed_u64(u, expr.field_tp, expr.field_decimal as i8, ctx.tz)?;
                Ok(Datum::Time(t))
            },
            ExprType::LT | ExprType::LE | ExprType::EQ | ExprType::NE | ExprType::GE | ExprType::GT
            | ExprType::NullEQ | ExprType::Like | ExprType::NullIf | ExprType::Plus
            | ExprType::Minus | ExprType::Mul | ExprType::IntDiv | ExprType::Mod
            | ExprType::Div => {
                if n != 2 {
                    return Err(Error::Expr);
                }
                let l = self.eval_expr(ctx, &expr.children[0])?;
                let r = self.eval_expr(ctx, &expr.children[1])?;
                eval_binary(ctx, expr.tp, l, r)
            },
            ExprType::And | ExprType::Or => self.eval_logic(ctx, expr),
            ExprType::Not => {
                if n != 1 {
                    return Err(Error::Expr);
                }
                let d = self.eval_expr(ctx, &expr.children[0])?;
                if d.is_null() {
                    return Ok(Datum::Null);
                }
                let b = d.into_bool()?;
                Ok(
                    Datum::from_bool(
                        match b {
                            Some(v) => Some(!v),
                            None => None,
                        },
                    ),
                )
            },
            ExprType::In => self.eval_in(ctx, expr),
            ExprType::Case => self.eval_case_when(ctx, expr),
            ExprType::If => {
                if n != 3 {
                    return Err(Error::Expr);
                }
                let c = self.eval_expr(ctx, &expr.children[0])?;
                let b = c.into_bool()?;
                if b == Some(true) {
                    self.eval_expr(ctx, &expr.children[1])
                } else {
                    self.eval_expr(ctx, &expr.children[2])
                }
            },
            ExprType::Coalesce => self.eval_coalesce(ctx, expr),
            ExprType::IfNull => {
                if n != 2 {
                    return Err(Error::Expr);
                }
                let l = self.eval_expr(ctx, &expr.children[0])?;
                if l.is_null() {
                    self.eval_expr(ctx, &expr.children[1])
                } else {
                    Ok(l)
                }
            },
            ExprType::IsNull => {
                if n != 1 {
                    return Err(Error::Expr);
                }
                let d = self.eval_expr(ctx, &expr.children[0])?;
                Ok(Datum::from_bool(Some(d.is_null())))
            },
            ExprType::JsonSet | ExprType::JsonInsert | ExprType::JsonReplace | ExprType::JsonRemove
            | ExprType::JsonExtract | ExprType::JsonMerge | ExprType::JsonArray
            | ExprType::JsonObject => self.eval_json_list(ctx, expr),
            ExprType::JsonUnquote | ExprType::JsonType => {
                if n != 1 {
                    return Err(Error::Expr);
                }
                let d = self.eval_expr(ctx, &expr.children[0])?;
                if d.is_null() {
                    Ok(Datum::Null)
                } else {
                    Err(Error::Eval)
                }
            },
            ExprType::Float32 | ExprType::Float64 | ExprType::MysqlDecimal
            | ExprType::MysqlJson => Err(Error::Eval),
            ExprType::ScalarFunc => Err(Error::Expr),
            _ => Ok(Datum::Null),
        }
    }

    fn eval_logic(&self, ctx: &EvalContext, expr: &Expr) -> (r: Result<Datum, Error>)
        requires
            self.wf(),
            ctx.wf(),
            expr.tp == ExprType::And || expr.tp == ExprType::Or,
        ensures
            result_value(r) == spec_eval(*ctx, self.values(), *expr),
            r is Ok ==> r->Ok_0@.wf(),
        decreases expr, 0int, 0int,
    {
        if expr.children.len() != 2 {
            return Err(Error::Expr);
        }
        let brk = expr.tp == ExprType::Or;
        let l = self.eval_expr(ctx, &expr.children[0])?;
        let lb = l.into_bool()?;
        if lb == Some(brk) {
            return Ok(Datum::from_bool(lb));
        }
        let r = self.eval_expr(ctx, &expr.children[1])?;
        let rb = r.into_bool()?;
        if rb == Some(brk) {
            return Ok(Datum::from_bool(rb));
        }
        if lb == Some(!brk) && rb == Some(!brk) {
            Ok(Datum::from_bool(Some(!brk)))
        } else {
            Ok(Datum::Null)
        }
    }

    fn eval_in(&self, ctx: &EvalContext, expr: &Expr) -> (r: Result<Datum, Error>)
        requires
            self.wf(),
            ctx.wf(),
            expr.tp == ExprType::In,
        ensures
            result_value(r) == spec_eval(*ctx, self.values(), *expr),
            r is Ok ==> r->Ok_0@.wf(),
        decreases expr, 0int, 0int,
    {
        if expr.children.len() != 2 {
            return Err(Error::Expr);
        }
        let target = self.eval_expr(ctx, &expr.children[0])?;
        if target.is_null() {
            return Ok(Datum::Null);
        }
        let list_expr = &expr.children[1];
        if list_expr.tp != ExprType::ValueList {
            return Err(Error::Expr);
        }
        let list = decode_value_list(list_expr.val.as_slice())?;
        let found = check_in(ctx, &target, &list)?;
        if found {
            return Ok(Datum::I64(1));
        }
        if list.len() > 0 && list[0].is_null() {
            return Ok(Datum::Null);
        }
        Ok(Datum::I64(0))
    }

    fn eval_case_when(&self, ctx: &EvalContext, expr: &Expr) -> (r: Result<Datum, Error>)
        requires
            self.wf(),
            ctx.wf(),
            expr.tp == ExprType::Case,
        ensures
            result_value(r) == spec_eval(*ctx, self.values(), *expr),
            r is Ok ==> r->Ok_0@.wf(),
        decreases expr, 0int, 0int,
    {
        let n = expr.children.len();
        let mut i: usize = 0;
        while i < n
            invariant
                self.wf(),
                ctx.wf(),
                n == expr.children@.len(),
                i <= n + 1,
                spec_eval(*ctx, self.values(), *expr) == spec_case(*ctx, self.values(), *expr, i as int),
            decreases n + 1 - i,
        {
            let c = self.eval_expr(ctx, &expr.children[i])?;
            if i + 1 == n {
                return Ok(c);
            }
            let b = c.into_bool()?;
            if b == Some(true) {
                return self.eval_expr(ctx, &expr.children[i + 1]);
            }
            i = i + 2;
        }
        Ok(Datum::Null)
    }

    /// The values of all children, in order; the first error stops them.
    fn eval_children(&self, ctx: &EvalContext, expr: &Expr) -> (r: Result<Vec<Datum>, Error>)
        requires
            self.wf(),
            ctx.wf(),
        ensures
            match spec_children(*ctx, self.values(), *expr, 0) {
                Ok(vs) => r is Ok && values_of(r->Ok_0@) == vs,
                Err(x) => r == Err::<Vec<Datum>, Error>(x),
            },
        decreases expr, 0int, 0int,
    {
        let n = expr.children.len();
        let mut out: Vec<Datum> = Vec::new();
        let mut i: usize = 0;
        while i < n
            invariant
                self.wf(),
                ctx.wf(),
                n == expr.children@.len(),
                i <= n,
                spec_children(*ctx, self.values(), *expr, 0) is Ok ==> spec_children(*ctx, self.values(), *expr, i as int) is Ok,
                spec_children(*ctx, self.values(), *expr, 0) is Err ==> spec_children(*ctx, self.values(), *expr, 0) == spec_children(*ctx, self.values(), *expr, i as int),
                spec_children(*ctx, self.values(), *expr, 0) is Ok ==> spec_children(*ctx, self.values(), *expr, 0)->Ok_0
                    == values_of(out@) + spec_children(*ctx, self.values(), *expr, i as int)->Ok_0,
            decreases n - i,
        {
            let d = match self.eval_expr(ctx, &expr.children[i]) {
                Ok(d) => d,
                Err(x) => {
                    return Err(x);
                },
            };
            let ghost before = out@;
            let ghost v = d@;
            out.push(d);
            proof {
                assert(values_of(out@) =~= values_of(before) + seq![v]);
                let rest = spec_children(*ctx, self.values(), *expr, i + 1);
                if rest is Ok {
                    assert(values_of(before) + (seq![v] + rest->Ok_0) =~= values_of(out@) + rest->Ok_0);
                }
            }
            i = i + 1;
        }
        assert(values_of(out@) + Seq::<Value>::empty() =~= values_of(out@));
        Ok(out)
    }

    /// JSON operators over lists of operands: arity and null rules. A JSON
    /// result itself cannot be formed here.
    fn eval_json_list(&self, ctx: &EvalContext, expr: &Expr) -> (r: Result<Datum, Error>)
        requires
            self.wf(),
            ctx.wf(),
            expr.tp == ExprType::JsonSet || expr.tp == ExprType::JsonInsert || expr.tp
                == ExprType::JsonReplace || expr.tp == ExprType::JsonRemove || expr.tp
                == ExprType::JsonExtract || expr.tp == ExprType::JsonMerge || expr.tp
                == ExprType::JsonArray || expr.tp == ExprType::JsonObject,
        ensures
            result_value(r) == spec_eval(*ctx, self.values(), *expr),
            r is Ok ==> r->Ok_0@.wf(),
        decreases expr, 0int, 1int,
    {
        let n = expr.children.len();
        let modify = expr.tp == ExprType::JsonSet || expr.tp == ExprType::JsonInsert || expr.tp
            == ExprType::JsonReplace;
        let listing = expr.tp == ExprType::JsonArray || expr.tp == ExprType::JsonObject;
        if !listing && n < 2 {
            return Err(Error::Expr);
        }
        let vs = self.eval_children(ctx, expr)?;
        if listing {
            return Err(Error::Eval);
        }
        if modify && n % 2 == 0 {
            return Err(Error::Expr);
        }
        if find_null(&vs, modify) {
            return Ok(Datum::Null);
        }
        Err(Error::Eval)
    }

    fn eval_coalesce(&self, ctx: &EvalContext, expr: &Expr) -> (r: Result<Datum, Error>)
        requires
            self.wf(),
            ctx.wf(),
            expr.tp == ExprType::Coalesce,
        ensures
            result_value(r) == spec_eval(*ctx, self.values(), *expr),
            r is Ok ==> r->Ok_0@.wf(),
        decreases expr, 0int, 0int,
    {
        let n = expr.children.len();
        let mut i: usize = 0;
        while i < n
            invariant
                self.wf(),
                ctx.wf(),
                n == expr.children@.len(),
                i <= n,
                spec_eval(*ctx, self.values(), *expr) == spec_coalesce(*ctx, self.values(), *expr, i as int),
            decreases n - i,
        {
            let d = self.eval_expr(ctx, &expr.children[i])?;
            if !d.is_null() {
                return Ok(d);
            }
            i = i + 1;
        }
        Ok(Datum::Null)
    }
}

fn eval_binary(ctx: &EvalContext, tp: ExprType, l: Datum, r: Datum) -> (res: Result<Datum, Error>)
    requires
        is_cmp_op(tp) || tp == ExprType::NullEQ || tp == ExprType::Like || tp == ExprType::NullIf
            || is_arith_op(tp),
        l@.wf(),
        r@.wf(),
        ctx.wf(),
    ensures
        result_value(res) == spec_binary(tp, l@, r@, ctx.tz),
        res is Ok ==> res->Ok_0@.wf(),
{
    proof {
        crate::datum::lemma_cmp_values_range(l@, r@, ctx.tz);
    }
    if tp == ExprType::NullEQ {
        let c = l.cmp(ctx, &r)?;
        return Ok(Datum::from_bool(Some(c == 0)));
    }
    if tp == ExprType::Like {
        if l.is_null() || r.is_null() {
            return Ok(Datum::Null);
        }
        let t = text_bytes(&l);
        let p = text_bytes(&r);
        return Ok(Datum::from_bool(Some(like_bytes(&t, &p))));
    }
    if tp == ExprType::NullIf {
        if l.is_null() || r.is_null() {
            return Ok(l);
        }
        let c = l.cmp(ctx, &r)?;
        return if c == 0 { Ok(Datum::Null) } else { Ok(l) };
    }
    if is_arith(tp) {
        return arith(tp, &l, &r);
    }
    if l.is_null() || r.is_null() {
        return Ok(Datum::Null);
    }
    let c = l.cmp(ctx, &r)?;
    let holds = match tp {
        ExprType::LT => c < 0,
        ExprType::LE => c <= 0,
        ExprType::EQ => c == 0,
        ExprType::NE => c != 0,
        ExprType::GE => c >= 0,
        _ => c > 0,
    };
    Ok(Datum::from_bool(Some(holds)))
}

/// Whether some value is null; with `paths_only`, only the first and those
/// at odd positions count.
fn find_null(vs: &Vec<Datum>, paths_only: bool) -> (r: bool)
    ensures
        r == exists|i: int|
            0 <= i < vs@.len() && (#[trigger] values_of(vs@)[i]) is Null && (!paths_only || i == 0 || i
                % 2 == 1),
{
    let ghost vals = values_of(vs@);
    let mut i: usize = 0;
    while i < vs.len()
        invariant
            i <= vs@.len(),
            vals == values_of(vs@),
            forall|j: int| 0 <= j < i ==> !((#[trigger] vals[j]) is Null && (!paths_only || j == 0 || j % 2 == 1)),
        decreases vs@.len() - i,
    {
        if vs[i].is_null() && (!paths_only || i == 0 || i % 2 == 1) {
            assert(vals[i as int] is Null);
            return true;
        }
        i = i + 1;
    }
    false
}

/// The string form of a datum; see `text_of`.
fn text_bytes(d: &Datum) -> (r: Vec<u8>)
    requires
        d@.wf(),
    ensures
        r@ == text_of(d@),
{
    match d {
        Datum::Bytes(b) => crate::scan::copy_bytes(b.as_slice()),
        Datum::I64(x) => crate::convert::int_text_bytes(*x as i128),
        Datum::U64(x) => crate::convert::int_text_bytes(*x as i128),
        Datum::Time(t) => t.display_bytes(),
        Datum::Dur(dur) => dur.text_bytes(),
        Datum::Null => Vec::new(),
    }
}

fn is_arith(tp: ExprType) -> (r: bool)
    ensures
        r == is_arith_op(tp),
{
    tp == ExprType::Plus || tp == ExprType::Minus || tp == ExprType::Mul || tp == ExprType::IntDiv
        || tp == ExprType::Mod || tp == ExprType::Div
}

/// Whether `target` equals a value of the list; see `list_find`.
fn check_in(ctx: &EvalContext, target: &Datum, list: &Vec<Datum>) -> (r: Result<bool, Error>)
    requires
        target@.wf(),
        ctx.wf(),
        forall|i: int| 0 <= i < list@.len() ==> (#[trigger] list@[i])@.wf(),
    ensures
        r == list_find(target@, values_of(list@), ctx.tz),
{
    let mut i: usize = 0;
    assert(values_of(list@).subrange(0, list@.len() as int) =~= values_of(list@));
    while i < list.len()
        invariant
            i <= list@.len(),
            target@.wf(),
            ctx.wf(),
            forall|j: int| 0 <= j < list@.len() ==> (#[trigger] list@[j])@.wf(),
            list_find(target@, values_of(list@), ctx.tz) == list_find(target@, values_of(list@).subrange(i as int, list@.len() as int), ctx.tz),
        decreases list@.len() - i,
    {
        let ghost rest = values_of(list@).subrange(i as int, list@.len() as int);
        assert(rest[0] == list@[i as int]@);
        assert(rest.drop_first() =~= values_of(list@).subrange(i + 1, list@.len() as int));
        proof {
            crate::datum::lemma_cmp_values_range(list@[i as int]@, target@, ctx.tz);
        }
        let c = list[i].cmp(ctx, target)?;
        if c == 0 {
            return Ok(true);
        }
        i = i + 1;
    }
    Ok(false)
}

/// Evaluates an arithmetic operator on two values.
pub fn eval_arith(ctx: &EvalContext, left: Datum, right: Datum, op: ExprType) -> (r: Result<Datum, Error>)
    requires
        is_arith_op(op),
    ensures
        result_value(r) == spec_arith(op, left@, right@),
{
    arith(op, &left, &right)
}

/// Negating twice gives the boolean reading of the operand under
/// three-valued logic: null stays null, any other value becomes 1 or 0, and a
/// value with no boolean reading is an error.
pub proof fn lemma_double_not(ctx: EvalContext, row: Seq<(i64, Value)>, e: Expr)
    requires
        e.tp == ExprType::Not,
        e.children@.len() == 1,
        e.children@[0].tp == ExprType::Not,
        e.children@[0].children@.len() == 1,
    ensures
        spec_eval(ctx, row, e) == match spec_eval(ctx, row, e.children@[0].children@[0]) {
            Ok(d) => match truth(d) {
                Ok(b) => Ok(bool_value(b)),
                Err(x) => Err(x),
            },
            Err(x) => Err(x),
        },
{
    let inner = e.children@[0];
    assert(spec_eval(ctx, row, e) == match spec_eval(ctx, row, inner) {
        Err(x) => Err(x),
        Ok(d) => if d is Null {
            Ok(Value::Null)
        } else {
            match truth(d) {
                Err(x) => Err(x),
                Ok(b) => Ok(bool_value(match b { Some(v) => Some(!v), None => None })),
            }
        },
    });
}

} // verus!
