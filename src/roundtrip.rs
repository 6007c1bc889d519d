use vstd::prelude::*;

use crate::calendar::CivilTime;
use crate::parse::{
    all_digits, datetime_fields, datetime_parts, digits_value, field_value, is_digit, is_space,
    spec_parse_datetime, spec_parse_frac, split_non_digits, trim_end, trim_start,
};
use crate::render::{clock_text, date_text, display_text, frac_digits, frac_text, pad};
use crate::time::{pow10, Time};

verus! {

proof fn lemma_pow10_pos(n: nat)
    ensures
        pow10(n) > 0,
    decreases n,
{
    if n > 0 {
        lemma_pow10_pos((n - 1) as nat);
    }
}

proof fn lemma_pad(n: nat, w: nat)
    ensures
        pad(n, w).len() == w,
        all_digits(pad(n, w)),
        digits_value(pad(n, w)) == n % pow10(w),
    decreases w,
{
    if w > 0 {
        let w1 = (w - 1) as nat;
        lemma_pad(n / 10, w1);
        let p = pad(n, w);
        assert(p.drop_last() =~= pad(n / 10, w1));
        assert forall|i: int| 0 <= i < p.len() implies is_digit(#[trigger] p[i]) by {
            if i < p.len() - 1 {
                assert(p[i] == pad(n / 10, w1)[i]);
            }
        }
        let q = n / 10;
        let r = n % 10;
        let pw = pow10(w1);
        lemma_pow10_pos(w1);
        let s = q % pw;
        let k = q / pw;
        vstd::arithmetic::div_mod::lemma_fundamental_div_mod(n as int, 10);
        vstd::arithmetic::div_mod::lemma_fundamental_div_mod(q as int, pw as int);
        assert(n == (10 * pw) * k + (10 * s + r)) by (nonlinear_arith)
            requires n == 10 * q + r, q == pw * k + s;
        assert(0 <= 10 * s + r < 10 * pw) by (nonlinear_arith)
            requires s < pw, r < 10, pw > 0;
        vstd::arithmetic::div_mod::lemma_fundamental_div_mod_converse(n as int, (10 * pw) as int, k as int, (10 * s + r) as int);
        assert(digits_value(p) == s * 10 + r);
    } else {
        assert(n % 1 == 0);
    }
}

proof fn lemma_split_append_digits(p: Seq<u8>, d: Seq<u8>)
    requires
        all_digits(d),
    ensures
        split_non_digits(p + d) == split_non_digits(p).update(
            split_non_digits(p).len() - 1,
            split_non_digits(p).last() + d,
        ),
    decreases d.len(),
{
    crate::parse::lemma_split_len(p);
    let sp = split_non_digits(p);
    if d.len() == 0 {
        assert(p + d =~= p);
        assert(sp.last() + d =~= sp.last());
        assert(sp.update(sp.len() - 1, sp.last()) =~= sp);
    } else {
        let d1 = d.drop_last();
        assert(all_digits(d1)) by {
            assert forall|i: int| 0 <= i < d1.len() implies is_digit(#[trigger] d1[i]) by {
                assert(d1[i] == d[i]);
            }
        }
        lemma_split_append_digits(p, d1);
        assert((p + d).drop_last() =~= p + d1);
        assert((p + d).last() == d.last());
        assert(is_digit(d[d.len() - 1]));
        let r = split_non_digits(p + d1);
        let a = sp.last() + d1;
        assert(r.len() == sp.len());
        assert(r.last() == a);
        assert(a.push(d.last()) =~= sp.last() + d);
        assert(r.update(r.len() - 1, r.last().push(d.last())) =~= sp.update(
            sp.len() - 1,
            sp.last() + d,
        ));
    }
}

proof fn lemma_split_push_sep(p: Seq<u8>, x: u8)
    requires
        !is_digit(x),
        x < 128,
    ensures
        split_non_digits(p.push(x)) == split_non_digits(p).push(Seq::<u8>::empty()),
{
    assert(p.push(x).drop_last() =~= p);
}

proof fn lemma_split_digits_only(d: Seq<u8>)
    requires
        all_digits(d),
    ensures
        split_non_digits(d) == seq![d],
{
    lemma_split_append_digits(Seq::empty(), d);
    assert(Seq::<u8>::empty() + d =~= d);
    assert(seq![Seq::<u8>::empty()].update(0, Seq::<u8>::empty() + d) =~= seq![d]);
}

/// `split(p ++ [x] ++ d)` when `x` separates and `d` is a run of digits.
proof fn lemma_split_next(p: Seq<u8>, x: u8, d: Seq<u8>)
    requires
        !is_digit(x),
        x < 128,
        all_digits(d),
    ensures
        split_non_digits(p.push(x) + d) == split_non_digits(p).push(d),
{
    lemma_split_push_sep(p, x);
    lemma_split_append_digits(p.push(x), d);
    let sp = split_non_digits(p);
    assert(sp.push(Seq::<u8>::empty()).update(sp.len() as int, Seq::<u8>::empty() + d) =~= sp.push(d));
}

proof fn lemma_trim_digit_ends(s: Seq<u8>)
    requires
        s.len() > 0,
        is_digit(s[0]),
        is_digit(s.last()),
    ensures
        trim_end(trim_start(s)) == s,
{
    assert(!is_space(s[0]));
    assert(trim_start(s) == s);
    assert(!is_space(s.last()));
}

proof fn lemma_field_of_pad(n: nat, w: nat)
    requires
        n < pow10(w),
        n <= crate::parse::FIELD_CAP,
    ensures
        field_value(pad(n, w)) == n,
{
    lemma_pad(n, w);
    vstd::arithmetic::div_mod::lemma_small_mod(n, pow10(w));
}

proof fn lemma_frac_bound(s: Seq<u8>, f: nat)
    requires
        all_digits(s),
        f <= 6,
    ensures
        spec_parse_frac(s, f) <= pow10(f),
{
    if s.len() == 0 {
        lemma_pow10_pos(f);
    } else if s.len() > f {
        let t = s.subrange(0, f as int + 1);
        assert(all_digits(t)) by {
            assert forall|i: int| 0 <= i < t.len() implies is_digit(#[trigger] t[i]) by {
                assert(t[i] == s[i]);
            }
        }
        crate::parse::lemma_digits_bound(t);
        let v = digits_value(t);
        assert(pow10(f + 1) == 10 * pow10(f));
        assert(v / 10 < pow10(f)) by (nonlinear_arith)
            requires v < 10 * pow10(f);
    } else {
        crate::parse::lemma_digits_bound(s);
        crate::parse::lemma_pow10_add(s.len(), (f - s.len()) as nat);
        let v = digits_value(s);
        let m = pow10((f - s.len()) as nat);
        assert(v * m <= pow10(f)) by (nonlinear_arith)
            requires v < pow10(s.len()), pow10(s.len()) * m == pow10(f);
    }
}

/// What a parsed time is like: a DATETIME at the given offset and
/// precision; the zero sentinel, or a time within the years 0 to 9999 whose
/// fraction has no digits beyond its precision.
pub open spec fn parsed_shape(t: Time, fsp: u8, tz: i32) -> bool {
    &&& t.tp == crate::types::DATETIME
    &&& t.tz == tz
    &&& t.is_zero_spec() ==> t.fsp == 0
    &&& t.is_zero_spec() || (t.fsp == fsp && crate::time::in_year_range(t.local)
        && (t.local.nanos as nat) % pow10((9 - fsp) as nat) == 0)
}

proof fn lemma_parse_shape(s: Seq<u8>, fsp: int, tz: i32)
    requires
        spec_parse_datetime(s, fsp, tz) is Ok,
    ensures
        parsed_shape(spec_parse_datetime(s, fsp, tz)->Ok_0, crate::time::spec_check_fsp(fsp)->Ok_0, tz),
{
    let f = crate::time::spec_check_fsp(fsp)->Ok_0;
    let p = datetime_parts(s);
    let x = datetime_fields(p)->Some_0;
    let t = spec_parse_datetime(s, fsp, tz)->Ok_0;
    if !t.is_zero_spec() {
        crate::parse::lemma_parts_digits(s);
        let y = if x.7 { crate::parse::adjust_year(x.0) } else { x.0 };
        if x.0 == 0 && x.1 == 0 && x.2 == 0 && x.3 == 0 && x.4 == 0 && x.5 == 0 {
        } else {
            assert(all_digits(x.6)) by {
                if p.len() == 2 || p.len() == 7 {
                    assert(x.6 == p[p.len() - 1]);
                } else {
                    assert(x.6.len() == 0);
                }
            }
            lemma_frac_bound(x.6, f as nat);
            let base = pow10((9 - f) as nat);
            let fr = spec_parse_frac(x.6, f as nat);
            crate::parse::lemma_pow10_add(f as nat, (9 - f) as nat);
            reveal_with_fuel(pow10, 10);
            let nanos = fr * base;
            vstd::arithmetic::mul::lemma_mul_inequality(fr as int, pow10(f as nat) as int, base as int);
            assert(pow10(9) == 1_000_000_000);
            assert(nanos <= 1_000_000_000);
            let c0 = CivilTime {
                year: y as i32,
                month: x.1 as u32,
                day: x.2 as u32,
                hour: x.3 as u32,
                minute: x.4 as u32,
                second: x.5 as u32,
                nanos: (nanos % 1_000_000_000) as u32,
            };
            assert(y >= 0);
            crate::calendar::lemma_shifted_wf(c0, (nanos / 1_000_000_000) as int);
            if nanos < 1_000_000_000 {
                vstd::arithmetic::div_mod::lemma_mod_multiples_basic(fr as int, base as int);
                assert(c0.nanos == nanos);
                assert(fr * base == base * fr) by (nonlinear_arith);
            } else {
                assert(c0.nanos == 0);
            }
        }
    }
}

proof fn lemma_frac_back(nanos: nat, f: nat)
    requires
        f <= 6,
        nanos < 1_000_000_000,
        nanos % pow10((9 - f) as nat) == 0,
    ensures
        spec_parse_frac(
            if f > 0 { pad(nanos / pow10((9 - f) as nat), f) } else { Seq::empty() },
            f,
        ) * pow10((9 - f) as nat) == nanos,
{
    reveal_with_fuel(pow10, 10);
    let base = pow10((9 - f) as nat);
    lemma_pow10_pos((9 - f) as nat);
    crate::parse::lemma_pow10_add(f, (9 - f) as nat);
    assert(pow10(f) * base == 1_000_000_000);
    vstd::arithmetic::div_mod::lemma_fundamental_div_mod(nanos as int, base as int);
    let q = nanos / base;
    assert(nanos == base * q);
    assert(q < pow10(f)) by (nonlinear_arith)
        requires nanos == base * q, nanos < 1_000_000_000, pow10(f) * base == 1_000_000_000, base > 0;
    let fr = spec_parse_frac(if f > 0 { pad(q, f) } else { Seq::empty() }, f);
    if f > 0 {
        lemma_pad(q, f);
        vstd::arithmetic::div_mod::lemma_small_mod(q, pow10(f));
        let pq = pad(q, f);
        assert(pq.len() == f);
        assert(digits_value(pq) == q);
        assert(pow10(0) == 1);
        assert(fr == digits_value(pq) * pow10((f - pq.len()) as nat));
        assert((f - pq.len()) as nat == 0);
        assert(pow10((f - pq.len()) as nat) == 1);
        assert(fr == digits_value(pq)) by (nonlinear_arith)
            requires fr == digits_value(pq) * 1;
        assert(fr == q);
    } else {
        assert(fr == 0);
        assert(pow10(0) == 1);
        assert(q == 0);
    }
    assert(fr * base == base * q) by (nonlinear_arith)
        requires fr == q;
}

#[verifier::rlimit(100)]
proof fn lemma_render_parse_shaped(t: Time, fsp: int)
    requires
        crate::time::spec_check_fsp(fsp) is Ok,
        parsed_shape(t, crate::time::spec_check_fsp(fsp)->Ok_0, t.tz),
    ensures
        spec_parse_datetime(display_text(t), fsp, t.tz) == Ok::<Time, crate::error::Error>(t),
{
    let f = crate::time::spec_check_fsp(fsp)->Ok_0;
    let c = t.local;
    reveal_with_fuel(pow10, 10);
    let yy = pad(c.year as nat, 4);
    let mo = pad(c.month as nat, 2);
    let dd = pad(c.day as nat, 2);
    let hh = pad(c.hour as nat, 2);
    let mi = pad(c.minute as nat, 2);
    let ss = pad(c.second as nat, 2);
    lemma_pad(c.year as nat, 4);
    lemma_pad(c.month as nat, 2);
    lemma_pad(c.day as nat, 2);
    lemma_pad(c.hour as nat, 2);
    lemma_pad(c.minute as nat, 2);
    lemma_pad(c.second as nat, 2);
    let s1 = yy;
    let s2 = s1.push(45u8) + mo;
    let s3 = s2.push(45u8) + dd;
    let s4 = s3.push(32u8) + hh;
    let s5 = s4.push(58u8) + mi;
    let s6 = s5.push(58u8) + ss;
    lemma_split_digits_only(s1);
    lemma_split_next(s1, 45u8, mo);
    lemma_split_next(s2, 45u8, dd);
    lemma_split_next(s3, 32u8, hh);
    lemma_split_next(s4, 58u8, mi);
    lemma_split_next(s5, 58u8, ss);
    assert(date_text(c) + seq![32u8] + clock_text(c) =~= s6);
    let shown = display_text(t);
    let with_frac = !t.is_zero_spec() && t.fsp > 0;
    let ff = frac_digits(c, t.fsp as nat);
    let s7 = s6.push(46u8) + ff;
    if with_frac {
        lemma_pad(c.nanos as nat / pow10((9 - t.fsp) as nat), t.fsp as nat);
        lemma_split_next(s6, 46u8, ff);
        assert(shown =~= s7);
        assert(s7.last() == ff.last());
    } else {
        if !t.is_zero_spec() {
            assert(frac_text(c, t.fsp as nat) =~= Seq::<u8>::empty());
        }
        assert(shown =~= s6);
        assert(s6.last() == ss.last());
    }
    assert(shown[0] == yy[0]);
    lemma_trim_digit_ends(shown);
    let p = datetime_parts(shown);
    let parts6 = seq![yy, mo, dd, hh, mi, ss];
    if with_frac {
        assert(split_non_digits(shown) == parts6.push(ff));
        assert(p == parts6.push(ff)) by {
            let q = parts6.push(ff);
            assert(forall|i: int| 0 <= i < q.len() ==> (#[trigger] q[i]).len() != 0);
        }
    } else {
        assert(split_non_digits(shown) == parts6);
        assert(p == parts6) by {
            assert(forall|i: int| 0 <= i < parts6.len() ==> (#[trigger] parts6[i]).len() != 0);
        }
    }
    lemma_field_of_pad(c.year as nat, 4);
    lemma_field_of_pad(c.month as nat, 2);
    lemma_field_of_pad(c.day as nat, 2);
    lemma_field_of_pad(c.hour as nat, 2);
    lemma_field_of_pad(c.minute as nat, 2);
    lemma_field_of_pad(c.second as nat, 2);
    let u = spec_parse_datetime(shown, fsp, t.tz);
    if t.is_zero_spec() {
        assert(u == Ok::<Time, crate::error::Error>(Time { local: crate::time::zero_civil(), tz: t.tz, tp: crate::types::DATETIME, fsp: 0 }));
    } else {
        assert(t.fsp == f);
        lemma_frac_back(c.nanos as nat, f as nat);
        assert(ff == frac_digits(c, f as nat));
        assert(c.nanos / 1_000_000_000 == 0);
        crate::time::lemma_shift_zero(c);
        assert(u == Ok::<Time, crate::error::Error>(Time { local: c, tz: t.tz, tp: crate::types::DATETIME, fsp: f }));
    }
}

/// Rendering a parsed time and parsing the text again, with the same
/// precision and offset, gives the same time: the same instant, type and
/// precision, and so the same text.
pub proof fn lemma_render_parse(s: Seq<u8>, fsp: int, tz: i32)
    requires
        spec_parse_datetime(s, fsp, tz) is Ok,
    ensures
        ({
            let t = spec_parse_datetime(s, fsp, tz)->Ok_0;
            spec_parse_datetime(display_text(t), fsp, tz) == Ok::<Time, crate::error::Error>(t)
        }),
{
    lemma_parse_shape(s, fsp, tz);
    lemma_render_parse_shaped(spec_parse_datetime(s, fsp, tz)->Ok_0, fsp);
}

} // verus!
