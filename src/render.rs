use vstd::prelude::*;

use crate::calendar::CivilTime;
use crate::time::{pow10, pow10_u32, Time};
use crate::types::DATE;

verus! {

/// The last `w` decimal digits of `n`, zero-padded, as ASCII.
pub open spec fn pad(n: nat, w: nat) -> Seq<u8>
    decreases w,
{
    if w == 0 {
        Seq::empty()
    } else {
        pad(n / 10, (w - 1) as nat).push((n % 10 + 48) as u8)
    }
}

/// `YYYY-MM-DD`.
pub open spec fn date_text(c: CivilTime) -> Seq<u8> {
    pad(c.year as nat, 4) + seq![45u8] + pad(c.month as nat, 2) + seq![45u8] + pad(c.day as nat, 2)
}

/// `HH:MM:SS`.
pub open spec fn clock_text(c: CivilTime) -> Seq<u8> {
    pad(c.hour as nat, 2) + seq![58u8] + pad(c.minute as nat, 2) + seq![58u8] + pad(
        c.second as nat,
        2,
    )
}

/// The first `fsp` digits of the fraction of a second.
pub open spec fn frac_digits(c: CivilTime, fsp: nat) -> Seq<u8> {
    pad(c.nanos as nat / pow10((9 - fsp) as nat), fsp)
}

/// `.` and the fraction digits when `fsp > 0`, else nothing.
pub open spec fn frac_text(c: CivilTime, fsp: nat) -> Seq<u8> {
    if fsp > 0 {
        seq![46u8] + frac_digits(c, fsp)
    } else {
        Seq::empty()
    }
}

/// How a time is written: `YYYY-MM-DD` for DATE, else `YYYY-MM-DD HH:MM:SS`
/// with `fsp` fraction digits; the zero sentinel as `0000-00-00` or
/// `0000-00-00 00:00:00`.
pub open spec fn display_text(t: Time) -> Seq<u8> {
    if t.tp == DATE {
        date_text(t.local)
    } else if t.is_zero_spec() {
        date_text(t.local) + seq![32u8] + clock_text(t.local)
    } else {
        date_text(t.local) + seq![32u8] + clock_text(t.local) + frac_text(t.local, t.fsp as nat)
    }
}

/// The digits of a time as a number: `YYYYMMDD` for DATE, else
/// `YYYYMMDDHHMMSS` with `fsp` fraction digits.
pub open spec fn numeric_text(t: Time) -> Seq<u8> {
    let c = t.local;
    let ymd = pad(c.year as nat, 4) + pad(c.month as nat, 2) + pad(c.day as nat, 2);
    if t.tp == DATE {
        ymd
    } else {
        ymd + pad(c.hour as nat, 2) + pad(c.minute as nat, 2) + pad(c.second as nat, 2)
            + frac_text(c, t.fsp as nat)
    }
}

/// `s` without leading zeros, keeping the digit before a `.` or a lone `0`.
pub open spec fn strip_zeros(s: Seq<u8>) -> Seq<u8>
    decreases s.len(),
{
    if s.len() > 1 && s[0] == 48 && s[1] != 46 {
        strip_zeros(s.drop_first())
    } else {
        s
    }
}

/// The text of a time as a decimal number, in canonical form: its numeric
/// form without leading zeros; `0` for the zero sentinel.
pub open spec fn decimal_text(t: Time) -> Seq<u8> {
    if t.is_zero_spec() {
        seq![48u8]
    } else {
        strip_zeros(numeric_text(t))
    }
}

pub open spec fn ascii_chars(b: Seq<u8>) -> Seq<char> {
    b.map_values(|c: u8| c as char)
}

pub open spec fn is_ascii_bytes(b: Seq<u8>) -> bool {
    forall|i: int| 0 <= i < b.len() ==> #[trigger] b[i] < 128
}

proof fn lemma_pad_ascii(n: nat, w: nat)
    ensures
        is_ascii_bytes(pad(n, w)),
        pad(n, w).len() == w,
    decreases w,
{
    if w > 0 {
        lemma_pad_ascii(n / 10, (w - 1) as nat);
    }
}

/// Relies on `String::from_utf8` of std: ASCII bytes are valid UTF-8 and
/// become the same characters.
#[verifier::external_body]
pub(crate) fn ascii_string(b: Vec<u8>) -> (r: String)
    requires
        is_ascii_bytes(b@),
    ensures
        r@ == ascii_chars(b@),
{
    String::from_utf8(b).unwrap()
}

fn push_padded(v: &mut Vec<u8>, n: u32, w: usize)
    requires
        w <= 10,
    ensures
        final(v)@ == old(v)@ + pad(n as nat, w as nat),
    decreases w,
{
    if w > 0 {
        push_padded(v, n / 10, w - 1);
        v.push((n % 10) as u8 + 48);
        assert(v@ =~= old(v)@ + pad(n as nat, w as nat));
    }
}

fn push_frac(v: &mut Vec<u8>, c: &CivilTime, fsp: u8)
    requires
        fsp <= 6,
    ensures
        final(v)@ == old(v)@ + frac_text(*c, fsp as nat),
{
    if fsp > 0 {
        v.push(46);
        let base = pow10_u32(9 - fsp as u32);
        proof {
            reveal_with_fuel(pow10, 10);
        }
        let digits = c.nanos / base;
        push_padded(v, digits, fsp as usize);
        assert(v@ =~= old(v)@ + frac_text(*c, fsp as nat));
    } else {
        assert(v@ =~= old(v)@ + frac_text(*c, fsp as nat));
    }
}

fn push_ymd(v: &mut Vec<u8>, c: &CivilTime, sep: bool)
    requires
        0 <= c.year,
    ensures
        sep ==> final(v)@ == old(v)@ + date_text(*c),
        !sep ==> final(v)@ == old(v)@ + pad(c.year as nat, 4) + pad(c.month as nat, 2) + pad(
            c.day as nat,
            2,
        ),
{
    push_padded(v, c.year as u32, 4);
    if sep {
        v.push(45);
    }
    push_padded(v, c.month, 2);
    if sep {
        v.push(45);
    }
    push_padded(v, c.day, 2);
    if sep {
        assert(v@ =~= old(v)@ + date_text(*c));
    } else {
        assert(v@ =~= old(v)@ + pad(c.year as nat, 4) + pad(c.month as nat, 2) + pad(c.day as nat, 2));
    }
}

fn push_hms(v: &mut Vec<u8>, c: &CivilTime, sep: bool)
    ensures
        sep ==> final(v)@ == old(v)@ + clock_text(*c),
        !sep ==> final(v)@ == old(v)@ + pad(c.hour as nat, 2) + pad(c.minute as nat, 2) + pad(
            c.second as nat,
            2,
        ),
{
    push_padded(v, c.hour, 2);
    if sep {
        v.push(58);
    }
    push_padded(v, c.minute, 2);
    if sep {
        v.push(58);
    }
    push_padded(v, c.second, 2);
    if sep {
        assert(v@ =~= old(v)@ + clock_text(*c));
    } else {
        assert(v@ =~= old(v)@ + pad(c.hour as nat, 2) + pad(c.minute as nat, 2) + pad(c.second as nat, 2));
    }
}

proof fn lemma_concat_ascii(a: Seq<u8>, b: Seq<u8>)
    requires
        is_ascii_bytes(a),
        is_ascii_bytes(b),
    ensures
        is_ascii_bytes(a + b),
{
    assert forall|i: int| 0 <= i < (a + b).len() implies #[trigger] (a + b)[i] < 128 by {
        if i < a.len() {
            assert((a + b)[i] == a[i]);
        } else {
            assert((a + b)[i] == b[i - a.len()]);
        }
    }
}

impl Time {
    /// The bytes of `to_string`.
    pub fn display_bytes(&self) -> (r: Vec<u8>)
        requires
            self.wf(),
        ensures
            r@ == display_text(*self),
            is_ascii_bytes(r@),
    {
        let mut v: Vec<u8> = Vec::new();
        push_ymd(&mut v, &self.local, true);
        if self.tp != DATE {
            v.push(32);
            push_hms(&mut v, &self.local, true);
            if !self.is_zero() {
                push_frac(&mut v, &self.local, self.fsp);
            }
        }
        assert(v@ =~= display_text(*self));
        proof {
            let c = self.local;
            lemma_pad_ascii(c.year as nat, 4);
            lemma_pad_ascii(c.month as nat, 2);
            lemma_pad_ascii(c.day as nat, 2);
            lemma_pad_ascii(c.hour as nat, 2);
            lemma_pad_ascii(c.minute as nat, 2);
            lemma_pad_ascii(c.second as nat, 2);
            lemma_pad_ascii(c.nanos as nat / pow10((9 - self.fsp) as nat), self.fsp as nat);
            assert forall|i: int| 0 <= i < v@.len() implies #[trigger] v@[i] < 128 by {
                lemma_text_ascii(*self, i);
            }
        }
        v
    }

    /// The time written as `YYYY-MM-DD[ HH:MM:SS[.fff…]]`.
    pub fn to_string(&self) -> (r: String)
        requires
            self.wf(),
        ensures
            r@ == ascii_chars(display_text(*self)),
    {
        ascii_string(self.display_bytes())
    }

    /// The digits of the time as a number, `YYYYMMDD[HHMMSS[.fff…]]`.
    pub fn to_numeric_str(&self) -> (r: Vec<u8>)
        requires
            self.wf(),
        ensures
            r@ == numeric_text(*self),
    {
        let mut v: Vec<u8> = Vec::new();
        push_ymd(&mut v, &self.local, false);
        if self.tp != DATE {
            push_hms(&mut v, &self.local, false);
            push_frac(&mut v, &self.local, self.fsp);
        }
        assert(v@ =~= numeric_text(*self));
        v
    }

    /// The time as the text of a decimal number: its numeric form, or `0`
    /// for the zero sentinel.
    pub fn to_decimal(&self) -> (r: Vec<u8>)
        requires
            self.wf(),
        ensures
            r@ == decimal_text(*self),
    {
        if self.is_zero() {
            let mut v: Vec<u8> = Vec::new();
            v.push(48);
            assert(v@ =~= seq![48u8]);
            return v;
        }
        let s = self.to_numeric_str();
        let n = s.len();
        let mut i: usize = 0;
        assert(s@.subrange(0, n as int) =~= s@);
        while n > 0 && i < n - 1 && s[i] == 48 && s[i + 1] != 46
            invariant
                i < n || n == 0,
                n == s@.len(),
                strip_zeros(s@) == strip_zeros(s@.subrange(i as int, n as int)),
            decreases n - i,
        {
            assert(s@.subrange(i as int, n as int).drop_first() =~= s@.subrange(i + 1, n as int));
            i = i + 1;
        }
        let mut r: Vec<u8> = Vec::new();
        let mut j: usize = i;
        while j < n
            invariant
                i <= j <= n,
                n == s@.len(),
                r@ == s@.subrange(i as int, j as int),
            decreases n - j,
        {
            r.push(s[j]);
            assert(r@ =~= s@.subrange(i as int, j + 1));
            j = j + 1;
        }
        r
    }
}

proof fn lemma_text_ascii(t: Time, i: int)
    requires
        t.wf(),
        0 <= i < display_text(t).len(),
    ensures
        display_text(t)[i] < 128,
{
    let c = t.local;
    lemma_pad_ascii(c.year as nat, 4);
    lemma_pad_ascii(c.month as nat, 2);
    lemma_pad_ascii(c.day as nat, 2);
    lemma_pad_ascii(c.hour as nat, 2);
    lemma_pad_ascii(c.minute as nat, 2);
    lemma_pad_ascii(c.second as nat, 2);
    lemma_pad_ascii(c.nanos as nat / pow10((9 - t.fsp) as nat), t.fsp as nat);
    let d1 = pad(c.year as nat, 4) + seq![45u8];
    lemma_concat_ascii(pad(c.year as nat, 4), seq![45u8]);
    lemma_concat_ascii(d1, pad(c.month as nat, 2));
    lemma_concat_ascii(d1 + pad(c.month as nat, 2), seq![45u8]);
    lemma_concat_ascii(d1 + pad(c.month as nat, 2) + seq![45u8], pad(c.day as nat, 2));
    let h1 = pad(c.hour as nat, 2) + seq![58u8];
    lemma_concat_ascii(pad(c.hour as nat, 2), seq![58u8]);
    lemma_concat_ascii(h1, pad(c.minute as nat, 2));
    lemma_concat_ascii(h1 + pad(c.minute as nat, 2), seq![58u8]);
    lemma_concat_ascii(h1 + pad(c.minute as nat, 2) + seq![58u8], pad(c.second as nat, 2));
    lemma_concat_ascii(date_text(c), seq![32u8]);
    lemma_concat_ascii(date_text(c) + seq![32u8], clock_text(c));
    lemma_concat_ascii(seq![46u8], frac_digits(c, t.fsp as nat));
    lemma_concat_ascii(date_text(c) + seq![32u8] + clock_text(c), frac_text(c, t.fsp as nat));
}

} // verus!
