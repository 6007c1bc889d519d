use vstd::prelude::*;

use crate::error::Error;
use crate::keys::{memcmp_value, partial_be, pow256};

verus! {

/// Flag bytes that open an encoded datum.
pub const NIL_FLAG: u8 = 0;

pub const BYTES_FLAG: u8 = 1;

pub const COMPACT_BYTES_FLAG: u8 = 2;

pub const INT_FLAG: u8 = 3;

pub const UINT_FLAG: u8 = 4;

pub const FLOAT_FLAG: u8 = 5;

pub const DECIMAL_FLAG: u8 = 6;

pub const DURATION_FLAG: u8 = 7;

pub const VARINT_FLAG: u8 = 8;

pub const UVARINT_FLAG: u8 = 9;

pub open spec fn pow128(n: nat) -> nat
    decreases n,
{
    if n == 0 {
        1
    } else {
        128 * pow128((n - 1) as nat)
    }
}

/// Index just after the LEB128 integer that starts at `i`: its last byte is
/// below 0x80, it has at most 10 bytes, and a 10th byte is at most 1.
pub open spec fn varint_end(s: Seq<u8>, i: int) -> Option<int> {
    if exists|j: int| i <= j < i + 10 && j < s.len() && s[j] < 128 && (forall|m: int| i <= m < j ==> s[m] >= 128) {
        let j = choose|j: int| i <= j < i + 10 && j < s.len() && s[j] < 128 && (forall|m: int| i <= m < j ==> s[m] >= 128);
        if j - i == 9 && s[j] > 1 {
            None
        } else {
            Some(j + 1)
        }
    } else {
        None
    }
}

/// Value of the LEB128 bytes `s[i..j]`, least significant group first.
pub open spec fn varint_value(s: Seq<u8>, i: int, j: int) -> nat
    decreases j - i,
{
    if j <= i {
        0
    } else {
        varint_value(s, i, j - 1) + (s[j - 1] % 128) as nat * pow128((j - 1 - i) as nat)
    }
}

/// Signed value of a zigzag-encoded integer.
pub open spec fn zigzag(v: nat) -> int {
    if v % 2 == 0 {
        (v / 2) as int
    } else {
        -((v + 1) / 2)
    }
}

/// Bytes taken by `n` decimal digits (0 to 8) in the binary decimal form.
pub open spec fn dig2bytes(n: int) -> int {
    if n == 0 {
        0
    } else if n <= 2 {
        1
    } else if n <= 4 {
        2
    } else if n <= 6 {
        3
    } else {
        4
    }
}

/// Bytes of the binary form of a decimal with precision `prec` and `frac`
/// fraction digits: 4 bytes for each 9 digits of either part, fewer for the rest.
pub open spec fn decimal_bin_size(prec: int, frac: int) -> int {
    let intg = prec - frac;
    (intg / 9) * 4 + dig2bytes(intg % 9) + (frac / 9) * 4 + dig2bytes(frac % 9)
}

/// Index just after the memcomparable byte groups that start at `j`: groups of
/// 8 bytes and a marker, the last group's marker below 0xFF.
pub open spec fn group_end(s: Seq<u8>, j: int) -> Option<int>
    decreases s.len() - j,
{
    if j < 0 || j + 9 > s.len() {
        None
    } else if s[j + 8] == 255 {
        group_end(s, j + 9)
    } else {
        Some(j + 9)
    }
}

/// Index just after the encoded datum that starts at `i`; `None` when it is
/// cut short or of a kind this codec does not skip.
pub open spec fn datum_end(s: Seq<u8>, i: int) -> Option<int> {
    if i < 0 || i >= s.len() {
        None
    } else {
        let f = s[i];
        if f == NIL_FLAG {
            Some(i + 1)
        } else if f == INT_FLAG || f == UINT_FLAG || f == FLOAT_FLAG || f == DURATION_FLAG {
            if i + 9 <= s.len() {
                Some(i + 9)
            } else {
                None
            }
        } else if f == VARINT_FLAG || f == UVARINT_FLAG {
            varint_end(s, i + 1)
        } else if f == COMPACT_BYTES_FLAG {
            match varint_end(s, i + 1) {
                Some(j) => {
                    let n = zigzag(varint_value(s, i + 1, j));
                    if n >= 0 && j + n <= s.len() {
                        Some(j + n)
                    } else {
                        None
                    }
                },
                None => None,
            }
        } else if f == BYTES_FLAG {
            group_end(s, i + 1)
        } else if f == DECIMAL_FLAG {
            if i + 3 <= s.len() && s[i + 1] >= s[i + 2] {
                let e = i + 3 + decimal_bin_size(s[i + 1] as int, s[i + 2] as int);
                if e <= s.len() {
                    Some(e)
                } else {
                    None
                }
            } else {
                None
            }
        } else {
            None
        }
    }
}

/// The integer held by the datum `s[i..e]`: a zigzag varint or a
/// memcomparable 8-byte integer.
pub open spec fn datum_int(s: Seq<u8>, i: int, e: int) -> Option<int> {
    if s[i] == VARINT_FLAG {
        Some(zigzag(varint_value(s, i + 1, e)))
    } else if s[i] == INT_FLAG {
        Some(memcmp_value(s.subrange(i + 1, i + 9)))
    } else {
        None
    }
}

/// The columns of an encoded row value from byte `i` on: pairs of a column
/// id datum and a value datum, in record order.
#[verifier::opaque]
pub open spec fn row_pairs(s: Seq<u8>, i: int) -> Option<Seq<(i64, Seq<u8>)>>
    decreases s.len() - i,
{
    if i < 0 || i >= s.len() {
        Some(Seq::empty())
    } else {
        match datum_end(s, i) {
            None => None,
            Some(k) => match datum_end(s, k) {
                None => None,
                Some(e) => match datum_int(s, i, k) {
                    None => None,
                    Some(id) => if i64::MIN <= id <= i64::MAX && k > i && e > k && e <= s.len() {
                        match row_pairs(s, e) {
                            None => None,
                            Some(rest) => Some(seq![(id as i64, s.subrange(k, e))] + rest),
                        }
                    } else {
                        None
                    },
                },
            },
        }
    }
}

/// The pairs whose id is one of `cols`, in order.
pub open spec fn keep_cols(p: Seq<(i64, Seq<u8>)>, cols: Seq<i64>) -> Seq<(i64, Seq<u8>)>
    decreases p.len(),
{
    if p.len() == 0 {
        Seq::empty()
    } else if cols.contains(p[0].0) {
        seq![p[0]] + keep_cols(p.drop_first(), cols)
    } else {
        keep_cols(p.drop_first(), cols)
    }
}

/// What `cut_row` gives: nothing for no columns, an empty or null value;
/// else the requested columns of the record in record order. The whole
/// record is walked, so one holding a datum of a kind that `datum_end`
/// cannot skip is refused.
pub open spec fn spec_cut_row(s: Seq<u8>, cols: Seq<i64>) -> Result<Seq<(i64, Seq<u8>)>, Error> {
    if cols.len() == 0 || s.len() == 0 || (s.len() == 1 && s[0] == NIL_FLAG) {
        Ok(Seq::empty())
    } else {
        match row_pairs(s, 0) {
            None => Err(Error::Decode),
            Some(p) => Ok(keep_cols(p, cols)),
        }
    }
}

/// The contents of a list of (column id, encoded datum) pairs.
pub open spec fn pair_views(v: Seq<(i64, Vec<u8>)>) -> Seq<(i64, Seq<u8>)> {
    v.map_values(|p: (i64, Vec<u8>)| (p.0, p.1@))
}

pub(crate) fn read_varint(s: &[u8], i: usize) -> (r: Option<(usize, u64)>)
    ensures
        r is Some <==> varint_end(s@, i as int) is Some,
        r is Some ==> r->Some_0.0 as int == varint_end(s@, i as int)->Some_0 && r->Some_0.1 as int
            == varint_value(s@, i as int, r->Some_0.0 as int),
{
    let mut j: usize = i;
    let mut v: u64 = 0;
    while j < s.len() && j - i < 9 && s[j] >= 128
        invariant
            i <= j <= i + 9,
            forall|m: int| i <= m < j ==> s@[m] >= 128,
            v == varint_value(s@, i as int, j as int),
            v < pow128((j - i) as nat),
        decreases i + 9 - j,
    {
        proof {
            lemma_varint_step(s@, i as int, j as int);
            lemma_pow128_mono((j + 1 - i) as nat, 9);
            lemma_pow128_mono((j - i) as nat, 8);
            lemma_pow128_fixed();
        }
        v = v + (s[j] % 128) as u64 * pow128_u64(j - i);
        j = j + 1;
    }
    if j >= s.len() || s[j] >= 128 {
        proof {
            if exists|k: int| i <= k < i + 10 && k < s@.len() && s@[k] < 128 && (forall|m: int| i <= m < k ==> s@[m] >= 128) {
                let k = choose|k: int| i <= k < i + 10 && k < s@.len() && s@[k] < 128 && (forall|m: int| i <= m < k ==> s@[m] >= 128);
                if k < j {
                    assert(s@[k] >= 128);
                }
                assert(k >= j);
                if k > j {
                    assert(s@[j as int] >= 128);
                }
            }
        }
        return None;
    }
    proof {
        let k = choose|k: int| i <= k < i + 10 && k < s@.len() && s@[k] < 128 && (forall|m: int| i <= m < k ==> s@[m] >= 128);
        assert(i <= j as int && (j as int) < i + 10 && (j as int) < s@.len() && s@[j as int] < 128 && (forall|m: int| i <= m < j ==> s@[m] >= 128));
        if k < j {
            assert(s@[k] >= 128);
        } else if k > j {
            assert(s@[j as int] >= 128);
        }
    }
    if j - i == 9 && s[j] > 1 {
        return None;
    }
    proof {
        lemma_varint_last(s@, i as int, j as int);
    }
    let v2 = v + (s[j] % 128) as u64 * pow128_u64(j - i);
    Some((j + 1, v2))
}

proof fn lemma_varint_step(s: Seq<u8>, i: int, j: int)
    requires
        0 <= i <= j < s.len(),
        j < i + 10,
        varint_value(s, i, j) < pow128((j - i) as nat),
        s[j] >= 128,
    ensures
        varint_value(s, i, j + 1) == varint_value(s, i, j) + (s[j] % 128) as nat * pow128((j - i) as nat),
        varint_value(s, i, j + 1) < pow128((j + 1 - i) as nat),
{
    let a = varint_value(s, i, j);
    let p = pow128((j - i) as nat);
    let d = (s[j] % 128) as nat;
    assert(pow128((j + 1 - i) as nat) == 128 * p);
    assert(a + d * p < 128 * p) by (nonlinear_arith)
        requires a < p, d < 128;
}

proof fn lemma_varint_last(s: Seq<u8>, i: int, j: int)
    requires
        0 <= i <= j < s.len(),
        j < i + 10,
        varint_value(s, i, j) < pow128((j - i) as nat),
        s[j] < 128,
        j == i + 9 ==> s[j] <= 1,
    ensures
        varint_value(s, i, j + 1) < 0x1_0000_0000_0000_0000,
{
    let a = varint_value(s, i, j);
    let p = pow128((j - i) as nat);
    let d = (s[j] % 128) as nat;
    lemma_pow128_fixed();
    if j == i + 9 {
        assert(a + d * p < 0x1_0000_0000_0000_0000) by (nonlinear_arith)
            requires a < p, d <= 1, p == 0x8000_0000_0000_0000;
    } else {
        lemma_pow128_mono((j - i) as nat, 8);
        assert(a + d * p < 0x1_0000_0000_0000_0000) by (nonlinear_arith)
            requires a < p, d < 128, p <= 0x100_0000_0000_0000;
    }
}

proof fn lemma_pow128_mono(a: nat, b: nat)
    requires
        a <= b,
    ensures
        pow128(a) <= pow128(b),
    decreases b,
{
    if a < b {
        lemma_pow128_mono(a, (b - 1) as nat);
    }
}

proof fn lemma_pow128_fixed()
    ensures
        pow128(8) == 0x100_0000_0000_0000,
        pow128(9) == 0x8000_0000_0000_0000,
        pow128(10) == 0x40_0000_0000_0000_0000,
{
    reveal_with_fuel(pow128, 3);
    assert(pow128(2) == 16384);
    assert(pow128(4) == 16384 * 16384) by {
        reveal_with_fuel(pow128, 3);
        assert(pow128(3) == 128 * pow128(2));
    }
    assert(pow128(8) == 0x100_0000_0000_0000) by {
        assert(pow128(5) == 128 * pow128(4));
        assert(pow128(6) == 128 * pow128(5));
        assert(pow128(7) == 128 * pow128(6));
        assert(pow128(8) == 128 * pow128(7));
    }
    assert(pow128(9) == 128 * pow128(8));
    assert(pow128(10) == 128 * pow128(9));
}

fn pow128_u64(n: usize) -> (r: u64)
    requires
        n <= 9,
    ensures
        r == pow128(n as nat),
{
    proof {
        reveal_with_fuel(pow128, 10);
    }
    let mut r: u64 = 1;
    let mut k: usize = 0;
    while k < n
        invariant
            k <= n <= 9,
            r == pow128(k as nat),
        decreases n - k,
    {
        proof {
            lemma_pow128_mono(k as nat, 8);
            lemma_pow128_fixed();
        }
        r = r * 128;
        k = k + 1;
    }
    r
}

fn skip_groups(s: &[u8], j0: usize) -> (r: Option<usize>)
    ensures
        r is Some <==> group_end(s@, j0 as int) is Some,
        r is Some ==> r->Some_0 as int == group_end(s@, j0 as int)->Some_0,
{
    let mut j = j0;
    while j <= s.len() && s.len() - j >= 9 && s[j + 8] == 255
        invariant
            group_end(s@, j0 as int) == group_end(s@, j as int),
            j >= j0,
        decreases s.len() - j,
    {
        j = j + 9;
    }
    if j > s.len() || s.len() - j < 9 {
        return None;
    }
    Some(j + 9)
}

/// Index just after the encoded datum that starts at `i`.
pub fn skip_datum(s: &[u8], i: usize) -> (r: Option<usize>)
    ensures
        r is Some <==> datum_end(s@, i as int) is Some,
        r is Some ==> r->Some_0 as int == datum_end(s@, i as int)->Some_0,
{
    if i >= s.len() {
        return None;
    }
    let f = s[i];
    if f == NIL_FLAG {
        Some(i + 1)
    } else if f == INT_FLAG || f == UINT_FLAG || f == FLOAT_FLAG || f == DURATION_FLAG {
        if s.len() - i >= 9 {
            Some(i + 9)
        } else {
            None
        }
    } else if f == VARINT_FLAG || f == UVARINT_FLAG {
        match read_varint(s, i + 1) {
            Some((j, _)) => Some(j),
            None => None,
        }
    } else if f == COMPACT_BYTES_FLAG {
        match read_varint(s, i + 1) {
            Some((j, v)) => {
                if v % 2 == 1 {
                    return None;
                }
                let n = v / 2;
                if j as u64 <= s.len() as u64 && n <= (s.len() - j) as u64 {
                    Some(j + n as usize)
                } else {
                    None
                }
            },
            None => None,
        }
    } else if f == BYTES_FLAG {
        skip_groups(s, i + 1)
    } else if f == DECIMAL_FLAG {
        if s.len() - i < 3 || s[i + 1] < s[i + 2] {
            return None;
        }
        let prec = s[i + 1] as usize;
        let frac = s[i + 2] as usize;
        let intg = prec - frac;
        let size = (intg / 9) * 4 + dig2bytes_exec(intg % 9) + (frac / 9) * 4 + dig2bytes_exec(frac % 9);
        if size <= s.len() - i - 3 {
            Some(i + 3 + size)
        } else {
            None
        }
    } else {
        None
    }
}

fn dig2bytes_exec(n: usize) -> (r: usize)
    requires
        n < 9,
    ensures
        r == dig2bytes(n as int),
        r <= 4,
{
    if n == 0 {
        0
    } else if n <= 2 {
        1
    } else if n <= 4 {
        2
    } else if n <= 6 {
        3
    } else {
        4
    }
}

pub(crate) fn datum_i64(s: &[u8], i: usize, e: usize) -> (r: Option<i64>)
    requires
        i < e <= s@.len(),
        datum_end(s@, i as int) == Some(e as int),
    ensures
        r is Some <==> (datum_int(s@, i as int, e as int) is Some),
        r is Some ==> r->Some_0 as int == datum_int(s@, i as int, e as int)->Some_0,
{
    if s[i] == VARINT_FLAG {
        let (_, v) = match read_varint(s, i + 1) {
            Some(p) => p,
            None => {
                return None;
            },
        };
        if v % 2 == 0 {
            Some((v / 2) as i64)
        } else {
            assert((v - 1) / 2 < 0x8000_0000_0000_0000);
            Some(-(((v - 1) / 2) as i64) - 1)
        }
    } else if s[i] == INT_FLAG {
        let mut u: u64 = 0;
        let mut k: usize = i + 1;
        assert(e == i + 9);
        while k < e
            invariant
                e == i + 9,
                i + 1 <= k <= i + 9 <= s@.len(),
                u as int == partial_be(s@, i + 1, k as int),
                u < pow256((k - i - 1) as nat),
            decreases i + 9 - k,
        {
            proof {
                assert(u * 256 + s@[k as int] < pow256((k - i - 1) as nat) * 256) by (nonlinear_arith)
                    requires u < pow256((k - i - 1) as nat), s@[k as int] < 256;
                assert(pow256((k + 1 - i - 1) as nat) == pow256((k - i - 1) as nat) * 256);
                reveal_with_fuel(pow256, 9);
                assert(pow256((k - i - 1) as nat) <= 0x100_0000_0000_0000) by {
                    reveal_with_fuel(pow256, 9);
                }
            }
            u = u * 256 + s[k] as u64;
            k = k + 1;
        }
        proof {
            reveal_with_fuel(partial_be, 9);
            let b = s@.subrange(i + 1, i + 9);
            assert(partial_be(s@, i + 1, i + 9) == memcmp_value(b) + 0x8000_0000_0000_0000) by {
                reveal_with_fuel(partial_be, 9);
                assert(b[0] == s@[i + 1]);
                assert(b[1] == s@[i + 2]);
                assert(b[2] == s@[i + 3]);
                assert(b[3] == s@[i + 4]);
                assert(b[4] == s@[i + 5]);
                assert(b[5] == s@[i + 6]);
                assert(b[6] == s@[i + 7]);
                assert(b[7] == s@[i + 8]);
            }
        }
        let h: i64 = if u >= 0x8000_0000_0000_0000 {
            (u - 0x8000_0000_0000_0000) as i64
        } else {
            (u as i64) - 0x7fff_ffff_ffff_ffff - 1
        };
        Some(h)
    } else {
        None
    }
}

fn next_pair(data: &[u8], i: usize) -> (r: Result<(i64, usize, usize), Error>)
    requires
        i < data@.len(),
    ensures
        r is Err ==> row_pairs(data@, i as int) is None && r == Err::<(i64, usize, usize), Error>(
            Error::Decode,
        ),
        r is Ok ==> ({
            let (id, k, e) = r->Ok_0;
            &&& i < k < e <= data@.len()
            &&& (row_pairs(data@, i as int) is Some <==> row_pairs(data@, e as int) is Some)
            &&& row_pairs(data@, e as int) is Some ==> row_pairs(data@, i as int) == Some(
                seq![(id, data@.subrange(k as int, e as int))] + row_pairs(data@, e as int)->Some_0,
            )
        }),
{
    proof {
        reveal(row_pairs);
    }
    let k = match skip_datum(data, i) {
        Some(k) => k,
        None => {
            return Err(Error::Decode);
        },
    };
    let e = match skip_datum(data, k) {
        Some(e) => e,
        None => {
            return Err(Error::Decode);
        },
    };
    if !(k > i && e > k && e <= data.len()) {
        return Err(Error::Decode);
    }
    let id = match datum_i64(data, i, k) {
        Some(id) => id,
        None => {
            return Err(Error::Decode);
        },
    };
    proof {
        reveal(row_pairs);
    }
    Ok((id, k, e))
}

pub(crate) fn contains_id(cols: &[i64], id: i64) -> (r: bool)
    ensures
        r == cols@.contains(id),
{
    let mut c: usize = 0;
    while c < cols.len()
        invariant
            c <= cols@.len(),
            forall|m: int| 0 <= m < c ==> cols@[m] != id,
        decreases cols@.len() - c,
    {
        if cols[c] == id {
            assert(cols@[c as int] == id);
            return true;
        }
        c = c + 1;
    }
    false
}

fn copy_range(data: &[u8], k: usize, e: usize) -> (r: Vec<u8>)
    requires
        k <= e <= data@.len(),
    ensures
        r@ == data@.subrange(k as int, e as int),
{
    let mut val: Vec<u8> = Vec::new();
    let mut m: usize = k;
    while m < e
        invariant
            k <= m <= e <= data@.len(),
            val@ == data@.subrange(k as int, m as int),
        decreases e - m,
    {
        val.push(data[m]);
        assert(val@ =~= data@.subrange(k as int, m + 1));
        m = m + 1;
    }
    val
}

proof fn lemma_keep_step(
    p: Seq<(i64, Seq<u8>)>,
    rest: Seq<(i64, Seq<u8>)>,
    pair: (i64, Seq<u8>),
    cols: Seq<i64>,
)
    requires
        p == seq![pair] + rest,
    ensures
        cols.contains(pair.0) ==> keep_cols(p, cols) == seq![pair] + keep_cols(rest, cols),
        !cols.contains(pair.0) ==> keep_cols(p, cols) == keep_cols(rest, cols),
{
    assert(p[0] == pair);
    assert(p.drop_first() =~= rest);
}

/// Picks the columns `cols` out of an encoded row value, without decoding
/// their datums.
pub fn cut_row(data: &[u8], cols: &[i64]) -> (r: Result<Vec<(i64, Vec<u8>)>, Error>)
    ensures
        match spec_cut_row(data@, cols@) {
            Ok(p) => r is Ok && pair_views(r->Ok_0@) == p,
            Err(e) => r == Err::<Vec<(i64, Vec<u8>)>, Error>(e),
        },
{
    let mut out: Vec<(i64, Vec<u8>)> = Vec::new();
    if cols.len() == 0 || data.len() == 0 || (data.len() == 1 && data[0] == NIL_FLAG) {
        assert(pair_views(out@) =~= Seq::<(i64, Seq<u8>)>::empty());
        return Ok(out);
    }
    let mut i: usize = 0;
    assert(pair_views(out@) =~= Seq::<(i64, Seq<u8>)>::empty());
    while i < data.len()
        invariant
            0 <= i <= data@.len(),
            !(cols@.len() == 0 || data@.len() == 0 || (data@.len() == 1 && data@[0] == NIL_FLAG)),
            row_pairs(data@, 0) is Some <==> row_pairs(data@, i as int) is Some,
            row_pairs(data@, 0) is Some ==> keep_cols(row_pairs(data@, 0)->Some_0, cols@)
                == pair_views(out@) + keep_cols(row_pairs(data@, i as int)->Some_0, cols@),
        decreases data@.len() - i,
    {
        let (id, k, e) = match next_pair(data, i) {
            Ok(t) => t,
            Err(err) => {
                assert(row_pairs(data@, 0) is None);
                assert(!(cols@.len() == 0 || data@.len() == 0 || (data@.len() == 1 && data@[0] == NIL_FLAG)));
                assert(spec_cut_row(data@, cols@) == Err::<Seq<(i64, Seq<u8>)>, Error>(Error::Decode));
                return Err(err);
            },
        };
        let ghost rest = row_pairs(data@, e as int);
        let ghost pair = (id, data@.subrange(k as int, e as int));
        let ghost before = out@;
        let found = contains_id(cols, id);
        if found {
            let val = copy_range(data, k, e);
            out.push((id, val));
            assert(pair_views(out@) =~= pair_views(before) + seq![pair]);
        }
        proof {
            if rest is Some {
                let p = seq![pair] + rest->Some_0;
                lemma_keep_step(p, rest->Some_0, pair, cols@);
                if found {
                    assert(pair_views(before) + keep_cols(p, cols@) =~= pair_views(out@)
                        + keep_cols(rest->Some_0, cols@));
                }
            }
        }
        i = e;
    }
    proof {
        reveal(row_pairs);
    }
    assert(keep_cols(Seq::<(i64, Seq<u8>)>::empty(), cols@) =~= Seq::<(i64, Seq<u8>)>::empty());
    assert(pair_views(out@) + Seq::<(i64, Seq<u8>)>::empty() =~= pair_views(out@));
    Ok(out)
}

/// The projected columns are exactly the requested columns that the record
/// holds: an id occurs in the projection if and only if it is requested and
/// occurs among the record's columns.
pub proof fn lemma_projection_ids(p: Seq<(i64, Seq<u8>)>, cols: Seq<i64>, id: i64)
    ensures
        (exists|i: int| 0 <= i < keep_cols(p, cols).len() && (#[trigger] keep_cols(p, cols)[i]).0 == id)
            <==> (cols.contains(id) && exists|j: int| 0 <= j < p.len() && (#[trigger] p[j]).0 == id),
    decreases p.len(),
{
    if p.len() > 0 {
        let rest = p.drop_first();
        lemma_projection_ids(rest, cols, id);
        let k = keep_cols(p, cols);
        let kr = keep_cols(rest, cols);
        if exists|j: int| 0 <= j < p.len() && (#[trigger] p[j]).0 == id {
            let j = choose|j: int| 0 <= j < p.len() && (#[trigger] p[j]).0 == id;
            if j > 0 {
                assert(rest[j - 1].0 == id);
            }
        }
        if exists|j: int| 0 <= j < rest.len() && (#[trigger] rest[j]).0 == id {
            let j = choose|j: int| 0 <= j < rest.len() && (#[trigger] rest[j]).0 == id;
            assert(p[j + 1].0 == id);
        }
        if cols.contains(p[0].0) {
            assert(k == seq![p[0]] + kr);
            if exists|i: int| 0 <= i < kr.len() && (#[trigger] kr[i]).0 == id {
                let i = choose|i: int| 0 <= i < kr.len() && (#[trigger] kr[i]).0 == id;
                assert(k[i + 1].0 == id);
            }
            if exists|i: int| 0 <= i < k.len() && (#[trigger] k[i]).0 == id {
                let i = choose|i: int| 0 <= i < k.len() && (#[trigger] k[i]).0 == id;
                if i > 0 {
                    assert(kr[i - 1].0 == id);
                } else {
                    assert(p[0].0 == id);
                }
            }
            if p[0].0 == id {
                assert(k[0].0 == id);
            }
        } else {
            assert(k == kr);
            if p[0].0 == id {
                assert(!cols.contains(id));
            }
        }
    }
}

} // verus!
