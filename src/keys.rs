use vstd::prelude::*;

use crate::error::Error;

verus! {

/// Lexicographic byte order: `a` comes strictly before `b`.
pub open spec fn key_lt(a: Seq<u8>, b: Seq<u8>) -> bool
    decreases a.len(),
{
    if b.len() == 0 {
        false
    } else if a.len() == 0 {
        true
    } else if a[0] != b[0] {
        a[0] < b[0]
    } else {
        key_lt(a.drop_first(), b.drop_first())
    }
}

pub open spec fn key_le(a: Seq<u8>, b: Seq<u8>) -> bool {
    a == b || key_lt(a, b)
}

pub proof fn lemma_key_lt_irreflexive(a: Seq<u8>)
    ensures
        !key_lt(a, a),
    decreases a.len(),
{
    if a.len() > 0 {
        lemma_key_lt_irreflexive(a.drop_first());
    }
}

pub proof fn lemma_key_lt_transitive(a: Seq<u8>, b: Seq<u8>, c: Seq<u8>)
    requires
        key_lt(a, b),
        key_lt(b, c),
    ensures
        key_lt(a, c),
    decreases a.len(),
{
    if a.len() > 0 && a[0] == b[0] && b[0] == c[0] {
        lemma_key_lt_transitive(a.drop_first(), b.drop_first(), c.drop_first());
    }
}

pub proof fn lemma_key_lt_total(a: Seq<u8>, b: Seq<u8>)
    requires
        a != b,
    ensures
        key_lt(a, b) || key_lt(b, a),
    decreases a.len(),
{
    if a.len() > 0 && b.len() > 0 && a[0] == b[0] {
        if a.drop_first() == b.drop_first() {
            assert(a =~= seq![a[0]] + a.drop_first());
            assert(b =~= seq![b[0]] + b.drop_first());
        }
        lemma_key_lt_total(a.drop_first(), b.drop_first());
    } else if a.len() == 0 && b.len() == 0 {
        assert(a =~= b);
    }
}

pub proof fn lemma_key_lt_asymmetric(a: Seq<u8>, b: Seq<u8>)
    requires
        key_lt(a, b),
    ensures
        !key_lt(b, a),
{
    if key_lt(b, a) {
        lemma_key_lt_transitive(a, b, a);
        lemma_key_lt_irreflexive(a);
    }
}

pub proof fn lemma_le_lt_trans(a: Seq<u8>, b: Seq<u8>, c: Seq<u8>)
    ensures
        key_le(a, b) && key_lt(b, c) ==> key_lt(a, c),
        key_lt(a, b) && key_le(b, c) ==> key_lt(a, c),
        key_le(a, b) && key_le(b, c) ==> key_le(a, c),
{
    if key_lt(a, b) && key_lt(b, c) {
        lemma_key_lt_transitive(a, b, c);
    }
}

/// A prefix comes at or before the string it starts.
pub proof fn lemma_prefix_le(s: Seq<u8>, n: int)
    requires
        0 <= n <= s.len(),
    ensures
        key_le(s.subrange(0, n), s),
    decreases n,
{
    if n == s.len() {
        assert(s.subrange(0, n) =~= s);
    } else if n == 0 {
        assert(s.subrange(0, n).len() == 0);
    } else {
        lemma_prefix_le(s.drop_first(), n - 1);
        assert(s.subrange(0, n).drop_first() =~= s.drop_first().subrange(0, n - 1));
        assert(s.subrange(0, n)[0] == s[0]);
    }
}

/// Compares two byte strings: -1, 0 or 1.
pub fn compare_keys(a: &[u8], b: &[u8]) -> (r: i8)
    ensures
        r == -1 <==> key_lt(a@, b@),
        r == 0 <==> a@ == b@,
        r == 1 <==> key_lt(b@, a@),
        -1 <= r <= 1,
{
    let mut i: usize = 0;
    assert(a@.skip(0) =~= a@);
    assert(b@.skip(0) =~= b@);
    while i < a.len() && i < b.len()
        invariant
            i <= a@.len(),
            i <= b@.len(),
            a@.subrange(0, i as int) == b@.subrange(0, i as int),
            key_lt(a@, b@) == key_lt(a@.skip(i as int), b@.skip(i as int)),
            key_lt(b@, a@) == key_lt(b@.skip(i as int), a@.skip(i as int)),
        decreases a.len() - i,
    {
        if a[i] != b[i] {
            proof {
                lemma_key_lt_asymmetric_from(a@.skip(i as int), b@.skip(i as int));
                if a@ == b@ {
                    assert(a@[i as int] == b@[i as int]);
                }
            }
            return if a[i] < b[i] { -1 } else { 1 };
        }
        assert(a@.skip(i as int).drop_first() =~= a@.skip(i + 1));
        assert(b@.skip(i as int).drop_first() =~= b@.skip(i + 1));
        assert(a@.subrange(0, i + 1) =~= a@.subrange(0, i as int).push(a@[i as int]));
        assert(b@.subrange(0, i + 1) =~= b@.subrange(0, i as int).push(b@[i as int]));
        i = i + 1;
    }
    proof {
        if a@.len() == b@.len() {
            assert(a@ =~= a@.subrange(0, i as int));
            assert(b@ =~= b@.subrange(0, i as int));
        } else if a@.len() < b@.len() {
            assert(a@.skip(i as int).len() == 0);
            if a@ == b@ {
                assert(false);
            }
        } else {
            assert(b@.skip(i as int).len() == 0);
            if a@ == b@ {
                assert(false);
            }
        }
    }
    if a.len() == b.len() {
        0
    } else if a.len() < b.len() {
        -1
    } else {
        1
    }
}

proof fn lemma_key_lt_asymmetric_from(a: Seq<u8>, b: Seq<u8>)
    requires
        a.len() > 0,
        b.len() > 0,
        a[0] != b[0],
    ensures
        key_lt(a, b) == (a[0] < b[0]),
        key_lt(b, a) == (b[0] < a[0]),
{
}

/// The byte-wise successor of `k`: its last byte increased when that byte is
/// below 0xFF, else `k` with a 0x00 byte appended (also when `k` is empty).
pub open spec fn spec_prefix_next(k: Seq<u8>) -> Seq<u8> {
    if k.len() > 0 && k.last() < 255 {
        k.drop_last().push((k.last() + 1) as u8)
    } else {
        k.push(0u8)
    }
}

pub fn prefix_next(key: &[u8]) -> (r: Vec<u8>)
    ensures
        r@ == spec_prefix_next(key@),
{
    let n = key.len();
    let mut r: Vec<u8> = Vec::new();
    let bump = n > 0 && key[n - 1] < 255;
    let keep: usize = if bump { n - 1 } else { n };
    let mut j: usize = 0;
    while j < keep
        invariant
            keep <= n == key@.len(),
            j <= keep,
            r@ == key@.subrange(0, j as int),
        decreases keep - j,
    {
        r.push(key[j]);
        assert(r@ =~= key@.subrange(0, j + 1));
        j = j + 1;
    }
    if bump {
        r.push(key[n - 1] + 1);
        assert(r@ =~= spec_prefix_next(key@));
    } else {
        r.push(0);
        assert(key@.subrange(0, n as int) =~= key@);
        assert(r@ =~= spec_prefix_next(key@));
    }
    r
}

/// `prefix_next(k)` comes strictly after `k`.
pub proof fn lemma_prefix_next_greater(k: Seq<u8>)
    ensures
        key_lt(k, spec_prefix_next(k)),
{
    let r = spec_prefix_next(k);
    if k.len() > 0 && k.last() < 255 {
        assert(k.subrange(0, k.len() - 1) =~= r.subrange(0, k.len() - 1));
        lemma_lt_at(k, r, k.len() - 1);
    } else {
        lemma_lt_extend(k);
    }
}

/// `prefix_next(k)` differs from `k` in exactly one byte position: either the
/// last byte is one larger and the rest stays, or a 0x00 byte is added at the end.
pub proof fn lemma_prefix_next_one_byte(k: Seq<u8>)
    ensures
        ({
            let r = spec_prefix_next(k);
            ||| (r.len() == k.len() && r[k.len() - 1] == k.last() + 1 && forall|i: int|
                0 <= i < k.len() - 1 ==> r[i] == k[i])
            ||| r == k.push(0u8)
        }),
{
    let r = spec_prefix_next(k);
    if k.len() > 0 && k.last() < 255 {
        assert forall|i: int| 0 <= i < k.len() - 1 implies r[i] == k[i] by {
            assert(r[i] == k.drop_last()[i]);
        }
    }
}

proof fn lemma_lt_at(a: Seq<u8>, b: Seq<u8>, i: int)
    requires
        0 <= i < a.len(),
        i < b.len(),
        a.subrange(0, i) == b.subrange(0, i),
        a[i] < b[i],
    ensures
        key_lt(a, b),
    decreases i,
{
    if i > 0 {
        assert(a[0] == a.subrange(0, i)[0]);
        assert(b[0] == b.subrange(0, i)[0]);
        assert(a.drop_first().subrange(0, i - 1) =~= a.subrange(0, i).drop_first());
        assert(b.drop_first().subrange(0, i - 1) =~= b.subrange(0, i).drop_first());
        lemma_lt_at(a.drop_first(), b.drop_first(), i - 1);
    }
}

proof fn lemma_lt_extend(a: Seq<u8>)
    ensures
        key_lt(a, a.push(0u8)),
    decreases a.len(),
{
    if a.len() > 0 {
        assert(a.push(0u8).drop_first() =~= a.drop_first().push(0u8));
        lemma_lt_extend(a.drop_first());
    }
}

/// A key range `[start, end)`.
#[derive(Debug)]
pub struct KeyRange {
    pub start: Vec<u8>,
    pub end: Vec<u8>,
}

impl KeyRange {
    pub open spec fn contains(&self, k: Seq<u8>) -> bool {
        key_le(self.start@, k) && key_lt(k, self.end@)
    }

    /// A point range holds the one key `start`: `end` is `prefix_next(start)`.
    pub open spec fn is_point_spec(&self) -> bool {
        self.end@ == spec_prefix_next(self.start@)
    }

    pub fn get_start(&self) -> (r: &[u8])
        ensures
            r@ == self.start@,
    {
        self.start.as_slice()
    }

    pub fn get_end(&self) -> (r: &[u8])
        ensures
            r@ == self.end@,
    {
        self.end.as_slice()
    }
}

pub fn is_point(range: &KeyRange) -> (r: bool)
    ensures
        r == range.is_point_spec(),
{
    let n = prefix_next(range.start.as_slice());
    compare_keys(n.as_slice(), range.end.as_slice()) == 0
}

/// Leading byte of every table key.
pub const TABLE_PREFIX: u8 = 116;

/// Length of a row key: the table prefix, the table id, `_r`, the handle.
pub const RECORD_ROW_KEY_LEN: usize = 19;

/// Order-preserving 8-byte form of a signed integer: big-endian with the sign
/// bit flipped.
pub open spec fn memcmp_i64(v: i64) -> Seq<u8> {
    let u = (v as int + 0x8000_0000_0000_0000) as nat;
    seq![(u / 0x100_0000_0000_0000) as u8, ((u / 0x1_0000_0000_0000) % 256) as u8,
        ((u / 0x100_0000_0000) % 256) as u8, ((u / 0x1_0000_0000) % 256) as u8,
        ((u / 0x100_0000) % 256) as u8, ((u / 0x1_0000) % 256) as u8, ((u / 0x100) % 256) as u8,
        (u % 256) as u8]
}

/// The integer whose order-preserving form is the 8 bytes `b`.
pub open spec fn memcmp_value(b: Seq<u8>) -> int {
    ((((((b[0] as int * 256 + b[1]) * 256 + b[2]) * 256 + b[3]) * 256 + b[4]) * 256 + b[5])
        * 256 + b[6]) * 256 + b[7] - 0x8000_0000_0000_0000
}

/// The row key of the encoded handle `handle` in table `table_id`.
pub open spec fn row_key(table_id: i64, handle: Seq<u8>) -> Seq<u8> {
    seq![TABLE_PREFIX] + memcmp_i64(table_id) + seq![95u8, 114u8] + handle
}

pub fn encode_i64(buf: &mut Vec<u8>, v: i64)
    ensures
        final(buf)@ == old(buf)@ + memcmp_i64(v),
{
    let u: u64 = if v >= 0 {
        v as u64 + 0x8000_0000_0000_0000
    } else {
        ((v + 0x7fff_ffff_ffff_ffff) + 1) as u64
    };
    assert(u as int == v as int + 0x8000_0000_0000_0000);
    buf.push((u / 0x100_0000_0000_0000) as u8);
    buf.push(((u / 0x1_0000_0000_0000) % 256) as u8);
    buf.push(((u / 0x100_0000_0000) % 256) as u8);
    buf.push(((u / 0x1_0000_0000) % 256) as u8);
    buf.push(((u / 0x100_0000) % 256) as u8);
    buf.push(((u / 0x1_0000) % 256) as u8);
    buf.push(((u / 0x100) % 256) as u8);
    buf.push((u % 256) as u8);
    assert(buf@ =~= old(buf)@ + memcmp_i64(v));
}

/// Builds the row key of the encoded handle `handle` in table `table_id`.
pub fn encode_row_key(table_id: i64, handle: &[u8]) -> (r: Vec<u8>)
    ensures
        r@ == row_key(table_id, handle@),
{
    let mut k: Vec<u8> = Vec::new();
    k.push(TABLE_PREFIX);
    encode_i64(&mut k, table_id);
    k.push(95);
    k.push(114);
    let ghost mid = k@;
    let mut i: usize = 0;
    while i < handle.len()
        invariant
            i <= handle@.len(),
            k@ == mid + handle@.subrange(0, i as int),
        decreases handle@.len() - i,
    {
        k.push(handle[i]);
        assert(k@ =~= mid + handle@.subrange(0, i + 1));
        i = i + 1;
    }
    assert(handle@.subrange(0, handle@.len() as int) =~= handle@);
    assert(k@ =~= row_key(table_id, handle@));
    k
}

/// Whether `k` has the shape of a record key: the table prefix, 8 bytes of
/// table id, `_r`, and at least 8 more bytes.
pub open spec fn is_record_key(k: Seq<u8>) -> bool {
    k.len() >= RECORD_ROW_KEY_LEN && k[0] == TABLE_PREFIX && k[9] == 95 && k[10] == 114
}

/// Reads the handle of a record key.
pub fn decode_handle(key: &[u8]) -> (r: Result<i64, Error>)
    ensures
        r is Ok <==> is_record_key(key@),
        r is Ok ==> r->Ok_0 as int == memcmp_value(key@.subrange(11, 19)),
{
    if key.len() < RECORD_ROW_KEY_LEN || key[0] != TABLE_PREFIX || key[9] != 95 || key[10] != 114 {
        return Err(Error::Decode);
    }
    let mut u: u64 = 0;
    let mut i: usize = 11;
    while i < 19
        invariant
            11 <= i <= 19 <= key@.len(),
            u as int == partial_be(key@, 11, i as int),
            u < pow256((i - 11) as nat),
        decreases 19 - i,
    {
        proof {
            assert(u * 256 + key@[i as int] < pow256((i - 11) as nat) * 256) by (nonlinear_arith)
                requires u < pow256((i - 11) as nat), key@[i as int] < 256;
            assert(pow256((i + 1 - 11) as nat) == pow256((i - 11) as nat) * 256);
            assert(pow256((i - 11) as nat) * 256 <= 0x1_0000_0000_0000_0000) by {
                lemma_pow256_bound((i - 11) as nat);
            }
        }
        u = u * 256 + key[i] as u64;
        i = i + 1;
    }
    proof {
        reveal_with_fuel(partial_be, 9);
    }
    let h: i64 = if u >= 0x8000_0000_0000_0000 {
        (u - 0x8000_0000_0000_0000) as i64
    } else {
        (u as i64) - 0x7fff_ffff_ffff_ffff - 1
    };
    Ok(h)
}

pub open spec fn pow256(n: nat) -> nat
    decreases n,
{
    if n == 0 {
        1
    } else {
        256 * pow256((n - 1) as nat)
    }
}

proof fn lemma_pow256_bound(n: nat)
    requires
        n <= 7,
    ensures
        pow256(n) <= 0x100_0000_0000_0000,
    decreases n,
{
    reveal_with_fuel(pow256, 8);
}

/// Big-endian value of the bytes `k[from..to]`.
pub open spec fn partial_be(k: Seq<u8>, from: int, to: int) -> int
    decreases to - from,
{
    if to <= from {
        0
    } else {
        partial_be(k, from, to - 1) * 256 + k[to - 1]
    }
}

/// The row key part of a record key: its first `RECORD_ROW_KEY_LEN` bytes.
pub fn truncate_as_row_key(key: &[u8]) -> (r: Result<Vec<u8>, Error>)
    ensures
        r is Ok <==> key@.len() >= RECORD_ROW_KEY_LEN,
        r is Ok ==> r->Ok_0@ == key@.subrange(0, RECORD_ROW_KEY_LEN as int),
{
    if key.len() < RECORD_ROW_KEY_LEN {
        return Err(Error::Decode);
    }
    let mut r: Vec<u8> = Vec::new();
    let mut i: usize = 0;
    while i < RECORD_ROW_KEY_LEN
        invariant
            i <= RECORD_ROW_KEY_LEN <= key@.len(),
            r@ == key@.subrange(0, i as int),
        decreases RECORD_ROW_KEY_LEN - i,
    {
        r.push(key[i]);
        assert(r@ =~= key@.subrange(0, i + 1));
        i = i + 1;
    }
    Ok(r)
}

/// Value of big-endian bytes, most significant first.
pub open spec fn be_value(a: Seq<u8>) -> nat
    decreases a.len(),
{
    if a.len() == 0 {
        0
    } else {
        a[0] as nat * pow256((a.len() - 1) as nat) + be_value(a.drop_first())
    }
}

proof fn lemma_pow256_pos(n: nat)
    ensures
        pow256(n) > 0,
    decreases n,
{
    if n > 0 {
        lemma_pow256_pos((n - 1) as nat);
    }
}

proof fn lemma_be_bound(a: Seq<u8>)
    ensures
        be_value(a) < pow256(a.len()),
    decreases a.len(),
{
    if a.len() > 0 {
        let t = a.drop_first();
        lemma_be_bound(t);
        let p = pow256(t.len());
        assert(pow256(a.len()) == 256 * p);
        assert(a[0] as nat * p + be_value(t) < 256 * p) by (nonlinear_arith)
            requires a[0] < 256, be_value(t) < p;
    }
}

/// For strings of one length, byte order is the order of their big-endian values.
proof fn lemma_be_lt(a: Seq<u8>, b: Seq<u8>)
    requires
        a.len() == b.len(),
    ensures
        key_lt(a, b) <==> be_value(a) < be_value(b),
    decreases a.len(),
{
    if a.len() > 0 {
        let ta = a.drop_first();
        let tb = b.drop_first();
        lemma_be_lt(ta, tb);
        lemma_be_bound(ta);
        lemma_be_bound(tb);
        let p = pow256(ta.len());
        let x = a[0] as nat;
        let y = b[0] as nat;
        if x < y {
            assert(x * p + be_value(ta) < y * p + be_value(tb)) by (nonlinear_arith)
                requires x < y, be_value(ta) < p, be_value(tb) >= 0;
        } else if x > y {
            assert(y * p + be_value(tb) < x * p + be_value(ta)) by (nonlinear_arith)
                requires y < x, be_value(tb) < p, be_value(ta) >= 0;
        }
    }
}

proof fn lemma_be_memcmp(a: Seq<u8>)
    requires
        a.len() == 8,
    ensures
        memcmp_value(a) + 0x8000_0000_0000_0000 == be_value(a),
{
    reveal_with_fuel(pow256, 8);
    let t1 = a.drop_first();
    let t2 = t1.drop_first();
    let t3 = t2.drop_first();
    let t4 = t3.drop_first();
    let t5 = t4.drop_first();
    let t6 = t5.drop_first();
    let t7 = t6.drop_first();
    let t8 = t7.drop_first();
    assert(t1[0] == a[1] && t2[0] == a[2] && t3[0] == a[3] && t4[0] == a[4]);
    assert(t5[0] == a[5] && t6[0] == a[6] && t7[0] == a[7]);
    assert(be_value(t8) == 0);
    assert(be_value(t7) == a[7] as nat);
    assert(be_value(t6) == a[6] as nat * 256 + be_value(t7));
    assert(be_value(t5) == a[5] as nat * 0x1_0000 + be_value(t6));
    assert(be_value(t4) == a[4] as nat * 0x100_0000 + be_value(t5));
    assert(be_value(t3) == a[3] as nat * 0x1_0000_0000 + be_value(t4));
    assert(be_value(t2) == a[2] as nat * 0x100_0000_0000 + be_value(t3));
    assert(be_value(t1) == a[1] as nat * 0x1_0000_0000_0000 + be_value(t2));
    assert(be_value(a) == a[0] as nat * 0x100_0000_0000_0000 + be_value(t1));
}

proof fn lemma_common_prefix_lt(a: Seq<u8>, b: Seq<u8>, n: int)
    requires
        0 <= n <= a.len(),
        n <= b.len(),
        a.subrange(0, n) == b.subrange(0, n),
    ensures
        key_lt(a, b) == key_lt(a.subrange(n, a.len() as int), b.subrange(n, b.len() as int)),
    decreases n,
{
    if n == 0 {
        assert(a.subrange(0, a.len() as int) =~= a);
        assert(b.subrange(0, b.len() as int) =~= b);
    } else {
        assert(a[0] == a.subrange(0, n)[0]);
        assert(b[0] == b.subrange(0, n)[0]);
        assert(a.drop_first().subrange(0, n - 1) =~= a.subrange(0, n).drop_first());
        assert(b.drop_first().subrange(0, n - 1) =~= b.subrange(0, n).drop_first());
        lemma_common_prefix_lt(a.drop_first(), b.drop_first(), n - 1);
        assert(a.drop_first().subrange(n - 1, a.len() - 1) =~= a.subrange(n, a.len() as int));
        assert(b.drop_first().subrange(n - 1, b.len() - 1) =~= b.subrange(n, b.len() as int));
    }
}

/// Two row keys of one table are in byte order exactly when their handles
/// are in order.
pub proof fn lemma_handle_order(k1: Seq<u8>, k2: Seq<u8>)
    requires
        k1.len() == RECORD_ROW_KEY_LEN,
        k2.len() == RECORD_ROW_KEY_LEN,
        k1.subrange(0, 11) == k2.subrange(0, 11),
    ensures
        key_lt(k1, k2) <==> memcmp_value(k1.subrange(11, 19)) < memcmp_value(k2.subrange(11, 19)),
{
    lemma_common_prefix_lt(k1, k2, 11);
    lemma_be_lt(k1.subrange(11, 19), k2.subrange(11, 19));
    lemma_be_memcmp(k1.subrange(11, 19));
    lemma_be_memcmp(k2.subrange(11, 19));
}

} // verus!
