use vstd::prelude::*;

use crate::error::Error;
use crate::keys::{compare_keys, key_le, key_lt, KeyRange};

verus! {

/// A consistent, read-only view of the store: key-value pairs in strictly
/// increasing key order.
#[derive(Debug)]
pub struct Snapshot {
    pub entries: Vec<(Vec<u8>, Vec<u8>)>,
}

pub open spec fn sorted_keys(k: Seq<Seq<u8>>) -> bool {
    forall|i: int, j: int| 0 <= i < j < k.len() ==> key_lt(#[trigger] k[i], #[trigger] k[j])
}

impl Snapshot {
    pub open spec fn keys(&self) -> Seq<Seq<u8>> {
        self.entries@.map_values(|e: (Vec<u8>, Vec<u8>)| e.0@)
    }

    pub open spec fn values(&self) -> Seq<Seq<u8>> {
        self.entries@.map_values(|e: (Vec<u8>, Vec<u8>)| e.1@)
    }

    pub open spec fn wf(&self) -> bool {
        sorted_keys(self.keys())
    }

    pub fn new() -> (r: Snapshot)
        ensures
            r.keys().len() == 0,
            r.wf(),
    {
        Snapshot { entries: Vec::new() }
    }

    /// Stores `value` under `key`, replacing an earlier value of that key.
    pub fn put(&mut self, key: Vec<u8>, value: Vec<u8>)
        requires
            old(self).wf(),
        ensures
            final(self).wf(),
            exists|i: int|
                0 <= i < final(self).keys().len() && final(self).keys()[i] == key@
                    && final(self).values()[i] == value@,
            forall|k: Seq<u8>|
                #![trigger final(self).keys().contains(k)]
                final(self).keys().contains(k) <==> (old(self).keys().contains(k) || k == key@),
            forall|j: int|
                0 <= j < old(self).keys().len() && old(self).keys()[j] != key@ ==> exists|i: int|
                    0 <= i < final(self).keys().len() && final(self).keys()[i] == old(
                        self,
                    ).keys()[j] && final(self).values()[i] == old(self).values()[j],
    {
        let n = self.entries.len();
        let mut i: usize = 0;
        while i < n && compare_keys(self.entries[i].0.as_slice(), key.as_slice()) == -1
            invariant
                i <= n == self.entries@.len(),
                self.wf(),
                forall|j: int| 0 <= j < i ==> key_lt(#[trigger] self.keys()[j], key@),
            decreases n - i,
        {
            i = i + 1;
        }
        let ghost ks = self.keys();
        let ghost vs = self.values();
        let ghost kv = key@;
        if i < n && compare_keys(self.entries[i].0.as_slice(), key.as_slice()) == 0 {
            self.entries.set(i, (key, value));
            assert(self.keys() =~= ks);
            assert(self.keys()[i as int] == self.entries@[i as int].0@);
            proof {
                assert forall|k: Seq<u8>| #![trigger self.keys().contains(k)]
                    self.keys().contains(k) <==> (ks.contains(k) || k == kv) by {
                    if k == kv {
                        assert(self.keys()[i as int] == kv);
                    }
                }
                assert forall|j: int| 0 <= j < ks.len() && ks[j] != kv implies exists|m: int|
                    0 <= m < self.keys().len() && self.keys()[m] == ks[j] && self.values()[m] == vs[j] by {
                    assert(j != i);
                    assert(self.keys()[j] == ks[j] && self.values()[j] == vs[j]);
                }
            }
        } else {
            proof {
                if i < n {
                    crate::keys::lemma_key_lt_total(ks[i as int], key@);
                }
            }
            self.entries.insert(i, (key, value));
            proof {
                let nk = self.keys();
                assert(nk =~= ks.insert(i as int, self.entries@[i as int].0@));
                assert forall|a: int, b: int| 0 <= a < b < nk.len() implies key_lt(#[trigger] nk[a], #[trigger] nk[b]) by {
                    if b == i {
                        assert(nk[a] == ks[a]);
                    } else if a == i {
                        assert(nk[b] == ks[b - 1]);
                        if b - 1 > i {
                            crate::keys::lemma_key_lt_transitive(nk[a], ks[i as int], ks[b - 1]);
                        }
                    } else if a < i && b < i {
                        assert(nk[a] == ks[a] && nk[b] == ks[b]);
                    } else if a < i {
                        assert(nk[a] == ks[a] && nk[b] == ks[b - 1]);
                    } else {
                        assert(nk[a] == ks[a - 1] && nk[b] == ks[b - 1]);
                    }
                }
                assert(nk[i as int] == self.entries@[i as int].0@);
                let nv = self.values();
                assert(nv =~= vs.insert(i as int, self.entries@[i as int].1@));
                assert forall|k: Seq<u8>| #![trigger nk.contains(k)]
                    nk.contains(k) <==> (ks.contains(k) || k == kv) by {
                    if nk.contains(k) {
                        let m = choose|m: int| 0 <= m < nk.len() && nk[m] == k;
                        if m < i {
                            assert(ks[m] == k);
                        } else if m > i {
                            assert(ks[m - 1] == k);
                        }
                    }
                    if ks.contains(k) {
                        let m = choose|m: int| 0 <= m < ks.len() && ks[m] == k;
                        if m < i {
                            assert(nk[m] == k);
                        } else {
                            assert(nk[m + 1] == k);
                        }
                    }
                    if k == kv {
                        assert(nk[i as int] == kv);
                    }
                }
                assert forall|j: int| 0 <= j < ks.len() && ks[j] != kv implies exists|m: int|
                    0 <= m < nk.len() && nk[m] == ks[j] && nv[m] == vs[j] by {
                    if j < i {
                        assert(nk[j] == ks[j] && nv[j] == vs[j]);
                    } else {
                        assert(nk[j + 1] == ks[j] && nv[j + 1] == vs[j]);
                    }
                }
            }
        }
    }

    /// The value stored under `key`: that of its first entry.
    pub fn get(&self, key: &[u8]) -> (r: Option<Vec<u8>>)
        ensures
            r is Some <==> self.keys().contains(key@),
            r is Some ==> exists|i: int|
                0 <= i < self.keys().len() && self.keys()[i] == key@ && self.values()[i]
                    == r->Some_0@ && forall|j: int| 0 <= j < i ==> #[trigger] self.keys()[j] != key@,
    {
        let n = self.entries.len();
        let mut i: usize = 0;
        while i < n
            invariant
                i <= n == self.entries@.len(),
                forall|j: int| 0 <= j < i ==> #[trigger] self.keys()[j] != key@,
            decreases n - i,
        {
            if compare_keys(self.entries[i].0.as_slice(), key) == 0 {
                assert(self.keys()[i as int] == key@);
                let v = copy_bytes(self.entries[i].1.as_slice());
                assert(v@ == self.values()[i as int]);
                return Some(v);
            }
            i = i + 1;
        }
        None
    }
}

/// Index of the first key at or after `k`, from index `from` on.
pub open spec fn seek_index(keys: Seq<Seq<u8>>, k: Seq<u8>, from: int) -> Option<int>
    decreases keys.len() - from,
{
    if from < 0 || from >= keys.len() {
        None
    } else if key_le(k, keys[from]) {
        Some(from)
    } else {
        seek_index(keys, k, from + 1)
    }
}

/// Index of the last key before `k`, among the first `to` keys.
pub open spec fn rseek_index(keys: Seq<Seq<u8>>, k: Seq<u8>, to: int) -> Option<int>
    decreases to,
{
    if to <= 0 || to > keys.len() {
        None
    } else if key_lt(keys[to - 1], k) {
        Some(to - 1)
    } else {
        rseek_index(keys, k, to - 1)
    }
}

/// The row a scanner returns from `seek`: the first key at or after it when
/// walking forward, the last key before it when walking backward; nothing
/// when the range is reversed or the key falls outside it.
pub open spec fn spec_next_row(
    keys: Seq<Seq<u8>>,
    values: Seq<Seq<u8>>,
    desc: bool,
    key_only: bool,
    seek: Seq<u8>,
    range: KeyRange,
) -> Option<(Seq<u8>, Seq<u8>)> {
    if key_lt(range.end@, range.start@) {
        None
    } else {
        let idx = if desc {
            rseek_index(keys, seek, keys.len() as int)
        } else {
            seek_index(keys, seek, 0)
        };
        match idx {
            None => None,
            Some(i) => if range.contains(keys[i]) {
                Some((keys[i], if key_only { Seq::empty() } else { values[i] }))
            } else {
                None
            },
        }
    }
}

/// Counts of the reads a scanner made on the store: rows returned by range
/// walks and point lookups.
#[derive(Clone, Copy, Debug, PartialEq, Eq, Structural)]
pub struct Statistics {
    pub processed: u64,
    pub gets: u64,
}

impl Statistics {
    pub fn new() -> (r: Statistics)
        ensures
            r == (Statistics { processed: 0, gets: 0 }),
    {
        Statistics { processed: 0, gets: 0 }
    }
}

/// One more, saturating at the largest count.
pub open spec fn count_up(n: u64) -> u64 {
    if n < u64::MAX {
        (n + 1) as u64
    } else {
        n
    }
}

fn count_up_exec(n: u64) -> (r: u64)
    ensures
        r == count_up(n),
{
    if n < u64::MAX {
        n + 1
    } else {
        n
    }
}

/// A cursor over a snapshot, walking key ranges in one direction.
#[derive(Debug)]
pub struct Scanner {
    pub store: Snapshot,
    pub desc: bool,
    pub key_only: bool,
    pub seek_key: Option<Vec<u8>>,
    /// The sink the reads are counted in; handed in by `new`, handed back by
    /// `close`.
    pub statistics: Statistics,
}

impl Scanner {
    pub fn new(store: Snapshot, desc: bool, key_only: bool, statistics: Statistics) -> (r: Scanner)
        ensures
            r.store == store,
            r.desc == desc,
            r.key_only == key_only,
            r.seek_key is None,
            r.statistics == statistics,
    {
        Scanner { store, desc, key_only, seek_key: None, statistics }
    }

    /// Ends the scan and hands the statistics sink back.
    pub fn close(self) -> (r: Statistics)
        ensures
            r == self.statistics,
    {
        self.statistics
    }

    /// Where the next row is looked for: the key set from outside, or the
    /// start (forward) or end (backward) of the range.
    pub open spec fn seek_for(&self, range: KeyRange) -> Seq<u8> {
        match self.seek_key {
            Some(k) => k@,
            None => if self.desc {
                range.end@
            } else {
                range.start@
            },
        }
    }

    /// Binds the scanner to `range`: the next row is looked for from its
    /// start (forward) or its end (backward).
    pub fn init_with_range(&mut self, range: &KeyRange) -> (r: Result<(), Error>)
        ensures
            r is Ok,
            final(self).store == old(self).store,
            final(self).desc == old(self).desc,
            final(self).key_only == old(self).key_only,
            final(self).statistics == old(self).statistics,
            final(self).seek_key is Some,
            final(self).seek_key->Some_0@ == (if old(self).desc {
                range.end@
            } else {
                range.start@
            }),
    {
        if self.desc {
            self.seek_key = Some(copy_bytes(range.end.as_slice()));
        } else {
            self.seek_key = Some(copy_bytes(range.start.as_slice()));
        }
        Ok(())
    }

    pub fn set_seek_key(&mut self, seek_key: Option<Vec<u8>>)
        ensures
            final(self).seek_key == seek_key,
            final(self).store == old(self).store,
            final(self).desc == old(self).desc,
            final(self).key_only == old(self).key_only,
            final(self).statistics == old(self).statistics,
    {
        self.seek_key = seek_key;
    }

    /// The next row of `range` in the scan direction, looked for from the seek
    /// key (or from the range's bound when none is set). The seek key is used
    /// up: the caller sets the next one.
    pub fn next_row(&mut self, range: &KeyRange) -> (r: Result<Option<(Vec<u8>, Vec<u8>)>, Error>)
        ensures
            r is Ok,
            final(self).store == old(self).store,
            final(self).desc == old(self).desc,
            final(self).key_only == old(self).key_only,
            final(self).seek_key is None,
            final(self).statistics == (if r->Ok_0 is Some {
                Statistics { processed: count_up(old(self).statistics.processed), ..old(self).statistics }
            } else {
                old(self).statistics
            }),
            (match r->Ok_0 {
                Some(kv) => Some((kv.0@, kv.1@)),
                None => None,
            }) == spec_next_row(
                old(self).store.keys(),
                old(self).store.values(),
                old(self).desc,
                old(self).key_only,
                old(self).seek_for(*range),
                *range,
            ),
            r->Ok_0 is Some ==> range.contains(r->Ok_0->Some_0.0@),
    {
        if self.seek_key.is_none() {
            let _ = self.init_with_range(range);
        }
        let seek_key = match self.seek_key.take() {
            Some(k) => k,
            None => Vec::new(),
        };
        if compare_keys(range.start.as_slice(), range.end.as_slice()) == 1 {
            return Ok(None);
        }
        let idx = if self.desc {
            reverse_seek(&self.store, seek_key.as_slice())
        } else {
            seek(&self.store, seek_key.as_slice())
        };
        let i = match idx {
            Some(i) => i,
            None => {
                return Ok(None);
            },
        };
        let key = copy_bytes(self.store.entries[i].0.as_slice());
        assert(key@ == self.store.keys()[i as int]);
        if compare_keys(range.start.as_slice(), key.as_slice()) == 1 || compare_keys(
            range.end.as_slice(),
            key.as_slice(),
        ) != 1 {
            return Ok(None);
        }
        let value = if self.key_only {
            Vec::new()
        } else {
            copy_bytes(self.store.entries[i].1.as_slice())
        };
        assert(value@ == (if self.key_only { Seq::empty() } else { self.store.values()[i as int] }));
        self.statistics.processed = count_up_exec(self.statistics.processed);
        Ok(Some((key, value)))
    }

    /// Point lookup of `key`, outside of any range walk.
    pub fn get_row(&mut self, key: &[u8]) -> (r: Result<Option<Vec<u8>>, Error>)
        ensures
            r is Ok,
            final(self).store == old(self).store,
            final(self).desc == old(self).desc,
            final(self).key_only == old(self).key_only,
            final(self).seek_key == old(self).seek_key,
            final(self).statistics == (Statistics { gets: count_up(old(self).statistics.gets), ..old(self).statistics }),
            r->Ok_0 is Some <==> old(self).store.keys().contains(key@),
            r->Ok_0 is Some ==> exists|i: int|
                0 <= i < old(self).store.keys().len() && old(self).store.keys()[i] == key@
                    && old(self).store.values()[i] == r->Ok_0->Some_0@ && forall|j: int|
                    0 <= j < i ==> #[trigger] old(self).store.keys()[j] != key@,
    {
        self.statistics.gets = count_up_exec(self.statistics.gets);
        Ok(self.store.get(key))
    }
}

pub(crate) fn copy_bytes(s: &[u8]) -> (r: Vec<u8>)
    ensures
        r@ == s@,
{
    let mut v: Vec<u8> = Vec::new();
    let mut i: usize = 0;
    while i < s.len()
        invariant
            i <= s@.len(),
            v@ == s@.subrange(0, i as int),
        decreases s@.len() - i,
    {
        v.push(s[i]);
        assert(v@ =~= s@.subrange(0, i + 1));
        i = i + 1;
    }
    assert(v@ =~= s@);
    v
}

/// Index of the first stored key at or after `k`.
fn seek(store: &Snapshot, k: &[u8]) -> (r: Option<usize>)
    ensures
        (match r {
            Some(i) => Some(i as int),
            None => None,
        }) == seek_index(store.keys(), k@, 0),
        r is Some ==> r->Some_0 < store.entries@.len(),
{
    let n = store.entries.len();
    let mut i: usize = 0;
    while i < n
        invariant
            i <= n == store.keys().len(),
            seek_index(store.keys(), k@, 0) == seek_index(store.keys(), k@, i as int),
        decreases n - i,
    {
        let c = compare_keys(k, store.entries[i].0.as_slice());
        assert(store.keys()[i as int] == store.entries@[i as int].0@);
        if c != 1 {
            return Some(i);
        }
        proof {
            crate::keys::lemma_key_lt_asymmetric(store.keys()[i as int], k@);
            crate::keys::lemma_key_lt_irreflexive(k@);
        }
        i = i + 1;
    }
    None
}

/// Index of the last stored key before `k`.
fn reverse_seek(store: &Snapshot, k: &[u8]) -> (r: Option<usize>)
    ensures
        (match r {
            Some(i) => Some(i as int),
            None => None,
        }) == rseek_index(store.keys(), k@, store.keys().len() as int),
        r is Some ==> r->Some_0 < store.entries@.len(),
{
    let n = store.entries.len();
    let mut i: usize = n;
    while i > 0
        invariant
            i <= n == store.keys().len(),
            rseek_index(store.keys(), k@, n as int) == rseek_index(store.keys(), k@, i as int),
        decreases i,
    {
        let c = compare_keys(store.entries[i - 1].0.as_slice(), k);
        assert(store.keys()[i - 1] == store.entries@[i - 1].0@);
        if c == -1 {
            return Some(i - 1);
        }
        i = i - 1;
    }
    None
}

pub proof fn lemma_seek_found(keys: Seq<Seq<u8>>, k: Seq<u8>, from: int)
    ensures
        seek_index(keys, k, from) matches Some(i) ==> from <= i < keys.len() && key_le(k, keys[i]),
    decreases keys.len() - from,
{
    if 0 <= from < keys.len() {
        lemma_seek_found(keys, k, from + 1);
    }
}

pub proof fn lemma_rseek_found(keys: Seq<Seq<u8>>, k: Seq<u8>, to: int)
    ensures
        rseek_index(keys, k, to) matches Some(i) ==> 0 <= i < to && key_lt(keys[i], k),
    decreases to,
{
    if 0 < to <= keys.len() {
        lemma_rseek_found(keys, k, to - 1);
    }
}

} // verus!
