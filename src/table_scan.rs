use vstd::prelude::*;

use crate::error::Error;
use crate::keys::{
    decode_handle, is_point, is_record_key, key_le, key_lt, memcmp_value, prefix_next,
    spec_prefix_next, truncate_as_row_key, KeyRange, RECORD_ROW_KEY_LEN,
};
use crate::row::{cut_row, pair_views, spec_cut_row};
use crate::scan::{Scanner, Snapshot, Statistics};

verus! {

/// A column of a table scan request.
#[derive(Clone, Copy, Debug, PartialEq, Eq, Structural)]
pub struct ColumnInfo {
    pub column_id: i64,
    pub tp: u8,
    /// The column is the table's integer primary key, held in the row key.
    pub pk_handle: bool,
}

/// A table scan request: the columns to read and the direction.
#[derive(Debug)]
pub struct TableScan {
    pub columns: Vec<ColumnInfo>,
    pub desc: bool,
}

/// A row read by a table scan: its handle and its projected columns, each an
/// encoded datum.
#[derive(Debug)]
pub struct Row {
    pub handle: i64,
    pub data: Vec<(i64, Vec<u8>)>,
}

/// The ids of the columns that are read from the row value: all but the
/// primary-key handle, each once, in order of first mention.
pub open spec fn value_col_ids(cols: Seq<ColumnInfo>) -> Seq<i64>
    decreases cols.len(),
{
    if cols.len() == 0 {
        Seq::empty()
    } else {
        let prev = value_col_ids(cols.drop_last());
        if cols.last().pk_handle || prev.contains(cols.last().column_id) {
            prev
        } else {
            prev.push(cols.last().column_id)
        }
    }
}

/// No id occurs twice.
pub open spec fn unique_ids(ids: Seq<i64>) -> bool {
    forall|i: int, j: int| 0 <= i < j < ids.len() ==> ids[i] != ids[j]
}

/// The row that a stored pair gives: the handle of the key, and the columns
/// `cols` of the value.
pub open spec fn row_of(key: Seq<u8>, value: Seq<u8>, cols: Seq<i64>) -> Option<(i64, Seq<(i64, Seq<u8>)>)> {
    if is_record_key(key) && spec_cut_row(value, cols) is Ok {
        Some((memcmp_value(key.subrange(11, 19)) as i64, spec_cut_row(value, cols)->Ok_0))
    } else {
        None
    }
}

/// Ranges in ascending order, each ending at or before the next one starts.
pub open spec fn ranges_ordered(r: Seq<KeyRange>) -> bool {
    forall|i: int, j: int| 0 <= i < j < r.len() ==> key_le((#[trigger] r[i]).end@, (#[trigger] r[j]).start@)
}

/// Key `a` comes strictly before key `b` in the scan direction.
pub open spec fn before(desc: bool, a: Seq<u8>, b: Seq<u8>) -> bool {
    if desc {
        key_lt(b, a)
    } else {
        key_lt(a, b)
    }
}

/// Every key of `range` comes after `l` in the scan direction.
pub open spec fn beyond(desc: bool, l: Seq<u8>, range: KeyRange) -> bool {
    if desc {
        key_le(range.end@, l)
    } else {
        key_lt(l, range.start@)
    }
}

/// Reads the rows of a list of key ranges, range after range, in one direction.
pub struct TableScanExecutor {
    pub desc: bool,
    pub col_ids: Vec<i64>,
    pub cursor: usize,
    pub key_ranges: Vec<KeyRange>,
    pub scanner: Scanner,
    /// Key of the row emitted last.
    pub last_key: Ghost<Option<Seq<u8>>>,
}

impl TableScanExecutor {
    /// Ranges are given in ascending order; a backward scan walks them from
    /// the last.
    pub fn new(
        meta: &TableScan,
        key_ranges: Vec<KeyRange>,
        store: Snapshot,
        statistics: Statistics,
    ) -> (r: TableScanExecutor)
        ensures
            r.desc == meta.desc,
            r.col_ids@ == value_col_ids(meta.columns@),
            unique_ids(r.col_ids@),
            r.cursor == 0,
            r.key_ranges@.len() == key_ranges@.len(),
            forall|i: int|
                0 <= i < key_ranges@.len() ==> #[trigger] r.key_ranges@[i] == (if meta.desc {
                    key_ranges@[key_ranges@.len() - 1 - i]
                } else {
                    key_ranges@[i]
                }),
            r.scanner.store == store,
            r.scanner.desc == meta.desc,
            !r.scanner.key_only,
            r.scanner.seek_key is None,
            r.scanner.statistics == statistics,
            r.last_key@ is None,
            ranges_ordered(key_ranges@) ==> r.order_inv(),
    {
        let mut col_ids: Vec<i64> = Vec::new();
        let mut i: usize = 0;
        while i < meta.columns.len()
            invariant
                i <= meta.columns@.len(),
                col_ids@ == value_col_ids(meta.columns@.subrange(0, i as int)),
            unique_ids(col_ids@),
            decreases meta.columns@.len() - i,
        {
            let c = meta.columns[i];
            assert(meta.columns@.subrange(0, i + 1).drop_last() =~= meta.columns@.subrange(0, i as int));
            if !c.pk_handle && !crate::row::contains_id(col_ids.as_slice(), c.column_id) {
                col_ids.push(c.column_id);
            }
            i = i + 1;
        }
        assert(meta.columns@.subrange(0, meta.columns@.len() as int) =~= meta.columns@);
        let desc = meta.desc;
        let mut ranges = key_ranges;
        if desc {
            let ghost orig = ranges@;
            let mut rev: Vec<KeyRange> = Vec::new();
            while ranges.len() > 0
                invariant
                    ranges@ == orig.subrange(0, ranges@.len() as int),
                    ranges@.len() <= orig.len(),
                    rev@.len() == orig.len() - ranges@.len(),
                    forall|j: int| 0 <= j < rev@.len() ==> #[trigger] rev@[j] == orig[orig.len() - 1 - j],
                decreases ranges@.len(),
            {
                let r = ranges.pop().unwrap();
                rev.push(r);
            }
            ranges = rev;
        }
        let scanner = Scanner::new(store, desc, false, statistics);
        let ghost orig = key_ranges@;
        proof {
            if ranges_ordered(key_ranges@) && desc {
                let r = ranges@;
                let n = r.len();
                assert forall|i: int, j: int| 0 <= i < j < n implies key_le((#[trigger] r[j]).end@, (#[trigger] r[i]).start@) by {
                    assert(r[i] == key_ranges@[n - 1 - i]);
                    assert(r[j] == key_ranges@[n - 1 - j]);
                    assert(key_le(key_ranges@[n - 1 - j].end@, key_ranges@[n - 1 - i].start@));
                }
            }
        }
        TableScanExecutor {
            desc,
            col_ids,
            cursor: 0,
            key_ranges: ranges,
            scanner,
            last_key: Ghost(None),
        }
    }

    /// Ends the scan and hands the statistics sink back.
    pub fn close(self) -> (r: Statistics)
        ensures
            r == self.scanner.statistics,
    {
        self.scanner.close()
    }

    pub open spec fn fixed(&self, o: &TableScanExecutor) -> bool {
        &&& self.desc == o.desc
        &&& self.col_ids == o.col_ids
        &&& self.key_ranges == o.key_ranges
        &&& self.scanner.store == o.scanner.store
        &&& self.scanner.desc == o.scanner.desc
        &&& self.scanner.key_only == o.scanner.key_only
    }

    /// The walk keeps its order: the ranges follow each other in the scan
    /// direction, and what is still to be read lies beyond the last key.
    pub open spec fn order_inv(&self) -> bool {
        let r = self.key_ranges@;
        &&& self.scanner.desc == self.desc
        &&& !self.scanner.key_only
        &&& forall|i: int, j: int|
            0 <= i < j < r.len() ==> (if self.desc {
                key_le((#[trigger] r[j]).end@, (#[trigger] r[i]).start@)
            } else {
                key_le(r[i].end@, r[j].start@)
            })
        &&& self.scanner.seek_key is Some ==> self.cursor < r.len() && !r[self.cursor as int].is_point_spec()
            && self.last_key@ is Some
        &&& self.last_key@ matches Some(l) ==> {
            &&& forall|j: int| self.cursor < j < r.len() ==> beyond(self.desc, l, #[trigger] r[j])
            &&& self.scanner.seek_key matches Some(s) ==> (if self.desc {
                key_le(s@, l)
            } else {
                key_lt(l, s@)
            })
            &&& self.scanner.seek_key is None && self.cursor < r.len() ==> beyond(
                self.desc,
                l,
                r[self.cursor as int],
            )
        }
    }

    /// Where the walk of range `c` looks from: the scanner's seek for the
    /// current range, the range's bound in the scan direction for later ones.
    pub open spec fn seek_at(&self, c: int) -> Seq<u8> {
        let rg = self.key_ranges@[c];
        if c == self.cursor {
            self.scanner.seek_for(rg)
        } else if self.desc {
            rg.end@
        } else {
            rg.start@
        }
    }

    /// The entry that range `c` yields next: for a point range the first
    /// entry under its key, for another range the one the scanner finds from
    /// `seek_at(c)`.
    pub open spec fn found_at(&self, c: int) -> Option<(Seq<u8>, Seq<u8>)> {
        let rg = self.key_ranges@[c];
        let ks = self.scanner.store.keys();
        if rg.is_point_spec() {
            if exists|i: int| 0 <= i < ks.len() && ks[i] == rg.start@ && forall|j: int| 0 <= j < i ==> #[trigger] ks[j] != rg.start@ {
                let i = choose|i: int| 0 <= i < ks.len() && ks[i] == rg.start@ && forall|j: int| 0 <= j < i ==> #[trigger] ks[j] != rg.start@;
                Some((ks[i], self.scanner.store.values()[i]))
            } else {
                None
            }
        } else {
            crate::scan::spec_next_row(
                ks,
                self.scanner.store.values(),
                self.desc,
                self.scanner.key_only,
                self.seek_at(c),
                rg,
            )
        }
    }

    /// The state after range `c` yielded the row with key `k`: `k` is the
    /// last key; a point range is done, while the walk of another range goes
    /// on from `prefix_next(k)` forward, or from the row key of `k` backward.
    pub open spec fn after_row(&self, c: int, k: Seq<u8>) -> bool {
        &&& self.last_key@ == Some(k)
        &&& if self.key_ranges@[c].is_point_spec() {
            self.cursor == c + 1 && self.scanner.seek_key is None
        } else {
            &&& self.cursor == c
            &&& self.scanner.seek_key is Some
            &&& self.scanner.seek_key->Some_0@ == (if self.desc {
                k.subrange(0, RECORD_ROW_KEY_LEN as int)
            } else {
                spec_prefix_next(k)
            })
        }
    }

    /// Range `c` yields the row `row`.
    pub open spec fn yields(&self, c: int, row: (i64, Seq<(i64, Seq<u8>)>)) -> bool {
        self.found_at(c) matches Some(kv) && row_of(kv.0, kv.1, self.col_ids@) == Some(row)
    }

    fn get_row_from_range(&mut self) -> (r: Result<Option<Row>, Error>)
        requires
            old(self).cursor < old(self).key_ranges@.len(),
            !old(self).key_ranges@[old(self).cursor as int].is_point_spec(),
            old(self).desc == old(self).scanner.desc,
            !old(self).scanner.key_only,
        ensures
            final(self).fixed(old(self)),
            final(self).cursor == old(self).cursor,
            r matches Ok(Some(row)) ==> old(self).yields(old(self).cursor as int, (row.handle, pair_views(row.data@))),
            r matches Ok(None) ==> old(self).found_at(old(self).cursor as int) is None,
            r is Err ==> (old(self).found_at(old(self).cursor as int) matches Some(kv) && row_of(
                kv.0,
                kv.1,
                old(self).col_ids@,
            ) is None),
            r matches Ok(None) ==> final(self).scanner.seek_key is None && final(self).last_key
                == old(self).last_key,
            r matches Ok(Some(_)) ==> final(self).last_key@ is Some && ({
                let k = final(self).last_key@->Some_0;
                let rg = old(self).key_ranges@[old(self).cursor as int];
                let s = old(self).scanner.seek_for(rg);
                &&& rg.contains(k)
                &&& if old(self).desc {
                    key_lt(k, s)
                } else {
                    key_le(s, k)
                }
                &&& final(self).scanner.seek_key is Some
                &&& if old(self).desc {
                    key_le(final(self).scanner.seek_key->Some_0@, k)
                } else {
                    key_lt(k, final(self).scanner.seek_key->Some_0@)
                }
                &&& old(self).found_at(old(self).cursor as int) matches Some(kv) && kv.0 == k
                &&& final(self).scanner.seek_key->Some_0@ == (if old(self).desc {
                    k.subrange(0, RECORD_ROW_KEY_LEN as int)
                } else {
                    spec_prefix_next(k)
                })
            }),
    {
        let range = &self.key_ranges[self.cursor];
        let kv = self.scanner.next_row(range)?;
        let (key, value) = match kv {
            Some((key, value)) => (key, value),
            None => {
                return Ok(None);
            },
        };
        proof {
            let o = *old(self);
            assert(o.seek_at(o.cursor as int) == o.scanner.seek_for(o.key_ranges@[o.cursor as int]));
            assert(o.found_at(o.cursor as int) == Some((key@, value@)));
        }
        let h = match decode_handle(key.as_slice()) {
            Ok(h) => h,
            Err(e) => {
                return Err(e);
            },
        };
        let row_data = match cut_row(value.as_slice(), self.col_ids.as_slice()) {
            Ok(d) => d,
            Err(e) => {
                return Err(e);
            },
        };
        let seek_key = if self.desc {
            match truncate_as_row_key(key.as_slice()) {
                Ok(k) => k,
                Err(e) => {
                    return Err(e);
                },
            }
        } else {
            prefix_next(key.as_slice())
        };
        self.scanner.set_seek_key(Some(seek_key));
        self.last_key = Ghost(Some(key@));
        proof {
            if self.desc {
                crate::keys::lemma_prefix_le(key@, RECORD_ROW_KEY_LEN as int);
            } else {
                crate::keys::lemma_prefix_next_greater(key@);
            }
            let o = *old(self);
            let ks = o.scanner.store.keys();
            let rg = o.key_ranges@[o.cursor as int];
            let idx = if o.desc {
                crate::scan::rseek_index(ks, o.scanner.seek_for(rg), ks.len() as int)
            } else {
                crate::scan::seek_index(ks, o.scanner.seek_for(rg), 0)
            };
            lemma_seek_bounds(ks, o.scanner.seek_for(rg));
            crate::scan::lemma_seek_found(ks, o.scanner.seek_for(rg), 0);
            crate::scan::lemma_rseek_found(ks, o.scanner.seek_for(rg), ks.len() as int);
            let i = idx->Some_0;
            assert(ks[i] == key@);
            assert(o.scanner.store.values()[i] == value@);
            assert(rg.contains(ks[i]));
        }
        Ok(Some(Row { handle: h, data: row_data }))
    }

    fn get_row_from_point(&mut self) -> (r: Result<Option<Row>, Error>)
        requires
            old(self).cursor < old(self).key_ranges@.len(),
            old(self).key_ranges@[old(self).cursor as int].is_point_spec(),
        ensures
            final(self).fixed(old(self)),
            final(self).cursor == old(self).cursor,
            final(self).scanner.seek_key == old(self).scanner.seek_key,
            r matches Ok(Some(row)) ==> old(self).yields(old(self).cursor as int, (row.handle, pair_views(row.data@))),
            r matches Ok(None) ==> old(self).found_at(old(self).cursor as int) is None,
            r matches Ok(Some(_)) ==> final(self).last_key@ == Some(
                old(self).key_ranges@[old(self).cursor as int].start@,
            ),
            !(r matches Ok(Some(_))) ==> final(self).last_key == old(self).last_key,
            r is Err ==> (old(self).found_at(old(self).cursor as int) matches Some(kv) && row_of(
                kv.0,
                kv.1,
                old(self).col_ids@,
            ) is None),
    {
        let key = self.key_ranges[self.cursor].get_start();
        let value = self.scanner.get_row(key)?;
        let ghost o = *old(self);
        let ghost ks = o.scanner.store.keys();
        let ghost start = o.key_ranges@[o.cursor as int].start@;
        if let Some(value) = value {
            proof {
                let i = choose|i: int|
                    0 <= i < ks.len() && ks[i] == key@ && o.scanner.store.values()[i] == value@
                        && forall|j: int| 0 <= j < i ==> #[trigger] ks[j] != key@;
                assert(exists|i2: int| 0 <= i2 < ks.len() && ks[i2] == start && forall|j: int| 0 <= j < i2 ==> #[trigger] ks[j] != start);
                let i2 = choose|i2: int| 0 <= i2 < ks.len() && ks[i2] == start && forall|j: int| 0 <= j < i2 ==> #[trigger] ks[j] != start;
                if i2 < i {
                    assert(ks[i2] != key@);
                } else if i < i2 {
                    assert(ks[i] != start);
                }
                assert(o.found_at(o.cursor as int) == Some((ks[i], o.scanner.store.values()[i])));
            }
            let values = match cut_row(value.as_slice(), self.col_ids.as_slice()) {
                Ok(v) => v,
                Err(e) => {
                    return Err(e);
                },
            };
            let h = match decode_handle(key) {
                Ok(h) => h,
                Err(e) => {
                    return Err(e);
                },
            };
            self.last_key = Ghost(Some(key@));
            return Ok(Some(Row { handle: h, data: values }));
        }
        proof {
            if exists|i2: int| 0 <= i2 < ks.len() && ks[i2] == start && forall|j: int| 0 <= j < i2 ==> #[trigger] ks[j] != start {
                let i2 = choose|i2: int| 0 <= i2 < ks.len() && ks[i2] == start && forall|j: int| 0 <= j < i2 ==> #[trigger] ks[j] != start;
                assert(ks.contains(start));
            }
        }
        Ok(None)
    }

    /// The next row: each range in turn, a point range by one lookup, the
    /// others by walking the scanner; `None` once all ranges are used up.
    /// With ranges in scan order, each row comes strictly after the one
    /// before it in the scan direction.
    pub fn next(&mut self) -> (r: Result<Option<Row>, Error>)
        requires
            old(self).desc == old(self).scanner.desc,
            !old(self).scanner.key_only,
        ensures
            final(self).fixed(old(self)),
            old(self).cursor <= final(self).cursor <= final(self).key_ranges@.len() || final(self).cursor == old(self).cursor,
            r matches Ok(None) ==> final(self).cursor >= final(self).key_ranges@.len(),
            r matches Ok(None) ==> forall|c: int|
                old(self).cursor <= c < old(self).key_ranges@.len() ==> #[trigger] old(self).found_at(c) is None,
            r matches Ok(Some(row)) ==> exists|c: int|
                old(self).cursor <= c < old(self).key_ranges@.len() && (forall|c2: int|
                    old(self).cursor <= c2 < c ==> #[trigger] old(self).found_at(c2) is None)
                    && old(self).yields(c, (row.handle, pair_views(row.data@)))
                    && final(self).after_row(c, old(self).found_at(c)->Some_0.0),
            r is Err ==> exists|c: int|
                #![trigger old(self).found_at(c)]
                old(self).cursor <= c < old(self).key_ranges@.len() && (forall|c2: int|
                    old(self).cursor <= c2 < c ==> #[trigger] old(self).found_at(c2) is None)
                    && (old(self).found_at(c) matches Some(kv) && row_of(
                    kv.0,
                    kv.1,
                    old(self).col_ids@,
                ) is None),
            r matches Ok(Some(_)) ==> final(self).last_key@ is Some,
            r is Ok && old(self).order_inv() ==> final(self).order_inv(),
            r matches Ok(Some(_)) && old(self).order_inv() && old(self).last_key@ is Some ==> before(
                old(self).desc,
                old(self).last_key@->Some_0,
                final(self).last_key@->Some_0,
            ),
    {
        while self.cursor < self.key_ranges.len()
            invariant
                self.fixed(old(self)),
                old(self).cursor <= self.cursor,
                self.cursor == old(self).cursor || self.cursor <= self.key_ranges@.len(),
                old(self).desc == old(self).scanner.desc,
                !old(self).scanner.key_only,
                self.last_key == old(self).last_key,
                old(self).order_inv() ==> self.order_inv(),
                self.cursor > old(self).cursor ==> self.scanner.seek_key is None,
                self.cursor == old(self).cursor ==> self.scanner.seek_key == old(self).scanner.seek_key,
                forall|c2: int| old(self).cursor <= c2 < self.cursor ==> #[trigger] old(self).found_at(c2) is None,
            decreases self.key_ranges@.len() - self.cursor,
        {
            let ghost c = self.cursor as int;
            let ghost before = *self;
            if is_point(&self.key_ranges[self.cursor]) {
                let data = match self.get_row_from_point() {
                    Ok(d) => d,
                    Err(e) => {
                        proof {
                            assert(before.found_at(c) == old(self).found_at(c));
                        }
                        return Err(e);
                    },
                };
                self.scanner.set_seek_key(None);
                self.cursor = self.cursor + 1;
                proof {
                    if old(self).order_inv() {
                        let rs = self.key_ranges@;
                        if data is Some {
                            let k = rs[c].start@;
                            crate::keys::lemma_prefix_next_greater(k);
                            assert forall|j: int| self.cursor < j < rs.len() implies beyond(self.desc, k, #[trigger] rs[j]) by {
                                if self.desc {
                                    assert(key_le(rs[j].end@, rs[c].start@));
                                } else {
                                    assert(key_le(rs[c].end@, rs[j].start@));
                                    crate::keys::lemma_le_lt_trans(k, rs[c].end@, rs[j].start@);
                                }
                            }
                            if self.cursor < rs.len() {
                                let j = self.cursor as int;
                                if !self.desc {
                                    assert(key_le(rs[c].end@, rs[j].start@));
                                    crate::keys::lemma_le_lt_trans(k, rs[c].end@, rs[j].start@);
                                } else {
                                    assert(key_le(rs[j].end@, rs[c].start@));
                                }
                            }
                            if before.last_key@ is Some {
                                let l = before.last_key@->Some_0;
                                assert(before.scanner.seek_key is None);
                                if self.desc {
                                    crate::keys::lemma_le_lt_trans(k, rs[c].end@, l);
                                }
                            }
                            assert(self.order_inv());
                        } else {
                            assert(self.order_inv());
                        }
                    }
                }
                proof {
                    assert(before.found_at(c) == old(self).found_at(c));
                }
                if data.is_some() {
                    proof {
                        let row = data->Some_0;
                        assert(before.yields(c, (row.handle, pair_views(row.data@))));
                        assert(old(self).yields(c, (row.handle, pair_views(row.data@))));
                    }
                    return Ok(data);
                }
                continue;
            }
            let data = match self.get_row_from_range() {
                Ok(d) => d,
                Err(e) => {
                    proof {
                        assert(before.seek_at(c) == old(self).seek_at(c));
                        assert(before.found_at(c) == old(self).found_at(c));
                    }
                    return Err(e);
                },
            };
            proof {
                assert(before.seek_at(c) == old(self).seek_at(c));
                assert(before.found_at(c) == old(self).found_at(c));
            }
            if data.is_none() {
                self.scanner.set_seek_key(None);
                self.cursor = self.cursor + 1;
                continue;
            }
            proof {
                let row = data->Some_0;
                assert(before.yields(c, (row.handle, pair_views(row.data@))));
                assert(old(self).yields(c, (row.handle, pair_views(row.data@))));
                if old(self).order_inv() {
                    let rs = self.key_ranges@;
                    let k = self.last_key@->Some_0;
                    let sk = before.scanner.seek_for(rs[c]);
                    assert forall|j: int| self.cursor < j < rs.len() implies beyond(self.desc, k, #[trigger] rs[j]) by {
                        if self.desc {
                            assert(key_le(rs[j].end@, rs[c].start@));
                            crate::keys::lemma_le_lt_trans(rs[j].end@, rs[c].start@, k);
                        } else {
                            assert(key_le(rs[c].end@, rs[j].start@));
                            crate::keys::lemma_le_lt_trans(k, rs[c].end@, rs[j].start@);
                        }
                    }
                    if before.last_key@ is Some {
                        let l = before.last_key@->Some_0;
                        if self.desc {
                            crate::keys::lemma_le_lt_trans(k, sk, l);
                        } else {
                            crate::keys::lemma_le_lt_trans(l, sk, k);
                        }
                    }
                    assert(self.order_inv());
                }
            }
            return Ok(data);
        }
        Ok(None)
    }
}

proof fn lemma_seek_bounds(ks: Seq<Seq<u8>>, k: Seq<u8>)
    ensures
        crate::scan::seek_index(ks, k, 0) matches Some(i) ==> 0 <= i < ks.len(),
        crate::scan::rseek_index(ks, k, ks.len() as int) matches Some(i) ==> 0 <= i < ks.len(),
{
    lemma_seek_from(ks, k, 0);
    lemma_rseek_to(ks, k, ks.len() as int);
}

proof fn lemma_seek_from(ks: Seq<Seq<u8>>, k: Seq<u8>, from: int)
    ensures
        crate::scan::seek_index(ks, k, from) matches Some(i) ==> from <= i < ks.len(),
    decreases ks.len() - from,
{
    if 0 <= from < ks.len() {
        lemma_seek_from(ks, k, from + 1);
    }
}

proof fn lemma_rseek_to(ks: Seq<Seq<u8>>, k: Seq<u8>, to: int)
    ensures
        crate::scan::rseek_index(ks, k, to) matches Some(i) ==> 0 <= i < to,
    decreases to,
{
    if 0 < to <= ks.len() {
        lemma_rseek_to(ks, k, to - 1);
    }
}

/// Of two rows of one table emitted one after the other (their keys in scan
/// order, as `next` states), the handles rise strictly in a forward scan and
/// fall strictly in a backward one.
pub proof fn lemma_rows_in_handle_order(desc: bool, k1: Seq<u8>, k2: Seq<u8>)
    requires
        before(desc, k1, k2),
        k1.len() == RECORD_ROW_KEY_LEN,
        k2.len() == RECORD_ROW_KEY_LEN,
        k1.subrange(0, 11) == k2.subrange(0, 11),
    ensures
        !desc ==> memcmp_value(k1.subrange(11, 19)) < memcmp_value(k2.subrange(11, 19)),
        desc ==> memcmp_value(k1.subrange(11, 19)) > memcmp_value(k2.subrange(11, 19)),
{
    crate::keys::lemma_handle_order(k1, k2);
    crate::keys::lemma_handle_order(k2, k1);
}

/// The columns of a row that a scan yields are exactly the requested columns
/// that the record holds; its handle is the one in the key.
pub proof fn lemma_row_projection(
    k: Seq<u8>,
    v: Seq<u8>,
    cols: Seq<i64>,
    row: (i64, Seq<(i64, Seq<u8>)>),
    id: i64,
)
    requires
        row_of(k, v, cols) == Some(row),
        crate::row::row_pairs(v, 0) is Some,
    ensures
        row.0 == memcmp_value(k.subrange(11, 19)) as i64,
        (exists|i: int| 0 <= i < row.1.len() && (#[trigger] row.1[i]).0 == id) <==> (cols.contains(id)
            && exists|j: int|
            0 <= j < crate::row::row_pairs(v, 0)->Some_0.len() && (#[trigger] crate::row::row_pairs(
                v,
                0,
            )->Some_0[j]).0 == id),
{
    let p = crate::row::row_pairs(v, 0)->Some_0;
    if cols.len() == 0 || v.len() == 0 || (v.len() == 1 && v[0] == crate::row::NIL_FLAG) {
        assert(row.1.len() == 0);
        if cols.len() == 0 {
            assert(!cols.contains(id));
        } else if v.len() == 0 {
            reveal(crate::row::row_pairs);
            assert(p.len() == 0);
        } else {
            reveal(crate::row::row_pairs);
            assert(crate::row::datum_end(v, 0) == Some(1int));
            assert(crate::row::datum_end(v, 1) is None);
            assert(crate::row::row_pairs(v, 0) is None);
        }
    } else {
        assert(row.1 == crate::row::keep_cols(p, cols));
        crate::row::lemma_projection_ids(p, cols, id);
    }
}

} // verus!
