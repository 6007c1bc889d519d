use tikv::datum::{encode_value, Datum};
use tikv::keys::{encode_i64, encode_row_key, prefix_next, truncate_as_row_key, KeyRange};
use tikv::scan::{Scanner, Snapshot, Statistics};
use tikv::table_scan::{ColumnInfo, Row, TableScan, TableScanExecutor};

const TABLE_ID: i64 = 1;
const KEY_NUMBER: usize = 10;

fn handle_bytes(h: i64) -> Vec<u8> {
    let mut buf = Vec::new();
    encode_i64(&mut buf, h);
    buf
}

fn get_range(table_id: i64, start: i64, end: i64) -> KeyRange {
    KeyRange {
        start: encode_row_key(table_id, &handle_bytes(start)),
        end: encode_row_key(table_id, &handle_bytes(end)),
    }
}

fn get_point_range(table_id: i64, handle: i64) -> KeyRange {
    let start = encode_row_key(table_id, &handle_bytes(handle));
    let end = prefix_next(&start);
    KeyRange { start, end }
}

fn snapshot_of(kv: &[(Vec<u8>, Vec<u8>)]) -> Snapshot {
    let mut s = Snapshot::new();
    for (k, v) in kv {
        s.put(k.clone(), v.clone());
    }
    s
}

struct Data {
    kv_data: Vec<(Vec<u8>, Vec<u8>)>,
    // expect_rows[row_id] = (column id, encoded value) pairs
    expect_rows: Vec<Vec<(i64, Vec<u8>)>>,
    cols: Vec<ColumnInfo>,
}

fn col(id: i64, tp: u8) -> ColumnInfo {
    ColumnInfo { column_id: id, tp, pk_handle: false }
}

/// Rows of three columns: the handle, "abc" and the decimal 10.
fn prepare_table_data(key_number: usize, table_id: i64) -> Data {
    let cols = vec![col(1, 8), col(2, 15), col(3, 246)];
    let decimal_ten: Vec<u8> = vec![6, 2, 0, 0x8a];
    let mut kv_data = Vec::new();
    let mut expect_rows = Vec::new();
    for handle in 0..key_number {
        let c1 = encode_value(&[Datum::I64(handle as i64)]);
        let c2 = encode_value(&[Datum::Bytes(b"abc".to_vec())]);
        let mut value = Vec::new();
        value.extend(encode_value(&[Datum::I64(1)]));
        value.extend(c1.clone());
        value.extend(encode_value(&[Datum::I64(2)]));
        value.extend(c2.clone());
        value.extend(encode_value(&[Datum::I64(3)]));
        value.extend(decimal_ten.clone());
        let key = encode_row_key(table_id, &handle_bytes(handle as i64));
        expect_rows.push(vec![(1, c1), (2, c2), (3, decimal_ten.clone())]);
        kv_data.push((key, value));
    }
    Data { kv_data, expect_rows, cols }
}

fn value_of(row: &Row, cid: i64) -> Vec<u8> {
    row.data.iter().find(|(id, _)| *id == cid).unwrap().1.clone()
}

fn expect_of(data: &Data, handle: usize, cid: i64) -> Vec<u8> {
    data.expect_rows[handle].iter().find(|(id, _)| *id == cid).unwrap().1.clone()
}

fn two_col_scan(desc: bool, data: &Data) -> TableScan {
    TableScan { columns: vec![data.cols[0], data.cols[1]], desc }
}

#[test]
fn scanner_test_point_get() {
    let key = b"key1".to_vec();
    let value = b"value1";
    let test_data = vec![(key.clone(), value.to_vec()), (b"key2".to_vec(), b"value2".to_vec())];
    let mut scanner = Scanner::new(snapshot_of(&test_data), false, false, Statistics::new());
    let data = scanner.get_row(&key).unwrap().unwrap();
    assert_eq!(data, value);
}

#[test]
fn test_scan() {
    let table_id = 1;
    let pk = encode_row_key(table_id, b"key1");
    let pv = b"value1";
    let test_data = vec![
        (pk.clone(), pv.to_vec()),
        (encode_row_key(table_id, b"key2"), b"value2".to_vec()),
    ];
    let mut scanner = Scanner::new(snapshot_of(&test_data), false, false, Statistics::new());
    let range = get_range(table_id, i64::MIN, i64::MAX);
    for (k, v) in &test_data {
        let (key, value) = scanner.next_row(&range).unwrap().unwrap();
        let seek_key = prefix_next(&key);
        scanner.set_seek_key(Some(seek_key));
        assert_eq!(*k, key);
        assert_eq!(*v, value);
    }
    assert!(scanner.next_row(&range).unwrap().is_none());
}

#[test]
fn scanner_test_reverse_scan() {
    let table_id = 1;
    let key_number = 10;
    let mut data = prepare_table_data(key_number, table_id);
    let mut scanner = Scanner::new(snapshot_of(&data.kv_data), true, false, Statistics::new());
    let range = get_range(table_id, i64::MIN, i64::MAX);
    data.kv_data.reverse();
    for (k, v) in &data.kv_data {
        let (key, value) = scanner.next_row(&range).unwrap().unwrap();
        let seek_key = truncate_as_row_key(&key).unwrap();
        scanner.set_seek_key(Some(seek_key));
        assert_eq!(*k, key);
        assert_eq!(*v, value);
    }
    assert!(scanner.next_row(&range).unwrap().is_none());
}

#[test]
fn test_scan_key_only() {
    let table_id = 1;
    let pk = encode_row_key(table_id, b"key1");
    let pv = b"value1";
    let test_data = vec![
        (pk.clone(), pv.to_vec()),
        (encode_row_key(table_id, b"key2"), b"value2".to_vec()),
    ];
    let mut scanner = Scanner::new(snapshot_of(&test_data), false, true, Statistics::new());
    let range = get_range(table_id, i64::MIN, i64::MAX);
    let (_, value) = scanner.next_row(&range).unwrap().unwrap();
    assert!(value.is_empty());
}

#[test]
fn test_init_with_range() {
    let table_id = 1;
    let pk = encode_row_key(table_id, b"key1");
    let pv = b"value1";
    let test_data = vec![(pk.clone(), pv.to_vec())];
    let mut scanner = Scanner::new(snapshot_of(&test_data), true, false, Statistics::new());
    let range = get_range(table_id, i64::MIN, i64::MAX);
    // 1. seek_key is some
    scanner.set_seek_key(Some(pk.clone()));
    assert_eq!(scanner.seek_key.take().unwrap(), pk.clone());

    // 2. desc scan
    scanner.desc = true;
    scanner.init_with_range(&range).unwrap();
    assert_eq!(scanner.seek_key.take().unwrap(), range.get_end());

    // 3. asc scan
    scanner.desc = false;
    scanner.init_with_range(&range).unwrap();
    assert_eq!(scanner.seek_key.take().unwrap(), range.get_start());
}

#[test]
fn scanner_stops_at_range_end() {
    let data = prepare_table_data(KEY_NUMBER, TABLE_ID);
    let mut scanner = Scanner::new(snapshot_of(&data.kv_data), false, false, Statistics::new());
    let range = get_range(TABLE_ID, 3, 5);
    let mut seen = Vec::new();
    while let Some((key, _)) = scanner.next_row(&range).unwrap() {
        assert!(key >= range.start && key < range.end);
        scanner.set_seek_key(Some(prefix_next(&key)));
        seen.push(key);
    }
    assert_eq!(seen, vec![data.kv_data[3].0.clone(), data.kv_data[4].0.clone()]);
    let reversed = KeyRange { start: range.end.clone(), end: range.start.clone() };
    assert!(scanner.next_row(&reversed).unwrap().is_none());
}

#[test]
fn table_scan_test_point_get() {
    let data = prepare_table_data(KEY_NUMBER, TABLE_ID);
    let cols = vec![data.cols[0], data.cols[1]];
    // point get returns none
    let r1 = get_point_range(TABLE_ID, i64::MIN);
    // point get return something
    let handle = 0;
    let r2 = get_point_range(TABLE_ID, handle);
    let ranges = vec![r1, r2];
    let mut table_scanner =
        TableScanExecutor::new(&two_col_scan(false, &data), ranges, snapshot_of(&data.kv_data), Statistics::new());

    let row = table_scanner.next().unwrap().unwrap();
    assert_eq!(row.handle, handle as i64);
    assert_eq!(row.data.len(), cols.len());
    for col in &cols {
        let cid = col.column_id;
        assert_eq!(expect_of(&data, handle as usize, cid), value_of(&row, cid));
    }
    assert!(table_scanner.next().unwrap().is_none());
}

#[test]
fn test_multiple_ranges() {
    let data = prepare_table_data(KEY_NUMBER, TABLE_ID);
    let cols = vec![data.cols[0], data.cols[1]];
    let r1 = get_range(TABLE_ID, i64::MIN, 0);
    let r2 = get_range(TABLE_ID, 0, (KEY_NUMBER / 2) as i64);
    let handle = KEY_NUMBER / 2;
    let r3 = get_point_range(TABLE_ID, handle as i64);
    let r4 = get_range(TABLE_ID, (handle + 1) as i64, i64::MAX);
    let ranges = vec![r1, r2, r3, r4];
    let mut table_scanner =
        TableScanExecutor::new(&two_col_scan(false, &data), ranges, snapshot_of(&data.kv_data), Statistics::new());

    for handle in 0..KEY_NUMBER {
        let row = table_scanner.next().unwrap().unwrap();
        assert_eq!(row.handle, handle as i64);
        assert_eq!(row.data.len(), cols.len());
        for col in &cols {
            let cid = col.column_id;
            assert_eq!(expect_of(&data, handle, cid), value_of(&row, cid));
        }
    }
    assert!(table_scanner.next().unwrap().is_none());
}

#[test]
fn table_scan_test_reverse_scan() {
    let data = prepare_table_data(KEY_NUMBER, TABLE_ID);
    let cols = vec![data.cols[0], data.cols[1]];
    let r1 = get_range(TABLE_ID, i64::MIN, 0);
    let r2 = get_range(TABLE_ID, 0, (KEY_NUMBER / 2) as i64);
    let handle = KEY_NUMBER / 2;
    let r3 = get_point_range(TABLE_ID, handle as i64);
    let r4 = get_range(TABLE_ID, (handle + 1) as i64, i64::MAX);
    let ranges = vec![r1, r2, r3, r4];
    let mut table_scanner =
        TableScanExecutor::new(&two_col_scan(true, &data), ranges, snapshot_of(&data.kv_data), Statistics::new());

    for tid in 0..KEY_NUMBER {
        let handle = KEY_NUMBER - tid - 1;
        let row = table_scanner.next().unwrap().unwrap();
        assert_eq!(row.handle, handle as i64);
        assert_eq!(row.data.len(), cols.len());
        for col in &cols {
            let cid = col.column_id;
            assert_eq!(expect_of(&data, handle, cid), value_of(&row, cid));
        }
    }
    assert!(table_scanner.next().unwrap().is_none());
}

#[test]
fn full_table_scan_in_handle_order() {
    let data = prepare_table_data(KEY_NUMBER, TABLE_ID);
    let ranges = vec![get_range(TABLE_ID, i64::MIN, i64::MAX)];
    let mut scan =
        TableScanExecutor::new(&two_col_scan(false, &data), ranges, snapshot_of(&data.kv_data), Statistics::new());
    let mut last: Option<i64> = None;
    for handle in 0..KEY_NUMBER {
        let row = scan.next().unwrap().unwrap();
        assert_eq!(row.handle, handle as i64);
        if let Some(l) = last {
            assert!(l < row.handle);
        }
        last = Some(row.handle);
        let ids: Vec<i64> = row.data.iter().map(|(id, _)| *id).collect();
        assert_eq!(ids, vec![1, 2]);
    }
    assert!(scan.next().unwrap().is_none());
}

#[test]
fn projection_skips_missing_and_handle_columns() {
    let data = prepare_table_data(3, TABLE_ID);
    let meta = TableScan {
        columns: vec![
            ColumnInfo { column_id: 0, tp: 8, pk_handle: true },
            col(3, 246),
            col(9, 8),
        ],
        desc: false,
    };
    let mut scan = TableScanExecutor::new(&meta, vec![get_range(TABLE_ID, 0, 1)], snapshot_of(&data.kv_data), Statistics::new());
    let row = scan.next().unwrap().unwrap();
    assert_eq!(row.handle, 0);
    assert_eq!(row.data, vec![(3, vec![6, 2, 0, 0x8a])]);
    assert!(scan.next().unwrap().is_none());
}

#[test]
fn malformed_row_value_is_an_error() {
    let key = encode_row_key(TABLE_ID, &handle_bytes(7));
    let mut value = encode_value(&[Datum::I64(1)]);
    value.push(200);
    let meta = TableScan { columns: vec![col(1, 8)], desc: false };
    let mut scan = TableScanExecutor::new(
        &meta,
        vec![get_range(TABLE_ID, i64::MIN, i64::MAX)],
        snapshot_of(&[(key, value)]),
        Statistics::new(),
    );
    assert!(scan.next().is_err());
}

#[test]
fn statistics_are_counted_and_handed_back() {
    let data = prepare_table_data(KEY_NUMBER, TABLE_ID);
    let ranges = vec![get_point_range(TABLE_ID, 3), get_range(TABLE_ID, 5, 8)];
    let start = Statistics { processed: 7, gets: 1 };
    let mut scan = TableScanExecutor::new(&two_col_scan(false, &data), ranges, snapshot_of(&data.kv_data), start);
    let mut handles = Vec::new();
    while let Some(row) = scan.next().unwrap() {
        handles.push(row.handle);
    }
    assert_eq!(handles, vec![3, 5, 6, 7]);
    let stats = scan.close();
    assert_eq!(stats, Statistics { processed: 10, gets: 2 });
}

#[test]
fn multibyte_separator_is_one_separator() {
    let t = tikv::time::Time::parse_utc_datetime("2012\u{b7}12\u{b7}31 11\u{b7}30\u{b7}45", 0).unwrap();
    assert_eq!(t.to_string(), "2012-12-31 11:30:45");
}

#[test]
fn state_after_each_row() {
    let data = prepare_table_data(3, TABLE_ID);
    let ranges = vec![get_point_range(TABLE_ID, 0), get_range(TABLE_ID, 1, i64::MAX)];
    let mut scan = TableScanExecutor::new(&two_col_scan(false, &data), ranges, snapshot_of(&data.kv_data), Statistics::new());
    assert_eq!(scan.next().unwrap().unwrap().handle, 0);
    assert_eq!(scan.cursor, 1);
    assert!(scan.scanner.seek_key.is_none());
    assert_eq!(scan.next().unwrap().unwrap().handle, 1);
    assert_eq!(scan.cursor, 1);
    assert_eq!(scan.scanner.seek_key.clone().unwrap(), prefix_next(&data.kv_data[1].0));
    assert_eq!(scan.next().unwrap().unwrap().handle, 2);
    assert!(scan.next().unwrap().is_none());

    let ranges = vec![get_range(TABLE_ID, i64::MIN, i64::MAX)];
    let mut back = TableScanExecutor::new(&two_col_scan(true, &data), ranges, snapshot_of(&data.kv_data), Statistics::new());
    assert_eq!(back.next().unwrap().unwrap().handle, 2);
    assert_eq!(back.scanner.seek_key.clone().unwrap(), data.kv_data[2].0);
}
