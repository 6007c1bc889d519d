use tikv::keys::{
    compare_keys, decode_handle, encode_i64, encode_row_key, is_point, prefix_next,
    truncate_as_row_key, KeyRange,
};
use tikv::row::cut_row;

#[test]
fn prefix_next_increments_last_byte() {
    assert_eq!(prefix_next(&[1, 2, 3]), vec![1, 2, 4]);
    assert_eq!(prefix_next(&[1, 255]), vec![1, 255, 0]);
    assert_eq!(prefix_next(&[255, 255]), vec![255, 255, 0]);
    assert_eq!(prefix_next(&[]), vec![0]);
    for k in [vec![0u8], vec![9, 254], vec![1, 255], vec![255], vec![3, 255, 255]] {
        let n = prefix_next(&k);
        assert!(n > k);
        assert_eq!(compare_keys(&k, &n), -1);
    }
}

#[test]
fn memcomparable_handles_keep_order() {
    let handles = [i64::MIN, -5, -1, 0, 1, 7, i64::MAX];
    let keys: Vec<Vec<u8>> = handles
        .iter()
        .map(|h| {
            let mut b = Vec::new();
            encode_i64(&mut b, *h);
            encode_row_key(3, &b)
        })
        .collect();
    for i in 1..keys.len() {
        assert!(keys[i - 1] < keys[i]);
    }
    for (h, k) in handles.iter().zip(keys.iter()) {
        assert_eq!(k.len(), 19);
        assert_eq!(decode_handle(k).unwrap(), *h);
        assert_eq!(truncate_as_row_key(k).unwrap(), *k);
    }
    let mut b = Vec::new();
    encode_i64(&mut b, 0);
    assert_eq!(b, vec![0x80, 0, 0, 0, 0, 0, 0, 0]);
}

#[test]
fn bad_record_keys_are_refused() {
    assert!(decode_handle(b"short").is_err());
    assert!(decode_handle(&[b'x'; 19]).is_err());
    assert!(truncate_as_row_key(&[1, 2, 3]).is_err());
}

#[test]
fn point_ranges_are_recognised() {
    let start = vec![1, 2, 3];
    assert!(is_point(&KeyRange { start: start.clone(), end: vec![1, 2, 4] }));
    assert!(!is_point(&KeyRange { start: start.clone(), end: vec![1, 2, 5] }));
}

#[test]
fn cut_row_picks_requested_columns() {
    // column 1: varint 5, column 2: compact bytes "ab", column 4: nil
    let value = vec![8, 2, 8, 10, 8, 4, 2, 4, b'a', b'b', 8, 8, 0];
    let r = cut_row(&value, &[2, 4, 9]).unwrap();
    assert_eq!(r, vec![(2, vec![2, 4, b'a', b'b']), (4, vec![0])]);
    assert_eq!(cut_row(&value, &[]).unwrap(), vec![]);
    assert_eq!(cut_row(&[0], &[1]).unwrap(), vec![]);
    assert!(cut_row(&[8, 2, 99], &[1]).is_err());
}
