use near_store::order::{bytes_eq, bytes_lt, bytes_start_with};
use near_store::refcount::{decode, encode, merge, merge_operands, strip};

fn enc(payload: &[u8], count: i64) -> Vec<u8> {
    let mut v = payload.to_vec();
    v.extend_from_slice(&count.to_le_bytes());
    v
}

#[test]
fn encode_appends_little_endian_count() {
    assert_eq!(encode(b"abc", 1), vec![97, 98, 99, 1, 0, 0, 0, 0, 0, 0, 0]);
    assert_eq!(encode(b"", -1), vec![255; 8]);
    assert_eq!(encode(b"x", 258), vec![120, 2, 1, 0, 0, 0, 0, 0, 0]);
    assert_eq!(encode(b"foo", i64::MIN), enc(b"foo", i64::MIN));
}

#[test]
fn decode_splits_payload_and_count() {
    assert_eq!(decode(&enc(b"abc", 7)), (&b"abc"[..], 7));
    assert_eq!(decode(&enc(b"abc", -7)), (&b"abc"[..], -7));
    assert_eq!(decode(&enc(b"", 0)), (&b""[..], 0));
    assert_eq!(decode(&enc(b"abc", i64::MAX)), (&b"abc"[..], i64::MAX));
}

#[test]
fn decode_of_short_value_is_empty_and_zero() {
    assert_eq!(decode(b""), (&b""[..], 0));
    assert_eq!(decode(b"1234567"), (&b""[..], 0));
}

#[test]
fn decode_inverts_encode() {
    for count in [i64::MIN, -2, -1, 0, 1, 2, 1 << 40, i64::MAX] {
        let bytes = encode(b"payload", count);
        assert_eq!(decode(&bytes), (&b"payload"[..], count));
    }
}

#[test]
fn strip_shows_positive_counts_only() {
    assert_eq!(strip(&enc(b"abc", 1)), Some(b"abc".to_vec()));
    assert_eq!(strip(&enc(b"abc", 0)), None);
    assert_eq!(strip(&enc(b"abc", -1)), None);
    assert_eq!(strip(b"abc"), None);
    assert_eq!(strip(&enc(b"", 3)), Some(vec![]));
}

#[test]
fn merge_sums_counts() {
    assert_eq!(merge(Some(&enc(b"foo", 1)), &enc(b"foo", 2)), enc(b"foo", 3));
    assert_eq!(merge(Some(&enc(b"foo", 1)), &enc(b"foo", -3)), enc(b"foo", -2));
    assert_eq!(merge(None, &enc(b"foo", 2)), enc(b"foo", 2));
    assert_eq!(merge(None, &enc(b"", -2)), enc(b"", -2));
}

#[test]
fn merge_keeps_latest_payload_that_is_not_empty() {
    assert_eq!(merge(Some(&enc(b"old", 1)), &enc(b"new", 1)), enc(b"new", 2));
    assert_eq!(merge(Some(&enc(b"old", 2)), &enc(b"", -1)), enc(b"old", 1));
    assert_eq!(merge(Some(&enc(b"old", 1)), &enc(b"", -1)), enc(b"old", 0));
}

#[test]
fn merge_count_is_commutative_and_associative() {
    let a = enc(b"a", 5);
    let b = enc(b"b", -7);
    let c = enc(b"c", 11);
    let ab = merge(Some(&a), &b);
    let ba = merge(Some(&b), &a);
    assert_eq!(decode(&ab).1, decode(&ba).1);
    let ab_c = merge(Some(&ab), &c);
    let bc = merge(Some(&b), &c);
    let a_bc = merge(Some(&a), &bc);
    assert_eq!(decode(&ab_c).1, 9);
    assert_eq!(decode(&a_bc).1, 9);
}

#[test]
fn merge_wraps_in_two_complement() {
    assert_eq!(decode(&merge(Some(&enc(b"a", i64::MAX)), &enc(b"a", 1))).1, i64::MIN);
}

#[test]
fn merge_of_short_values_counts_zero() {
    assert_eq!(merge(Some(b"xyz"), &enc(b"p", 2)), enc(b"p", 2));
    assert_eq!(merge(Some(&enc(b"p", 2)), b"xyz"), enc(b"p", 2));
}

#[test]
fn keys_compare_lexicographically() {
    assert!(bytes_lt(b"", b"a"));
    assert!(bytes_lt(b"a", b"ab"));
    assert!(bytes_lt(b"ab", b"b"));
    assert!(bytes_lt(b"a1", b"a2"));
    assert!(!bytes_lt(b"a", b"a"));
    assert!(!bytes_lt(b"b", b"ab"));
    assert!(!bytes_lt(b"", b""));
    assert!(bytes_lt(&[1, 255], &[2]));
    assert!(bytes_eq(b"abc", b"abc"));
    assert!(!bytes_eq(b"abc", b"abd"));
    assert!(!bytes_eq(b"abc", b"ab"));
}

#[test]
fn prefixes_are_recognised() {
    assert!(bytes_start_with(b"a1", b"a"));
    assert!(bytes_start_with(b"a1", b""));
    assert!(bytes_start_with(b"a1", b"a1"));
    assert!(!bytes_start_with(b"a", b"a1"));
    assert!(!bytes_start_with(b"b1", b"a"));
}

#[test]
fn operands_merge_in_order() {
    let ops = vec![enc(b"one", 1), enc(b"", -1), enc(b"two", 3), enc(b"", -1)];
    assert_eq!(merge_operands(None, &ops), Some(enc(b"two", 2)));
    assert_eq!(merge_operands(Some(&enc(b"old", 5)), &ops), Some(enc(b"two", 7)));
    assert_eq!(merge_operands(Some(&enc(b"old", 5)), &vec![]), Some(enc(b"old", 5)));
    assert_eq!(merge_operands(None, &vec![]), None);
    assert_eq!(
        merge_operands(Some(&enc(b"old", 1)), &vec![enc(b"", -1), enc(b"", 1)]),
        Some(enc(b"old", 1))
    );
}
