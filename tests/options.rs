use yrs::codec::{read_varuint_at, write_varuint};
use yrs::options::{DecodeError, OffsetKind, Options};
use yrs::uuid::uuid_v4_from_bytes;

fn key(out: &mut Vec<u8>, k: &str) {
    out.push(k.len() as u8);
    out.extend_from_slice(k.as_bytes());
}

#[test]
fn options_round_trip_resets_should_load() {
    let mut o = Options::with_guid_and_client_id("doc-guid".to_string(), 42);
    o.skip_gc = true;
    o.auto_load = true;
    o.collection_id = Some("x".to_string());
    let bytes = o.encode();
    let d = Options::decode_with_client_id(&bytes, 42).unwrap();
    assert_eq!(d.guid, "doc-guid");
    assert_eq!(d.collection_id, Some("x".to_string()));
    assert_eq!(d.offset_kind, OffsetKind::Bytes);
    assert!(d.skip_gc);
    assert!(d.auto_load);
    assert!(!d.should_load);
    assert_eq!(d.client_id, 42);
}

#[test]
fn options_round_trip_utf16_without_collection() {
    let mut o = Options::with_guid_and_client_id("ü-guid".to_string(), 1);
    o.offset_kind = OffsetKind::Utf16;
    let d = Options::decode_with_client_id(&o.encode(), 9).unwrap();
    assert_eq!(d.guid, "ü-guid");
    assert_eq!(d.collection_id, None);
    assert_eq!(d.offset_kind, OffsetKind::Utf16);
    assert!(!d.skip_gc);
    assert!(!d.auto_load);
    assert!(!d.should_load);
    assert_eq!(d.client_id, 9);
}

#[test]
fn options_encoding_is_exact() {
    let o = Options::with_guid_and_client_id("A".to_string(), 5);
    let mut expected = vec![1u8, 65, 118, 4];
    key(&mut expected, "gc");
    expected.push(120);
    key(&mut expected, "encoding");
    expected.push(122);
    expected.extend_from_slice(&[0, 0, 0, 0, 0, 0, 0, 1]);
    key(&mut expected, "autoLoad");
    expected.push(121);
    key(&mut expected, "shouldLoad");
    expected.push(120);
    assert_eq!(o.encode(), expected);
}

#[test]
fn decode_skips_unknown_keys_and_nested_values() {
    let mut b = vec![1u8, 66, 118, 3];
    key(&mut b, "other");
    // a map holding an array of an integer and a string
    b.extend_from_slice(&[118, 1]);
    key(&mut b, "k");
    b.extend_from_slice(&[117, 2, 125, 5, 119, 2, 104, 105]);
    key(&mut b, "gc");
    b.push(121);
    key(&mut b, "encoding");
    b.extend_from_slice(&[125, 1]);
    let d = Options::decode_with_client_id(&b, 3).unwrap();
    assert_eq!(d.guid, "B");
    assert!(d.skip_gc);
    assert_eq!(d.offset_kind, OffsetKind::Utf16);
    assert_eq!(d.collection_id, None);
}

#[test]
fn decode_last_occurrence_of_a_key_wins() {
    let mut b = vec![1u8, 67, 118, 2];
    key(&mut b, "autoLoad");
    b.push(120);
    key(&mut b, "autoLoad");
    b.push(126);
    let d = Options::decode_with_client_id(&b, 3).unwrap();
    assert!(!d.auto_load);
}

#[test]
fn decode_accepts_a_value_that_is_not_a_map() {
    let b = vec![1u8, 68, 126];
    let d = Options::decode_with_client_id(&b, 3).unwrap();
    assert_eq!(d.guid, "D");
    assert!(!d.skip_gc);
}

#[test]
fn decode_rejects_truncated_input() {
    let o = Options::with_guid_and_client_id("guid".to_string(), 5);
    let bytes = o.encode();
    assert_eq!(Options::decode_with_client_id(&bytes[..bytes.len() - 1], 5), Err(DecodeError));
    assert_eq!(Options::decode(&[]), Err(DecodeError));
}

#[test]
fn decode_rejects_invalid_utf8_guid() {
    let b = vec![1u8, 0xff, 126];
    assert_eq!(Options::decode_with_client_id(&b, 1), Err(DecodeError));
}

#[test]
fn decode_draws_a_client_id() {
    let o = Options::with_guid_and_client_id("g".to_string(), 5);
    let d = Options::decode(&o.encode()).unwrap();
    assert!(d.client_id < u32::MAX as u64);
    assert_eq!(d.guid, "g");
}

#[test]
fn default_options() {
    let o = Options::default();
    assert!(o.client_id < u32::MAX as u64);
    assert_eq!(o.guid.len(), 36);
    assert_eq!(&o.guid[14..15], "4");
    assert!(o.should_load);
    assert!(!o.auto_load);
    assert!(!o.skip_gc);
    assert_eq!(o.offset_kind, OffsetKind::Bytes);
    let p = Options::with_client_id(7);
    assert_eq!(p.client_id, 7);
    assert_ne!(p.guid, o.guid);
}

#[test]
fn uuid_layout() {
    let mut b = [0u8; 16];
    for (i, x) in b.iter_mut().enumerate() {
        *x = i as u8;
    }
    assert_eq!(uuid_v4_from_bytes(b), "00010203-0405-4607-8809-0a0b0c0d0e0f");
    assert_eq!(uuid_v4_from_bytes([0xff; 16]), "ffffffff-ffff-4fff-bfff-ffffffffffff");
}

#[test]
fn varuint_round_trip() {
    let mut out = Vec::new();
    write_varuint(&mut out, 300);
    assert_eq!(out, vec![172, 2]);
    assert_eq!(read_varuint_at(&out, 0), Some((300, 2)));
    let mut big = Vec::new();
    write_varuint(&mut big, u64::MAX);
    assert_eq!(big.len(), 10);
    assert_eq!(read_varuint_at(&big, 0), Some((u64::MAX, 10)));
    assert_eq!(read_varuint_at(&[0x80], 0), None);
}

#[test]
fn as_any_is_the_encoding_after_the_guid() {
    let mut o = Options::with_guid_and_client_id("abc".to_string(), 1);
    o.collection_id = Some("col".to_string());
    let map = o.as_any();
    assert_eq!(map[0], 118);
    assert_eq!(map[1], 5);
    let full = o.encode();
    assert_eq!(&full[4..], &map[..]);
}
