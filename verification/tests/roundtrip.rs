use rfc822_like::de::{from_bytes, split_list, unfold_value};
use rfc822_like::ser::{FieldValue, Serializer};

#[test]
fn empty_val() {
    let mut m = Serializer::new().serialize_map();
    m.serialize_key(b"X".to_vec()).unwrap();
    m.serialize_value(&FieldValue::Scalar(Vec::new())).unwrap();
    let s = m.end();
    let records = from_bytes(s).unwrap();
    assert_eq!(records.len(), 1);
    assert_eq!(records[0].len(), 1);
    assert_eq!(records[0][0].0, b"X".to_vec());
    assert_eq!(unfold_value(&records[0][0].1), Vec::<u8>::new());
}

#[test]
fn funny_value() {
    let key = vec![1u8];
    let mut value = vec![1u8, b'\n'];
    for _ in 0..80 {
        value.push(1u8);
    }
    let mut m = Serializer::new().serialize_map();
    m.serialize_key(key.clone()).unwrap();
    m.serialize_value(&FieldValue::Scalar(value.clone())).unwrap();
    let s = m.end();
    let records = from_bytes(s).unwrap();
    assert_eq!(records.len(), 1);
    assert_eq!(records[0][0].0, key);
    assert_eq!(unfold_value(&records[0][0].1), value);
}

#[test]
fn multi_line() {
    let mut m = Serializer::new().serialize_map();
    m.serialize_key(b"X".to_vec()).unwrap();
    m.serialize_value(&FieldValue::Scalar(b"a\nb\nc\nd".to_vec())).unwrap();
    let s = m.end();
    let records = from_bytes(s).unwrap();
    assert_eq!(records.len(), 1);
    assert_eq!(records[0][0].0, b"X".to_vec());
    assert_eq!(unfold_value(&records[0][0].1), b"a\nb\nc\nd".to_vec());
}

#[test]
fn scalar_record_round_trip() {
    let fields: Vec<(&[u8], &[u8])> = vec![
        (b"Package", b"bitcoin"),
        (b"Description", b"A very nice package\nThis package is very nice\n\nSecond paragraph."),
        (b"Empty", b""),
    ];
    let mut s = Serializer::new().serialize_struct();
    for (k, v) in &fields {
        s.serialize_field(&k.to_vec(), &FieldValue::Scalar(v.to_vec())).unwrap();
    }
    let wire = s.end();
    let records = from_bytes(wire).unwrap();
    assert_eq!(records.len(), 1);
    assert_eq!(records[0].len(), fields.len());
    for (i, (k, v)) in fields.iter().enumerate() {
        assert_eq!(records[0][i].0, k.to_vec());
        assert_eq!(unfold_value(&records[0][i].1), v.to_vec());
    }
}

#[test]
fn list_record_round_trip() {
    let items = vec![b"bitcoind".to_vec(), b"python (>= 3.0.0)".to_vec(), b"x".to_vec()];
    let mut s = Serializer::new().serialize_struct();
    s.serialize_field(&b"Depends".to_vec(), &FieldValue::List(items.clone())).unwrap();
    let wire = s.end();
    let records = from_bytes(wire).unwrap();
    assert_eq!(records.len(), 1);
    assert_eq!(records[0][0].0, b"Depends".to_vec());
    assert_eq!(split_list(&records[0][0].1), items);
}

#[test]
fn reencode_reproduces_bytes() {
    let mut s = Serializer::new().serialize_struct();
    s.serialize_field(&b"Name".to_vec(), &FieldValue::Scalar(b"bitcoin".to_vec())).unwrap();
    s.serialize_field(&b"Description".to_vec(), &FieldValue::Scalar(b"a\nb".to_vec())).unwrap();
    let wire = s.end();
    let records = from_bytes(wire.clone()).unwrap();
    let mut again = Serializer::new().serialize_struct();
    for field in &records[0] {
        again.serialize_field(&field.0, &FieldValue::Scalar(unfold_value(&field.1))).unwrap();
    }
    assert_eq!(again.end(), wire);
}

#[test]
fn stream_round_trip() {
    let mut q = Serializer::new().serialize_seq();
    q.serialize_element(&vec![
        (b"Name".to_vec(), FieldValue::Scalar(b"bitcoin".to_vec())),
        (b"Depends".to_vec(), FieldValue::List(vec![b"a".to_vec(), b"b".to_vec()])),
    ])
    .unwrap();
    q.serialize_element(&vec![(b"Name".to_vec(), FieldValue::Scalar(b"lightning".to_vec()))])
        .unwrap();
    let wire = q.end();
    let records = from_bytes(wire).unwrap();
    assert_eq!(records.len(), 2);
    assert_eq!(unfold_value(&records[0][0].1), b"bitcoin".to_vec());
    assert_eq!(split_list(&records[0][1].1), vec![b"a".to_vec(), b"b".to_vec()]);
    assert_eq!(unfold_value(&records[1][0].1), b"lightning".to_vec());
}
