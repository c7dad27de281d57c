use rfc822_like::ser::{ErrorKind, FieldValue, FieldWriter, Serializer};

#[test]
fn error() {
    assert!(Serializer::new().serialize_str(&b"foo".to_vec()).is_err());
}

#[test]
fn empty() {
    let s = Serializer::new().serialize_struct();
    let out = s.end();
    assert_eq!(out, b"".to_vec());
}

#[test]
fn single() {
    let mut s = Serializer::new().serialize_struct();
    s.serialize_field(&b"Bar".to_vec(), &FieldValue::Scalar(b"baz".to_vec())).unwrap();
    assert_eq!(s.end(), b"Bar: baz\n".to_vec());
}

#[test]
fn two() {
    let mut s = Serializer::new().serialize_struct();
    s.serialize_field(&b"Bar".to_vec(), &FieldValue::Scalar(b"bar value".to_vec())).unwrap();
    s.serialize_field(&b"Baz".to_vec(), &FieldValue::Scalar(b"baz value".to_vec())).unwrap();
    assert_eq!(s.end(), b"Bar: bar value\nBaz: baz value\n".to_vec());
}

#[test]
fn long_begin() {
    let mut s = Serializer::new().serialize_struct();
    s.serialize_field(
        &b"Bar".to_vec(),
        &FieldValue::Scalar(
            b"Insanely long string meant for testing, that will be over eighty characters long, I believe."
                .to_vec(),
        ),
    )
    .unwrap();
    assert_eq!(
        s.end(),
        b"Bar: Insanely long string meant for testing, that will be over eighty characters long, I believe.\n"
            .to_vec()
    );
}

#[test]
fn long_body() {
    let mut s = Serializer::new().wrap_long_lines(true).serialize_struct();
    s.serialize_field(
        &b"Bar".to_vec(),
        &FieldValue::Scalar(
            b"Begin\nInsanely long string meant for testing, that will be over eighty characters long, I believe."
                .to_vec(),
        ),
    )
    .unwrap();
    assert_eq!(
        s.end(),
        b"Bar: Begin\n Insanely long string meant for testing, that will be over eighty characters \n long, I believe.\n"
            .to_vec()
    );
}

#[test]
fn multiline() {
    let mut s = Serializer::new().serialize_struct();
    s.serialize_field(&b"Bar".to_vec(), &FieldValue::Scalar(b"first line\nsecond line".to_vec()))
        .unwrap();
    assert_eq!(s.end(), b"Bar: first line\n second line\n".to_vec());
}

#[test]
fn empty_line() {
    let mut s = Serializer::new().serialize_struct();
    s.serialize_field(
        &b"Bar".to_vec(),
        &FieldValue::Scalar(b"begin\nfirst line\n\nsecond line".to_vec()),
    )
    .unwrap();
    assert_eq!(s.end(), b"Bar: begin\n first line\n .\n second line\n".to_vec());
}

#[test]
fn none() {
    let mut s = Serializer::new().serialize_struct();
    s.serialize_field(&b"Bar".to_vec(), &FieldValue::Absent).unwrap();
    assert_eq!(s.end(), b"".to_vec());
}

#[test]
fn some() {
    let mut s = Serializer::new().serialize_struct();
    s.serialize_field(&b"Bar".to_vec(), &FieldValue::Scalar(b"baz".to_vec())).unwrap();
    assert_eq!(s.end(), b"Bar: baz\n".to_vec());
}

#[test]
fn seq_empty() {
    let mut s = Serializer::new().serialize_struct();
    s.serialize_field(&b"Bar".to_vec(), &FieldValue::List(Vec::new())).unwrap();
    assert_eq!(s.end(), b"".to_vec());
}

#[test]
fn seq_single() {
    let mut s = Serializer::new().serialize_struct();
    s.serialize_field(&b"Bar".to_vec(), &FieldValue::List(vec![b"baz".to_vec()])).unwrap();
    assert_eq!(s.end(), b"Bar: baz\n".to_vec());
}

#[test]
fn seq_two() {
    let mut s = Serializer::new().serialize_struct();
    s.serialize_field(
        &b"Bar".to_vec(),
        &FieldValue::List(vec![b"baz".to_vec(), b"bitcoin".to_vec()]),
    )
    .unwrap();
    assert_eq!(s.end(), b"Bar: baz,\n     bitcoin\n".to_vec());
}

#[test]
fn serialize_unit_variant() {
    let mut s = Serializer::new().serialize_struct();
    s.serialize_field(&b"Foo".to_vec(), &FieldValue::Scalar(b"bar".to_vec())).unwrap();
    assert_eq!(s.end(), b"Foo: bar\n".to_vec());
}

#[test]
fn field_writer_empty() {
    let mut output: Vec<u8> = Vec::new();
    let mut writer = FieldWriter::new(false);
    writer.write_str(&mut output, &b"".to_vec());
    writer.finish(&mut output);
    assert_eq!(output, b"\n".to_vec());
}

#[test]
fn field_writer_no_newline() {
    let mut output: Vec<u8> = Vec::new();
    let mut writer = FieldWriter::new(false);
    writer.write_str(&mut output, &b"satoshi".to_vec());
    writer.finish(&mut output);
    assert_eq!(output, b"satoshi\n".to_vec());
}

#[test]
fn field_writer_single_newline() {
    let mut output: Vec<u8> = Vec::new();
    let mut writer = FieldWriter::new(false);
    writer.write_str(&mut output, &b"satoshi\nnakamoto".to_vec());
    writer.finish(&mut output);
    assert_eq!(output, b"satoshi\n nakamoto\n".to_vec());
}

#[test]
fn field_writer_two_newlines() {
    let mut output: Vec<u8> = Vec::new();
    let mut writer = FieldWriter::new(false);
    writer.write_str(&mut output, &b"satoshi\nnakamoto\nbitcoin".to_vec());
    writer.finish(&mut output);
    assert_eq!(output, b"satoshi\n nakamoto\n bitcoin\n".to_vec());
}

#[test]
fn field_writer_split_first_line() {
    let mut output: Vec<u8> = Vec::new();
    let mut writer = FieldWriter::new(false);
    writer.write_str(&mut output, &b"satoshi".to_vec());
    writer.write_str(&mut output, &b" nakamoto".to_vec());
    writer.finish(&mut output);
    assert_eq!(output, b"satoshi nakamoto\n".to_vec());
}

#[test]
fn field_writer_split_before_first_line_end() {
    let mut output: Vec<u8> = Vec::new();
    let mut writer = FieldWriter::new(false);
    writer.write_str(&mut output, &b"satoshi".to_vec());
    writer.write_str(&mut output, &b"\nnakamoto".to_vec());
    writer.finish(&mut output);
    assert_eq!(output, b"satoshi\n nakamoto\n".to_vec());
}

#[test]
fn field_writer_split_after_first_line_end() {
    let mut output: Vec<u8> = Vec::new();
    let mut writer = FieldWriter::new(false);
    writer.write_str(&mut output, &b"satoshi\n".to_vec());
    writer.write_str(&mut output, &b"nakamoto".to_vec());
    writer.finish(&mut output);
    assert_eq!(output, b"satoshi\n nakamoto\n".to_vec());
}

#[test]
fn field_writer_split_second_line() {
    let mut output: Vec<u8> = Vec::new();
    let mut writer = FieldWriter::new(false);
    writer.write_str(&mut output, &b"satoshi nakamoto\ninvented".to_vec());
    writer.write_str(&mut output, &b" bitcoin".to_vec());
    writer.finish(&mut output);
    assert_eq!(output, b"satoshi nakamoto\n invented bitcoin\n".to_vec());
}

#[test]
fn field_writer_empty_line() {
    let mut output: Vec<u8> = Vec::new();
    let mut writer = FieldWriter::new(false);
    writer.write_str(&mut output, &b"satoshi nakamoto\n\ninvented bitcoin".to_vec());
    writer.finish(&mut output);
    assert_eq!(output, b"satoshi nakamoto\n .\n invented bitcoin\n".to_vec());
}

#[test]
fn field_writer_split_before_empty_line() {
    let mut output: Vec<u8> = Vec::new();
    let mut writer = FieldWriter::new(false);
    writer.write_str(&mut output, &b"satoshi nakamoto".to_vec());
    writer.write_str(&mut output, &b"\n\ninvented bitcoin".to_vec());
    writer.finish(&mut output);
    assert_eq!(output, b"satoshi nakamoto\n .\n invented bitcoin\n".to_vec());
}

#[test]
fn field_writer_split_in_empty_line() {
    let mut output: Vec<u8> = Vec::new();
    let mut writer = FieldWriter::new(false);
    writer.write_str(&mut output, &b"satoshi nakamoto\n".to_vec());
    writer.write_str(&mut output, &b"\ninvented bitcoin".to_vec());
    writer.finish(&mut output);
    assert_eq!(output, b"satoshi nakamoto\n .\n invented bitcoin\n".to_vec());
}

#[test]
fn field_writer_split_after_empty_line() {
    let mut output: Vec<u8> = Vec::new();
    let mut writer = FieldWriter::new(false);
    writer.write_str(&mut output, &b"satoshi nakamoto\n\n".to_vec());
    writer.write_str(&mut output, &b"invented bitcoin".to_vec());
    writer.finish(&mut output);
    assert_eq!(output, b"satoshi nakamoto\n .\n invented bitcoin\n".to_vec());
}

#[test]
fn field_writer_split_empty_line_twice1() {
    let mut output: Vec<u8> = Vec::new();
    let mut writer = FieldWriter::new(false);
    writer.write_str(&mut output, &b"satoshi nakamoto\n".to_vec());
    writer.write_str(&mut output, &b"\n".to_vec());
    writer.write_str(&mut output, &b"invented bitcoin".to_vec());
    writer.finish(&mut output);
    assert_eq!(output, b"satoshi nakamoto\n .\n invented bitcoin\n".to_vec());
}

#[test]
fn field_writer_split_empty_line_twice2() {
    let mut output: Vec<u8> = Vec::new();
    let mut writer = FieldWriter::new(false);
    writer.write_str(&mut output, &b"satoshi nakamoto".to_vec());
    writer.write_str(&mut output, &b"\n".to_vec());
    writer.write_str(&mut output, &b"\ninvented bitcoin".to_vec());
    writer.finish(&mut output);
    assert_eq!(output, b"satoshi nakamoto\n .\n invented bitcoin\n".to_vec());
}

#[test]
fn field_writer_multi_split_empty_line_three_times() {
    let mut output: Vec<u8> = Vec::new();
    let mut writer = FieldWriter::new(false);
    writer.write_str(&mut output, &b"satoshi nakamoto".to_vec());
    writer.write_str(&mut output, &b"\n".to_vec());
    writer.write_str(&mut output, &b"\n".to_vec());
    writer.write_str(&mut output, &b"invented bitcoin".to_vec());
    writer.finish(&mut output);
    assert_eq!(output, b"satoshi nakamoto\n .\n invented bitcoin\n".to_vec());
}

#[test]
fn empty_scalar_emits_key_line() {
    let mut s = Serializer::new().serialize_struct();
    s.serialize_field(&b"Key".to_vec(), &FieldValue::Scalar(b"".to_vec())).unwrap();
    assert_eq!(s.end(), b"Key: \n".to_vec());
}

#[test]
fn empty_key_is_rejected() {
    let mut s = Serializer::new().serialize_struct();
    let e = s.serialize_field(&b"".to_vec(), &FieldValue::Scalar(b"x".to_vec())).unwrap_err();
    assert!(matches!(e.kind, ErrorKind::EmptyKey));
    assert_eq!(s.end(), b"".to_vec());
}

#[test]
fn colon_in_key_is_rejected() {
    let mut s = Serializer::new().serialize_struct();
    let e = s.serialize_field(&b"a:b".to_vec(), &FieldValue::Scalar(b"x".to_vec())).unwrap_err();
    match e.kind {
        ErrorKind::InvalidKeyChar { key, c, pos } => {
            assert_eq!(key, b"a:b".to_vec());
            assert_eq!(c, b':');
            assert_eq!(pos, 1);
        }
        _ => panic!("wrong error kind"),
    }
}

#[test]
fn newline_in_key_is_rejected() {
    let mut s = Serializer::new().serialize_struct();
    let e = s.serialize_field(&b"a\nb".to_vec(), &FieldValue::Scalar(b"x".to_vec())).unwrap_err();
    match e.kind {
        ErrorKind::InvalidKeyChar { key, c, pos } => {
            assert_eq!(key, b"a\nb".to_vec());
            assert_eq!(c, b'\n');
            assert_eq!(pos, 1);
        }
        _ => panic!("wrong error kind"),
    }
}

#[test]
fn list_indent_counts_graphemes() {
    // a two-byte key of one grapheme cluster aligns items at three columns,
    // not four
    let key = "\u{e9}".as_bytes().to_vec();
    assert_eq!(key.len(), 2);
    let mut s = Serializer::new().serialize_struct();
    s.serialize_field(&key, &FieldValue::List(vec![b"a".to_vec(), b"b".to_vec()])).unwrap();
    let mut expected = "\u{e9}: a,\n".as_bytes().to_vec();
    expected.extend_from_slice(b"   b\n");
    assert_eq!(s.end(), expected);
}

#[test]
fn map_serializer_pairs_key_and_value() {
    let mut m = Serializer::new().serialize_map();
    m.serialize_key(b"Bar".to_vec()).unwrap();
    m.serialize_value(&FieldValue::Scalar(b"baz".to_vec())).unwrap();
    assert_eq!(m.end(), b"Bar: baz\n".to_vec());
}

#[test]
fn seq_serializer_separates_records_with_blank_line() {
    let mut q = Serializer::new().serialize_seq();
    q.serialize_element(&vec![(b"Name".to_vec(), FieldValue::Scalar(b"bitcoin".to_vec()))])
        .unwrap();
    q.serialize_element(&vec![(b"Name".to_vec(), FieldValue::Scalar(b"lightning".to_vec()))])
        .unwrap();
    assert_eq!(q.end(), b"Name: bitcoin\n\nName: lightning\n".to_vec());
}
