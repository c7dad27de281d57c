use rfc822_like::de::{from_bytes, unfold_value, split_list, Deserializer, ErrorKind};

#[test]
fn test_single() {
    let input = b"Name: bitcoin".to_vec();
    let packages = from_bytes(input).unwrap();
    assert_eq!(packages.len(), 1);
    assert_eq!(packages[0].len(), 1);
    assert_eq!(packages[0][0].0, b"Name".to_vec());
    assert_eq!(unfold_value(&packages[0][0].1), b"bitcoin".to_vec());
}

#[test]
fn test_two_fields() {
    let input = b"Name: bitcoin\nSummary: Magic Internet Money".to_vec();
    let packages = from_bytes(input).unwrap();
    assert_eq!(packages.len(), 1);
    assert_eq!(packages[0].len(), 2);
    assert_eq!(packages[0][0].0, b"Name".to_vec());
    assert_eq!(unfold_value(&packages[0][0].1), b"bitcoin".to_vec());
    assert_eq!(packages[0][1].0, b"Summary".to_vec());
    assert_eq!(unfold_value(&packages[0][1].1), b"Magic Internet Money".to_vec());
}

#[test]
fn test_two_packages() {
    let input = b"Name: bitcoin\n\nName: lightning".to_vec();
    let packages = from_bytes(input).unwrap();
    assert_eq!(packages.len(), 2);
    assert_eq!(unfold_value(&packages[0][0].1), b"bitcoin".to_vec());
    assert_eq!(unfold_value(&packages[1][0].1), b"lightning".to_vec());
}

#[test]
fn test_two_packages_two_fields() {
    let input =
        b"Name: bitcoin\nSummary: Magic Internet Money\n\nName: lightning\nSummary: The payment rail"
            .to_vec();
    let packages = from_bytes(input).unwrap();
    assert_eq!(packages.len(), 2);
    assert_eq!(unfold_value(&packages[0][0].1), b"bitcoin".to_vec());
    assert_eq!(unfold_value(&packages[0][1].1), b"Magic Internet Money".to_vec());
    assert_eq!(unfold_value(&packages[1][0].1), b"lightning".to_vec());
    assert_eq!(unfold_value(&packages[1][1].1), b"The payment rail".to_vec());
}

#[test]
fn test_single_newline_end() {
    let input = b"Name: bitcoin\n".to_vec();
    let packages = from_bytes(input).unwrap();
    assert_eq!(packages.len(), 1);
    assert_eq!(unfold_value(&packages[0][0].1), b"bitcoin".to_vec());
}

#[test]
fn test_two_packages_newline_end() {
    let input = b"Name: bitcoin\n\nName: lightning\n".to_vec();
    let packages = from_bytes(input).unwrap();
    assert_eq!(packages.len(), 2);
    assert_eq!(unfold_value(&packages[0][0].1), b"bitcoin".to_vec());
    assert_eq!(unfold_value(&packages[1][0].1), b"lightning".to_vec());
}

#[test]
fn test_two_packages_two_fields_newline_end() {
    let input =
        b"Name: bitcoin\nSummary: Magic Internet Money\n\nName: lightning\nSummary: The payment rail\n"
            .to_vec();
    let packages = from_bytes(input).unwrap();
    assert_eq!(packages.len(), 2);
    assert_eq!(unfold_value(&packages[0][0].1), b"bitcoin".to_vec());
    assert_eq!(unfold_value(&packages[0][1].1), b"Magic Internet Money".to_vec());
    assert_eq!(unfold_value(&packages[1][0].1), b"lightning".to_vec());
    assert_eq!(unfold_value(&packages[1][1].1), b"The payment rail".to_vec());
}

#[test]
fn test_single_package_double_newline_end() {
    let input = b"Name: bitcoin\n\n".to_vec();
    let packages = from_bytes(input).unwrap();
    assert_eq!(packages.len(), 1);
    assert_eq!(unfold_value(&packages[0][0].1), b"bitcoin".to_vec());
}

#[test]
fn test_no_space() {
    let input = b"Name:bitcoin".to_vec();
    let packages = from_bytes(input).unwrap();
    assert_eq!(packages.len(), 1);
    assert_eq!(unfold_value(&packages[0][0].1), b"bitcoin".to_vec());
}

#[test]
fn test_val_on_new_line() {
    let input = b"Name:\n bitcoin".to_vec();
    let packages = from_bytes(input).unwrap();
    assert_eq!(packages.len(), 1);
    assert_eq!(unfold_value(&packages[0][0].1), b"bitcoin".to_vec());
}

#[test]
fn test_seq_single() {
    let input = b"Name: bitcoin".to_vec();
    let packages = from_bytes(input).unwrap();
    assert_eq!(packages.len(), 1);
    let items = split_list(&packages[0][0].1);
    assert_eq!(items.len(), 1);
    assert_eq!(items[0], b"bitcoin".to_vec());
}

#[test]
fn test_seq_two() {
    let input = b"Name: bitcoin,lightning".to_vec();
    let packages = from_bytes(input).unwrap();
    assert_eq!(packages.len(), 1);
    let items = split_list(&packages[0][0].1);
    assert_eq!(items.len(), 2);
    assert_eq!(items[0], b"bitcoin".to_vec());
    assert_eq!(items[1], b"lightning".to_vec());
}

#[test]
fn test_extra_fields() {
    let input = b"Name:\n bitcoin\nVersion: 0.21.1".to_vec();
    let mut d = Deserializer::new(input);
    let package = d.decode_record().unwrap();
    assert_eq!(package.len(), 2);
    assert_eq!(package[0].0, b"Name".to_vec());
    assert_eq!(unfold_value(&package[0].1), b"bitcoin".to_vec());
}

#[test]
fn test_multiline() {
    let input =
        b"Description:\n A very nice package\n This package is very nice\n because it has a multi-line\n description."
            .to_vec();
    let mut d = Deserializer::new(input);
    let package = d.decode_record().unwrap();
    assert_eq!(package[0].0, b"Description".to_vec());
    assert_eq!(
        unfold_value(&package[0].1),
        b"A very nice package\nThis package is very nice\nbecause it has a multi-line\ndescription."
            .to_vec()
    );
}

#[test]
fn test_multiparagraph() {
    let input =
        b"Description:\n A very nice package\n This package is very nice\n because it has a multi-line\n description.\n .\n It also has another paragraph in\n the description.\n .\n And another one."
            .to_vec();
    let mut d = Deserializer::new(input);
    let package = d.decode_record().unwrap();
    assert_eq!(
        unfold_value(&package[0].1),
        b"A very nice package\nThis package is very nice\nbecause it has a multi-line\ndescription.\n\nIt also has another paragraph in\nthe description.\n\nAnd another one."
            .to_vec()
    );
}

#[test]
fn test_option_none() {
    let input = b"Name: bitcoin".to_vec();
    let mut d = Deserializer::new(input);
    let package = d.decode_record().unwrap();
    assert_eq!(unfold_value(&package[0].1), b"bitcoin".to_vec());
    assert!(package.iter().all(|f| f.0 != b"Description".to_vec()));
}

#[test]
fn test_option_some() {
    let input = b"Name: bitcoin\nDescription: The Internet of Money".to_vec();
    let mut d = Deserializer::new(input);
    let package = d.decode_record().unwrap();
    assert_eq!(unfold_value(&package[0].1), b"bitcoin".to_vec());
    assert_eq!(package[1].0, b"Description".to_vec());
    assert_eq!(unfold_value(&package[1].1), b"The Internet of Money".to_vec());
}

#[test]
fn test_deserialize_unit_variant() {
    let input = b"Foo: bar\n".to_vec();
    let mut d = Deserializer::new(input);
    let baz = d.decode_record().unwrap();
    assert_eq!(baz[0].0, b"Foo".to_vec());
    assert_eq!(unfold_value(&baz[0].1), b"bar".to_vec());
}

#[test]
fn description_two_continuation_lines() {
    let input = b"Description:\n A very nice package\n This package is very nice".to_vec();
    let mut d = Deserializer::new(input);
    let package = d.decode_record().unwrap();
    assert_eq!(package[0].0, b"Description".to_vec());
    assert_eq!(
        unfold_value(&package[0].1),
        b"A very nice package\nThis package is very nice".to_vec()
    );
}

#[test]
fn paragraph_marker_between_lines() {
    let input = b"K:\n a\n .\n b".to_vec();
    let mut d = Deserializer::new(input);
    let record = d.decode_record().unwrap();
    assert_eq!(unfold_value(&record[0].1), b"a\n\nb".to_vec());
}

#[test]
fn tab_continuation_kept_verbatim() {
    // a tab-indented continuation line joins the raw value, but without the
    // line-feed-space mark the value passes through unfolding unchanged
    let input = b"K: a\n\tb".to_vec();
    let mut d = Deserializer::new(input);
    let record = d.decode_record().unwrap();
    assert_eq!(record[0].1, b"a\n\tb".to_vec());
    assert_eq!(unfold_value(&record[0].1), b"a\n\tb".to_vec());
}

#[test]
fn missing_colon_is_an_error() {
    let input = b"Name bitcoin".to_vec();
    let mut d = Deserializer::new(input);
    let e = d.decode_record().unwrap_err();
    assert!(matches!(e.kind, ErrorKind::MissingColon(1)));
}

#[test]
fn missing_colon_mid_record_propagates() {
    let input = b"Name: x\nBAD\n".to_vec();
    let e = from_bytes(input).unwrap_err();
    assert!(matches!(e.kind, ErrorKind::MissingColon(1)));
}

#[test]
fn garbage_after_blank_line_ends_sequence() {
    let input = b"Name: x\n\nBAD\n".to_vec();
    let packages = from_bytes(input).unwrap();
    assert_eq!(packages.len(), 1);
    assert_eq!(unfold_value(&packages[0][0].1), b"x".to_vec());
}

#[test]
fn empty_input_decodes_to_no_records() {
    assert_eq!(from_bytes(Vec::new()).unwrap().len(), 0);
    assert_eq!(from_bytes(b"\n".to_vec()).unwrap().len(), 0);
}

#[test]
fn value_is_trimmed_as_a_whole() {
    let input = b"K:   spaced out  \n".to_vec();
    let mut d = Deserializer::new(input);
    let record = d.decode_record().unwrap();
    assert_eq!(record[0].1, b"spaced out".to_vec());
}

#[test]
fn list_items_are_trimmed() {
    let input = b"Depends: bitcoind, python (>= 3.0.0)\n".to_vec();
    let mut d = Deserializer::new(input);
    let record = d.decode_record().unwrap();
    let items = split_list(&record[0].1);
    assert_eq!(items.len(), 2);
    assert_eq!(items[0], b"bitcoind".to_vec());
    assert_eq!(items[1], b"python (>= 3.0.0)".to_vec());
}
