use std::collections::HashMap;

use ytorrent::meta::DIGEST_LENGTH;
use ytorrent::{BencodeParser, Cause, EnumStart, Error, Expected, Found, PieceList, Sha1Digest, Shape};

#[derive(Debug, PartialEq)]
enum Value {
    Text(String),
    Int(i64),
}

#[test]
fn generic_map_target() {
    let mut parser = BencodeParser::new(b"d4:key15:value4:key2i123ee");
    let mut map = HashMap::new();
    parser.expect_dict_begin().unwrap();
    while parser.has_next_entry().unwrap() {
        let key = parser.decode_str().unwrap().to_string();
        let value = match parser.peek_shape().unwrap() {
            Shape::Bytes => Value::Text(parser.decode_str().unwrap().to_string()),
            Shape::Integer => Value::Int(parser.decode_integer(i64::MIN as i128, i64::MAX as i128).unwrap() as i64),
            other => panic!("unexpected {:?}", other),
        };
        map.insert(key, value);
    }
    parser.expect_end().unwrap();
    let expected = HashMap::from([
        ("key1".to_string(), Value::Text("value".to_string())),
        ("key2".to_string(), Value::Int(123)),
    ]);
    assert_eq!(map, expected);
}

#[test]
fn duplicate_keys_last_wins() {
    let mut parser = BencodeParser::new(b"d1:ai1e1:ai2ee");
    let mut map = HashMap::new();
    parser.expect_dict_begin().unwrap();
    while parser.has_next_entry().unwrap() {
        let key = parser.decode_str().unwrap().to_string();
        let value = parser.decode_integer(i64::MIN as i128, i64::MAX as i128).unwrap();
        map.insert(key, value);
    }
    parser.expect_end().unwrap();
    assert_eq!(map.get("a"), Some(&2));
}

#[test]
fn enum_unit_variant() {
    let mut parser = BencodeParser::new(b"4:Unit");
    match parser.decode_enum_start().unwrap() {
        EnumStart::Unit(name) => assert_eq!(name, "Unit"),
        other => panic!("unexpected {:?}", other),
    }
}

#[test]
fn enum_variant_with_payload() {
    let mut parser = BencodeParser::new(b"d3:Inti13ee");
    assert!(matches!(parser.decode_enum_start().unwrap(), EnumStart::Tagged));
    assert_eq!(parser.decode_str().unwrap(), "Int");
    assert_eq!(parser.decode_integer(i32::MIN as i128, i32::MAX as i128).unwrap(), 13);
    parser.expect_end().unwrap();
}

#[test]
fn enum_from_list_is_mismatch() {
    let mut parser = BencodeParser::new(b"le");
    assert!(matches!(parser.decode_enum_start(), Err(Error::Mismatch(0, Expected::DictOrBytes, Found::List))));
}

#[test]
fn enum_mismatch_leaves_the_token() {
    let mut parser = BencodeParser::new(b"i1e");
    assert!(matches!(parser.decode_enum_start(), Err(Error::Mismatch(0, Expected::DictOrBytes, Found::Integer))));
    assert_eq!(parser.decode_integer(0, 10).unwrap(), 1);
}

#[test]
fn integer_out_of_target_range() {
    let mut parser = BencodeParser::new(b"i300e");
    assert!(matches!(parser.decode_integer(0, u8::MAX as i128), Err(Error::Conversion(0, Cause::OutOfRange))));
    let mut parser = BencodeParser::new(b"i255e");
    assert_eq!(parser.decode_integer(0, u8::MAX as i128).unwrap(), 255);
}

#[test]
fn integer_extremes() {
    let text = format!("i{}e", u64::MAX);
    let mut parser = BencodeParser::new(text.as_bytes());
    assert_eq!(parser.decode_integer(0, u64::MAX as i128).unwrap(), u64::MAX as i128);
    let text = format!("i{}e", i64::MIN);
    let mut parser = BencodeParser::new(text.as_bytes());
    assert_eq!(parser.decode_integer(i64::MIN as i128, i64::MAX as i128).unwrap(), i64::MIN as i128);
    let mut parser = BencodeParser::new(b"i-999999999999999999999999999999999999999999e");
    assert!(matches!(parser.decode_integer(i128::MIN, i128::MAX), Err(Error::Conversion(0, _))));
}

#[test]
fn integer_where_bytes_stand() {
    let mut parser = BencodeParser::new(b"3:abc");
    assert!(matches!(parser.decode_integer(0, 10), Err(Error::Mismatch(0, _, _))));
}

#[test]
fn bool_from_integer() {
    assert!(BencodeParser::new(b"i5e").decode_bool().unwrap());
    assert!(!BencodeParser::new(b"i0e").decode_bool().unwrap());
    assert!(!BencodeParser::new(b"i-3e").decode_bool().unwrap());
}

#[test]
fn text_must_be_utf8() {
    let mut parser = BencodeParser::new(b"2:\xc3\xa9");
    assert_eq!(parser.decode_str().unwrap(), "\u{e9}");
    let mut parser = BencodeParser::new(b"1:\xff");
    assert!(matches!(parser.decode_str(), Err(Error::Conversion(0, _))));
}

#[test]
fn bytes_pass_through() {
    let mut parser = BencodeParser::new(b"1:\xff");
    assert_eq!(parser.decode_bytes().unwrap(), b"\xff");
}

#[test]
fn char_is_one_ascii_byte() {
    assert_eq!(BencodeParser::new(b"1:a").decode_char().unwrap(), 'a');
    assert!(matches!(BencodeParser::new(b"2:ab").decode_char(), Err(Error::Conversion(0, _))));
}

#[test]
fn shapes_of_values() {
    assert_eq!(BencodeParser::new(b"de").peek_shape().unwrap(), Shape::Dict);
    assert_eq!(BencodeParser::new(b"le").peek_shape().unwrap(), Shape::List);
    assert_eq!(BencodeParser::new(b"i1e").peek_shape().unwrap(), Shape::Integer);
    assert_eq!(BencodeParser::new(b"0:").peek_shape().unwrap(), Shape::Bytes);
    assert!(matches!(BencodeParser::new(b"e").peek_shape(), Err(Error::Mismatch(0, _, _))));
}

#[test]
fn sequence_elements() {
    let mut parser = BencodeParser::new(b"li1ei2ee");
    parser.expect_list_begin().unwrap();
    let mut items = vec![];
    while parser.has_next_entry().unwrap() {
        items.push(parser.decode_integer(0, 10).unwrap());
    }
    parser.expect_end().unwrap();
    assert_eq!(items, vec![1, 2]);
}

#[test]
fn unit_is_empty_list() {
    assert!(BencodeParser::new(b"le").expect_empty_list().is_ok());
    assert!(BencodeParser::new(b"li1ee").expect_empty_list().is_err());
}

#[test]
fn test_se_de_piece_list() {
    let sample: [u8; 20] = [0u8, 1, 2, 3, 4, 5, 6, 7, 8, 9, 10, 11, 12, 13, 14, 15, 16, 17, 18, 19];
    let mut bytes = b"20:".to_vec();
    bytes.extend_from_slice(&sample);
    let mut parser = BencodeParser::new(&bytes);
    let piece_list = PieceList::from_bytes(parser.decode_bytes().unwrap()).unwrap();
    assert_eq!(piece_list.0.first().unwrap().0, sample);
}

#[test]
fn piece_list_needs_whole_digests() {
    let bytes: Vec<u8> = (0u8..40).collect();
    let list = PieceList::from_bytes(&bytes).unwrap();
    assert_eq!(list.0.len(), 2);
    assert_eq!(list.0[1].0[..], bytes[DIGEST_LENGTH..]);
    assert!(PieceList::from_bytes(&bytes[..21]).is_none());
    assert_eq!(PieceList::from_bytes(&[]).unwrap().0, Vec::<Sha1Digest>::new());
}
