use ytorrent::{BencodeParser, Error, Object};

fn int_text(input: &[u8]) -> Result<String, Error> {
    let mut parser = BencodeParser::new(input);
    match parser.parse()? {
        Some(Object::Int(text)) => Ok(text.to_string()),
        _ => panic!("not an integer"),
    }
}

fn first_error(input: &[u8]) -> Error {
    let mut parser = BencodeParser::new(input);
    match parser.parse() {
        Err(e) => e,
        Ok(_) => panic!("no error"),
    }
}

#[test]
fn zero_decodes() {
    assert_eq!(int_text(b"i0e").unwrap(), "0");
}

#[test]
fn negative_zero_is_rejected() {
    assert!(matches!(first_error(b"i-0e"), Error::BencodeDecode(2)));
}

#[test]
fn leading_zero_is_rejected() {
    assert!(matches!(first_error(b"i007e"), Error::BencodeDecode(2)));
}

#[test]
fn negative_decodes() {
    assert_eq!(int_text(b"i-5e").unwrap(), "-5");
    let mut parser = BencodeParser::new(b"i-5e");
    assert_eq!(parser.decode_integer(i64::MIN as i128, i64::MAX as i128).unwrap(), -5);
}

#[test]
fn missing_terminator_fails_at_end_of_input() {
    assert!(matches!(first_error(b"i12"), Error::BencodeDecode(3)));
}

#[test]
fn bare_sign_is_rejected() {
    assert!(matches!(first_error(b"i-e"), Error::BencodeDecode(2)));
}

#[test]
fn empty_input_fails_at_zero() {
    assert!(matches!(first_error(b""), Error::BencodeDecode(0)));
}

#[test]
fn unknown_byte_is_rejected() {
    assert!(matches!(first_error(b"x"), Error::BencodeDecode(1)));
}

#[test]
fn byte_string_round_trip() {
    let payload: Vec<u8> = (0u8..=255).collect();
    let mut encoded = format!("{}:", payload.len()).into_bytes();
    encoded.extend_from_slice(&payload);
    let mut parser = BencodeParser::new(&encoded);
    match parser.parse().unwrap() {
        Some(Object::Bytes(bytes)) => assert_eq!(bytes, payload.as_slice()),
        _ => panic!("not a byte string"),
    }
}

#[test]
fn empty_byte_string() {
    let mut parser = BencodeParser::new(b"0:");
    match parser.parse().unwrap() {
        Some(Object::Bytes(bytes)) => assert!(bytes.is_empty()),
        _ => panic!("not a byte string"),
    }
}

#[test]
fn byte_string_longer_than_input() {
    assert!(matches!(first_error(b"5:ab"), Error::BencodeDecode(2)));
}

#[test]
fn byte_string_length_too_large() {
    assert!(matches!(first_error(b"99999999999999999999999:a"), Error::BencodeDecode(0)));
}

#[test]
fn byte_string_length_with_leading_zero() {
    assert!(matches!(first_error(b"01:a"), Error::BencodeDecode(1)));
}

#[test]
fn stray_end_is_no_value() {
    let mut parser = BencodeParser::new(b"e");
    assert!(parser.parse().unwrap().is_none());
}
