use ytorrent::{info_hash, BencodeParser, Error, Expected, Found, Object, Sha1Digest};

#[test]
fn dict_pairs_in_order() {
    let data = b"d4:key15:value4:key2i123ee";
    let mut parser = BencodeParser::new(data);
    match parser.parse().unwrap() {
        Some(Object::Dict(mut decoder)) => {
            let (key1, value1) = decoder.next_pair().unwrap().unwrap();
            assert_eq!(key1, b"key1");
            match value1 {
                Object::Bytes(bytes) => assert_eq!(bytes, b"value"),
                _ => panic!("not bytes"),
            }
            let (key2, value2) = decoder.next_pair().unwrap().unwrap();
            assert_eq!(key2, b"key2");
            match value2 {
                Object::Int(text) => assert_eq!(text.parse::<i64>(), Ok(123)),
                _ => panic!("not an integer"),
            }
            assert!(decoder.next_pair().unwrap().is_none());
            assert!(decoder.next_pair().unwrap().is_none());
        }
        _ => panic!("not a dictionary"),
    }
}

#[test]
fn abandoned_dict_leaves_parent_at_next_sibling() {
    let data = b"ld1:ai1e1:bli2ei3ee1:ci4eei7ee";
    let mut parser = BencodeParser::new(data);
    match parser.parse().unwrap() {
        Some(Object::List(mut list)) => {
            match list.next_object().unwrap().unwrap() {
                Object::Dict(mut dict) => {
                    let (key, _) = dict.next_pair().unwrap().unwrap();
                    assert_eq!(key, b"a");
                }
                _ => panic!("not a dictionary"),
            }
            match list.next_object().unwrap().unwrap() {
                Object::Int(text) => assert_eq!(text, "7"),
                _ => panic!("not the sibling"),
            }
            assert!(list.next_object().unwrap().is_none());
        }
        _ => panic!("not a list"),
    }
}

#[test]
fn abandoned_list_at_top_level() {
    let data = b"li1ei2eei9e";
    let mut parser = BencodeParser::new(data);
    match parser.parse().unwrap() {
        Some(Object::List(mut list)) => {
            assert!(matches!(list.next_object().unwrap(), Some(Object::Int("1"))));
        }
        _ => panic!("not a list"),
    }
    assert!(matches!(parser.parse().unwrap(), Some(Object::Int("9"))));
}

#[test]
fn raw_slice_of_info() {
    let data = b"d4:infod6:lengthi10eee";
    let mut parser = BencodeParser::new(data);
    match parser.parse().unwrap() {
        Some(Object::Dict(mut meta)) => {
            let (key, value) = meta.next_pair().unwrap().unwrap();
            assert_eq!(key, b"info");
            match value {
                Object::Dict(info) => assert_eq!(info.into_raw_bytes().unwrap(), b"d6:lengthi10ee"),
                _ => panic!("not a dictionary"),
            }
            assert!(meta.next_pair().unwrap().is_none());
        }
        _ => panic!("not a dictionary"),
    }
}

#[test]
fn raw_slice_of_partly_read_list() {
    let data = b"l4:spamli1ei2eee";
    let mut parser = BencodeParser::new(data);
    match parser.parse().unwrap() {
        Some(Object::List(mut outer)) => {
            assert!(matches!(outer.next_object().unwrap(), Some(Object::Bytes(b"spam"))));
            match outer.next_object().unwrap().unwrap() {
                Object::List(mut inner) => {
                    assert!(matches!(inner.next_object().unwrap(), Some(Object::Int("1"))));
                    assert_eq!(inner.into_raw_bytes().unwrap(), b"li1ei2ee");
                }
                _ => panic!("not a list"),
            }
            assert!(outer.next_object().unwrap().is_none());
        }
        _ => panic!("not a list"),
    }
}

fn length_in(data: &[u8]) -> String {
    let mut parser = BencodeParser::new(data);
    match parser.parse().unwrap() {
        Some(Object::Dict(mut d)) => match d.next_pair().unwrap().unwrap() {
            (b"length", Object::Int(text)) => text.to_string(),
            _ => panic!("no length"),
        },
        _ => panic!("not a dictionary"),
    }
}

#[test]
fn raw_slice_decodes_as_in_place() {
    let data = b"d4:infod6:lengthi10eee";
    let mut parser = BencodeParser::new(data);
    let raw = match parser.parse().unwrap() {
        Some(Object::Dict(mut meta)) => match meta.next_pair().unwrap().unwrap() {
            (_, Object::Dict(info)) => info.into_raw_bytes().unwrap(),
            _ => panic!("not a dictionary"),
        },
        _ => panic!("not a dictionary"),
    };
    let mut parser = BencodeParser::new(data);
    let in_place = match parser.parse().unwrap() {
        Some(Object::Dict(mut meta)) => match meta.next_pair().unwrap().unwrap() {
            (_, Object::Dict(mut info)) => match info.next_pair().unwrap().unwrap() {
                (b"length", Object::Int(text)) => text.to_string(),
                _ => panic!("no length"),
            },
            _ => panic!("not a dictionary"),
        },
        _ => panic!("not a dictionary"),
    };
    assert_eq!(length_in(raw), in_place);
    assert_eq!(in_place, "10");
}

#[test]
fn dict_key_must_be_bytes() {
    let mut parser = BencodeParser::new(b"di1ei2ee");
    match parser.parse().unwrap() {
        Some(Object::Dict(mut d)) => {
            assert!(matches!(d.next_pair(), Err(Error::Mismatch(1, Expected::Bytes, Found::Integer))))
        }
        _ => panic!("not a dictionary"),
    }
}

#[test]
fn dict_key_needs_a_value() {
    let mut parser = BencodeParser::new(b"d1:ae");
    match parser.parse().unwrap() {
        Some(Object::Dict(mut d)) => assert!(matches!(d.next_pair(), Err(Error::BencodeDecode(4)))),
        _ => panic!("not a dictionary"),
    }
}

#[test]
fn unwrap_bytes_of_values() {
    let mut parser = BencodeParser::new(b"3:abc");
    assert_eq!(parser.parse().unwrap().unwrap().unwrap_bytes(), Some(&b"abc"[..]));
    let mut parser = BencodeParser::new(b"i3e");
    assert_eq!(parser.parse().unwrap().unwrap().unwrap_bytes(), None);
}

#[test]
fn info_hash_digests_raw_info() {
    let data = b"d8:announce3:url4:infod6:lengthi10eee";
    let hash = info_hash(data).unwrap();
    assert_eq!(hash, Sha1Digest::digest(b"d6:lengthi10ee"));
}

#[test]
fn info_hash_without_info() {
    assert!(matches!(info_hash(b"d3:fooi1ee"), Err(Error::BencodeDecode(10))));
    assert!(matches!(info_hash(b"li1ee"), Err(Error::BencodeDecode(0))));
    assert!(matches!(info_hash(b"d4:infoi1ee"), Err(Error::BencodeDecode(10))));
    assert!(matches!(info_hash(b"d4:infoleee"), Err(Error::BencodeDecode(8))));
    assert!(matches!(info_hash(b"d4:info"), Err(Error::BencodeDecode(7))));
}

#[test]
fn sha1_of_known_input() {
    let digest = Sha1Digest::digest(b"abc");
    let expected: [u8; 20] = [
        0xa9, 0x99, 0x3e, 0x36, 0x47, 0x06, 0x81, 0x6a, 0xba, 0x3e, 0x25, 0x71, 0x78, 0x50, 0xc2,
        0x6c, 0x9c, 0xd0, 0xd8, 0x9d,
    ];
    assert_eq!(digest.0, expected);
    assert_eq!(digest.as_bytes(), &expected[..]);
}

#[test]
fn positions_after_reads() {
    let mut parser = BencodeParser::new(b"i0e");
    assert!(matches!(parser.parse().unwrap(), Some(Object::Int("0"))));
    assert_eq!(parser.position(), 3);
    let mut parser = BencodeParser::new(b"0:");
    assert!(matches!(parser.parse().unwrap(), Some(Object::Bytes(b""))));
    assert_eq!(parser.position(), 2);
    let data = b"d4:key15:value4:key2i123ee";
    let mut parser = BencodeParser::new(data);
    match parser.parse().unwrap() {
        Some(Object::Dict(mut d)) => {
            while d.next_pair().unwrap().is_some() {}
            assert_eq!(d.position(), data.len());
        }
        _ => panic!("not a dictionary"),
    }
    assert_eq!(parser.position(), data.len());
}
