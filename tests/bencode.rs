use bittorrent::bencoding::{decode, decode_all, BDict, BInt, BList, BString, BType, BencodeError};

fn bytes(s: &str) -> Vec<u8> {
    s.as_bytes().to_vec()
}

fn int_of(input: &str) -> Result<i64, BencodeError> {
    match decode_all(&bytes(input)) {
        Ok(BType::BInt(i)) => Ok(i.into_int()),
        Ok(_) => panic!("not an integer"),
        Err(e) => Err(e),
    }
}

#[test]
fn b_string() {
    let expected_result = String::from("Hello");
    let input = String::from("5:Hello");

    let result = match decode(&input.as_bytes().to_vec()) {
        Ok((BType::BString(result), _)) => result.into_string().unwrap(),
        _ => String::from("Hmm"),
    };

    assert_eq!(result, expected_result);
}

#[test]
fn round_trip_dictionary() {
    let input = bytes("d3:cow3:moo4:spam4:eggse");
    let (value, used) = decode(&input).unwrap();
    assert_eq!(used, input.len());
    match &value {
        BType::BDict(d) => {
            assert_eq!(d.get_bytes(b"cow"), Some(&bytes("moo")));
            assert_eq!(d.get_bytes(b"spam"), Some(&bytes("eggs")));
            assert_eq!(d.0.len(), 2);
        }
        _ => panic!("not a dictionary"),
    }
    assert_eq!(value.encode(), input);
}

#[test]
fn round_trip_nested() {
    let input = bytes("d4:listli-42e0:4:spamd1:ai0eee1:zi7ee");
    let value = decode_all(&input).unwrap();
    assert_eq!(value.encode(), input);
}

#[test]
fn integers() {
    assert_eq!(int_of("i3e"), Ok(3));
    assert_eq!(int_of("i-3e"), Ok(-3));
    assert_eq!(int_of("i0e"), Ok(0));
    assert_eq!(int_of("i03e"), Err(BencodeError::InvalidInteger));
    assert_eq!(int_of("i-0e"), Err(BencodeError::InvalidInteger));
    assert_eq!(int_of("ie"), Err(BencodeError::InvalidInteger));
}

#[test]
fn integer_limits() {
    assert_eq!(int_of("i9223372036854775807e"), Ok(i64::MAX));
    assert_eq!(int_of("i-9223372036854775808e"), Ok(i64::MIN));
    assert_eq!(int_of("i9223372036854775808e"), Err(BencodeError::InvalidInteger));
    assert_eq!(BType::BInt(BInt::new(i64::MIN)).encode(), bytes("i-9223372036854775808e"));
}

#[test]
fn key_order() {
    assert_eq!(decode_all(&bytes("d1:b0:1:a0:e")).err(), Some(BencodeError::KeyOrder));
    assert_eq!(decode_all(&bytes("d1:a0:1:a0:e")).err(), Some(BencodeError::DuplicateKey));
}

#[test]
fn error_variants() {
    assert_eq!(decode(&bytes("")).err(), Some(BencodeError::UnexpectedEOF));
    assert_eq!(decode(&bytes("i3")).err(), Some(BencodeError::UnexpectedEOF));
    assert_eq!(decode(&bytes("5:abc")).err(), Some(BencodeError::UnexpectedEOF));
    assert_eq!(decode(&bytes("l")).err(), Some(BencodeError::UnexpectedEOF));
    assert_eq!(decode(&bytes("x")).err(), Some(BencodeError::InvalidHeader));
    assert_eq!(decode(&bytes("05:hello")).err(), Some(BencodeError::InvalidHeader));
    assert_eq!(decode(&bytes("di1ei2ee")).err(), Some(BencodeError::InvalidHeader));
    assert_eq!(decode_all(&bytes("i1ei2e")).err(), Some(BencodeError::TrailingData));
    let (_, used) = decode(&bytes("i1ei2e")).unwrap();
    assert_eq!(used, 3);
}

#[test]
fn empty_containers() {
    for text in ["le", "de", "0:"] {
        let input = bytes(text);
        assert_eq!(decode_all(&input).unwrap().encode(), input);
    }
}

#[test]
fn insert_keeps_keys_sorted() {
    let mut d = BDict::new();
    d.insert(BString::new(&bytes("spam")), BType::BString(BString::new(&bytes("eggs"))));
    d.insert(BString::new(&bytes("cow")), BType::BString(BString::new(&bytes("moo"))));
    assert_eq!(BType::BDict(d).encode(), bytes("d3:cow3:moo4:spam4:eggse"));
}

#[test]
fn insert_replaces_value() {
    let mut d = BDict::new();
    d.insert(BString::new(&bytes("a")), BType::BInt(BInt::new(1)));
    d.insert(BString::new(&bytes("a")), BType::BInt(BInt::new(2)));
    assert_eq!(d.get_int(b"a"), Some(2));
    assert_eq!(d.0.len(), 1);
    assert!(d.get(b"b").is_none());
}

#[test]
fn equal_dictionaries_encode_alike() {
    let mut a = BDict::new();
    let mut b = BDict::new();
    for k in ["x", "b", "a"] {
        a.insert(BString::new(&bytes(k)), BType::BInt(BInt::new(k.len() as i64)));
    }
    for k in ["a", "x", "b"] {
        b.insert(BString::new(&bytes(k)), BType::BInt(BInt::new(k.len() as i64)));
    }
    assert_eq!(a.encode(), b.encode());
    assert_eq!(a.encode(), bytes("d1:ai1e1:bi1e1:xi1ee"));
}

#[test]
fn list_building() {
    let mut l = BList::new(Vec::new());
    l.push(BType::BInt(BInt::new(5)));
    l.push(BType::BString(BString::new(&bytes("ab"))));
    assert_eq!(l.get().len(), 2);
    assert_eq!(BType::BList(l).encode(), bytes("li5e2:abe"));
}

#[test]
fn typed_accessors_reject_other_shapes() {
    let d = match decode_all(&bytes("d1:ai1e1:b1:x1:cle1:ddee")).unwrap() {
        BType::BDict(d) => d,
        _ => panic!("not a dictionary"),
    };
    assert_eq!(d.get_int(b"a"), Some(1));
    assert_eq!(d.get_int(b"b"), None);
    assert!(d.get_bytes(b"a").is_none());
    assert!(d.get_list(b"c").is_some());
    assert!(d.get_dict(b"d").is_some());
    assert!(d.get_dict(b"c").is_none());
}

#[test]
fn non_utf8_string_has_no_text() {
    let s = BString::new(&vec![0xff, 0xfe]);
    assert_eq!(s.into_string(), None);
    assert_eq!(BString::new(&bytes("ok")).into_string(), Some(String::from("ok")));
}

#[test]
fn errors_named_by_input() {
    assert_eq!(decode(&bytes("i-e")).err(), Some(BencodeError::InvalidInteger));
    assert_eq!(decode(&bytes("i0x")).err(), Some(BencodeError::InvalidInteger));
    assert_eq!(decode(&bytes("e")).err(), Some(BencodeError::InvalidHeader));
    assert_eq!(decode(&bytes("d1:b0:1:a0:ee")).err(), Some(BencodeError::KeyOrder));
    assert_eq!(decode(&bytes("d1:a0:1:a0:ee")).err(), Some(BencodeError::DuplicateKey));
    assert_eq!(decode(&bytes("5:Hel")).err(), Some(BencodeError::UnexpectedEOF));
    assert_eq!(decode(&bytes("d3:cow")).err(), Some(BencodeError::UnexpectedEOF));
}
