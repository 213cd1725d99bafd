use torrent::bencode::{find_info_dict_slice, Bencode, BencodeError, Dict};

#[test]
fn test_decode_int() {
    let data = b"i42e";
    let val = Bencode::decode(data).unwrap();
    assert_eq!(val, Bencode::Int(42));
    assert_eq!(val.encode(), data);
}

#[test]
fn test_decode_string() {
    let data = b"4:spam";
    let val = Bencode::decode(data).unwrap();
    assert_eq!(val, Bencode::ByteString(b"spam".to_vec()));
    assert_eq!(val.encode(), data);
}

#[test]
fn test_decode_list() {
    let data = b"l4:spami42ee";
    let val = Bencode::decode(data).unwrap();
    match &val {
        Bencode::List(list) => {
            assert_eq!(list.len(), 2);
            assert_eq!(list[0], Bencode::ByteString(b"spam".to_vec()));
            assert_eq!(list[1], Bencode::Int(42));
        }
        _ => panic!("Expected List"),
    }
    assert_eq!(val.encode(), data);
}

#[test]
fn test_decode_dict() {
    let data = b"d3:bar4:spam3:fooi42ee";
    let val = Bencode::decode(data).unwrap();
    match &val {
        Bencode::Dict(dict) => {
            assert_eq!(dict.len(), 2);
            assert_eq!(
                dict.get(b"bar".as_ref()).unwrap(),
                &Bencode::ByteString(b"spam".to_vec())
            );
            assert_eq!(dict.get(b"foo".as_ref()).unwrap(), &Bencode::Int(42));
        }
        _ => panic!("Expected Dict"),
    }
    assert_eq!(val.encode(), data);
}

#[test]
fn dictionaries_are_written_in_key_order() {
    let mut dict = Dict::new();
    dict.insert(b"zebra".to_vec(), Bencode::Int(1));
    dict.insert(b"ant".to_vec(), Bencode::Int(-2));
    dict.insert(b"an".to_vec(), Bencode::List(vec![]));
    dict.insert(b"zebra".to_vec(), Bencode::Int(3));
    assert_eq!(dict.len(), 3);
    assert!(dict.contains_key(b"ant"));
    assert!(!dict.contains_key(b"anteater"));
    assert!(!dict.is_empty());
    assert_eq!(dict.entry(0).0.as_slice(), b"an");
    assert_eq!(Bencode::Dict(dict).encode(), b"d2:anle3:anti-2e5:zebrai3ee");
}

#[test]
fn unsorted_keys_are_read_and_the_last_value_of_a_key_counts() {
    let val = Bencode::decode(b"d1:bi1e1:ai2e1:bi3ee").unwrap();
    assert_eq!(val.encode(), b"d1:ai2e1:bi3ee");
}

#[test]
fn what_follows_a_value_is_ignored() {
    assert_eq!(Bencode::decode(b"i7etrailing").unwrap(), Bencode::Int(7));
}

#[test]
fn numerals_may_have_signs_and_leading_zeros() {
    assert_eq!(Bencode::decode(b"i-0e").unwrap(), Bencode::Int(0));
    assert_eq!(Bencode::decode(b"i+12e").unwrap(), Bencode::Int(12));
    assert_eq!(Bencode::decode(b"i007e").unwrap(), Bencode::Int(7));
    assert_eq!(
        Bencode::decode(b"i-9223372036854775808e").unwrap(),
        Bencode::Int(i64::MIN)
    );
    assert_eq!(Bencode::Int(i64::MIN).encode(), b"i-9223372036854775808e");
    assert_eq!(
        Bencode::decode(b"02:ab").unwrap(),
        Bencode::ByteString(b"ab".to_vec())
    );
}

#[test]
fn every_decoding_error_occurs() {
    assert_eq!(Bencode::decode(b"").unwrap_err(), BencodeError::UnexpectedEOF);
    assert_eq!(Bencode::decode(b"i12").unwrap_err(), BencodeError::UnexpectedEOF);
    assert_eq!(Bencode::decode(b"5:spam").unwrap_err(), BencodeError::UnexpectedEOF);
    assert_eq!(Bencode::decode(b"x").unwrap_err(), BencodeError::InvalidChar('x'));
    assert_eq!(Bencode::decode(b"i1x2e").unwrap_err(), BencodeError::InvalidInteger);
    assert_eq!(
        Bencode::decode(b"i9223372036854775808e").unwrap_err(),
        BencodeError::InvalidInteger
    );
    assert_eq!(
        Bencode::decode(b"4x:spam").unwrap_err(),
        BencodeError::InvalidLength
    );
    match Bencode::decode(b"i\xffe").unwrap_err() {
        BencodeError::Utf8Error(text) => {
            assert_eq!(text, "invalid utf-8 sequence of 1 bytes from index 0")
        }
        other => panic!("{:?}", other),
    }
}

#[test]
fn decoding_errors_in_words() {
    assert_eq!(BencodeError::UnexpectedEOF.message(), "Unexpected end of input");
    assert_eq!(BencodeError::InvalidChar('x').message(), "Invalid character: x");
    assert_eq!(BencodeError::InvalidInteger.message(), "Invalid integer format");
    assert_eq!(BencodeError::InvalidLength.message(), "Invalid byte string length");
    assert_eq!(
        Bencode::decode(b"i\xffe").unwrap_err().message(),
        "UTF-8 error: invalid utf-8 sequence of 1 bytes from index 0"
    );
}

#[test]
fn some_bytes_run_past_the_end() {
    assert!(Bencode::runs_past_end(b"di1e"));
    assert!(Bencode::runs_past_end(b"18446744073709551615:x"));
    assert!(!Bencode::runs_past_end(b"l"));
    assert!(!Bencode::runs_past_end(b"di1ee"));
    assert_eq!(Bencode::decode(b"di1ee").unwrap_err(), BencodeError::InvalidChar('e'));
    assert_eq!(Bencode::decode(b"l").unwrap_err(), BencodeError::UnexpectedEOF);
    assert_eq!(Bencode::decode(b"d1:a").unwrap_err(), BencodeError::UnexpectedEOF);
}

#[test]
fn the_info_dictionary_is_found_as_it_stands() {
    let data = b"d8:announce1:u4:infod1:ai1e1:bi2ee5:otheri3ee";
    assert_eq!(find_info_dict_slice(data).unwrap(), b"d1:ai1e1:bi2ee");
    assert!(find_info_dict_slice(b"d8:announce1:ue").is_none());
    assert!(find_info_dict_slice(b"le").is_none());
}

#[test]
fn a_clone_is_the_same_value() {
    let val = Bencode::decode(b"d1:ali1e2:hiee").unwrap();
    assert_eq!(val.clone(), val);
    assert_eq!(val.clone().encode(), b"d1:ali1e2:hiee");
}

#[test]
fn values_as_they_are_shown() {
    let val = Bencode::decode(b"d1:ali-5e2:h\"e1:\xff2:\xff\xfe5:emptyde4:nonelee").unwrap();
    assert_eq!(
        val.describe(),
        "{\"a\": [Int(-5), Str(\"h\\\"\")], \"empty\": {}, \"none\": [], \"\u{fffd}\": Bytes(2 bytes)}"
    );
}

#[test]
fn a_truncated_value_ends_too_early() {
    for whole in [&b"d1:ai-17e4:infold3:fooi0eee2:zz3:abce"[..], b"i42e", b"4:spam", b"l1:ae"] {
        assert!(Bencode::decode(whole).is_ok());
        for k in 0..whole.len() {
            assert_eq!(Bencode::decode(&whole[..k]), Err(BencodeError::UnexpectedEOF));
        }
    }
}

#[test]
fn reading_at_a_place_reads_the_rest() {
    let bytes = b"xxi7e3:abcl";
    let mut offset: usize = 2;
    assert_eq!(Bencode::decode_inner(bytes, &mut offset), Ok(Bencode::Int(7)));
    assert_eq!(offset, 5);
    assert_eq!(
        Bencode::decode_inner(bytes, &mut offset),
        Ok(Bencode::ByteString(b"abc".to_vec()))
    );
    assert_eq!(offset, 10);
    assert_eq!(
        Bencode::decode_inner(bytes, &mut offset),
        Err(BencodeError::UnexpectedEOF)
    );
    assert!(10 <= offset && offset <= bytes.len());
    let mut beyond: usize = 40;
    assert_eq!(
        Bencode::decode_inner(bytes, &mut beyond),
        Err(BencodeError::UnexpectedEOF)
    );
    assert_eq!(beyond, 40);
}

#[test]
fn a_value_is_written_behind_what_is_there() {
    let mut buf = b"before".to_vec();
    Bencode::List(vec![Bencode::Int(1)]).encode_inner(&mut buf);
    assert_eq!(buf, b"beforeli1ee");
}

#[test]
fn no_bytes_are_shorter_than_the_encoding() {
    for longer in [&b"i+7e"[..], b"i007e", b"03:abc", b"d1:ai1e1:ai2ee", b"l02:xxe"] {
        let value = Bencode::decode(longer).unwrap();
        let encoded = value.encode();
        assert!(encoded.len() < longer.len());
        assert_eq!(Bencode::decode(&encoded), Ok(value));
    }
    assert_eq!(Bencode::decode(b"i-0e").unwrap().encode(), b"i0e");
}

#[test]
fn info_is_looked_for_at_the_top_only() {
    assert_eq!(find_info_dict_slice(b"d1:ad4:infoi1ee1:b6:4:infoe"), None);
    assert_eq!(find_info_dict_slice(b"de4:infoi1e"), None);
    let found = find_info_dict_slice(b"d1:ad4:infoi1ee4:infol2:xyee").unwrap();
    assert_eq!(found, b"l2:xye");
    assert_eq!(
        Bencode::decode(found),
        Ok(Bencode::List(vec![Bencode::ByteString(b"xy".to_vec())]))
    );
    for k in 0..found.len() {
        assert!(Bencode::decode(&found[..k]).is_err());
    }
}
