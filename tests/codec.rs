use bencode_rs::{
    Encoder,
    bdecode, bdecode_as_tuple, bdecode_utf8, bencode, bencode_utf8, Bencached, DecodeError, Dict,
    EncodeError, Integer, Value,
};

fn integer(text: &str) -> Value {
    Value::Int(Integer::parse(text.as_bytes()).unwrap())
}

fn bytes(b: &[u8]) -> Value {
    Value::Bytes(b.to_vec())
}

fn same(a: &Value, b: &Value) -> bool {
    format!("{:?}", a) == format!("{:?}", b)
}

fn sample() -> Value {
    let inner = Dict::new()
        .insert(b"spam".to_vec(), bytes(b"eggs"))
        .insert(b"cow".to_vec(), integer("-7"));
    Value::List(vec![
        integer("0"),
        bytes(b""),
        Value::Dict(inner),
        Value::List(vec![]),
        integer("170141183460469231731687303715884105727"),
    ])
}

#[test]
fn decodes_byte_string() {
    let v = bdecode(b"4:spam").unwrap();
    assert!(same(&v, &bytes(b"spam")));
}

#[test]
fn decodes_integer() {
    let v = bdecode(b"i42e").unwrap();
    assert!(same(&v, &integer("42")));
    match v {
        Value::Int(n) => assert_eq!(n.text(), b"42".to_vec()),
        _ => panic!("not an integer"),
    }
}

#[test]
fn rejects_negative_zero() {
    assert_eq!(bdecode(b"i-0e").unwrap_err(), DecodeError::NegativeZero);
}

#[test]
fn rejects_leading_zero() {
    assert_eq!(bdecode(b"i03e").unwrap_err(), DecodeError::LeadingZero);
    assert_eq!(bdecode(b"i-03e").unwrap_err(), DecodeError::LeadingZero);
    assert_eq!(bdecode(b"03:abc").unwrap_err(), DecodeError::LeadingZero);
}

#[test]
fn decodes_list() {
    let v = bdecode(b"l4:spam4:eggse").unwrap();
    assert!(same(&v, &Value::List(vec![bytes(b"spam"), bytes(b"eggs")])));
}

#[test]
fn decodes_dict() {
    let v = bdecode(b"d3:cow3:moo4:spam4:eggse").unwrap();
    let expected = Dict::new()
        .insert(b"spam".to_vec(), bytes(b"eggs"))
        .insert(b"cow".to_vec(), bytes(b"moo"));
    assert!(same(&v, &Value::Dict(expected)));
    match v {
        Value::Dict(d) => {
            assert_eq!(d.len(), 2);
            assert_eq!(d.entries()[0].0, b"cow".to_vec());
            assert_eq!(d.entries()[1].0, b"spam".to_vec());
        },
        _ => panic!("not a dictionary"),
    }
}

#[test]
fn rejects_keys_out_of_order() {
    assert_eq!(bdecode(b"d4:spam3:egg3:cow3:mooe").unwrap_err(), DecodeError::KeyOrder);
    assert!(bdecode(b"d2:bi1e2:ai2ee").is_err());
    assert_eq!(bdecode(b"d1:bi1e1:ai2ee").unwrap_err(), DecodeError::KeyOrder);
}

#[test]
fn rejects_duplicate_keys() {
    assert_eq!(bdecode(b"d1:ai1e1:ai2ee").unwrap_err(), DecodeError::KeyOrder);
}

#[test]
fn rejects_trailing_data() {
    assert_eq!(bdecode(b"i42eX").unwrap_err(), DecodeError::TrailingData);
}

#[test]
fn rejects_short_byte_string() {
    assert_eq!(bdecode(b"5:abc").unwrap_err(), DecodeError::Underflow);
}

#[test]
fn rejects_empty_input() {
    assert_eq!(bdecode(b"").unwrap_err(), DecodeError::Underflow);
}

#[test]
fn rejects_unknown_type() {
    assert_eq!(bdecode(b"x").unwrap_err(), DecodeError::UnknownType(b'x'));
    assert_eq!(bdecode(b"li1exe").unwrap_err(), DecodeError::UnknownType(b'x'));
    assert_eq!(bdecode_as_tuple(b"e").unwrap_err(), DecodeError::UnknownType(b'e'));
}

#[test]
fn rejects_malformed_integers() {
    assert_eq!(bdecode(b"i42").unwrap_err(), DecodeError::UnterminatedInteger);
    assert_eq!(bdecode(b"i4x2e").unwrap_err(), DecodeError::UnterminatedInteger);
    assert_eq!(bdecode(b"ie").unwrap_err(), DecodeError::UnterminatedInteger);
    assert_eq!(bdecode(b"i1-2e").unwrap_err(), DecodeError::UnterminatedInteger);
}

#[test]
fn rejects_malformed_lengths() {
    assert_eq!(bdecode(b"4spam").unwrap_err(), DecodeError::InvalidLength);
    assert_eq!(bdecode(b"4x:spam").unwrap_err(), DecodeError::InvalidLength);
}

#[test]
fn rejects_lengths_beyond_any_buffer() {
    assert_eq!(
        bdecode(b"99999999999999999999999:a").unwrap_err(),
        DecodeError::Underflow
    );
}

#[test]
fn rejects_unclosed_structures() {
    assert_eq!(bdecode(b"l4:spam").unwrap_err(), DecodeError::MalformedStructure);
    assert_eq!(bdecode(b"d3:cowi1e").unwrap_err(), DecodeError::MalformedStructure);
}

#[test]
fn rejects_non_string_key() {
    assert_eq!(bdecode(b"di1ei2ee").unwrap_err(), DecodeError::NonStringKey);
}

#[test]
fn decodes_tuples() {
    let v = bdecode_as_tuple(b"l4:spamli1eee").unwrap();
    assert!(same(&v, &Value::Tuple(vec![bytes(b"spam"), Value::Tuple(vec![integer("1")])])));
}

#[test]
fn decodes_text() {
    let v = bdecode_utf8(b"l6:h\xc3\xa9lloe").unwrap();
    assert!(same(&v, &Value::List(vec![Value::Text("h\u{e9}llo".to_string())])));
}

#[test]
fn text_round_trip() {
    let d = Dict::new().insert(b"k\xc3\xa9".to_vec(), Value::Text("v\u{e9}".to_string()));
    let v = Value::List(vec![Value::Text("".to_string()), Value::Dict(d), integer("5")]);
    let encoded = bencode_utf8(&v);
    assert_eq!(encoded, b"l0:d3:k\xc3\xa93:v\xc3\xa9ei5ee".to_vec());
    assert!(same(&bdecode_utf8(&encoded).unwrap(), &v));
}

#[test]
fn rejects_invalid_text() {
    assert_eq!(bdecode_utf8(b"2:\xff\xfe").unwrap_err(), DecodeError::DecodeEncoding);
    assert_eq!(bdecode_utf8(b"d2:\xff\xfei1ee").unwrap_err(), DecodeError::DecodeEncoding);
}

#[test]
fn encodes_precomputed_verbatim() {
    let v = Value::Precomputed(Bencached::new(b"i5e".to_vec()));
    assert_eq!(bencode(&v).unwrap(), b"i5e".to_vec());
}

#[test]
fn precomputed_decodes_like_its_bytes() {
    let b = b"d3:cowi1ee".to_vec();
    let v = Value::Precomputed(Bencached::new(b.clone()));
    let encoded = bencode(&v).unwrap();
    assert!(same(&bdecode(&encoded).unwrap(), &bdecode(&b).unwrap()));
    assert_eq!(Bencached::new(b.clone()).as_bytes(), b.as_slice());
}

#[test]
fn encodes_canonically() {
    let d = Dict::new()
        .insert(b"foo".to_vec(), integer("2"))
        .insert(b"bar".to_vec(), integer("1"));
    assert_eq!(bencode(&Value::Dict(d)).unwrap(), b"d3:bari1e3:fooi2ee".to_vec());
    assert_eq!(bencode(&integer("-3")).unwrap(), b"i-3e".to_vec());
    assert_eq!(bencode(&integer("0")).unwrap(), b"i0e".to_vec());
    assert_eq!(
        bencode(&Value::List(vec![bytes(b"spam"), integer("42")])).unwrap(),
        b"l4:spami42ee".to_vec()
    );
    assert_eq!(bencode(&Value::Tuple(vec![integer("1")])).unwrap(), b"li1ee".to_vec());
    assert_eq!(bencode(&bytes(&[0u8; 12])).unwrap()[..3].to_vec(), b"12:".to_vec());
}

#[test]
fn dict_insert_replaces_equal_key() {
    let d = Dict::new()
        .insert(b"a".to_vec(), integer("1"))
        .insert(b"ab".to_vec(), integer("3"))
        .insert(b"a".to_vec(), integer("2"));
    assert_eq!(bencode(&Value::Dict(d)).unwrap(), b"d1:ai2e2:abi3ee".to_vec());
}

#[test]
fn dict_keys_sort_by_raw_bytes() {
    let d = Dict::new()
        .insert(b"\xff".to_vec(), integer("1"))
        .insert(b"Z".to_vec(), integer("2"))
        .insert(b"a".to_vec(), integer("3"));
    assert_eq!(bencode(&Value::Dict(d)).unwrap(), b"d1:Zi2e1:ai3e1:\xffi1ee".to_vec());
}

#[test]
fn text_needs_encoding() {
    let v = Value::List(vec![Value::Text("spam".to_string())]);
    assert_eq!(bencode(&v).unwrap_err(), EncodeError::UnconfiguredTextEncoding);
    assert_eq!(bencode_utf8(&v), b"l4:spame".to_vec());
    assert_eq!(bencode_utf8(&Value::Text("h\u{e9}".to_string())), b"3:h\xc3\xa9".to_vec());
}

#[test]
fn round_trip() {
    let v = sample();
    let encoded = bencode(&v).unwrap();
    let decoded = bdecode(&encoded).unwrap();
    assert!(same(&decoded, &v));
}

#[test]
fn re_encodes_to_the_same_bytes() {
    let inputs: Vec<&[u8]> = vec![
        b"i0e",
        b"i-12e",
        b"0:",
        b"le",
        b"de",
        b"d3:bari1e3:fooli2e3:bazee",
        b"ll0:ei7ed1:ai1eee",
    ];
    for b in inputs {
        let v = bdecode(b).unwrap();
        assert_eq!(bencode(&v).unwrap(), b.to_vec());
    }
}

#[test]
fn big_integers_keep_their_value() {
    let text = "170141183460469231731687303715884105727";
    let encoded = bencode(&integer(text)).unwrap();
    assert_eq!(encoded, format!("i{}e", text).into_bytes());
    match bdecode(&encoded).unwrap() {
        Value::Int(n) => assert_eq!(n.text(), text.as_bytes().to_vec()),
        _ => panic!("not an integer"),
    }
    let negative = "-9223372036854775809";
    match bdecode(format!("i{}e", negative).as_bytes()).unwrap() {
        Value::Int(n) => {
            assert!(n.is_negative());
            assert_eq!(n.text(), negative.as_bytes().to_vec());
        },
        _ => panic!("not an integer"),
    }
}

#[test]
fn integer_parse_is_strict() {
    assert!(Integer::parse(b"12").is_some());
    assert!(Integer::parse(b"-1").is_some());
    assert!(Integer::parse(b"").is_none());
    assert!(Integer::parse(b"-").is_none());
    assert!(Integer::parse(b"-0").is_none());
    assert!(Integer::parse(b"007").is_none());
    assert!(Integer::parse(b"1a").is_none());
}

#[test]
fn failed_text_leaves_buffer_alone() {
    let mut e = Encoder::new(false);
    e.process(&integer("1")).unwrap();
    assert_eq!(
        e.encode_string(&"spam".to_string()).unwrap_err(),
        EncodeError::UnconfiguredTextEncoding
    );
    assert_eq!(e.to_bytes(), b"i1e".to_vec());
}

#[test]
fn rejects_invalid_text_byte() {
    assert_eq!(bdecode_utf8(b"1:\xff").unwrap_err(), DecodeError::DecodeEncoding);
}
