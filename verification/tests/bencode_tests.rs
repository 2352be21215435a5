//! Decoder and encoder behaviour on concrete inputs.

use torrent_client::bencode::{bedecode, encode, parse_i64_text, parse_u32_digits, parse_u64_digits, Error, Type};

fn string_value(content: &[u8], raw: &[u8]) -> Type {
    Type::String(content.to_vec(), raw.to_vec())
}

#[test]
fn bedecode_string() {
    let str = b"4:spam";
    let empty_str = b"0:";
    let empty = b"";

    assert_eq!(bedecode(str), Ok(string_value(b"spam", str)));
    assert_eq!(bedecode(empty_str), Ok(string_value(b"", empty_str)));
    assert_eq!(bedecode(empty), Err(Error::NotEnoughBytes));
}

#[test]
fn bedecode_integer() {
    let positive = b"i10e";
    let negative = b"i-10e";
    let zero = b"i0e";

    assert_eq!(
        bedecode(positive),
        Ok(Type::Integer(b"10".to_vec(), positive.to_vec()))
    );
    assert_eq!(
        bedecode(negative),
        Ok(Type::Integer(b"-10".to_vec(), negative.to_vec()))
    );
    assert_eq!(bedecode(zero), Ok(Type::Integer(b"0".to_vec(), zero.to_vec())));

    let empty_integer = b"ie";
    let unclosed_integer = b"i10";
    let negative_zero = b"i-0e";
    let leading_zero = b"i03e";
    let negative_leading_zero = b"i-03e";

    assert_eq!(bedecode(empty_integer), Err(Error::EmptyInteger));
    assert_eq!(bedecode(unclosed_integer), Err(Error::UnclosedInteger));
    assert_eq!(bedecode(negative_zero), Err(Error::NegativeZero));
    assert_eq!(bedecode(leading_zero), Err(Error::LeadingZero));
    assert_eq!(bedecode(negative_leading_zero), Err(Error::LeadingZero));
}

#[test]
fn bedecode_list() {
    let list = b"l4:spam4:eggse";
    let empty = b"le";

    assert_eq!(
        bedecode(list),
        Ok(Type::List(
            vec![string_value(b"spam", b"4:spam"), string_value(b"eggs", b"4:eggs")],
            list.to_vec()
        ))
    );
    assert_eq!(bedecode(empty), Ok(Type::List(vec![], empty.to_vec())));
}

#[test]
fn bedecode_map() {
    let map_str = b"d3:cow3:moo4:spam4:eggse";
    let map_str2 = b"d4:spaml1:a1:bee";
    let empty = b"de";

    let map = vec![
        (string_value(b"cow", b"3:cow"), string_value(b"moo", b"3:moo")),
        (string_value(b"spam", b"4:spam"), string_value(b"eggs", b"4:eggs")),
    ];

    let map2 = vec![(
        string_value(b"spam", b"4:spam"),
        Type::List(
            vec![string_value(b"a", b"1:a"), string_value(b"b", b"1:b")],
            b"l1:a1:be".to_vec(),
        ),
    )];

    assert_eq!(bedecode(map_str), Ok(Type::Dict(map, map_str.to_vec())));
    assert_eq!(bedecode(map_str2), Ok(Type::Dict(map2, map_str2.to_vec())));
    assert_eq!(bedecode(empty), Ok(Type::Dict(vec![], empty.to_vec())));
}

#[test]
fn bedecode_rejects_malformed_containers() {
    assert_eq!(bedecode(b"l4:spam"), Err(Error::UnclosedList));
    assert_eq!(bedecode(b"d3:cow3:moo"), Err(Error::UnclosedMap));
    assert_eq!(bedecode(b"di1e3:mooe"), Err(Error::ExpectedString));
    assert_eq!(bedecode(b"4:sp"), Err(Error::NotEnoughBytes));
    assert_eq!(bedecode(b"44"), Err(Error::NotEnoughBytes));
    assert_eq!(bedecode(b"4spam"), Err(Error::MissingColon));
    assert_eq!(bedecode(b"iae"), Err(Error::NotAnInteger));
    assert_eq!(bedecode(b"x"), Err(Error::NotEnoughBytes));
}

#[test]
fn bedecode_rejects_unsorted_or_duplicate_keys() {
    // "spam" before "cow" is out of byte-lexicographic order.
    assert_eq!(bedecode(b"d4:spam4:eggs3:cow3:mooe"), Err(Error::UnsortedKeys));
    // A repeated key is not in strictly increasing order either.
    assert_eq!(bedecode(b"d3:cow3:moo3:cow4:eggse"), Err(Error::UnsortedKeys));
}

#[test]
fn bedecode_rejects_leading_zero_lengths() {
    assert_eq!(bedecode(b"04:spam"), Err(Error::LeadingZero));
    assert_eq!(
        bedecode(b"0:"),
        Ok(Type::String(b"".to_vec(), b"0:".to_vec()))
    );
}

#[test]
fn encode_matches_raw_slice() {
    // Re-encoding a decoded value gives back exactly the input bytes.
    let inputs: [&[u8]; 6] = [
        b"4:spam",
        b"i-10e",
        b"l4:spam4:eggse",
        b"d3:cow3:moo4:spam4:eggse",
        b"d4:spaml1:a1:bee",
        b"li0ei1ei2ee",
    ];
    for input in inputs {
        let value = bedecode(input).unwrap();
        assert_eq!(encode(&value), input.to_vec());
    }
}

#[test]
fn encode_then_decode_gives_value_back() {
    let value = Type::List(
        vec![
            Type::Integer(b"7".to_vec(), b"i7e".to_vec()),
            string_value(b"ab", b"2:ab"),
        ],
        b"li7e2:abe".to_vec(),
    );
    let bytes = encode(&value);
    assert_eq!(bytes, b"li7e2:abe".to_vec());
    assert_eq!(bedecode(&bytes), Ok(value));
}

#[test]
fn try_into_accessors() {
    let v = bedecode(b"d3:cow3:mooe").unwrap();
    assert!(v.try_into_dict().is_ok());
    assert_eq!(v.try_into_int(), Err(Error::ExpectedInteger));
    assert_eq!(v.try_into_list(), Err(Error::ExpectedList));
    assert_eq!(v.try_into_byte_string(), Err(Error::ExpectedString));

    let s = bedecode(b"4:spam").unwrap();
    let (content, raw) = s.try_into_byte_string().unwrap();
    assert_eq!(content, &b"spam".to_vec());
    assert_eq!(raw, &b"4:spam".to_vec());

    let i = bedecode(b"i-10e").unwrap();
    let (digits, raw) = i.try_into_int().unwrap();
    assert_eq!(digits, &b"-10".to_vec());
    assert_eq!(raw, &b"i-10e".to_vec());
    assert_eq!(i.try_into_dict(), Err(Error::ExpectedMap));
}

#[test]
fn iter_yields_values_in_sequence() {
    let bytes = b"4:spami7e";
    let mut it = torrent_client::bencode::Iter::new(bytes);
    assert_eq!(it.next(), Some(Ok(string_value(b"spam", b"4:spam"))));
    assert_eq!(
        it.next(),
        Some(Ok(Type::Integer(b"7".to_vec(), b"i7e".to_vec())))
    );
    assert_eq!(it.next(), None);
}

#[test]
fn digit_parsers() {
    assert_eq!(parse_u32_digits(&b"0".to_vec()), Some(0));
    assert_eq!(parse_u32_digits(&b"4294967295".to_vec()), Some(u32::MAX));
    assert_eq!(parse_u32_digits(&b"4294967296".to_vec()), None);
    assert_eq!(parse_u32_digits(&b"".to_vec()), None);
    assert_eq!(parse_u32_digits(&b"12a".to_vec()), None);
    assert_eq!(parse_u64_digits(&b"18446744073709551615".to_vec()), Some(u64::MAX));
    assert_eq!(parse_u64_digits(&b"18446744073709551616".to_vec()), None);
    assert_eq!(parse_i64_text(&b"-10".to_vec()), Some(-10));
    assert_eq!(parse_i64_text(&b"-9223372036854775808".to_vec()), Some(i64::MIN));
    assert_eq!(parse_i64_text(&b"-9223372036854775809".to_vec()), None);
    assert_eq!(parse_i64_text(&b"1700000000".to_vec()), Some(1_700_000_000));
}
