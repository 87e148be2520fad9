use torman::{decode, dict_insert, ByteString, ParseError, Value};

fn text(s: &str) -> Value {
    Value::String(ByteString::String(s.to_owned()))
}

#[test]
fn parse_integer() {
    let (decoded, ret_len) = decode("i42e".as_bytes()).unwrap();
    assert_eq!(Value::Integer(42), decoded);
    assert_eq!(4, ret_len);
}

#[test]
fn parse_string() {
    let (decoded, ret_len) = decode("5:hello".as_bytes()).unwrap();
    assert_eq!(Value::String(ByteString::String("hello".to_owned())), decoded);
    assert_eq!(7, ret_len);
}

#[test]
fn parse_byte_string() {
    let (decoded, ret_len) = decode(&[0x35u8, 0x3Au8, 0xFFu8, 0xEAu8, 0xBCu8, 0xBDu8, 0xAAu8]).unwrap();
    assert_eq!(Value::String(ByteString::ByteString(vec![0xFFu8, 0xEAu8, 0xBCu8, 0xBDu8, 0xAAu8])), decoded);
    assert_eq!(7, ret_len);
}

#[test]
fn parse_list() {
    let (decoded, ret_len) = decode("li0e6:seconde".as_bytes()).unwrap();
    assert_eq!(Value::List(vec![Value::Integer(0), Value::String(ByteString::String("second".to_owned()))]), decoded);
    assert_eq!(13, ret_len);
}

#[test]
fn parse_dict() {
    let (decoded, ret_len) = decode("di0e6:seconde".as_bytes()).unwrap();
    let mut dict: Vec<(Value, Value)> = Vec::new();
    dict_insert(&mut dict, Value::Integer(0), Value::String(ByteString::String("second".to_owned())));
    assert_eq!(Value::Dict(dict), decoded);
    assert_eq!(13, ret_len);
}

#[test]
fn parse_negative_integer() {
    assert_eq!(decode(b"i-7e").unwrap(), (Value::Integer(-7), 4));
}

#[test]
fn parse_integer_limits() {
    assert_eq!(decode(b"i-9223372036854775808e").unwrap(), (Value::Integer(i64::MIN), 22));
    assert_eq!(decode(b"i9223372036854775807e").unwrap(), (Value::Integer(i64::MAX), 21));
    assert_eq!(decode(b"i9223372036854775808e"), Err(ParseError::ConvertError));
}

#[test]
fn parse_empty_string() {
    assert_eq!(decode(b"0:").unwrap(), (text(""), 2));
}

#[test]
fn trailing_bytes_are_left() {
    assert_eq!(decode(b"i1eXYZ").unwrap(), (Value::Integer(1), 3));
    assert_eq!(decode(b"3:abcdef").unwrap(), (text("abc"), 5));
}

#[test]
fn nested_length_is_sum_of_children() {
    let (v, n) = decode(b"lli1eei2ee").unwrap();
    assert_eq!(v, Value::List(vec![Value::List(vec![Value::Integer(1)]), Value::Integer(2)]));
    assert_eq!(n, 2 + 5 + 3);
}

#[test]
fn empty_input_is_truncated() {
    assert_eq!(decode(b""), Err(ParseError::Truncated));
}

#[test]
fn missing_terminators() {
    assert_eq!(decode(b"i42"), Err(ParseError::NoTerminator));
    assert_eq!(decode(b"li1e"), Err(ParseError::NoTerminator));
    assert_eq!(decode(b"d1:ai1e"), Err(ParseError::NoTerminator));
    assert_eq!(decode(b"5hello"), Err(ParseError::NoTerminator));
}

#[test]
fn length_past_end_is_truncated() {
    assert_eq!(decode(b"5:hi"), Err(ParseError::Truncated));
    assert_eq!(decode(b"99999999999999999999999:x"), Err(ParseError::Truncated));
    assert_eq!(decode(b"d1:ae"), Err(ParseError::NoTerminator));
    assert_eq!(decode(b"d1:a"), Err(ParseError::Truncated));
}

#[test]
fn bad_numbers() {
    assert_eq!(decode(b"x:abc"), Err(ParseError::ConvertError));
    assert_eq!(decode(b":abc"), Err(ParseError::ConvertError));
    assert_eq!(decode(b"i4x2e"), Err(ParseError::ConvertError));
    assert_eq!(decode(b"ie"), Err(ParseError::ConvertError));
    assert_eq!(decode(b"i-e"), Err(ParseError::ConvertError));
    assert_eq!(decode(&[b'i', 0xFF, b'e']), Err(ParseError::UtfError));
}

#[test]
fn dict_keys_in_any_order_give_equal_dicts() {
    let (a, _) = decode(b"d1:bi2e1:ai1ee").unwrap();
    let (b, _) = decode(b"d1:ai1e1:bi2ee").unwrap();
    assert_eq!(a, b);
    assert_eq!(b, Value::Dict(vec![(text("a"), Value::Integer(1)), (text("b"), Value::Integer(2))]));
}

#[test]
fn dict_last_key_wins() {
    let (v, n) = decode(b"d1:ai1e1:ai2ee").unwrap();
    assert_eq!(v, Value::Dict(vec![(text("a"), Value::Integer(2))]));
    assert_eq!(n, 14);
}

#[test]
fn dict_orders_integers_before_text() {
    let (v, _) = decode(b"d1:ai1ei0ei2ee").unwrap();
    assert_eq!(v, Value::Dict(vec![(Value::Integer(0), Value::Integer(2)), (text("a"), Value::Integer(1))]));
}

#[test]
fn accessors_by_kind() {
    let (v, _) = decode(b"d3:agei7e4:name3:bob4:tagsl1:x1:ye5:mixedl1:xi1eee").unwrap();
    assert_eq!(v.get_integer("age"), Some(7));
    assert_eq!(v.get_integer("name"), None);
    assert_eq!(v.get_string("name"), Some("bob".to_owned()));
    assert_eq!(v.get_string("age"), None);
    assert_eq!(v.get_string("missing"), None);
    assert_eq!(v.get_string_list("tags"), Some(vec!["x".to_owned(), "y".to_owned()]));
    assert_eq!(v.get_string_list("mixed"), None);
    assert_eq!(Value::Integer(3).get_string("name"), None);
}

#[test]
fn multibyte_text_is_text() {
    assert_eq!(decode(&[b'2', b':', 0xC3, 0xA9]).unwrap(), (text("\u{e9}"), 4));
}

#[test]
fn bytes_of_text_and_raw() {
    let (v, _) = decode(b"d1:a2:hi1:b2:\xff\xfe1:ci1ee").unwrap();
    assert_eq!(v.get_bytes("a"), Some(b"hi".to_vec()));
    assert_eq!(v.get_bytes("b"), Some(vec![0xFF, 0xFE]));
    assert_eq!(v.get_bytes("c"), None);
    assert_eq!(v.get_string("b"), None);
    assert_eq!(text("\u{e9}").to_bytes(), Some(vec![0xC3, 0xA9]));
}

#[test]
fn every_cut_of_a_value_fails() {
    let data: &[u8] = b"d4:infod5:filesld4:pathl5:a.txteee4:name4:packe3:numi-12ee";
    let (_, n) = decode(data).unwrap();
    assert_eq!(n, data.len());
    for j in 0..n {
        assert!(decode(&data[..j]).is_err(), "cut at {} decoded", j);
    }
}

#[test]
fn nested_dict_length_is_sum_of_children() {
    let (v, n) = decode(b"d1:kli1eee").unwrap();
    assert_eq!(v, Value::Dict(vec![(text("k"), Value::List(vec![Value::Integer(1)]))]));
    assert_eq!(n, 2 + 3 + 5);
}

#[test]
fn mixed_string_keys_order_by_bytes() {
    let (v, n) = decode(b"d2:a\xffi1e1:bi2ee").unwrap();
    assert_eq!(n, 15);
    assert_eq!(
        v,
        Value::Dict(vec![
            (Value::String(ByteString::ByteString(vec![b'a', 0xFF])), Value::Integer(1)),
            (text("b"), Value::Integer(2)),
        ])
    );
    let (w, _) = decode(b"d1:bi2e2:a\xffi1ee").unwrap();
    assert_eq!(v, w);
}

fn nested_lists(depth: usize) -> Vec<u8> {
    let mut data = vec![b'l'; depth];
    data.extend(vec![b'e'; depth]);
    data
}

#[test]
fn nesting_up_to_the_limit_decodes() {
    let data = nested_lists(256);
    let (_, n) = decode(&data).unwrap();
    assert_eq!(n, 512);
}

#[test]
fn nesting_past_the_limit_is_refused() {
    assert_eq!(decode(&nested_lists(257)), Err(ParseError::TooDeep));
    assert_eq!(decode(&nested_lists(100_000)), Err(ParseError::TooDeep));
    let mut dicts = vec![b'd'; 300];
    dicts.extend(vec![b'e'; 300]);
    assert_eq!(decode(&dicts), Err(ParseError::TooDeep));
}

#[test]
fn nested_length_past_end_fails() {
    assert_eq!(decode(b"l5:hie"), Err(ParseError::Truncated));
    assert_eq!(decode(b"d1:a5:hie"), Err(ParseError::Truncated));
    assert_eq!(decode(b"li1e18446744073709551615:xe"), Err(ParseError::Truncated));
    assert_eq!(decode(b"d1:ax:ye"), Err(ParseError::ConvertError));
}
