use serde_cqcode::de::access::{CQCodeAccess, CodeRaw, CodeSeq};
use serde_cqcode::de::deserializer::{single_char, ValueKind};
use serde_cqcode::de::CQDeserializer;
use serde_cqcode::err::{Error, IntErrorKind};
use serde_cqcode::{escape_char, parse_code};

#[test]
fn escape_codes_round_trip() {
    for c in ['&', '[', ']', ','] {
        let code = escape_char(c).unwrap();
        assert_eq!(parse_code(code), Some(c));
    }
    assert_eq!(escape_char('&'), Some("amp"));
    assert_eq!(escape_char('['), Some("#91"));
    assert_eq!(escape_char(']'), Some("#93"));
    assert_eq!(escape_char(','), Some("#44"));
    assert_eq!(escape_char('a'), None);
    assert_eq!(escape_char('='), None);
    assert_eq!(parse_code("amp"), Some('&'));
    assert_eq!(parse_code("#91"), Some('['));
    assert_eq!(parse_code("#93"), Some(']'));
    assert_eq!(parse_code("#44"), Some(','));
    assert_eq!(parse_code("#45"), None);
    assert_eq!(parse_code(""), None);
    assert_eq!(parse_code("ampx"), None);
}

#[test]
fn peek_and_next_char() {
    let mut de = CQDeserializer::new("你b");
    assert_eq!(de.peek_char().unwrap(), '你');
    assert_eq!(de.next_char().unwrap(), '你');
    assert_eq!(de.peek_char().unwrap(), 'b');
    assert_eq!(de.next_char().unwrap(), 'b');
    assert!(matches!(de.peek_char(), Err(Error::Eof)));
    assert!(matches!(de.next_char(), Err(Error::Eof)));
}

#[test]
fn str_until_and_fixed_lengths() {
    let mut de = CQDeserializer::new("abc;def");
    assert_eq!(de.peek_str_until(';').unwrap(), "abc");
    assert!(matches!(de.peek_str_until('x'), Err(Error::ExpectedDelimiter)));
    assert!(matches!(de.next_str_until('x'), Err(Error::ExpectedCodeComma)));
    assert_eq!(de.next_str_until(';').unwrap(), "abc");
    assert_eq!(de.peek_str(2), ";d");
    assert_eq!(de.next_str(2), ";d");
    assert_eq!(de.peek_str(10), "ef");
    assert_eq!(de.next_str(10), "ef");
    assert_eq!(de.next_str(3), "");
}

#[test]
fn fixed_lengths_count_bytes() {
    let mut de = CQDeserializer::new("aéb");
    assert_eq!(de.peek_str(3), "aé");
    assert_eq!(de.peek_str(2), "a");
    assert_eq!(de.next_str(3), "aé");
    assert_eq!(de.next_str(1), "b");
    assert_eq!(de.next_str(1), "");

    let de = CQDeserializer::new("CQ:face");
    assert_eq!(de.peek_str(3), "CQ:");
    let de = CQDeserializer::new("CQ");
    assert_eq!(de.peek_str(3), "CQ");
    let mut de = CQDeserializer::new("CQ:face");
    assert_eq!(de.next_str(2), "CQ");
    assert_eq!(de.next_str(100), ":face");
    let mut de = CQDeserializer::new("ab");
    assert_eq!(de.next_str(5), "ab");

    let mut de = CQDeserializer::new("你好");
    assert_eq!(de.peek_str(4), "你");
    assert_eq!(de.next_str(6), "你好");
}

#[test]
fn escapes_are_read() {
    let mut de = CQDeserializer::new("#91;x");
    assert_eq!(de.peek_escaping().unwrap(), '[');
    assert_eq!(de.next_escaping().unwrap(), '[');
    assert_eq!(de.next_char().unwrap(), 'x');

    let mut de = CQDeserializer::new("&amp;z");
    assert_eq!(de.next_escaped_char().unwrap(), '&');
    assert_eq!(de.peek_escaped_char().unwrap(), 'z');
    assert_eq!(de.next_escaped_char().unwrap(), 'z');

    let de = CQDeserializer::new("&amp;");
    assert!(matches!(de.peek_escaped_char(), Err(Error::UnknownEscaping(code)) if code == "&amp"));

    let mut de = CQDeserializer::new("#12;");
    assert!(matches!(de.next_escaping(), Err(Error::UnknownEscaping(code)) if code == "#12"));
    let mut de = CQDeserializer::new("amp");
    assert!(matches!(de.next_escaping(), Err(Error::ExpectedCodeComma)));
    let de = CQDeserializer::new("amp");
    assert!(matches!(de.peek_escaping(), Err(Error::ExpectedDelimiter)));
}

#[test]
fn delimiters_and_raw_words() {
    let mut de = CQDeserializer::new("ab=c,d]");
    assert_eq!(de.peek_delimiter(), Some('='));
    assert_eq!(de.next_raw_str(), "ab");
    assert_eq!(de.next_char().unwrap(), '=');
    assert_eq!(de.next_raw_str(), "c");
    let mut de = CQDeserializer::new("plain");
    assert_eq!(de.peek_delimiter(), None);
    assert_eq!(de.next_raw_str(), "plain");
    let de = CQDeserializer::new("a[b]");
    assert_eq!(de.peek_delimiter(), Some('['));
}

#[test]
fn escaped_strings() {
    let mut de = CQDeserializer::new("a&#44;b&amp;c,rest");
    assert_eq!(de.next_escaped_string().unwrap(), "a,b&c");
    assert_eq!(de.next_char().unwrap(), ',');
    let mut de = CQDeserializer::new("no stop");
    assert!(matches!(de.next_escaped_string(), Err(Error::Eof)));
    let mut de = CQDeserializer::new("bad&#00;]");
    assert!(matches!(de.next_escaped_string(), Err(Error::UnknownEscaping(c)) if c == "#00"));
}

#[test]
fn text_messages() {
    let mut de = CQDeserializer::new("hi &#91;there&#93;[CQ:x]");
    let code = de.parse_text_msg().unwrap();
    assert_eq!(code.cq_type, "text");
    assert_eq!(code.get("text").unwrap(), "hi [there]");
    assert_eq!(de.peek_char().unwrap(), '[');
    let mut de = CQDeserializer::new("text that never ends");
    assert!(matches!(de.parse_text_msg(), Err(Error::Eof)));
}

#[test]
fn value_kinds() {
    assert_eq!(CQDeserializer::new("[CQ:a]").peek_value_kind().unwrap(), ValueKind::Code);
    assert_eq!(CQDeserializer::new("abc[CQ:a]").peek_value_kind().unwrap(), ValueKind::Text);
    assert_eq!(CQDeserializer::new("abc").peek_value_kind().unwrap(), ValueKind::Text);
    assert_eq!(CQDeserializer::new("abc,d").peek_value_kind().unwrap(), ValueKind::Str);
    assert!(matches!(CQDeserializer::new("").peek_value_kind(), Err(Error::Eof)));
}

#[test]
fn any_values() {
    let mut de = CQDeserializer::new("[CQ:a,k=[CQ:b,x=y]]rest");
    assert_eq!(de.next_any().unwrap(), None);
    assert_eq!(de.next_char().unwrap(), ']');
    assert_eq!(de.next_char().unwrap(), ']');
    let mut de = CQDeserializer::new("abc,d");
    assert_eq!(de.next_any().unwrap(), Some("abc".to_string()));
    assert_eq!(de.peek_char().unwrap(), ',');
    let mut de = CQDeserializer::new("a&amp;b[CQ:x]");
    assert_eq!(de.next_any().unwrap(), None);
    assert_eq!(de.peek_char().unwrap(), '[');
    let mut de = CQDeserializer::new("[XY:a]");
    assert!(matches!(de.next_any(), Err(Error::ExpectedCodeType)));
    let mut de = CQDeserializer::new("[CQ:a,k]");
    assert!(matches!(de.next_any(), Err(Error::ExpectedCodeColon)));
    let mut de = CQDeserializer::new("[CQ:a=k]");
    assert!(matches!(de.next_any(), Err(Error::ExpectedCodeComma)));
    let mut de = CQDeserializer::new("never ends");
    assert!(matches!(de.next_any(), Err(Error::Eof)));
    let mut de = CQDeserializer::new("");
    assert!(matches!(de.next_any(), Err(Error::Eof)));
}

#[test]
fn raw_code_access() {
    let mut de = CQDeserializer::new("CQ:face,id=1]");
    let mut raw = CodeRaw::create(&mut de).unwrap();
    assert_eq!(raw.next_key(&mut de).unwrap().unwrap(), "$type");
    assert_eq!(raw.next_value(&mut de).unwrap(), Some("face".to_string()));
    assert_eq!(raw.next_key(&mut de).unwrap().unwrap(), "id");
    assert_eq!(raw.next_value(&mut de).unwrap(), Some("1".to_string()));
    assert_eq!(raw.next_key(&mut de).unwrap(), None);
    assert_eq!(de.next_char().unwrap(), ']');

    let mut de = CQDeserializer::new("XQ:face]");
    assert!(matches!(CodeRaw::create(&mut de), Err(Error::ExpectedCodeType)));

    let mut de = CQDeserializer::new("CQ:a=b]");
    let mut raw = CodeRaw::create(&mut de).unwrap();
    raw.next_key(&mut de).unwrap();
    assert_eq!(raw.next_value(&mut de).unwrap(), Some("a".to_string()));
    assert!(matches!(raw.next_key(&mut de), Err(Error::ExpectedCodeComma)));

    let mut de = CQDeserializer::new("CQ:a,k]");
    let mut raw = CodeRaw::create(&mut de).unwrap();
    raw.next_key(&mut de).unwrap();
    raw.next_value(&mut de).unwrap();
    raw.next_key(&mut de).unwrap();
    assert!(matches!(raw.next_value(&mut de), Err(Error::ExpectedCodeColon)));
}

#[test]
fn code_sequences() {
    let mut de = CQDeserializer::new("[CQ:at,qq=7]]rest");
    let mut seq = CodeSeq::new();
    assert!(seq.has_next(&de));
    let code = seq.next_element(&mut de).unwrap().unwrap();
    assert_eq!(code.cq_type, "at");
    assert_eq!(code.get("qq").unwrap(), "7");
    assert!(!seq.has_next(&de));
    assert!(seq.next_element(&mut de).unwrap().is_none());
    let mut de = CQDeserializer::new("[CQ:at,qq:7]");
    assert!(matches!(seq.next_element(&mut de), Err(Error::ExpectedCodeColon)));
}

#[test]
fn typed_words() {
    let mut de = CQDeserializer::new("yes,0,false,maybe,-42,+7,x1,99999999999999999999,q,ab");
    assert!(de.deserialize_bool().unwrap());
    de.next_char().unwrap();
    assert!(!de.deserialize_bool().unwrap());
    de.next_char().unwrap();
    assert!(!de.deserialize_bool().unwrap());
    de.next_char().unwrap();
    assert!(matches!(
        de.deserialize_bool(),
        Err(Error::UnknownValue(v, t)) if v == "maybe" && t == "bool"
    ));
    de.next_char().unwrap();
    assert_eq!(de.deserialize_i64().unwrap(), -42);
    de.next_char().unwrap();
    assert_eq!(de.deserialize_i64().unwrap(), 7);
    de.next_char().unwrap();
    assert!(matches!(de.deserialize_i64(), Err(Error::ParseIntError(_, _))));
    de.next_char().unwrap();
    assert!(matches!(de.deserialize_i64(), Err(Error::ParseIntError(_, _))));
    de.next_char().unwrap();
    assert_eq!(de.deserialize_char().unwrap(), 'q');
    de.next_char().unwrap();
    assert!(matches!(
        de.deserialize_char(),
        Err(Error::Eof)
    ));
    let mut de = CQDeserializer::new("ab]");
    assert!(matches!(
        de.deserialize_char(),
        Err(Error::MismatchedValueType(v, t)) if v == "ab" && t == "char"
    ));
}

#[test]
fn single_characters() {
    assert_eq!(single_char("你".to_string()).unwrap(), '你');
    assert!(matches!(
        single_char("".to_string()),
        Err(Error::MismatchedValueType(v, t)) if v.is_empty() && t == "char"
    ));
    assert!(matches!(single_char("ab".to_string()), Err(Error::MismatchedValueType(_, _))));
}

#[test]
fn code_access_hands_out_pairs() {
    let code = serde_cqcode::CQCode::from(("face", [("id", "1"), ("big", "no")]));
    let mut access = CQCodeAccess::from_model(code);
    assert_eq!(access.code_type(), "face");
    assert_eq!(access.next_key().unwrap(), "$type");
    assert_eq!(access.next_value(), "face");
    assert_eq!(access.next_key().unwrap(), "id");
    assert_eq!(access.next_value(), "1");
    assert_eq!(access.next_key().unwrap(), "big");
    assert_eq!(access.next_value(), "no");
    assert_eq!(access.next_key(), None);
    assert_eq!(access.next_key(), None);
}

#[test]
fn integer_error_kinds() {
    let kind = |text: &str| match CQDeserializer::new(text).deserialize_i64() {
        Err(Error::ParseIntError(_, k)) => Some(k),
        _ => None,
    };
    assert_eq!(kind(",1"), Some(IntErrorKind::Empty));
    assert_eq!(kind("+]"), Some(IntErrorKind::InvalidDigit));
    assert_eq!(kind("-"), Some(IntErrorKind::InvalidDigit));
    assert_eq!(kind("12a"), Some(IntErrorKind::InvalidDigit));
    assert_eq!(kind("9223372036854775808"), Some(IntErrorKind::PosOverflow));
    assert_eq!(kind("+99999999999999999999"), Some(IntErrorKind::PosOverflow));
    assert_eq!(kind("-9223372036854775809"), Some(IntErrorKind::NegOverflow));
    assert_eq!(kind("-9223372036854775808"), None);
}
