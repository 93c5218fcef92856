use serde_cqcode::data::CQCode;
use serde_cqcode::de::CQDeserializer;
use serde_cqcode::ser::CQSerializer;
use serde_cqcode::{from_str, to_string};

#[test]
fn test_de() {
    assert_eq!(
        vec![
            CQCode::from(("text", [("text", "[你好]")])),
            CQCode::from(("face", [("id", "1")])),
            CQCode::from(("image", [("file", "example.jpg")])),
            CQCode::from(("at", [("qq", "123456")])),
            CQCode::from(("emoji", [("id", "128512")]))
        ],
        from_str("&#91;你好&#93;[CQ:face,id=1][CQ:image,file=example.jpg][CQ:at,qq=123456][CQ:emoji,id=128512]").unwrap());
}

#[test]
fn test_ser() {
    assert_eq!(
        "&#91;你好&#93;[CQ:face,id=1][CQ:image,file=example.jpg][CQ:at,qq=123456][CQ:emoji,id=128512]",
        to_string(&[
            CQCode::from(("text", [("text", "[你好]")])),
            CQCode::from(("face", [("id", "1")])),
            CQCode::from(("image", [("file", "example.jpg")])),
            CQCode::from(("at", [("qq", "123456")])),
            CQCode::from(("emoji", [("id", "128512")])),
        ])
        .unwrap()
    )
}

#[test]
fn parameters_round_trip() {
    let codes = vec![
        CQCode::from(("text", [("text", "a=b, [c] & d")])),
        CQCode::from(("image", [("file", "x,y].jpg"), ("url", "http://h/p?q&r")])),
        CQCode::from(("", [])),
    ];
    let text = to_string(&codes).unwrap();
    assert_eq!(
        text,
        "a=b&#44; &#91;c&#93; &amp; d[CQ:image,file=x&#44;y&#93;.jpg,url=http://h/p?q&amp;r][CQ:]"
    );
    assert_eq!(from_str(&text).unwrap(), codes);
}

#[test]
fn reading_rules() {
    let codes = from_str("[CQ:a,k=1,k=2,j=3]").unwrap();
    assert_eq!(codes.len(), 1);
    assert_eq!(codes[0].data.len(), 2);
    assert_eq!(codes[0].get("k").unwrap(), "2");
    assert_eq!(codes[0].data[0].0, "k");
    assert_eq!(from_str("").unwrap(), vec![]);
    assert_eq!(from_str("[CQ:a]]ignored").unwrap(), vec![CQCode::new("a")]);
    assert!(matches!(from_str("trailing text"), Err(serde_cqcode::Error::Eof)));
    assert!(matches!(from_str("[CQ:a,k=[CQ:b]]"), Err(serde_cqcode::Error::Custom(m)) if m == "invalid type: map, expected a string"));
    assert!(matches!(from_str("[XY:a]"), Err(serde_cqcode::Error::ExpectedCodeType)));
    assert!(matches!(from_str("[CQ:a"), Err(serde_cqcode::Error::Eof)));
    assert!(matches!(from_str("[CQ:a,b"), Err(serde_cqcode::Error::Eof)));
    assert!(matches!(from_str("[CQ:a,k:v]"), Err(serde_cqcode::Error::ExpectedCodeColon)));
    assert!(matches!(from_str("[CQ=a]"), Err(serde_cqcode::Error::ExpectedCodeType)));
}

#[test]
fn codes_and_parameters() {
    let mut code = CQCode::new("at");
    assert_eq!(code.insert("qq".to_string(), "1".to_string()), None);
    assert_eq!(code.insert("qq".to_string(), "2".to_string()), Some("1".to_string()));
    assert_eq!(code.insert("x".to_string(), "3".to_string()), None);
    assert_eq!(code.get("qq").unwrap(), "2");
    assert_eq!(code.data().len(), 2);
    code.data_mut().push(("y".to_string(), "4".to_string()));
    assert_eq!(code.get("y").unwrap(), "4");
    let a = CQCode::from(("a", [("x", "1"), ("y", "2")]));
    let b = CQCode::from(("a", [("y", "2"), ("x", "1")]));
    let c = CQCode::from(("a", [("y", "2"), ("x", "9")]));
    let d = CQCode::from(("b", [("y", "2"), ("x", "1")]));
    assert_eq!(a, b);
    assert_ne!(a, c);
    assert_ne!(a, d);
    let e = CQCode::from(("a", [("x", "1"), ("x", "5")]));
    assert_eq!(e.data.len(), 1);
    assert_eq!(e.get("x").unwrap(), "5");
}

#[test]
fn numbers_read_back() {
    for v in [0i64, 7, -7, 1234567890, i64::MAX, i64::MIN] {
        let mut ser = CQSerializer::default();
        ser.serialize_i64(v);
        let text = ser.finish();
        let mut de = CQDeserializer::new(&text);
        assert_eq!(de.deserialize_i64().unwrap(), v);
    }
    for b in [true, false] {
        let mut ser = CQSerializer::default();
        ser.serialize_bool(b);
        let text = ser.finish();
        let mut de = CQDeserializer::new(&text);
        assert_eq!(de.deserialize_bool().unwrap(), b);
    }
}

#[test]
fn type_key_sets_the_type() {
    let codes = from_str("[CQ:face,$type=at,qq=1]").unwrap();
    assert_eq!(codes, vec![CQCode::from(("at", [("qq", "1")]))]);
    let codes = from_str("[CQ:face,$type=at,id=2,$type=image]").unwrap();
    assert_eq!(codes, vec![CQCode::from(("image", [("id", "2")]))]);
    assert!(matches!(from_str("[éé]"), Err(serde_cqcode::Error::ExpectedCodeType)));
}

#[test]
fn values_that_are_not_strings() {
    let map_error = |r: Result<Vec<CQCode>, serde_cqcode::Error>| {
        matches!(r, Err(serde_cqcode::Error::Custom(m)) if m == "invalid type: map, expected a string")
    };
    assert!(map_error(from_str("[CQ:a,k=[CQ:b,x=1],j=1]")));
    assert!(map_error(from_str("[CQ:[CQ:b]]")));
    assert!(map_error(from_str("[CQ:a,$type=[CQ:b],$type=c]")));
    assert!(map_error(from_str("[CQ:a,k=[CQ:b],j]")));
    assert!(matches!(from_str("[CQ:a,k=[CQ:b,j]"), Err(serde_cqcode::Error::ExpectedCodeColon)));
    assert!(matches!(from_str("[CQ:a,k=[XY:b]]"), Err(serde_cqcode::Error::ExpectedCodeType)));
    assert!(matches!(from_str("[CQ:a,k=x[CQ:b]]"), Err(serde_cqcode::Error::ExpectedCodeComma)));
    assert!(matches!(from_str("[CQ:a,k=xyz"), Err(serde_cqcode::Error::Eof)));
}
