use serde_cqcode::data::CQCode;
use serde_cqcode::de::CQDeserializer;
use serde_cqcode::ser::CQSerializer;
use serde_cqcode::{from_str, to_string};

fn escaped(text: &str) -> String {
    let mut ser = CQSerializer::default();
    ser.serialize_str(text);
    ser.finish()
}

#[test]
fn escaping_piecewise_is_escaping_whole() {
    assert_eq!(escaped("a&]b,["), format!("{}{}", escaped("a&"), escaped("]b,[")));
}

#[test]
fn written_messages_concatenate() {
    let a = vec![CQCode::from(("face", [("id", "1")])), CQCode::from(("text", [("text", "x")]))];
    let b = vec![CQCode::from(("at", [("qq", "2")]))];
    let mut both = a.clone();
    both.extend(b.clone());
    assert_eq!(
        to_string(&both).unwrap(),
        format!("{}{}", to_string(&a).unwrap(), to_string(&b).unwrap())
    );
}

#[test]
fn escaped_values_read_back() {
    for text in ["plain", "a,b", "[x]", "&amp;", "你好", ""] {
        for stop in [",", "]", "="] {
            let input = format!("{}{}", escaped(text), stop);
            let mut de = CQDeserializer::new(&input);
            assert_eq!(de.next_escaped_string().unwrap(), text);
            assert_eq!(de.next_char().unwrap().to_string(), stop);
        }
    }
}

#[test]
fn plain_text_reads_back() {
    let input = format!("{}[", escaped("a=b [c], &d"));
    let mut de = CQDeserializer::new(&input);
    let code = de.parse_text_msg().unwrap();
    assert_eq!(code.get("text").unwrap(), "a=b [c], &d");
}

#[test]
fn messages_read_back() {
    let codes = vec![
        CQCode::from(("text", [("text", "hello, [world]")])),
        CQCode::from(("image", [("file", "a.jpg"), ("cache", "0")])),
        CQCode::from(("text", [("text", "&")])),
        CQCode::from(("face", [("id", "14")])),
    ];
    assert_eq!(from_str(&to_string(&codes).unwrap()).unwrap(), codes);
}

#[test]
fn a_code_equals_itself() {
    let a = CQCode::from(("image", [("file", "a.jpg"), ("cache", "0")]));
    assert!(a == a);
}
