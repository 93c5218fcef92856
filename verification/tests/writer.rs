use serde_cqcode::ser::serializer::{MapSerializer, StructSerializer};
use serde_cqcode::ser::CQSerializer;
use serde_cqcode::err::Error;

#[test]
fn scalars_are_written() {
    let mut ser = CQSerializer::default();
    ser.serialize_bool(true);
    ser.push_char(',');
    ser.serialize_bool(false);
    ser.serialize_char('[');
    ser.serialize_i64(-1234);
    ser.serialize_char(' ');
    ser.serialize_i64(i64::MIN);
    ser.serialize_char(' ');
    ser.serialize_u64(u64::MAX);
    ser.serialize_char(' ');
    ser.serialize_u64(0);
    ser.serialize_str("a&b]");
    ser.append_value_display("raw,");
    ser.append_raw("[x]");
    assert_eq!(
        ser.finish(),
        "true&#44;false&#91;-1234 -9223372036854775808 18446744073709551615 0a&amp;b&#93;=raw,[x]"
    );
}

#[test]
fn struct_writer() {
    let mut ser = CQSerializer::default();
    let mut st = StructSerializer::new("image", &mut ser);
    st.serialize_key(&mut ser, "file");
    st.serialize_value(&mut ser, "a&#44;b");
    st.serialize_key(&mut ser, "k,ey");
    st.serialize_value(&mut ser, "v");
    st.end(&mut ser).unwrap();
    let mut st = StructSerializer::new("text", &mut ser);
    st.serialize_key(&mut ser, "other");
    st.serialize_value(&mut ser, "dropped");
    st.serialize_key(&mut ser, "text");
    st.serialize_value(&mut ser, "kept");
    st.end(&mut ser).unwrap();
    assert_eq!(ser.finish(), "[CQ:image,file=a&#44;b,k&#44;ey=v]kept");
}

#[test]
fn map_writer() {
    let mut ser = CQSerializer::default();
    let mut ms = MapSerializer::new();
    ms.serialize_key("qq".to_string());
    ms.serialize_value("1".to_string());
    ms.serialize_key("$type".to_string());
    ms.serialize_value("at".to_string());
    ms.end(&mut ser).unwrap();
    assert_eq!(ser.finish(), "[CQ:at,qq=1]");

    let mut ser = CQSerializer::default();
    let mut ms = MapSerializer::new();
    ms.serialize_key("qq".to_string());
    ms.serialize_value("1".to_string());
    assert!(matches!(ms.end(&mut ser), Err(Error::Custom(m)) if m == "missing field `$type`"));
    assert_eq!(ser.finish(), "");
}

#[test]
fn map_values_read_only_where_written() {
    let mut ser = CQSerializer::default();
    let mut ms = MapSerializer::new();
    ms.serialize_key("$type".to_string());
    ms.serialize_value("text".to_string());
    ms.serialize_key("other".to_string());
    ms.serialize_key("text".to_string());
    ms.serialize_value("hi".to_string());
    assert!(ms.is_complete());
    ms.end(&mut ser).unwrap();
    assert_eq!(ser.finish(), "hi");

    let mut ms = MapSerializer::new();
    ms.serialize_key("$type".to_string());
    ms.serialize_value("face".to_string());
    ms.serialize_key("id".to_string());
    assert!(!ms.is_complete());

    let mut ms = MapSerializer::new();
    ms.serialize_key("$type".to_string());
    assert!(!ms.is_complete());

    let mut ms = MapSerializer::new();
    ms.serialize_key("id".to_string());
    assert!(ms.is_complete());
    let mut ser = CQSerializer::default();
    assert!(matches!(ms.end(&mut ser), Err(Error::Custom(m)) if m == "missing field `$type`"));
}
