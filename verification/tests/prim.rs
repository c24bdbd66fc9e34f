use wireidl::schema::Kind;
use wireidl::value::Value;
use wireidl::events::{SerAction, Primitive, ProtocolAction};
use wireidl::protocol::MockProtocol;
use wireidl::codec::encode_value;

fn encode_one(k: &Kind, v: &Value) -> MockProtocol {
    let tbl = vec![];
    let mut protocol = MockProtocol::new();
    encode_value(&mut protocol, &tbl, k, v).unwrap();
    protocol
}

#[test]
fn test_i8_encode() {
    for val in 0..100i8 {
        let protocol = encode_one(&Kind::Byte, &Value::Byte(val));
        assert_eq!(
            protocol.log(),
            &vec![ProtocolAction::Write(SerAction::Primitive(Primitive::Byte(val)))]
        );
    }
}

#[test]
fn test_i16_encode() {
    for val in 0..100i16 {
        let protocol = encode_one(&Kind::I16, &Value::I16(val));
        assert_eq!(
            protocol.log(),
            &vec![ProtocolAction::Write(SerAction::Primitive(Primitive::I16(val)))]
        );
    }
}

#[test]
fn test_i32_encode() {
    for val in 0..100i32 {
        let protocol = encode_one(&Kind::I32, &Value::I32(val));
        assert_eq!(
            protocol.log(),
            &vec![ProtocolAction::Write(SerAction::Primitive(Primitive::I32(val)))]
        );
    }
}

#[test]
fn test_i64_encode() {
    for val in 0..100i64 {
        let protocol = encode_one(&Kind::I64, &Value::I64(val));
        assert_eq!(
            protocol.log(),
            &vec![ProtocolAction::Write(SerAction::Primitive(Primitive::I64(val)))]
        );
    }
}

#[test]
fn test_string_encode() {
    let samples = vec![
        String::from("hello"),
        String::from("goodbye"),
        String::from("garbage"),
        String::from("unicode \u{2600}\u{2601}"),
    ];
    for val in samples {
        let protocol = encode_one(&Kind::Text, &Value::Text(val.clone()));
        assert_eq!(
            protocol.log(),
            &vec![ProtocolAction::Write(SerAction::Primitive(Primitive::PString(val)))]
        );
    }
}

#[test]
fn test_bool_and_binary_encode() {
    let protocol = encode_one(&Kind::Bool, &Value::Bool(true));
    assert_eq!(
        protocol.log(),
        &vec![ProtocolAction::Write(SerAction::Primitive(Primitive::Bool(true)))]
    );
    let protocol = encode_one(&Kind::Blob, &Value::Blob(vec![1, 2, 3]));
    assert_eq!(
        protocol.log(),
        &vec![ProtocolAction::Write(SerAction::Primitive(Primitive::Binary(vec![1, 2, 3])))]
    );
}
