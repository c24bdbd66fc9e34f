use wireidl::schema::{Kind, FieldSchema, RecordSchema, SchemaTable, WireType};
use wireidl::value::{Value, Record};
use wireidl::events::{Action, SerAction, Primitive, ProtocolAction};
use wireidl::protocol::MockProtocol;
use wireidl::codec::encode_record;
use wireidl::decode::decode_record;

fn simple_table() -> SchemaTable {
    vec![RecordSchema {
        name: String::from("Simple"),
        fields: vec![FieldSchema {
            name: String::from("key"),
            id: 16,
            optional: false,
            kind: Kind::Text,
        }],
    }]
}

#[test]
fn test_simple_struct() {
    let tbl = simple_table();
    let instance = Record {
        fields: vec![Some(Value::Text(String::from("Hello World!")))],
    };
    let mut protocol = MockProtocol::new();
    encode_record(&mut protocol, &tbl, 0, &instance).unwrap();

    let expected = vec![
        ProtocolAction::Write(SerAction::Struct(Action::Begin(String::from("Simple")))),
        ProtocolAction::Write(SerAction::Field(Action::Begin((
            String::from("key"),
            WireType::TString,
            16,
        )))),
        ProtocolAction::Write(SerAction::Primitive(Primitive::PString(String::from(
            "Hello World!",
        )))),
        ProtocolAction::Write(SerAction::Field(Action::End)),
        ProtocolAction::Write(SerAction::Field(Action::Stop)),
        ProtocolAction::Write(SerAction::Struct(Action::End)),
    ];
    assert_eq!(protocol.log(), &expected);

    let second = decode_record(&mut protocol, &tbl, 0).unwrap();
    assert_eq!(second.fields[0], Some(Value::Text(String::from("Hello World!"))));
    assert_eq!(instance, second);
}

#[test]
fn test_empty_struct_is_violation() {
    // A record whose only fields are all-absent optionals is
    // indistinguishable on the wire from a malformed empty record: the
    // decoder reports a protocol violation for both.
    let tbl = vec![RecordSchema {
        name: String::from("Empty"),
        fields: vec![],
    }];
    let mut protocol = MockProtocol::new();
    let instance = Record { fields: vec![] };
    encode_record(&mut protocol, &tbl, 0, &instance).unwrap();
    let r = decode_record(&mut protocol, &tbl, 0);
    assert_eq!(r, Err(wireidl::Error::ProtocolViolation));
}

#[test]
fn test_all_absent_optionals_is_violation() {
    let tbl = vec![RecordSchema {
        name: String::from("MaybeOne"),
        fields: vec![FieldSchema {
            name: String::from("o"),
            id: 1,
            optional: true,
            kind: Kind::I32,
        }],
    }];
    let mut protocol = MockProtocol::new();
    let instance = Record { fields: vec![None] };
    encode_record(&mut protocol, &tbl, 0, &instance).unwrap();
    let r = decode_record(&mut protocol, &tbl, 0);
    assert_eq!(r, Err(wireidl::Error::ProtocolViolation));
}

#[test]
fn test_optional_absent_emits_nothing() {
    let tbl = vec![RecordSchema {
        name: String::from("Pair"),
        fields: vec![
            FieldSchema {
                name: String::from("must"),
                id: 1,
                optional: false,
                kind: Kind::I32,
            },
            FieldSchema {
                name: String::from("maybe"),
                id: 2,
                optional: true,
                kind: Kind::Text,
            },
        ],
    }];
    let mut protocol = MockProtocol::new();
    let instance = Record {
        fields: vec![Some(Value::I32(7)), None],
    };
    encode_record(&mut protocol, &tbl, 0, &instance).unwrap();
    // no field begin for the absent optional, anywhere in the log
    for a in protocol.log() {
        if let ProtocolAction::Write(SerAction::Field(Action::Begin((_, _, id)))) = a {
            assert_ne!(*id, 2);
        }
    }
    // decoding leaves the field absent, not a zero-valued default
    let second = decode_record(&mut protocol, &tbl, 0).unwrap();
    assert_eq!(second.fields[0], Some(Value::I32(7)));
    assert_eq!(second.fields[1], None);
}

#[test]
fn test_missing_required_field_is_violation() {
    // Writer knows only field 2; reader requires field 1 as well.
    let writer = vec![RecordSchema {
        name: String::from("R"),
        fields: vec![FieldSchema {
            name: String::from("b"),
            id: 2,
            optional: false,
            kind: Kind::I32,
        }],
    }];
    let reader = vec![RecordSchema {
        name: String::from("R"),
        fields: vec![
            FieldSchema {
                name: String::from("a"),
                id: 1,
                optional: false,
                kind: Kind::I32,
            },
            FieldSchema {
                name: String::from("b"),
                id: 2,
                optional: false,
                kind: Kind::I32,
            },
        ],
    }];
    let mut protocol = MockProtocol::new();
    let instance = Record {
        fields: vec![Some(Value::I32(4))],
    };
    encode_record(&mut protocol, &writer, 0, &instance).unwrap();
    let r = decode_record(&mut protocol, &reader, 0);
    assert_eq!(r, Err(wireidl::Error::ProtocolViolation));
}
