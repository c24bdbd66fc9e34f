use wireidl::schema::{Kind, FieldSchema, RecordSchema, SchemaTable};
use wireidl::value::{Value, Record};
use wireidl::protocol::MockProtocol;
use wireidl::decode::{decode_value, skip_value};
use wireidl::laws::round_trip;
use wireidl::codec::encode_record;
use wireidl::decode::decode_record;
use wireidl::Error;
use wireidl::schema::WireType;

fn check_round_trip(tbl: &SchemaTable, k: &Kind, v: Value) {
    let mut protocol = MockProtocol::new();
    let back = round_trip(&mut protocol, tbl, k, &v).unwrap();
    assert_eq!(back, v);
}

#[test]
fn test_round_trip_primitives() {
    let tbl = vec![];
    check_round_trip(&tbl, &Kind::Bool, Value::Bool(false));
    check_round_trip(&tbl, &Kind::Byte, Value::Byte(-7));
    check_round_trip(&tbl, &Kind::I16, Value::I16(-300));
    check_round_trip(&tbl, &Kind::I32, Value::I32(123456));
    check_round_trip(&tbl, &Kind::I64, Value::I64(-9876543210));
    check_round_trip(&tbl, &Kind::Text, Value::Text(String::from("round trip")));
    check_round_trip(&tbl, &Kind::Blob, Value::Blob(vec![0, 255, 16]));
}

#[test]
fn test_round_trip_containers() {
    let tbl = vec![];
    check_round_trip(
        &tbl,
        &Kind::List(Box::new(Kind::I32)),
        Value::List(vec![Value::I32(1), Value::I32(2), Value::I32(3)]),
    );
    check_round_trip(
        &tbl,
        &Kind::SetOf(Box::new(Kind::Text)),
        Value::SetOf(vec![
            Value::Text(String::from("a")),
            Value::Text(String::from("b")),
        ]),
    );
    check_round_trip(
        &tbl,
        &Kind::MapOf(Box::new(Kind::I32), Box::new(Kind::Text)),
        Value::MapOf(vec![
            (Value::I32(1), Value::Text(String::from("one"))),
            (Value::I32(2), Value::Text(String::from("two"))),
        ]),
    );
    // deep nesting: list of lists of lists
    check_round_trip(
        &tbl,
        &Kind::List(Box::new(Kind::List(Box::new(Kind::List(Box::new(Kind::I32)))))),
        Value::List(vec![Value::List(vec![Value::List(vec![Value::I32(9)])])]),
    );
}

fn recursive_table() -> SchemaTable {
    vec![RecordSchema {
        name: String::from("Recursive"),
        fields: vec![FieldSchema {
            name: String::from("recurse"),
            id: 0,
            optional: false,
            kind: Kind::List(Box::new(Kind::Rec(0))),
        }],
    }]
}

fn recursive_value(depth: usize) -> Value {
    let children = if depth == 0 {
        vec![]
    } else {
        vec![recursive_value(depth - 1)]
    };
    Value::Rec(Record {
        fields: vec![Some(Value::List(children))],
    })
}

fn wide_recursive_value(width: usize) -> Value {
    let mut children = Vec::new();
    for _ in 0..width {
        children.push(recursive_value(0));
    }
    Value::Rec(Record {
        fields: vec![Some(Value::List(children))],
    })
}

#[test]
fn test_round_trip_recursive_records() {
    let tbl = recursive_table();
    let k = Kind::Rec(0);
    check_round_trip(&tbl, &k, recursive_value(0));
    check_round_trip(&tbl, &k, recursive_value(1));
    check_round_trip(&tbl, &k, recursive_value(12));
    check_round_trip(&tbl, &k, wide_recursive_value(5));
}

#[test]
fn test_unknown_field_tolerance() {
    // Writer schema has fields a and b; reader schema omits b.
    let writer = vec![RecordSchema {
        name: String::from("Evolved"),
        fields: vec![
            FieldSchema {
                name: String::from("a"),
                id: 1,
                optional: false,
                kind: Kind::I32,
            },
            FieldSchema {
                name: String::from("b"),
                id: 2,
                optional: false,
                kind: Kind::Text,
            },
        ],
    }];
    let reader = vec![RecordSchema {
        name: String::from("Evolved"),
        fields: vec![FieldSchema {
            name: String::from("a"),
            id: 1,
            optional: false,
            kind: Kind::I32,
        }],
    }];
    let mut protocol = MockProtocol::new();
    let full = Record {
        fields: vec![
            Some(Value::I32(42)),
            Some(Value::Text(String::from("dropped silently"))),
        ],
    };
    encode_record(&mut protocol, &writer, 0, &full).unwrap();
    let narrowed = decode_record(&mut protocol, &reader, 0).unwrap();
    assert_eq!(narrowed.fields.len(), 1);
    assert_eq!(narrowed.fields[0], Some(Value::I32(42)));
}

#[test]
fn test_unknown_field_nested_record_skipped() {
    // The skipped field is itself a record: the skip recurses through the
    // nested struct markers so the stream stays aligned.
    let inner = RecordSchema {
        name: String::from("Inner"),
        fields: vec![FieldSchema {
            name: String::from("x"),
            id: 1,
            optional: false,
            kind: Kind::I64,
        }],
    };
    let writer = vec![
        RecordSchema {
            name: String::from("Outer"),
            fields: vec![
                FieldSchema {
                    name: String::from("keep"),
                    id: 1,
                    optional: false,
                    kind: Kind::I32,
                },
                FieldSchema {
                    name: String::from("extra"),
                    id: 7,
                    optional: false,
                    kind: Kind::Rec(1),
                },
            ],
        },
        inner,
    ];
    let reader = vec![RecordSchema {
        name: String::from("Outer"),
        fields: vec![FieldSchema {
            name: String::from("keep"),
            id: 1,
            optional: false,
            kind: Kind::I32,
        }],
    }];
    let mut protocol = MockProtocol::new();
    let full = Record {
        fields: vec![
            Some(Value::I32(5)),
            Some(Value::Rec(Record {
                fields: vec![Some(Value::I64(99))],
            })),
        ],
    };
    encode_record(&mut protocol, &writer, 0, &full).unwrap();
    let narrowed = decode_record(&mut protocol, &reader, 0).unwrap();
    assert_eq!(narrowed.fields[0], Some(Value::I32(5)));
}

#[test]
fn test_same_id_different_wire_type_is_skipped() {
    // Field id 5 is declared as text by the writer but as an integer by the
    // reader: matching is by exact (wire type, id), so it is skipped, never
    // coerced.
    let writer = vec![RecordSchema {
        name: String::from("M"),
        fields: vec![
            FieldSchema {
                name: String::from("x"),
                id: 5,
                optional: false,
                kind: Kind::Text,
            },
            FieldSchema {
                name: String::from("y"),
                id: 9,
                optional: false,
                kind: Kind::I32,
            },
        ],
    }];
    let reader = vec![RecordSchema {
        name: String::from("M"),
        fields: vec![
            FieldSchema {
                name: String::from("x"),
                id: 5,
                optional: true,
                kind: Kind::I32,
            },
            FieldSchema {
                name: String::from("y"),
                id: 9,
                optional: false,
                kind: Kind::I32,
            },
        ],
    }];
    let mut protocol = MockProtocol::new();
    let rec = Record {
        fields: vec![
            Some(Value::Text(String::from("not an int"))),
            Some(Value::I32(11)),
        ],
    };
    encode_record(&mut protocol, &writer, 0, &rec).unwrap();
    let out = decode_record(&mut protocol, &reader, 0).unwrap();
    assert_eq!(out.fields[0], None);
    assert_eq!(out.fields[1], Some(Value::I32(11)));
}

#[test]
fn test_decode_wrong_kind_is_violation() {
    let tbl = vec![];
    let mut protocol = MockProtocol::new();
    wireidl::codec::encode_value(&mut protocol, &tbl, &Kind::I32, &Value::I32(3)).unwrap();
    let r = decode_value(&mut protocol, &tbl, &Kind::Text);
    assert_eq!(r, Err(Error::ProtocolViolation));
}

#[test]
fn test_skip_double_is_unsupported() {
    let mut protocol = MockProtocol::new();
    let r = skip_value(&mut protocol, WireType::TDouble);
    assert_eq!(r, Err(Error::UnsupportedSkip));
}
