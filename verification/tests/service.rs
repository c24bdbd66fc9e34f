use wireidl::schema::{Kind, FieldSchema, RecordSchema, SchemaTable, WireType, MessageType};
use wireidl::value::{Value, Record};
use wireidl::protocol::{MockProtocol, Protocol};
use wireidl::codec::encode_record;
use wireidl::decode::decode_record;
use wireidl::service::{MethodSchema, Service, Processor, Client};
use wireidl::Error;

fn service_table() -> SchemaTable {
    vec![
        RecordSchema {
            name: String::from("GetStructArgs"),
            fields: vec![FieldSchema {
                name: String::from("key"),
                id: 1,
                optional: false,
                kind: Kind::I32,
            }],
        },
        RecordSchema {
            name: String::from("GetStructResult"),
            fields: vec![FieldSchema {
                name: String::from("success"),
                id: 0,
                optional: false,
                kind: Kind::Rec(2),
            }],
        },
        RecordSchema {
            name: String::from("DeeplyNested"),
            fields: vec![FieldSchema {
                name: String::from("nested"),
                id: 6,
                optional: false,
                kind: Kind::SetOf(Box::new(Kind::List(Box::new(Kind::List(Box::new(
                    Kind::List(Box::new(Kind::List(Box::new(Kind::I32)))),
                )))))),
            }],
        },
    ]
}

fn methods() -> Vec<MethodSchema> {
    vec![MethodSchema {
        name: String::from("get_struct"),
        args_idx: 0,
        result_idx: 1,
    }]
}

fn deeply_nested_value() -> Value {
    Value::Rec(Record {
        fields: vec![Some(Value::SetOf(vec![Value::List(vec![Value::List(vec![
            Value::List(vec![Value::List(vec![Value::I32(1), Value::I32(2)])]),
        ])])]))],
    })
}

struct SharedImpl {
    seen_key: Option<i32>,
}

impl Service for SharedImpl {
    fn handle(&mut self, method: usize, args: Record) -> Result<Value, Error> {
        assert_eq!(method, 0);
        match &args.fields[0] {
            Some(Value::I32(k)) => self.seen_key = Some(*k),
            other => panic!("unexpected args field: {:?}", other),
        }
        Ok(deeply_nested_value())
    }
}

#[test]
fn test_dispatch_get_struct() {
    let tbl = service_table();
    let mut protocol = MockProtocol::new();

    // frame the incoming call: envelope, args record {key: 1}, message end
    protocol
        .write_message_begin("get_struct", MessageType::Call, 7)
        .unwrap();
    let args = Record {
        fields: vec![Some(Value::I32(1))],
    };
    encode_record(&mut protocol, &tbl, 0, &args).unwrap();
    protocol.write_message_end().unwrap();

    let mut processor = Processor::new(SharedImpl { seen_key: None }, methods());
    processor.process(&mut protocol, &tbl).unwrap();
    assert_eq!(processor.service.seen_key, Some(1));

    // the reply follows the consumed call on the stream
    let (rname, rtype, rsid) = protocol.read_message_begin().unwrap();
    assert_eq!(rname, String::from("get_struct"));
    assert_eq!(rtype, MessageType::Reply);
    assert_eq!(rsid, 7);
    let result = decode_record(&mut protocol, &tbl, 1).unwrap();
    assert_eq!(result.fields[0], Some(deeply_nested_value()));
    protocol.read_message_end().unwrap();
}

#[test]
fn test_dispatch_unknown_method() {
    let tbl = service_table();
    let mut protocol = MockProtocol::new();
    protocol
        .write_message_begin("no_such_method", MessageType::Call, 3)
        .unwrap();
    let args = Record {
        fields: vec![Some(Value::I32(1))],
    };
    encode_record(&mut protocol, &tbl, 0, &args).unwrap();
    protocol.write_message_end().unwrap();

    let written = protocol.log().len();
    let mut processor = Processor::new(SharedImpl { seen_key: None }, methods());
    let r = processor.process(&mut protocol, &tbl);
    assert_eq!(r, Err(Error::UnknownMethod));
    // nothing was written back
    assert_eq!(protocol.log().len(), written);
    // nothing beyond the envelope was consumed: the args record is still
    // the next thing on the stream
    let args_again = decode_record(&mut protocol, &tbl, 0).unwrap();
    assert_eq!(args_again.fields[0], Some(Value::I32(1)));
}

#[test]
fn test_client_call_reads_reply() {
    let tbl = service_table();
    let mut protocol = MockProtocol::new();

    // pre-position a canonical reply on the stream
    protocol
        .write_message_begin("get_struct", MessageType::Reply, 21)
        .unwrap();
    let result = Record {
        fields: vec![Some(deeply_nested_value())],
    };
    encode_record(&mut protocol, &tbl, 1, &result).unwrap();
    protocol.write_message_end().unwrap();

    let mut client = Client::new(protocol);
    let ms = methods();
    let args = Record {
        fields: vec![Some(Value::I32(1))],
    };
    let out = client.call(&tbl, &ms[0], 21, &args).unwrap();
    assert_eq!(out, deeply_nested_value());

    // the call message itself was appended to the wire after the reply
    let log = client.protocol.log();
    let n = log.len();
    assert!(n > 3);
    match &log[n - 1] {
        wireidl::events::ProtocolAction::Write(wireidl::events::SerAction::Message(
            wireidl::events::Action::End,
        )) => (),
        other => panic!("unexpected tail event: {:?}", other),
    }
}

#[test]
fn test_client_rejects_mismatched_sequence_id() {
    let tbl = service_table();
    let mut protocol = MockProtocol::new();
    protocol
        .write_message_begin("get_struct", MessageType::Reply, 99)
        .unwrap();
    let result = Record {
        fields: vec![Some(deeply_nested_value())],
    };
    encode_record(&mut protocol, &tbl, 1, &result).unwrap();
    protocol.write_message_end().unwrap();

    let mut client = Client::new(protocol);
    let ms = methods();
    let args = Record {
        fields: vec![Some(Value::I32(1))],
    };
    let out = client.call(&tbl, &ms[0], 21, &args);
    assert_eq!(out, Err(Error::ProtocolViolation));
}

struct WrongShape;

impl Service for WrongShape {
    fn handle(&mut self, _method: usize, _args: Record) -> Result<Value, Error> {
        Ok(Value::Bool(true))
    }
}

#[test]
fn test_handler_result_is_validated() {
    let tbl = service_table();
    let mut protocol = MockProtocol::new();
    protocol
        .write_message_begin("get_struct", MessageType::Call, 1)
        .unwrap();
    let args = Record {
        fields: vec![Some(Value::I32(1))],
    };
    encode_record(&mut protocol, &tbl, 0, &args).unwrap();
    protocol.write_message_end().unwrap();

    let mut processor = Processor::new(WrongShape, methods());
    let r = processor.process(&mut protocol, &tbl);
    assert_eq!(r, Err(Error::ProtocolViolation));
}

#[test]
fn test_wire_type_tags() {
    assert_eq!(Kind::Bool.wire_type(), WireType::TBool);
    assert_eq!(Kind::Rec(0).wire_type(), WireType::TStruct);
    assert_eq!(
        Kind::MapOf(Box::new(Kind::I32), Box::new(Kind::Text)).wire_type(),
        WireType::TMap
    );
}
