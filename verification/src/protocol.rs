//! The protocol capability: read and write operations for structural markers
//! and primitives, specified against the event stream the protocol realizes,
//! and a mock protocol that records the stream as an operation log.

use vstd::prelude::*;
use crate::Error;
use crate::schema::{WireType, MessageType};
use crate::events::{SpecEvent, Action, SerAction, Primitive, ProtocolAction, act_view};

verus! {

/// The events a protocol operation log models.
pub open spec fn events_of(log: Seq<ProtocolAction>) -> Seq<SpecEvent> {
    log.map_values(|a: ProtocolAction| act_view(a))
}

proof fn lemma_events_of_push(log: Seq<ProtocolAction>, x: ProtocolAction)
    ensures
        events_of(log.push(x)) == events_of(log).push(act_view(x)),
{
    assert(events_of(log.push(x)) =~= events_of(log).push(act_view(x)));
}

/// A wire protocol: realizes each event in its own byte layout. `events()`
/// is the stream of events written so far (or available to be read), and
/// `taken()` counts how many of them reads have consumed. Every write appends
/// one event or leaves the stream unchanged and fails; every read consumes
/// exactly the next event when it has the requested shape.
pub trait Protocol: Sized {
    /// The events this protocol has carried.
    spec fn events(&self) -> Seq<SpecEvent>;

    /// How many carried events reads have consumed.
    spec fn taken(&self) -> nat;

    /// The protocol's internal well-formedness.
    spec fn inv(&self) -> bool;

    /// The read cursor never passes the end of the stream.
    proof fn inv_bound(&self)
        requires
            self.inv(),
        ensures
            self.taken() <= self.events().len(),
    ;

    fn write_message_begin(&mut self, name: &str, message_type: MessageType, sequence_id: i32) -> (r:
        Result<(), Error>)
        requires
            old(self).inv(),
        ensures
            final(self).inv(),
            final(self).taken() == old(self).taken(),
            r is Ok ==> final(self).events() == old(self).events().push(
                SpecEvent::MsgBegin(name@, message_type, sequence_id),
            ),
            r is Err ==> final(self).events() == old(self).events(),
    ;

    fn write_message_end(&mut self) -> (r: Result<(), Error>)
        requires
            old(self).inv(),
        ensures
            final(self).inv(),
            final(self).taken() == old(self).taken(),
            r is Ok ==> final(self).events() == old(self).events().push(SpecEvent::MsgEnd),
            r is Err ==> final(self).events() == old(self).events(),
    ;

    fn write_struct_begin(&mut self, name: &str) -> (r: Result<(), Error>)
        requires
            old(self).inv(),
        ensures
            final(self).inv(),
            final(self).taken() == old(self).taken(),
            r is Ok ==> final(self).events() == old(self).events().push(
                SpecEvent::StructBegin(name@),
            ),
            r is Err ==> final(self).events() == old(self).events(),
    ;

    fn write_struct_end(&mut self) -> (r: Result<(), Error>)
        requires
            old(self).inv(),
        ensures
            final(self).inv(),
            final(self).taken() == old(self).taken(),
            r is Ok ==> final(self).events() == old(self).events().push(SpecEvent::StructEnd),
            r is Err ==> final(self).events() == old(self).events(),
    ;

    fn write_field_begin(&mut self, name: &str, field_type: WireType, field_id: i16) -> (r: Result<
        (),
        Error,
    >)
        requires
            old(self).inv(),
        ensures
            final(self).inv(),
            final(self).taken() == old(self).taken(),
            r is Ok ==> final(self).events() == old(self).events().push(
                SpecEvent::FieldBegin(name@, field_type, field_id),
            ),
            r is Err ==> final(self).events() == old(self).events(),
    ;

    fn write_field_end(&mut self) -> (r: Result<(), Error>)
        requires
            old(self).inv(),
        ensures
            final(self).inv(),
            final(self).taken() == old(self).taken(),
            r is Ok ==> final(self).events() == old(self).events().push(SpecEvent::FieldEnd),
            r is Err ==> final(self).events() == old(self).events(),
    ;

    fn write_field_stop(&mut self) -> (r: Result<(), Error>)
        requires
            old(self).inv(),
        ensures
            final(self).inv(),
            final(self).taken() == old(self).taken(),
            r is Ok ==> final(self).events() == old(self).events().push(SpecEvent::FieldStop),
            r is Err ==> final(self).events() == old(self).events(),
    ;

    fn write_map_begin(&mut self, key_type: WireType, value_type: WireType, size: usize) -> (r:
        Result<(), Error>)
        requires
            old(self).inv(),
        ensures
            final(self).inv(),
            final(self).taken() == old(self).taken(),
            r is Ok ==> final(self).events() == old(self).events().push(
                SpecEvent::MapBegin(key_type, value_type, size as nat),
            ),
            r is Err ==> final(self).events() == old(self).events(),
    ;

    fn write_map_end(&mut self) -> (r: Result<(), Error>)
        requires
            old(self).inv(),
        ensures
            final(self).inv(),
            final(self).taken() == old(self).taken(),
            r is Ok ==> final(self).events() == old(self).events().push(SpecEvent::MapEnd),
            r is Err ==> final(self).events() == old(self).events(),
    ;

    fn write_list_begin(&mut self, elem_type: WireType, size: usize) -> (r: Result<(), Error>)
        requires
            old(self).inv(),
        ensures
            final(self).inv(),
            final(self).taken() == old(self).taken(),
            r is Ok ==> final(self).events() == old(self).events().push(
                SpecEvent::ListBegin(elem_type, size as nat),
            ),
            r is Err ==> final(self).events() == old(self).events(),
    ;

    fn write_list_end(&mut self) -> (r: Result<(), Error>)
        requires
            old(self).inv(),
        ensures
            final(self).inv(),
            final(self).taken() == old(self).taken(),
            r is Ok ==> final(self).events() == old(self).events().push(SpecEvent::ListEnd),
            r is Err ==> final(self).events() == old(self).events(),
    ;

    fn write_set_begin(&mut self, elem_type: WireType, size: usize) -> (r: Result<(), Error>)
        requires
            old(self).inv(),
        ensures
            final(self).inv(),
            final(self).taken() == old(self).taken(),
            r is Ok ==> final(self).events() == old(self).events().push(
                SpecEvent::SetBegin(elem_type, size as nat),
            ),
            r is Err ==> final(self).events() == old(self).events(),
    ;

    fn write_set_end(&mut self) -> (r: Result<(), Error>)
        requires
            old(self).inv(),
        ensures
            final(self).inv(),
            final(self).taken() == old(self).taken(),
            r is Ok ==> final(self).events() == old(self).events().push(SpecEvent::SetEnd),
            r is Err ==> final(self).events() == old(self).events(),
    ;

    fn write_bool(&mut self, value: bool) -> (r: Result<(), Error>)
        requires
            old(self).inv(),
        ensures
            final(self).inv(),
            final(self).taken() == old(self).taken(),
            r is Ok ==> final(self).events() == old(self).events().push(SpecEvent::PBool(value)),
            r is Err ==> final(self).events() == old(self).events(),
    ;

    fn write_byte(&mut self, value: i8) -> (r: Result<(), Error>)
        requires
            old(self).inv(),
        ensures
            final(self).inv(),
            final(self).taken() == old(self).taken(),
            r is Ok ==> final(self).events() == old(self).events().push(SpecEvent::PByte(value)),
            r is Err ==> final(self).events() == old(self).events(),
    ;

    fn write_i16(&mut self, value: i16) -> (r: Result<(), Error>)
        requires
            old(self).inv(),
        ensures
            final(self).inv(),
            final(self).taken() == old(self).taken(),
            r is Ok ==> final(self).events() == old(self).events().push(SpecEvent::PI16(value)),
            r is Err ==> final(self).events() == old(self).events(),
    ;

    fn write_i32(&mut self, value: i32) -> (r: Result<(), Error>)
        requires
            old(self).inv(),
        ensures
            final(self).inv(),
            final(self).taken() == old(self).taken(),
            r is Ok ==> final(self).events() == old(self).events().push(SpecEvent::PI32(value)),
            r is Err ==> final(self).events() == old(self).events(),
    ;

    fn write_i64(&mut self, value: i64) -> (r: Result<(), Error>)
        requires
            old(self).inv(),
        ensures
            final(self).inv(),
            final(self).taken() == old(self).taken(),
            r is Ok ==> final(self).events() == old(self).events().push(SpecEvent::PI64(value)),
            r is Err ==> final(self).events() == old(self).events(),
    ;

    fn write_string(&mut self, value: &String) -> (r: Result<(), Error>)
        requires
            old(self).inv(),
        ensures
            final(self).inv(),
            final(self).taken() == old(self).taken(),
            r is Ok ==> final(self).events() == old(self).events().push(SpecEvent::PStr(value@)),
            r is Err ==> final(self).events() == old(self).events(),
    ;

    fn write_binary(&mut self, value: &Vec<u8>) -> (r: Result<(), Error>)
        requires
            old(self).inv(),
        ensures
            final(self).inv(),
            final(self).taken() == old(self).taken(),
            r is Ok ==> final(self).events() == old(self).events().push(SpecEvent::PBlob(value@)),
            r is Err ==> final(self).events() == old(self).events(),
    ;

    fn read_message_begin(&mut self) -> (r: Result<(String, MessageType, i32), Error>)
        requires
            old(self).inv(),
        ensures
            final(self).inv(),
            final(self).events() == old(self).events(),
            r matches Ok(v) ==> old(self).taken() < old(self).events().len() && old(self).events()[old(self).taken() as int] == SpecEvent::MsgBegin(v.0@, v.1, v.2) && final(self).taken() == old(self).taken()
                + 1,
            r is Err ==> final(self).taken() == old(self).taken(),
            old(self).taken() < old(self).events().len() && old(self).events()[old(self).taken() as int] is MsgBegin ==> r is Ok,
    ;

    fn read_message_end(&mut self) -> (r: Result<(), Error>)
        requires
            old(self).inv(),
        ensures
            final(self).inv(),
            final(self).events() == old(self).events(),
            r is Ok ==> old(self).taken() < old(self).events().len() && old(self).events()[old(self).taken() as int] == SpecEvent::MsgEnd && final(self).taken() == old(self).taken() + 1,
            r is Err ==> final(self).taken() == old(self).taken(),
            old(self).taken() < old(self).events().len() && old(self).events()[old(self).taken() as int] is MsgEnd ==> r is Ok,
    ;

    fn read_struct_begin(&mut self) -> (r: Result<String, Error>)
        requires
            old(self).inv(),
        ensures
            final(self).inv(),
            final(self).events() == old(self).events(),
            r matches Ok(n) ==> old(self).taken() < old(self).events().len() && old(self).events()[old(self).taken() as int] == SpecEvent::StructBegin(n@) && final(self).taken() == old(self).taken() + 1,
            r is Err ==> final(self).taken() == old(self).taken(),
            old(self).taken() < old(self).events().len() && old(self).events()[old(self).taken() as int] is StructBegin ==> r is Ok,
    ;

    fn read_struct_end(&mut self) -> (r: Result<(), Error>)
        requires
            old(self).inv(),
        ensures
            final(self).inv(),
            final(self).events() == old(self).events(),
            r is Ok ==> old(self).taken() < old(self).events().len() && old(self).events()[old(self).taken() as int] == SpecEvent::StructEnd && final(self).taken() == old(self).taken()
                + 1,
            r is Err ==> final(self).taken() == old(self).taken(),
            old(self).taken() < old(self).events().len() && old(self).events()[old(self).taken() as int] is StructEnd ==> r is Ok,
    ;

    /// A field stop on the wire is reported as wire type `TStop`.
    fn read_field_begin(&mut self) -> (r: Result<(String, WireType, i16), Error>)
        requires
            old(self).inv(),
        ensures
            final(self).inv(),
            final(self).events() == old(self).events(),
            r matches Ok(v) ==> old(self).taken() < old(self).events().len() && (old(self).events()[old(self).taken() as int] == SpecEvent::FieldBegin(v.0@, v.1, v.2) || (old(self).events()[old(self).taken() as int] == SpecEvent::FieldStop && v.1 == WireType::TStop)) && final(self).taken() == old(self).taken() + 1,
            r is Err ==> final(self).taken() == old(self).taken(),
            old(self).taken() < old(self).events().len() && (old(self).events()[old(self).taken() as int] is FieldBegin || old(self).events()[old(self).taken() as int] is FieldStop) ==> r is Ok,
    ;

    fn read_field_end(&mut self) -> (r: Result<(), Error>)
        requires
            old(self).inv(),
        ensures
            final(self).inv(),
            final(self).events() == old(self).events(),
            r is Ok ==> old(self).taken() < old(self).events().len() && old(self).events()[old(self).taken() as int] == SpecEvent::FieldEnd && final(self).taken() == old(self).taken()
                + 1,
            r is Err ==> final(self).taken() == old(self).taken(),
            old(self).taken() < old(self).events().len() && old(self).events()[old(self).taken() as int] is FieldEnd ==> r is Ok,
    ;

    fn read_map_begin(&mut self) -> (r: Result<(WireType, WireType, usize), Error>)
        requires
            old(self).inv(),
        ensures
            final(self).inv(),
            final(self).events() == old(self).events(),
            r matches Ok(v) ==> old(self).taken() < old(self).events().len() && old(self).events()[old(self).taken() as int] == SpecEvent::MapBegin(v.0, v.1, v.2 as nat) && final(self).taken() == old(self).taken() + 1,
            r is Err ==> final(self).taken() == old(self).taken(),
            old(self).taken() < old(self).events().len() && old(self).events()[old(self).taken() as int] is MapBegin ==> r is Ok,
    ;

    fn read_map_end(&mut self) -> (r: Result<(), Error>)
        requires
            old(self).inv(),
        ensures
            final(self).inv(),
            final(self).events() == old(self).events(),
            r is Ok ==> old(self).taken() < old(self).events().len() && old(self).events()[old(self).taken() as int] == SpecEvent::MapEnd && final(self).taken() == old(self).taken() + 1,
            r is Err ==> final(self).taken() == old(self).taken(),
            old(self).taken() < old(self).events().len() && old(self).events()[old(self).taken() as int] is MapEnd ==> r is Ok,
    ;

    fn read_list_begin(&mut self) -> (r: Result<(WireType, usize), Error>)
        requires
            old(self).inv(),
        ensures
            final(self).inv(),
            final(self).events() == old(self).events(),
            r matches Ok(v) ==> old(self).taken() < old(self).events().len() && old(self).events()[old(self).taken() as int] == SpecEvent::ListBegin(v.0, v.1 as nat) && final(self).taken() == old(self).taken()
                + 1,
            r is Err ==> final(self).taken() == old(self).taken(),
            old(self).taken() < old(self).events().len() && old(self).events()[old(self).taken() as int] is ListBegin ==> r is Ok,
    ;

    fn read_list_end(&mut self) -> (r: Result<(), Error>)
        requires
            old(self).inv(),
        ensures
            final(self).inv(),
            final(self).events() == old(self).events(),
            r is Ok ==> old(self).taken() < old(self).events().len() && old(self).events()[old(self).taken() as int] == SpecEvent::ListEnd && final(self).taken() == old(self).taken()
                + 1,
            r is Err ==> final(self).taken() == old(self).taken(),
            old(self).taken() < old(self).events().len() && old(self).events()[old(self).taken() as int] is ListEnd ==> r is Ok,
    ;

    fn read_set_begin(&mut self) -> (r: Result<(WireType, usize), Error>)
        requires
            old(self).inv(),
        ensures
            final(self).inv(),
            final(self).events() == old(self).events(),
            r matches Ok(v) ==> old(self).taken() < old(self).events().len() && old(self).events()[old(self).taken() as int] == SpecEvent::SetBegin(v.0, v.1 as nat) && final(self).taken() == old(self).taken()
                + 1,
            r is Err ==> final(self).taken() == old(self).taken(),
            old(self).taken() < old(self).events().len() && old(self).events()[old(self).taken() as int] is SetBegin ==> r is Ok,
    ;

    fn read_set_end(&mut self) -> (r: Result<(), Error>)
        requires
            old(self).inv(),
        ensures
            final(self).inv(),
            final(self).events() == old(self).events(),
            r is Ok ==> old(self).taken() < old(self).events().len() && old(self).events()[old(self).taken() as int] == SpecEvent::SetEnd && final(self).taken() == old(self).taken() + 1,
            r is Err ==> final(self).taken() == old(self).taken(),
            old(self).taken() < old(self).events().len() && old(self).events()[old(self).taken() as int] is SetEnd ==> r is Ok,
    ;

    fn read_bool(&mut self) -> (r: Result<bool, Error>)
        requires
            old(self).inv(),
        ensures
            final(self).inv(),
            final(self).events() == old(self).events(),
            r matches Ok(v) ==> old(self).taken() < old(self).events().len() && old(self).events()[old(self).taken() as int] == SpecEvent::PBool(v) && final(self).taken() == old(self).taken() + 1,
            r is Err ==> final(self).taken() == old(self).taken(),
            old(self).taken() < old(self).events().len() && old(self).events()[old(self).taken() as int] is PBool ==> r is Ok,
    ;

    fn read_byte(&mut self) -> (r: Result<i8, Error>)
        requires
            old(self).inv(),
        ensures
            final(self).inv(),
            final(self).events() == old(self).events(),
            r matches Ok(v) ==> old(self).taken() < old(self).events().len() && old(self).events()[old(self).taken() as int] == SpecEvent::PByte(v) && final(self).taken() == old(self).taken() + 1,
            r is Err ==> final(self).taken() == old(self).taken(),
            old(self).taken() < old(self).events().len() && old(self).events()[old(self).taken() as int] is PByte ==> r is Ok,
    ;

    fn read_i16(&mut self) -> (r: Result<i16, Error>)
        requires
            old(self).inv(),
        ensures
            final(self).inv(),
            final(self).events() == old(self).events(),
            r matches Ok(v) ==> old(self).taken() < old(self).events().len() && old(self).events()[old(self).taken() as int] == SpecEvent::PI16(v) && final(self).taken() == old(self).taken() + 1,
            r is Err ==> final(self).taken() == old(self).taken(),
            old(self).taken() < old(self).events().len() && old(self).events()[old(self).taken() as int] is PI16 ==> r is Ok,
    ;

    fn read_i32(&mut self) -> (r: Result<i32, Error>)
        requires
            old(self).inv(),
        ensures
            final(self).inv(),
            final(self).events() == old(self).events(),
            r matches Ok(v) ==> old(self).taken() < old(self).events().len() && old(self).events()[old(self).taken() as int] == SpecEvent::PI32(v) && final(self).taken() == old(self).taken() + 1,
            r is Err ==> final(self).taken() == old(self).taken(),
            old(self).taken() < old(self).events().len() && old(self).events()[old(self).taken() as int] is PI32 ==> r is Ok,
    ;

    fn read_i64(&mut self) -> (r: Result<i64, Error>)
        requires
            old(self).inv(),
        ensures
            final(self).inv(),
            final(self).events() == old(self).events(),
            r matches Ok(v) ==> old(self).taken() < old(self).events().len() && old(self).events()[old(self).taken() as int] == SpecEvent::PI64(v) && final(self).taken() == old(self).taken() + 1,
            r is Err ==> final(self).taken() == old(self).taken(),
            old(self).taken() < old(self).events().len() && old(self).events()[old(self).taken() as int] is PI64 ==> r is Ok,
    ;

    fn read_string(&mut self) -> (r: Result<String, Error>)
        requires
            old(self).inv(),
        ensures
            final(self).inv(),
            final(self).events() == old(self).events(),
            r matches Ok(v) ==> old(self).taken() < old(self).events().len() && old(self).events()[old(self).taken() as int] == SpecEvent::PStr(v@) && final(self).taken() == old(self).taken() + 1,
            r is Err ==> final(self).taken() == old(self).taken(),
            old(self).taken() < old(self).events().len() && old(self).events()[old(self).taken() as int] is PStr ==> r is Ok,
    ;

    fn read_binary(&mut self) -> (r: Result<Vec<u8>, Error>)
        requires
            old(self).inv(),
        ensures
            final(self).inv(),
            final(self).events() == old(self).events(),
            r matches Ok(v) ==> old(self).taken() < old(self).events().len() && old(self).events()[old(self).taken() as int] == SpecEvent::PBlob(v@) && final(self).taken() == old(self).taken() + 1,
            r is Err ==> final(self).taken() == old(self).taken(),
            old(self).taken() < old(self).events().len() && old(self).events()[old(self).taken() as int] is PBlob ==> r is Ok,
    ;
}

/// A protocol that records every written event in an operation log and
/// replays the log to reads, front to back. Used to test codecs without a
/// byte transport.
#[derive(Debug, Clone)]
pub struct MockProtocol {
    log: Vec<ProtocolAction>,
    pos: usize,
}

impl MockProtocol {
    /// A mock protocol with an empty log.
    pub fn new() -> (r: Self)
        ensures
            r.inv(),
            r.events() == Seq::<SpecEvent>::empty(),
            r.taken() == 0,
            r.log_view() == Seq::<ProtocolAction>::empty(),
    {
        let r = MockProtocol { log: Vec::new(), pos: 0 };
        proof {
            assert(events_of(r.log@) =~= Seq::<SpecEvent>::empty());
        }
        r
    }

    /// The recorded operations.
    pub closed spec fn log_view(&self) -> Seq<ProtocolAction> {
        self.log@
    }

    /// The recorded operation log.
    pub fn log(&self) -> (r: &Vec<ProtocolAction>)
        ensures
            r@ == self.log_view(),
    {
        &self.log
    }

    /// The recorded log is exactly the stream this protocol models: one
    /// event per recorded operation, each the operation's own model.
    pub proof fn lemma_log_models_events(&self)
        ensures
            self.events() == events_of(self.log_view()),
            self.events().len() == self.log_view().len(),
            forall|i: int|
                0 <= i < self.log_view().len() ==> self.events()[i] == act_view(
                    #[trigger] self.log_view()[i],
                ),
    {
    }

    fn log_action(&mut self, action: ProtocolAction) -> (r: Result<(), Error>)
        requires
            old(self).inv(),
        ensures
            final(self).inv(),
            final(self).taken() == old(self).taken(),
            r is Ok,
            final(self).events() == old(self).events().push(act_view(action)),
    {
        proof {
            lemma_events_of_push(self.log@, action);
        }
        self.log.push(action);
        Ok(())
    }
}

impl Default for MockProtocol {
    /// Same as `new`: an empty log with the read cursor at its start.
    fn default() -> (r: Self)
        ensures
            r.inv(),
            r.events() == Seq::<SpecEvent>::empty(),
            r.taken() == 0,
    {
        MockProtocol::new()
    }
}

impl Protocol for MockProtocol {
    closed spec fn events(&self) -> Seq<SpecEvent> {
        events_of(self.log@)
    }

    closed spec fn taken(&self) -> nat {
        self.pos as nat
    }

    closed spec fn inv(&self) -> bool {
        self.pos <= self.log.len()
    }

    proof fn inv_bound(&self) {
    }

    fn write_message_begin(&mut self, name: &str, message_type: MessageType, sequence_id: i32) -> (r:
        Result<(), Error>) {
        self.log_action(
            ProtocolAction::Write(
                SerAction::Message(Action::Begin((name.to_owned(), message_type, sequence_id))),
            ),
        )
    }

    fn write_message_end(&mut self) -> (r: Result<(), Error>) {
        self.log_action(ProtocolAction::Write(SerAction::Message(Action::End)))
    }

    fn write_struct_begin(&mut self, name: &str) -> (r: Result<(), Error>) {
        self.log_action(ProtocolAction::Write(SerAction::Struct(Action::Begin(name.to_owned()))))
    }

    fn write_struct_end(&mut self) -> (r: Result<(), Error>) {
        self.log_action(ProtocolAction::Write(SerAction::Struct(Action::End)))
    }

    fn write_field_begin(&mut self, name: &str, field_type: WireType, field_id: i16) -> (r: Result<
        (),
        Error,
    >) {
        self.log_action(
            ProtocolAction::Write(
                SerAction::Field(Action::Begin((name.to_owned(), field_type, field_id))),
            ),
        )
    }

    fn write_field_end(&mut self) -> (r: Result<(), Error>) {
        self.log_action(ProtocolAction::Write(SerAction::Field(Action::End)))
    }

    fn write_field_stop(&mut self) -> (r: Result<(), Error>) {
        self.log_action(ProtocolAction::Write(SerAction::Field(Action::Stop)))
    }

    fn write_map_begin(&mut self, key_type: WireType, value_type: WireType, size: usize) -> (r:
        Result<(), Error>) {
        self.log_action(
            ProtocolAction::Write(SerAction::MapCol(Action::Begin((key_type, value_type, size)))),
        )
    }

    fn write_map_end(&mut self) -> (r: Result<(), Error>) {
        self.log_action(ProtocolAction::Write(SerAction::MapCol(Action::End)))
    }

    fn write_list_begin(&mut self, elem_type: WireType, size: usize) -> (r: Result<(), Error>) {
        self.log_action(ProtocolAction::Write(SerAction::List(Action::Begin((elem_type, size)))))
    }

    fn write_list_end(&mut self) -> (r: Result<(), Error>) {
        self.log_action(ProtocolAction::Write(SerAction::List(Action::End)))
    }

    fn write_set_begin(&mut self, elem_type: WireType, size: usize) -> (r: Result<(), Error>) {
        self.log_action(ProtocolAction::Write(SerAction::SetCol(Action::Begin((elem_type, size)))))
    }

    fn write_set_end(&mut self) -> (r: Result<(), Error>) {
        self.log_action(ProtocolAction::Write(SerAction::SetCol(Action::End)))
    }

    fn write_bool(&mut self, value: bool) -> (r: Result<(), Error>) {
        self.log_action(ProtocolAction::Write(SerAction::Primitive(Primitive::Bool(value))))
    }

    fn write_byte(&mut self, value: i8) -> (r: Result<(), Error>) {
        self.log_action(ProtocolAction::Write(SerAction::Primitive(Primitive::Byte(value))))
    }

    fn write_i16(&mut self, value: i16) -> (r: Result<(), Error>) {
        self.log_action(ProtocolAction::Write(SerAction::Primitive(Primitive::I16(value))))
    }

    fn write_i32(&mut self, value: i32) -> (r: Result<(), Error>) {
        self.log_action(ProtocolAction::Write(SerAction::Primitive(Primitive::I32(value))))
    }

    fn write_i64(&mut self, value: i64) -> (r: Result<(), Error>) {
        self.log_action(ProtocolAction::Write(SerAction::Primitive(Primitive::I64(value))))
    }

    fn write_string(&mut self, value: &String) -> (r: Result<(), Error>) {
        self.log_action(
            ProtocolAction::Write(SerAction::Primitive(Primitive::PString(value.clone()))),
        )
    }

    fn write_binary(&mut self, value: &Vec<u8>) -> (r: Result<(), Error>) {
        self.log_action(
            ProtocolAction::Write(SerAction::Primitive(Primitive::Binary(value.clone()))),
        )
    }

    fn read_message_begin(&mut self) -> (r: Result<(String, MessageType, i32), Error>) {
        if self.pos < self.log.len() {
            match &self.log[self.pos] {
                ProtocolAction::Write(SerAction::Message(Action::Begin((n, t, i)))) => {
                    self.pos = self.pos + 1;
                    Ok((n.clone(), *t, *i))
                },
                _ => Err(Error::ProtocolViolation),
            }
        } else {
            Err(Error::ProtocolViolation)
        }
    }

    fn read_message_end(&mut self) -> (r: Result<(), Error>) {
        if self.pos < self.log.len() {
            match &self.log[self.pos] {
                ProtocolAction::Write(SerAction::Message(Action::End)) => {
                    self.pos = self.pos + 1;
                    Ok(())
                },
                _ => Err(Error::ProtocolViolation),
            }
        } else {
            Err(Error::ProtocolViolation)
        }
    }

    fn read_struct_begin(&mut self) -> (r: Result<String, Error>) {
        if self.pos < self.log.len() {
            match &self.log[self.pos] {
                ProtocolAction::Write(SerAction::Struct(Action::Begin(n))) => {
                    self.pos = self.pos + 1;
                    Ok(n.clone())
                },
                _ => Err(Error::ProtocolViolation),
            }
        } else {
            Err(Error::ProtocolViolation)
        }
    }

    fn read_struct_end(&mut self) -> (r: Result<(), Error>) {
        if self.pos < self.log.len() {
            match &self.log[self.pos] {
                ProtocolAction::Write(SerAction::Struct(Action::End)) => {
                    self.pos = self.pos + 1;
                    Ok(())
                },
                _ => Err(Error::ProtocolViolation),
            }
        } else {
            Err(Error::ProtocolViolation)
        }
    }

    fn read_field_begin(&mut self) -> (r: Result<(String, WireType, i16), Error>) {
        if self.pos < self.log.len() {
            match &self.log[self.pos] {
                ProtocolAction::Write(SerAction::Field(Action::Begin((n, t, i)))) => {
                    self.pos = self.pos + 1;
                    Ok((n.clone(), *t, *i))
                },
                ProtocolAction::Write(SerAction::Field(Action::Stop)) => {
                    self.pos = self.pos + 1;
                    Ok((String::new(), WireType::TStop, 0))
                },
                _ => Err(Error::ProtocolViolation),
            }
        } else {
            Err(Error::ProtocolViolation)
        }
    }

    fn read_field_end(&mut self) -> (r: Result<(), Error>) {
        if self.pos < self.log.len() {
            match &self.log[self.pos] {
                ProtocolAction::Write(SerAction::Field(Action::End)) => {
                    self.pos = self.pos + 1;
                    Ok(())
                },
                _ => Err(Error::ProtocolViolation),
            }
        } else {
            Err(Error::ProtocolViolation)
        }
    }

    fn read_map_begin(&mut self) -> (r: Result<(WireType, WireType, usize), Error>) {
        if self.pos < self.log.len() {
            match &self.log[self.pos] {
                ProtocolAction::Write(SerAction::MapCol(Action::Begin((kt, vt, n)))) => {
                    self.pos = self.pos + 1;
                    Ok((*kt, *vt, *n))
                },
                _ => Err(Error::ProtocolViolation),
            }
        } else {
            Err(Error::ProtocolViolation)
        }
    }

    fn read_map_end(&mut self) -> (r: Result<(), Error>) {
        if self.pos < self.log.len() {
            match &self.log[self.pos] {
                ProtocolAction::Write(SerAction::MapCol(Action::End)) => {
                    self.pos = self.pos + 1;
                    Ok(())
                },
                _ => Err(Error::ProtocolViolation),
            }
        } else {
            Err(Error::ProtocolViolation)
        }
    }

    fn read_list_begin(&mut self) -> (r: Result<(WireType, usize), Error>) {
        if self.pos < self.log.len() {
            match &self.log[self.pos] {
                ProtocolAction::Write(SerAction::List(Action::Begin((t, n)))) => {
                    self.pos = self.pos + 1;
                    Ok((*t, *n))
                },
                _ => Err(Error::ProtocolViolation),
            }
        } else {
            Err(Error::ProtocolViolation)
        }
    }

    fn read_list_end(&mut self) -> (r: Result<(), Error>) {
        if self.pos < self.log.len() {
            match &self.log[self.pos] {
                ProtocolAction::Write(SerAction::List(Action::End)) => {
                    self.pos = self.pos + 1;
                    Ok(())
                },
                _ => Err(Error::ProtocolViolation),
            }
        } else {
            Err(Error::ProtocolViolation)
        }
    }

    fn read_set_begin(&mut self) -> (r: Result<(WireType, usize), Error>) {
        if self.pos < self.log.len() {
            match &self.log[self.pos] {
                ProtocolAction::Write(SerAction::SetCol(Action::Begin((t, n)))) => {
                    self.pos = self.pos + 1;
                    Ok((*t, *n))
                },
                _ => Err(Error::ProtocolViolation),
            }
        } else {
            Err(Error::ProtocolViolation)
        }
    }

    fn read_set_end(&mut self) -> (r: Result<(), Error>) {
        if self.pos < self.log.len() {
            match &self.log[self.pos] {
                ProtocolAction::Write(SerAction::SetCol(Action::End)) => {
                    self.pos = self.pos + 1;
                    Ok(())
                },
                _ => Err(Error::ProtocolViolation),
            }
        } else {
            Err(Error::ProtocolViolation)
        }
    }

    fn read_bool(&mut self) -> (r: Result<bool, Error>) {
        if self.pos < self.log.len() {
            match &self.log[self.pos] {
                ProtocolAction::Write(SerAction::Primitive(Primitive::Bool(v))) => {
                    self.pos = self.pos + 1;
                    Ok(*v)
                },
                _ => Err(Error::ProtocolViolation),
            }
        } else {
            Err(Error::ProtocolViolation)
        }
    }

    fn read_byte(&mut self) -> (r: Result<i8, Error>) {
        if self.pos < self.log.len() {
            match &self.log[self.pos] {
                ProtocolAction::Write(SerAction::Primitive(Primitive::Byte(v))) => {
                    self.pos = self.pos + 1;
                    Ok(*v)
                },
                _ => Err(Error::ProtocolViolation),
            }
        } else {
            Err(Error::ProtocolViolation)
        }
    }

    fn read_i16(&mut self) -> (r: Result<i16, Error>) {
        if self.pos < self.log.len() {
            match &self.log[self.pos] {
                ProtocolAction::Write(SerAction::Primitive(Primitive::I16(v))) => {
                    self.pos = self.pos + 1;
                    Ok(*v)
                },
                _ => Err(Error::ProtocolViolation),
            }
        } else {
            Err(Error::ProtocolViolation)
        }
    }

    fn read_i32(&mut self) -> (r: Result<i32, Error>) {
        if self.pos < self.log.len() {
            match &self.log[self.pos] {
                ProtocolAction::Write(SerAction::Primitive(Primitive::I32(v))) => {
                    self.pos = self.pos + 1;
                    Ok(*v)
                },
                _ => Err(Error::ProtocolViolation),
            }
        } else {
            Err(Error::ProtocolViolation)
        }
    }

    fn read_i64(&mut self) -> (r: Result<i64, Error>) {
        if self.pos < self.log.len() {
            match &self.log[self.pos] {
                ProtocolAction::Write(SerAction::Primitive(Primitive::I64(v))) => {
                    self.pos = self.pos + 1;
                    Ok(*v)
                },
                _ => Err(Error::ProtocolViolation),
            }
        } else {
            Err(Error::ProtocolViolation)
        }
    }

    fn read_string(&mut self) -> (r: Result<String, Error>) {
        if self.pos < self.log.len() {
            match &self.log[self.pos] {
                ProtocolAction::Write(SerAction::Primitive(Primitive::PString(s))) => {
                    self.pos = self.pos + 1;
                    Ok(s.clone())
                },
                _ => Err(Error::ProtocolViolation),
            }
        } else {
            Err(Error::ProtocolViolation)
        }
    }

    fn read_binary(&mut self) -> (r: Result<Vec<u8>, Error>) {
        if self.pos < self.log.len() {
            match &self.log[self.pos] {
                ProtocolAction::Write(SerAction::Primitive(Primitive::Binary(bs))) => {
                    self.pos = self.pos + 1;
                    Ok(bs.clone())
                },
                _ => Err(Error::ProtocolViolation),
            }
        } else {
            Err(Error::ProtocolViolation)
        }
    }
}

} // verus!
