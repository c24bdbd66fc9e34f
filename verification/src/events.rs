//! Wire-level events. A protocol realizes each event in its own byte layout;
//! the codec is specified against the event stream alone.

use vstd::prelude::*;
use crate::schema::{WireType, MessageType};

verus! {

/// Mathematical model of one wire-level event.
pub enum SpecEvent {
    MsgBegin(Seq<char>, MessageType, i32),
    MsgEnd,
    StructBegin(Seq<char>),
    StructEnd,
    FieldBegin(Seq<char>, WireType, i16),
    FieldEnd,
    FieldStop,
    MapBegin(WireType, WireType, nat),
    MapEnd,
    ListBegin(WireType, nat),
    ListEnd,
    SetBegin(WireType, nat),
    SetEnd,
    PBool(bool),
    PByte(i8),
    PI16(i16),
    PI32(i32),
    PI64(i64),
    PStr(Seq<char>),
    PBlob(Seq<u8>),
    Invalid,
}

/// Phase of a structural marker.
#[derive(Debug, PartialEq, Clone)]
pub enum Action<B> {
    Begin(B),
    End,
    Stop,
}

/// One primitive value on the wire.
#[derive(Debug, PartialEq, Clone)]
pub enum Primitive {
    Bool(bool),
    Byte(i8),
    I16(i16),
    I32(i32),
    I64(i64),
    PString(String),
    Binary(Vec<u8>),
}

/// One serialization operation.
#[derive(Debug, PartialEq, Clone)]
pub enum SerAction {
    Message(Action<(String, MessageType, i32)>),
    Struct(Action<String>),
    Field(Action<(String, WireType, i16)>),
    MapCol(Action<(WireType, WireType, usize)>),
    List(Action<(WireType, usize)>),
    SetCol(Action<(WireType, usize)>),
    Primitive(Primitive),
}

/// One operation a protocol performed.
#[derive(Debug, PartialEq, Clone)]
pub enum ProtocolAction {
    Read(SerAction),
    Write(SerAction),
    Skip,
}

/// The model of a serialization operation. Marker phases that carry no
/// meaning on the wire (a stop outside field position) model as `Invalid`,
/// which no reader accepts.
pub open spec fn ser_view(a: SerAction) -> SpecEvent {
    match a {
        SerAction::Message(Action::Begin((n, t, i))) => SpecEvent::MsgBegin(n@, t, i),
        SerAction::Message(Action::End) => SpecEvent::MsgEnd,
        SerAction::Struct(Action::Begin(n)) => SpecEvent::StructBegin(n@),
        SerAction::Struct(Action::End) => SpecEvent::StructEnd,
        SerAction::Field(Action::Begin((n, t, i))) => SpecEvent::FieldBegin(n@, t, i),
        SerAction::Field(Action::End) => SpecEvent::FieldEnd,
        SerAction::Field(Action::Stop) => SpecEvent::FieldStop,
        SerAction::MapCol(Action::Begin((kt, vt, n))) => SpecEvent::MapBegin(kt, vt, n as nat),
        SerAction::MapCol(Action::End) => SpecEvent::MapEnd,
        SerAction::List(Action::Begin((t, n))) => SpecEvent::ListBegin(t, n as nat),
        SerAction::List(Action::End) => SpecEvent::ListEnd,
        SerAction::SetCol(Action::Begin((t, n))) => SpecEvent::SetBegin(t, n as nat),
        SerAction::SetCol(Action::End) => SpecEvent::SetEnd,
        SerAction::Primitive(Primitive::Bool(b)) => SpecEvent::PBool(b),
        SerAction::Primitive(Primitive::Byte(b)) => SpecEvent::PByte(b),
        SerAction::Primitive(Primitive::I16(x)) => SpecEvent::PI16(x),
        SerAction::Primitive(Primitive::I32(x)) => SpecEvent::PI32(x),
        SerAction::Primitive(Primitive::I64(x)) => SpecEvent::PI64(x),
        SerAction::Primitive(Primitive::PString(s)) => SpecEvent::PStr(s@),
        SerAction::Primitive(Primitive::Binary(bs)) => SpecEvent::PBlob(bs@),
        _ => SpecEvent::Invalid,
    }
}

/// The model of a protocol operation: only written events reach the wire.
pub open spec fn act_view(a: ProtocolAction) -> SpecEvent {
    match a {
        ProtocolAction::Write(s) => ser_view(s),
        _ => SpecEvent::Invalid,
    }
}

impl View for SerAction {
    type V = SpecEvent;

    open spec fn view(&self) -> SpecEvent {
        ser_view(*self)
    }
}

impl View for ProtocolAction {
    type V = SpecEvent;

    open spec fn view(&self) -> SpecEvent {
        act_view(*self)
    }
}

} // verus!
