//! Runtime description of record shapes: wire tags, value kinds, field and
//! record schemas, and their well-formedness.

use vstd::prelude::*;

verus! {

/// Tag identifying a value's wire-level shape.
#[derive(Clone, Copy, PartialEq, Eq, Structural, Debug)]
pub enum WireType {
    TBool,
    TByte,
    TI16,
    TI32,
    TI64,
    TDouble,
    TString,
    TBinary,
    TList,
    TSet,
    TMap,
    TStruct,
    TStop,
}

/// Kind of a message envelope.
#[derive(Clone, Copy, PartialEq, Eq, Structural, Debug)]
pub enum MessageType {
    Call,
    Reply,
    Exception,
    OneWay,
}

/// Recursive type descriptor for a field's value. Record kinds refer to
/// a schema table by index, so self-referential record types stay finite data.
#[derive(Debug)]
pub enum Kind {
    Bool,
    Byte,
    I16,
    I32,
    I64,
    Text,
    Blob,
    List(Box<Kind>),
    SetOf(Box<Kind>),
    MapOf(Box<Kind>, Box<Kind>),
    Rec(usize),
}

/// Declares one field of a record: its advisory name, its id (unique within
/// the record), whether it may be absent, and the kind of its value.
#[derive(Debug)]
pub struct FieldSchema {
    pub name: String,
    pub id: i16,
    pub optional: bool,
    pub kind: Kind,
}

/// The shape of one record type: its name and its fields in declaration order.
#[derive(Debug)]
pub struct RecordSchema {
    pub name: String,
    pub fields: Vec<FieldSchema>,
}

/// All record types of one interface definition; `Kind::Rec` indexes into it.
pub type SchemaTable = Vec<RecordSchema>;

/// The wire tag every value of a kind carries.
pub open spec fn wire_type_of(k: Kind) -> WireType {
    match k {
        Kind::Bool => WireType::TBool,
        Kind::Byte => WireType::TByte,
        Kind::I16 => WireType::TI16,
        Kind::I32 => WireType::TI32,
        Kind::I64 => WireType::TI64,
        Kind::Text => WireType::TString,
        Kind::Blob => WireType::TBinary,
        Kind::List(_) => WireType::TList,
        Kind::SetOf(_) => WireType::TSet,
        Kind::MapOf(_, _) => WireType::TMap,
        Kind::Rec(_) => WireType::TStruct,
    }
}

impl Kind {
    /// The wire tag for this kind.
    pub fn wire_type(&self) -> (r: WireType)
        ensures
            r == wire_type_of(*self),
    {
        match self {
            Kind::Bool => WireType::TBool,
            Kind::Byte => WireType::TByte,
            Kind::I16 => WireType::TI16,
            Kind::I32 => WireType::TI32,
            Kind::I64 => WireType::TI64,
            Kind::Text => WireType::TString,
            Kind::Blob => WireType::TBinary,
            Kind::List(_) => WireType::TList,
            Kind::SetOf(_) => WireType::TSet,
            Kind::MapOf(_, _) => WireType::TMap,
            Kind::Rec(_) => WireType::TStruct,
        }
    }
}

/// No two fields of one record share an id.
pub open spec fn ids_unique(s: Seq<FieldSchema>) -> bool {
    forall|i: int, j: int| 0 <= i < j < s.len() ==> s[i].id != s[j].id
}

/// Every record reference inside a kind stays within a table of `n` records.
pub open spec fn kind_wf(k: Kind, n: nat) -> bool
    decreases k,
{
    match k {
        Kind::List(e) => kind_wf(*e, n),
        Kind::SetOf(e) => kind_wf(*e, n),
        Kind::MapOf(kk, kv) => kind_wf(*kk, n) && kind_wf(*kv, n),
        Kind::Rec(i) => i < n,
        _ => true,
    }
}

/// A record schema is well-formed for a table of `n` records.
pub open spec fn schema_wf(rs: RecordSchema, n: nat) -> bool {
    &&& ids_unique(rs.fields@)
    &&& forall|j: int| 0 <= j < rs.fields@.len() ==> kind_wf(#[trigger] rs.fields@[j].kind, n)
}

/// Every schema of the table is well-formed for the table itself.
pub open spec fn table_wf(tbl: Seq<RecordSchema>) -> bool {
    forall|i: int| 0 <= i < tbl.len() ==> schema_wf(#[trigger] tbl[i], tbl.len())
}


impl Kind {
    /// Runtime check that every record reference stays within a table of
    /// `n` records.
    pub fn conforms(&self, n: usize) -> (r: bool)
        ensures
            r == kind_wf(*self, n as nat),
        decreases self,
    {
        match self {
            Kind::List(e) => e.conforms(n),
            Kind::SetOf(e) => e.conforms(n),
            Kind::MapOf(kk, kv) => kk.conforms(n) && kv.conforms(n),
            Kind::Rec(i) => *i < n,
            _ => true,
        }
    }
}

/// Runtime check that no two fields share an id.
fn fields_ids_unique(fields: &Vec<FieldSchema>) -> (r: bool)
    ensures
        r == ids_unique(fields@),
{
    let mut i: usize = 0;
    while i < fields.len()
        invariant
            i <= fields@.len(),
            forall|a: int, b: int|
                0 <= a < b < fields@.len() && a < i ==> (#[trigger] fields@[a].id) != (
                #[trigger] fields@[b].id),
        decreases fields@.len() - i,
    {
        let mut b: usize = i + 1;
        while b < fields.len()
            invariant
                i < fields@.len(),
                i < b <= fields@.len(),
                forall|t: int| i < t < b ==> fields@[i as int].id != (#[trigger] fields@[t].id),
            decreases fields@.len() - b,
        {
            if fields[i].id == fields[b].id {
                return false;
            }
            b = b + 1;
        }
        i = i + 1;
    }
    true
}

/// Runtime check of one record schema against a table of `n` records.
pub fn schema_conforms(rs: &RecordSchema, n: usize) -> (r: bool)
    ensures
        r == schema_wf(*rs, n as nat),
{
    if !fields_ids_unique(&rs.fields) {
        return false;
    }
    let mut j: usize = 0;
    while j < rs.fields.len()
        invariant
            j <= rs.fields@.len(),
            ids_unique(rs.fields@),
            forall|t: int| 0 <= t < j ==> kind_wf((#[trigger] rs.fields@[t]).kind, n as nat),
        decreases rs.fields@.len() - j,
    {
        if !rs.fields[j].kind.conforms(n) {
            return false;
        }
        j = j + 1;
    }
    true
}

/// Runtime check that a whole table is well-formed.
pub fn table_conforms(tbl: &SchemaTable) -> (r: bool)
    ensures
        r == table_wf(tbl@),
{
    let n = tbl.len();
    let mut i: usize = 0;
    while i < tbl.len()
        invariant
            n == tbl@.len(),
            i <= tbl@.len(),
            forall|t: int| 0 <= t < i ==> schema_wf(#[trigger] tbl@[t], tbl@.len()),
        decreases tbl@.len() - i,
    {
        if !schema_conforms(&tbl[i], n) {
            return false;
        }
        i = i + 1;
    }
    true
}

} // verus!
