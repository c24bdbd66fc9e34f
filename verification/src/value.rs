//! Values carried by records, their mathematical model, and the predicate
//! tying a value to the kind a schema declares for it.

use vstd::prelude::*;
use crate::schema::{Kind, RecordSchema, FieldSchema, SchemaTable};

verus! {

/// Mathematical model of one value: strings and buffers as sequences,
/// containers as sequences of models.
pub enum SpecValue {
    Bool(bool),
    Byte(i8),
    I16(i16),
    I32(i32),
    I64(i64),
    Text(Seq<char>),
    Blob(Seq<u8>),
    List(Seq<SpecValue>),
    SetOf(Seq<SpecValue>),
    MapOf(Seq<(SpecValue, SpecValue)>),
    Rec(Seq<Option<SpecValue>>),
}

/// One dynamically typed value, shaped by a `Kind`.
#[derive(Debug, PartialEq)]
pub enum Value {
    Bool(bool),
    Byte(i8),
    I16(i16),
    I32(i32),
    I64(i64),
    Text(String),
    Blob(Vec<u8>),
    List(Vec<Value>),
    SetOf(Vec<Value>),
    MapOf(Vec<(Value, Value)>),
    Rec(Record),
}

/// One record instance: for each declared field, in schema order, its value
/// or its absence (absence is legal only for optional fields).
#[derive(Debug, PartialEq)]
pub struct Record {
    pub fields: Vec<Option<Value>>,
}

/// The model of a value.
pub open spec fn val_view(v: Value) -> SpecValue
    decreases v, 1int,
{
    match v {
        Value::Bool(b) => SpecValue::Bool(b),
        Value::Byte(b) => SpecValue::Byte(b),
        Value::I16(x) => SpecValue::I16(x),
        Value::I32(x) => SpecValue::I32(x),
        Value::I64(x) => SpecValue::I64(x),
        Value::Text(s) => SpecValue::Text(s@),
        Value::Blob(bs) => SpecValue::Blob(bs@),
        Value::List(vs) => SpecValue::List(vals_view(vs@)),
        Value::SetOf(vs) => SpecValue::SetOf(vals_view(vs@)),
        Value::MapOf(ps) => SpecValue::MapOf(pairs_view(ps@)),
        Value::Rec(r) => SpecValue::Rec(fields_view(r.fields@)),
    }
}

/// The models of a container's elements from index `i` on.
pub open spec fn vals_view_from(vs: Seq<Value>, i: int) -> Seq<SpecValue>
    decreases vs, vs.len() - i,
{
    if 0 <= i < vs.len() {
        seq![val_view(vs[i])] + vals_view_from(vs, i + 1)
    } else {
        Seq::empty()
    }
}

/// The models of a container's elements.
pub open spec fn vals_view(vs: Seq<Value>) -> Seq<SpecValue>
    decreases vs, vs.len() + 1,
{
    vals_view_from(vs, 0)
}

/// The models of a map's entries from index `i` on.
pub open spec fn pairs_view_from(ps: Seq<(Value, Value)>, i: int) -> Seq<(SpecValue, SpecValue)>
    decreases ps, ps.len() - i,
{
    if 0 <= i < ps.len() {
        seq![(val_view(ps[i].0), val_view(ps[i].1))] + pairs_view_from(ps, i + 1)
    } else {
        Seq::empty()
    }
}

/// The models of a map's entries.
pub open spec fn pairs_view(ps: Seq<(Value, Value)>) -> Seq<(SpecValue, SpecValue)>
    decreases ps, ps.len() + 1,
{
    pairs_view_from(ps, 0)
}

/// The model of one field slot.
pub open spec fn opt_view(o: Option<Value>) -> Option<SpecValue>
    decreases o, 2int,
{
    match o {
        Option::None => Option::None,
        Option::Some(v) => Option::Some(val_view(v)),
    }
}

/// The models of a record's field slots from index `i` on.
pub open spec fn fields_view_from(fs: Seq<Option<Value>>, i: int) -> Seq<Option<SpecValue>>
    decreases fs, fs.len() - i,
{
    if 0 <= i < fs.len() {
        seq![opt_view(fs[i])] + fields_view_from(fs, i + 1)
    } else {
        Seq::empty()
    }
}

/// The models of a record's field slots.
pub open spec fn fields_view(fs: Seq<Option<Value>>) -> Seq<Option<SpecValue>>
    decreases fs, fs.len() + 1,
{
    fields_view_from(fs, 0)
}

/// Pointwise reading of `vals_view_from`.
pub proof fn lemma_vals_view_from(vs: Seq<Value>, i: int)
    requires
        0 <= i <= vs.len(),
    ensures
        vals_view_from(vs, i).len() == vs.len() - i,
        forall|j: int| i <= j < vs.len() ==> vals_view_from(vs, i)[j - i] == val_view(vs[j]),
    decreases vs.len() - i,
{
    if i < vs.len() {
        lemma_vals_view_from(vs, i + 1);
    }
}

/// Pointwise reading of `vals_view`.
pub proof fn lemma_vals_view(vs: Seq<Value>)
    ensures
        vals_view(vs).len() == vs.len(),
        forall|j: int| 0 <= j < vs.len() ==> vals_view(vs)[j] == val_view(vs[j]),
{
    lemma_vals_view_from(vs, 0);
}

/// A pushed element's model is pushed onto the container's model.
pub proof fn lemma_vals_view_push(vs: Seq<Value>, x: Value)
    ensures
        vals_view(vs.push(x)) == vals_view(vs).push(val_view(x)),
{
    lemma_vals_view(vs);
    lemma_vals_view(vs.push(x));
    assert(vals_view(vs.push(x)) =~= vals_view(vs).push(val_view(x)));
}

/// Pointwise reading of `pairs_view_from`.
pub proof fn lemma_pairs_view_from(ps: Seq<(Value, Value)>, i: int)
    requires
        0 <= i <= ps.len(),
    ensures
        pairs_view_from(ps, i).len() == ps.len() - i,
        forall|j: int|
            i <= j < ps.len() ==> pairs_view_from(ps, i)[j - i] == (
            val_view(ps[j].0),
            val_view(ps[j].1),
            ),
    decreases ps.len() - i,
{
    if i < ps.len() {
        lemma_pairs_view_from(ps, i + 1);
    }
}

/// Pointwise reading of `pairs_view`.
pub proof fn lemma_pairs_view(ps: Seq<(Value, Value)>)
    ensures
        pairs_view(ps).len() == ps.len(),
        forall|j: int|
            0 <= j < ps.len() ==> pairs_view(ps)[j] == (val_view(ps[j].0), val_view(ps[j].1)),
{
    lemma_pairs_view_from(ps, 0);
}

/// A pushed entry's model is pushed onto the map's model.
pub proof fn lemma_pairs_view_push(ps: Seq<(Value, Value)>, x: (Value, Value))
    ensures
        pairs_view(ps.push(x)) == pairs_view(ps).push((val_view(x.0), val_view(x.1))),
{
    lemma_pairs_view(ps);
    lemma_pairs_view(ps.push(x));
    assert(pairs_view(ps.push(x)) =~= pairs_view(ps).push((val_view(x.0), val_view(x.1))));
}

/// Pointwise reading of `fields_view_from`.
pub proof fn lemma_fields_view_from(fs: Seq<Option<Value>>, i: int)
    requires
        0 <= i <= fs.len(),
    ensures
        fields_view_from(fs, i).len() == fs.len() - i,
        forall|j: int| i <= j < fs.len() ==> fields_view_from(fs, i)[j - i] == opt_view(fs[j]),
    decreases fs.len() - i,
{
    if i < fs.len() {
        lemma_fields_view_from(fs, i + 1);
    }
}

/// Pointwise reading of `fields_view`.
pub proof fn lemma_fields_view(fs: Seq<Option<Value>>)
    ensures
        fields_view(fs).len() == fs.len(),
        forall|j: int| 0 <= j < fs.len() ==> fields_view(fs)[j] == opt_view(fs[j]),
{
    lemma_fields_view_from(fs, 0);
}

/// An updated slot's model is updated in the record's model.
pub proof fn lemma_fields_view_update(fs: Seq<Option<Value>>, j: int, x: Option<Value>)
    requires
        0 <= j < fs.len(),
    ensures
        fields_view(fs.update(j, x)) == fields_view(fs).update(j, opt_view(x)),
{
    lemma_fields_view(fs);
    lemma_fields_view(fs.update(j, x));
    assert(fields_view(fs.update(j, x)) =~= fields_view(fs).update(j, opt_view(x)));
}

/// A pushed slot's model is pushed onto the record's model.
pub proof fn lemma_fields_view_push(fs: Seq<Option<Value>>, x: Option<Value>)
    ensures
        fields_view(fs.push(x)) == fields_view(fs).push(opt_view(x)),
{
    lemma_fields_view(fs);
    lemma_fields_view(fs.push(x));
    assert(fields_view(fs.push(x)) =~= fields_view(fs).push(opt_view(x)));
}


/// Runtime check that a value has the shape a kind declares.
pub fn value_conforms(tbl: &SchemaTable, k: &Kind, v: &Value) -> (r: bool)
    ensures
        r == value_matches(tbl@, *k, v@),
    decreases v, 1int,
{
    match v {
        Value::Bool(_) => match k {
            Kind::Bool => true,
            _ => false,
        },
        Value::Byte(_) => match k {
            Kind::Byte => true,
            _ => false,
        },
        Value::I16(_) => match k {
            Kind::I16 => true,
            _ => false,
        },
        Value::I32(_) => match k {
            Kind::I32 => true,
            _ => false,
        },
        Value::I64(_) => match k {
            Kind::I64 => true,
            _ => false,
        },
        Value::Text(_) => match k {
            Kind::Text => true,
            _ => false,
        },
        Value::Blob(_) => match k {
            Kind::Blob => true,
            _ => false,
        },
        Value::List(vs) => match k {
            Kind::List(ek) => {
                let r = elems_conform(tbl, ek, vs, 0);
                proof {
                    lemma_vals_view(vs@);
                    assert(vals_view(vs@).len() == vs@.len());
                }
                r
            },
            _ => false,
        },
        Value::SetOf(vs) => match k {
            Kind::SetOf(ek) => {
                let r = elems_conform(tbl, ek, vs, 0);
                proof {
                    lemma_vals_view(vs@);
                }
                r
            },
            _ => false,
        },
        Value::MapOf(ps) => match k {
            Kind::MapOf(kk, kv) => {
                let r = pairs_conform(tbl, kk, kv, ps, 0);
                proof {
                    lemma_pairs_view(ps@);
                }
                r
            },
            _ => false,
        },
        Value::Rec(rec) => match k {
            Kind::Rec(si) => {
                if *si >= tbl.len() {
                    false
                } else if rec.fields.len() != tbl[*si].fields.len() {
                    proof {
                        lemma_fields_view(rec.fields@);
                    }
                    false
                } else {
                    let r = fields_conform(tbl, &tbl[*si].fields, &rec.fields, 0);
                    proof {
                        lemma_fields_view(rec.fields@);
                    }
                    r
                }
            },
            _ => false,
        },
    }
}

/// Runtime check of a container's elements from index `i` on.
fn elems_conform(tbl: &SchemaTable, k: &Kind, vs: &Vec<Value>, i: usize) -> (r: bool)
    requires
        i <= vs@.len(),
    ensures
        r == forall|t: int|
            i <= t < vals_view(vs@).len() ==> value_matches(tbl@, *k, #[trigger] vals_view(vs@)[t]),
    decreases vs, vs.len() - i, 2int,
{
    proof {
        lemma_vals_view(vs@);
    }
    if i == vs.len() {
        true
    } else {
        proof {
            assert(vals_view(vs@)[i as int] == val_view(vs@[i as int]));
        }
        if value_conforms(tbl, k, &vs[i]) {
            elems_conform(tbl, k, vs, i + 1)
        } else {
            false
        }
    }
}

/// Runtime check of a map's entries from index `i` on.
fn pairs_conform(tbl: &SchemaTable, kk: &Kind, kv: &Kind, ps: &Vec<(Value, Value)>, i: usize) -> (r:
    bool)
    requires
        i <= ps@.len(),
    ensures
        r == forall|t: int|
            i <= t < pairs_view(ps@).len() ==> value_matches(
                tbl@,
                *kk,
                (#[trigger] pairs_view(ps@)[t]).0,
            ) && value_matches(tbl@, *kv, pairs_view(ps@)[t].1),
    decreases ps, ps.len() - i, 2int,
{
    proof {
        lemma_pairs_view(ps@);
    }
    if i == ps.len() {
        true
    } else {
        proof {
            assert(pairs_view(ps@)[i as int] == (val_view(ps@[i as int].0), val_view(
                ps@[i as int].1,
            )));
        }
        if value_conforms(tbl, kk, &ps[i].0) && value_conforms(tbl, kv, &ps[i].1) {
            pairs_conform(tbl, kk, kv, ps, i + 1)
        } else {
            false
        }
    }
}

/// Runtime check of a record's slots against its field list, from `j` on.
fn fields_conform(tbl: &SchemaTable, schema: &Vec<FieldSchema>, fs: &Vec<Option<Value>>, j: usize) -> (r:
    bool)
    requires
        j <= fs@.len(),
        fs@.len() == schema@.len(),
    ensures
        r == forall|t: int|
            j <= t < fields_view(fs@).len() ==> match #[trigger] fields_view(fs@)[t] {
                Option::None => schema@[t].optional,
                Option::Some(sv) => value_matches(tbl@, schema@[t].kind, sv),
            },
    decreases fs, fs.len() - j, 2int,
{
    proof {
        lemma_fields_view(fs@);
    }
    if j == fs.len() {
        true
    } else {
        proof {
            assert(fields_view(fs@)[j as int] == opt_view(fs@[j as int]));
        }
        let ok = match &fs[j] {
            Option::None => schema[j].optional,
            Option::Some(v) => value_conforms(tbl, &schema[j].kind, v),
        };
        if ok {
            fields_conform(tbl, schema, fs, j + 1)
        } else {
            false
        }
    }
}

impl View for Value {
    type V = SpecValue;

    open spec fn view(&self) -> SpecValue {
        val_view(*self)
    }
}

impl View for Record {
    type V = Seq<Option<SpecValue>>;

    open spec fn view(&self) -> Seq<Option<SpecValue>> {
        fields_view(self.fields@)
    }
}

/// Whether a value has the shape a kind declares, relative to a schema table.
pub open spec fn value_matches(tbl: Seq<RecordSchema>, k: Kind, v: SpecValue) -> bool
    decreases v, 1int,
{
    match v {
        SpecValue::Bool(_) => k is Bool,
        SpecValue::Byte(_) => k is Byte,
        SpecValue::I16(_) => k is I16,
        SpecValue::I32(_) => k is I32,
        SpecValue::I64(_) => k is I64,
        SpecValue::Text(_) => k is Text,
        SpecValue::Blob(_) => k is Blob,
        SpecValue::List(vs) => k is List && elems_match(tbl, *k->List_0, vs),
        SpecValue::SetOf(vs) => k is SetOf && elems_match(tbl, *k->SetOf_0, vs),
        SpecValue::MapOf(ps) => k is MapOf && pairs_match(tbl, *k->MapOf_0, *k->MapOf_1, ps),
        SpecValue::Rec(fs) => {
            &&& k is Rec
            &&& k->Rec_0 < tbl.len()
            &&& fields_match(tbl, tbl[k->Rec_0 as int].fields@, fs)
        },
    }
}

/// Every element of a container matches the element kind.
pub open spec fn elems_match(tbl: Seq<RecordSchema>, k: Kind, vs: Seq<SpecValue>) -> bool
    decreases vs, 0int,
{
    forall|i: int| 0 <= i < vs.len() ==> value_matches(tbl, k, #[trigger] vs[i])
}

/// Every entry of a map matches the key and value kinds.
pub open spec fn pairs_match(
    tbl: Seq<RecordSchema>,
    kk: Kind,
    kv: Kind,
    ps: Seq<(SpecValue, SpecValue)>,
) -> bool
    decreases ps, 0int,
{
    forall|i: int|
        0 <= i < ps.len() ==> value_matches(tbl, kk, (#[trigger] ps[i]).0) && value_matches(
            tbl,
            kv,
            ps[i].1,
        )
}

/// A record instance fits a field list: one slot per declared field, absent
/// only where the field is optional, each present value of the field's kind.
pub open spec fn fields_match(
    tbl: Seq<RecordSchema>,
    schema: Seq<FieldSchema>,
    fs: Seq<Option<SpecValue>>,
) -> bool
    decreases fs, 0int,
{
    &&& fs.len() == schema.len()
    &&& forall|j: int|
        0 <= j < fs.len() ==> match #[trigger] fs[j] {
            Option::None => schema[j].optional,
            Option::Some(v) => value_matches(tbl, schema[j].kind, v),
        }
}

/// Every record node of the value has at least one present field. A record
/// whose fields are all absent decodes as a protocol violation (the wire
/// image of an empty record is indistinguishable from a malformed one), so
/// round trips are promised only for values with this property.
pub open spec fn rt_ok(v: SpecValue) -> bool
    decreases v, 1int,
{
    match v {
        SpecValue::List(vs) => elems_rt_ok(vs),
        SpecValue::SetOf(vs) => elems_rt_ok(vs),
        SpecValue::MapOf(ps) => pairs_rt_ok(ps),
        SpecValue::Rec(fs) => (exists|j: int| 0 <= j < fs.len() && fs[j] is Some)
            && fields_rt_ok(fs),
        _ => true,
    }
}

/// Round-trip fitness of a container's elements.
pub open spec fn elems_rt_ok(vs: Seq<SpecValue>) -> bool
    decreases vs, 0int,
{
    forall|i: int| 0 <= i < vs.len() ==> rt_ok(#[trigger] vs[i])
}

/// Round-trip fitness of a map's entries.
pub open spec fn pairs_rt_ok(ps: Seq<(SpecValue, SpecValue)>) -> bool
    decreases ps, 0int,
{
    forall|i: int| 0 <= i < ps.len() ==> rt_ok((#[trigger] ps[i]).0) && rt_ok(ps[i].1)
}

/// Round-trip fitness of a record's present fields.
pub open spec fn fields_rt_ok(fs: Seq<Option<SpecValue>>) -> bool
    decreases fs, 0int,
{
    forall|j: int| 0 <= j < fs.len() && (#[trigger] fs[j]) is Some ==> rt_ok(fs[j]->0)
}

} // verus!
