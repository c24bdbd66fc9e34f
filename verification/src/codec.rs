//! The canonical encoding of values as event streams: the specification the
//! executable encoder and decoder are proved against.

use vstd::prelude::*;
use crate::Error;
use crate::schema::{Kind, FieldSchema, RecordSchema, SchemaTable, wire_type_of};
use crate::value::{SpecValue, Value, Record, val_view, vals_view, pairs_view, fields_view, opt_view,
    value_matches, elems_match, pairs_match, fields_match, lemma_vals_view, lemma_pairs_view,
    lemma_fields_view};
use crate::events::SpecEvent;
use crate::protocol::Protocol;

verus! {

/// The canonical event stream a value encodes to.
pub open spec fn enc_value(tbl: Seq<RecordSchema>, k: Kind, v: SpecValue) -> Seq<SpecEvent>
    decreases v, 1int,
{
    match v {
        SpecValue::Bool(b) => seq![SpecEvent::PBool(b)],
        SpecValue::Byte(b) => seq![SpecEvent::PByte(b)],
        SpecValue::I16(x) => seq![SpecEvent::PI16(x)],
        SpecValue::I32(x) => seq![SpecEvent::PI32(x)],
        SpecValue::I64(x) => seq![SpecEvent::PI64(x)],
        SpecValue::Text(s) => seq![SpecEvent::PStr(s)],
        SpecValue::Blob(bs) => seq![SpecEvent::PBlob(bs)],
        SpecValue::List(vs) => {
            if k is List {
                seq![SpecEvent::ListBegin(wire_type_of(*k->List_0), vs.len())] + enc_elems(
                    tbl,
                    *k->List_0,
                    vs,
                    0,
                ) + seq![SpecEvent::ListEnd]
            } else {
                Seq::empty()
            }
        },
        SpecValue::SetOf(vs) => {
            if k is SetOf {
                seq![SpecEvent::SetBegin(wire_type_of(*k->SetOf_0), vs.len())] + enc_elems(
                    tbl,
                    *k->SetOf_0,
                    vs,
                    0,
                ) + seq![SpecEvent::SetEnd]
            } else {
                Seq::empty()
            }
        },
        SpecValue::MapOf(ps) => {
            if k is MapOf {
                seq![
                    SpecEvent::MapBegin(wire_type_of(*k->MapOf_0), wire_type_of(*k->MapOf_1), ps.len()),
                ] + enc_pairs(tbl, *k->MapOf_0, *k->MapOf_1, ps, 0) + seq![SpecEvent::MapEnd]
            } else {
                Seq::empty()
            }
        },
        SpecValue::Rec(fs) => {
            if k is Rec && k->Rec_0 < tbl.len() {
                enc_record(tbl, tbl[k->Rec_0 as int].name@, tbl[k->Rec_0 as int].fields@, fs)
            } else {
                Seq::empty()
            }
        },
    }
}

/// The canonical event stream of one record: struct framing around the
/// present fields in schema order, terminated by a field stop.
pub open spec fn enc_record(
    tbl: Seq<RecordSchema>,
    name: Seq<char>,
    schema: Seq<FieldSchema>,
    fs: Seq<Option<SpecValue>>,
) -> Seq<SpecEvent>
    decreases fs, fs.len() + 1,
{
    seq![SpecEvent::StructBegin(name)] + enc_fields(tbl, schema, fs, 0) + seq![
        SpecEvent::FieldStop,
        SpecEvent::StructEnd,
    ]
}

/// The concatenated encodings of a container's elements from index `i` on.
pub open spec fn enc_elems(tbl: Seq<RecordSchema>, k: Kind, vs: Seq<SpecValue>, i: int) -> Seq<
    SpecEvent,
>
    decreases vs, vs.len() - i,
{
    if 0 <= i < vs.len() {
        enc_value(tbl, k, vs[i]) + enc_elems(tbl, k, vs, i + 1)
    } else {
        Seq::empty()
    }
}

/// The concatenated encodings of a map's entries from index `i` on.
pub open spec fn enc_pairs(
    tbl: Seq<RecordSchema>,
    kk: Kind,
    kv: Kind,
    ps: Seq<(SpecValue, SpecValue)>,
    i: int,
) -> Seq<SpecEvent>
    decreases ps, ps.len() - i,
{
    if 0 <= i < ps.len() {
        enc_value(tbl, kk, ps[i].0) + enc_value(tbl, kv, ps[i].1) + enc_pairs(tbl, kk, kv, ps, i + 1)
    } else {
        Seq::empty()
    }
}

/// The framed encodings of a record's present fields from schema index `j` on.
pub open spec fn enc_fields(
    tbl: Seq<RecordSchema>,
    schema: Seq<FieldSchema>,
    fs: Seq<Option<SpecValue>>,
    j: int,
) -> Seq<SpecEvent>
    decreases fs, fs.len() - j,
{
    if 0 <= j < fs.len() && fs.len() == schema.len() {
        (match fs[j] {
            Option::None => Seq::empty(),
            Option::Some(v) => seq![
                SpecEvent::FieldBegin(schema[j].name@, wire_type_of(schema[j].kind), schema[j].id),
            ] + enc_value(tbl, schema[j].kind, v) + seq![SpecEvent::FieldEnd],
        }) + enc_fields(tbl, schema, fs, j + 1)
    } else {
        Seq::empty()
    }
}



/// The first schema index at or after `j` whose field is present.
pub open spec fn first_present(fs: Seq<Option<SpecValue>>, j: int) -> int
    decreases fs.len() - j,
{
    if 0 <= j < fs.len() {
        if fs[j] is Some {
            j
        } else {
            first_present(fs, j + 1)
        }
    } else {
        fs.len() as int
    }
}

/// Position and neighbourhood of the first present field.
pub proof fn lemma_first_present(fs: Seq<Option<SpecValue>>, j: int)
    requires
        0 <= j <= fs.len(),
    ensures
        j <= first_present(fs, j) <= fs.len(),
        first_present(fs, j) < fs.len() ==> fs[first_present(fs, j)] is Some,
        forall|m: int| j <= m < first_present(fs, j) ==> fs[m] is None,
    decreases fs.len() - j,
{
    if j < fs.len() && !(fs[j] is Some) {
        lemma_first_present(fs, j + 1);
    }
}

/// The field encodings from `j` on start at the first present field: absent
/// fields leave no events, and the first present one opens with its framing.
pub proof fn lemma_enc_fields_skip(
    tbl: Seq<RecordSchema>,
    schema: Seq<FieldSchema>,
    fs: Seq<Option<SpecValue>>,
    j: int,
)
    requires
        0 <= j <= fs.len(),
        fs.len() == schema.len(),
    ensures
        first_present(fs, j) == fs.len() ==> enc_fields(tbl, schema, fs, j) == Seq::<
            SpecEvent,
        >::empty(),
        first_present(fs, j) < fs.len() ==> enc_fields(tbl, schema, fs, j) == seq![
            SpecEvent::FieldBegin(
                schema[first_present(fs, j)].name@,
                wire_type_of(schema[first_present(fs, j)].kind),
                schema[first_present(fs, j)].id,
            ),
        ] + enc_value(tbl, schema[first_present(fs, j)].kind, fs[first_present(fs, j)]->0) + seq![
            SpecEvent::FieldEnd,
        ] + enc_fields(tbl, schema, fs, first_present(fs, j) + 1),
    decreases fs.len() - j,
{
    if j == fs.len() {
    } else if fs[j] is Some {
        assert(enc_fields(tbl, schema, fs, j) =~= seq![
            SpecEvent::FieldBegin(schema[j].name@, wire_type_of(schema[j].kind), schema[j].id),
        ] + enc_value(tbl, schema[j].kind, fs[j]->0) + seq![SpecEvent::FieldEnd] + enc_fields(
            tbl,
            schema,
            fs,
            j + 1,
        ));
    } else {
        lemma_enc_fields_skip(tbl, schema, fs, j + 1);
        assert(enc_fields(tbl, schema, fs, j) =~= enc_fields(tbl, schema, fs, j + 1));
    }
}


/// A stream is a prefix of itself extended.
pub proof fn lemma_prefix_extend<T>(a: Seq<T>, b: Seq<T>)
    ensures
        a.is_prefix_of(a + b),
{
    assert(a =~= (a + b).subrange(0, a.len() as int));
}

/// Being a prefix is transitive.
pub proof fn lemma_prefix_chain<T>(x: Seq<T>, y: Seq<T>, z: Seq<T>)
    requires
        x.is_prefix_of(y),
        y.is_prefix_of(z),
    ensures
        x.is_prefix_of(z),
{
    assert(x =~= z.subrange(0, x.len() as int));
}

/// Encodes one value onto a protocol. On success, exactly the canonical
/// event stream of the value is appended to the wire.
#[verifier::rlimit(60)]
pub fn encode_value<P: Protocol>(p: &mut P, tbl: &SchemaTable, k: &Kind, v: &Value) -> (r: Result<
    (),
    Error,
>)
    requires
        old(p).inv(),
        value_matches(tbl@, *k, v@),
    ensures
        final(p).inv(),
        final(p).taken() == old(p).taken(),
        r is Ok ==> final(p).events() == old(p).events() + enc_value(tbl@, *k, v@),
        old(p).events().is_prefix_of(final(p).events()),
        final(p).events().is_prefix_of(old(p).events() + enc_value(tbl@, *k, v@)),
    decreases v, 1int,
{
    match v {
        Value::Bool(b) => {
            let r = p.write_bool(*b);
            proof {
                if r is Ok {
                    assert(final(p).events() =~= old(p).events() + enc_value(tbl@, *k, v@));
                }
            }
            r
        },
        Value::Byte(b) => {
            let r = p.write_byte(*b);
            proof {
                if r is Ok {
                    assert(final(p).events() =~= old(p).events() + enc_value(tbl@, *k, v@));
                }
            }
            r
        },
        Value::I16(x) => {
            let r = p.write_i16(*x);
            proof {
                if r is Ok {
                    assert(final(p).events() =~= old(p).events() + enc_value(tbl@, *k, v@));
                }
            }
            r
        },
        Value::I32(x) => {
            let r = p.write_i32(*x);
            proof {
                if r is Ok {
                    assert(final(p).events() =~= old(p).events() + enc_value(tbl@, *k, v@));
                }
            }
            r
        },
        Value::I64(x) => {
            let r = p.write_i64(*x);
            proof {
                if r is Ok {
                    assert(final(p).events() =~= old(p).events() + enc_value(tbl@, *k, v@));
                }
            }
            r
        },
        Value::Text(s) => {
            let r = p.write_string(s);
            proof {
                if r is Ok {
                    assert(final(p).events() =~= old(p).events() + enc_value(tbl@, *k, v@));
                }
            }
            r
        },
        Value::Blob(bs) => {
            let r = p.write_binary(bs);
            proof {
                if r is Ok {
                    assert(final(p).events() =~= old(p).events() + enc_value(tbl@, *k, v@));
                }
            }
            r
        },
        Value::List(vs) => {
            match k {
                Kind::List(ek) => {
                    proof {
                        lemma_vals_view(vs@);
                    }
                    let ghost mid = old(p).events().push(
                        SpecEvent::ListBegin(wire_type_of(**ek), vs@.len()),
                    );
                    let r0 = p.write_list_begin(ek.wire_type(), vs.len());
                    if r0.is_err() {
                        return r0;
                    }
                    let r1 = encode_elems(p, tbl, ek, vs, 0);
                    if r1.is_err() {
                        proof {
                            assert(old(p).events().is_prefix_of(mid));
                        }
                        return r1;
                    }
                    let r2 = p.write_list_end();
                    proof {
                        if r2 is Ok {
                            assert(final(p).events() =~= old(p).events() + enc_value(
                                tbl@,
                                *k,
                                v@,
                            ));
                        }
                    }
                    r2
                },
                _ => Err(Error::ProtocolViolation),
            }
        },
        Value::SetOf(vs) => {
            match k {
                Kind::SetOf(ek) => {
                    proof {
                        lemma_vals_view(vs@);
                    }
                    let ghost mid = old(p).events().push(
                        SpecEvent::SetBegin(wire_type_of(**ek), vs@.len()),
                    );
                    let r0 = p.write_set_begin(ek.wire_type(), vs.len());
                    if r0.is_err() {
                        return r0;
                    }
                    let r1 = encode_elems(p, tbl, ek, vs, 0);
                    if r1.is_err() {
                        proof {
                            assert(old(p).events().is_prefix_of(mid));
                        }
                        return r1;
                    }
                    let r2 = p.write_set_end();
                    proof {
                        if r2 is Ok {
                            assert(final(p).events() =~= old(p).events() + enc_value(
                                tbl@,
                                *k,
                                v@,
                            ));
                        }
                    }
                    r2
                },
                _ => Err(Error::ProtocolViolation),
            }
        },
        Value::MapOf(ps) => {
            match k {
                Kind::MapOf(kk, kv) => {
                    proof {
                        lemma_pairs_view(ps@);
                    }
                    let ghost mid = old(p).events().push(
                        SpecEvent::MapBegin(wire_type_of(**kk), wire_type_of(**kv), ps@.len()),
                    );
                    let r0 = p.write_map_begin(kk.wire_type(), kv.wire_type(), ps.len());
                    if r0.is_err() {
                        return r0;
                    }
                    let r1 = encode_pairs(p, tbl, kk, kv, ps, 0);
                    if r1.is_err() {
                        proof {
                            assert(old(p).events().is_prefix_of(mid));
                        }
                        return r1;
                    }
                    let r2 = p.write_map_end();
                    proof {
                        if r2 is Ok {
                            assert(final(p).events() =~= old(p).events() + enc_value(
                                tbl@,
                                *k,
                                v@,
                            ));
                        }
                    }
                    r2
                },
                _ => Err(Error::ProtocolViolation),
            }
        },
        Value::Rec(rec) => {
            match k {
                Kind::Rec(si) => {
                    let r = encode_record(p, tbl, *si, rec);
                    r
                },
                _ => Err(Error::ProtocolViolation),
            }
        },
    }
}

/// Encodes a container's elements from index `i` on.
fn encode_elems<P: Protocol>(
    p: &mut P,
    tbl: &SchemaTable,
    k: &Kind,
    vs: &Vec<Value>,
    i: usize,
) -> (r: Result<(), Error>)
    requires
        old(p).inv(),
        i <= vs@.len(),
        elems_match(tbl@, *k, vals_view(vs@)),
    ensures
        final(p).inv(),
        final(p).taken() == old(p).taken(),
        r is Ok ==> final(p).events() == old(p).events() + enc_elems(
            tbl@,
            *k,
            vals_view(vs@),
            i as int,
        ),
        old(p).events().is_prefix_of(final(p).events()),
        final(p).events().is_prefix_of(
            old(p).events() + enc_elems(tbl@, *k, vals_view(vs@), i as int),
        ),
    decreases vs, vs.len() - i, 2int,
{
    proof {
        lemma_vals_view(vs@);
    }
    if i == vs.len() {
        proof {
            assert(final(p).events() =~= old(p).events() + enc_elems(
                tbl@,
                *k,
                vals_view(vs@),
                i as int,
            ));
        }
        Ok(())
    } else {
        proof {
            assert(value_matches(tbl@, *k, vals_view(vs@)[i as int]));
        }
        let r0 = encode_value(p, tbl, k, &vs[i]);
        if r0.is_err() {
            return r0;
        }
        let r1 = encode_elems(p, tbl, k, vs, i + 1);
        proof {
            if r1 is Ok {
                assert(final(p).events() =~= old(p).events() + enc_elems(
                    tbl@,
                    *k,
                    vals_view(vs@),
                    i as int,
                ));
            }
        }
        r1
    }
}

/// Encodes a map's entries from index `i` on.
fn encode_pairs<P: Protocol>(
    p: &mut P,
    tbl: &SchemaTable,
    kk: &Kind,
    kv: &Kind,
    ps: &Vec<(Value, Value)>,
    i: usize,
) -> (r: Result<(), Error>)
    requires
        old(p).inv(),
        i <= ps@.len(),
        pairs_match(tbl@, *kk, *kv, pairs_view(ps@)),
    ensures
        final(p).inv(),
        final(p).taken() == old(p).taken(),
        r is Ok ==> final(p).events() == old(p).events() + enc_pairs(
            tbl@,
            *kk,
            *kv,
            pairs_view(ps@),
            i as int,
        ),
        old(p).events().is_prefix_of(final(p).events()),
        final(p).events().is_prefix_of(
            old(p).events() + enc_pairs(tbl@, *kk, *kv, pairs_view(ps@), i as int),
        ),
    decreases ps, ps.len() - i, 2int,
{
    proof {
        lemma_pairs_view(ps@);
    }
    if i == ps.len() {
        proof {
            assert(final(p).events() =~= old(p).events() + enc_pairs(
                tbl@,
                *kk,
                *kv,
                pairs_view(ps@),
                i as int,
            ));
        }
        Ok(())
    } else {
        proof {
            assert(value_matches(tbl@, *kk, pairs_view(ps@)[i as int].0));
            assert(value_matches(tbl@, *kv, pairs_view(ps@)[i as int].1));
        }
        let r0 = encode_value(p, tbl, kk, &ps[i].0);
        if r0.is_err() {
            return r0;
        }
        let ghost mid = final(p).events();
        let r1 = encode_value(p, tbl, kv, &ps[i].1);
        if r1.is_err() {
            return r1;
        }
        let r2 = encode_pairs(p, tbl, kk, kv, ps, i + 1);
        proof {
            if r2 is Ok {
                assert(final(p).events() =~= old(p).events() + enc_pairs(
                    tbl@,
                    *kk,
                    *kv,
                    pairs_view(ps@),
                    i as int,
                ));
            }
        }
        r2
    }
}

/// Encodes one record as struct framing around its present fields, in schema
/// order, closed by a field stop. `si` indexes the record's schema in the
/// table.
pub fn encode_record<P: Protocol>(p: &mut P, tbl: &SchemaTable, si: usize, rec: &Record) -> (r:
    Result<(), Error>)
    requires
        old(p).inv(),
        si < tbl@.len(),
        fields_match(tbl@, tbl@[si as int].fields@, rec@),
    ensures
        final(p).inv(),
        final(p).taken() == old(p).taken(),
        r is Ok ==> final(p).events() == old(p).events() + enc_record(
            tbl@,
            tbl@[si as int].name@,
            tbl@[si as int].fields@,
            rec@,
        ),
        old(p).events().is_prefix_of(final(p).events()),
        final(p).events().is_prefix_of(
            old(p).events() + enc_record(
                tbl@,
                tbl@[si as int].name@,
                tbl@[si as int].fields@,
                rec@,
            ),
        ),
    decreases rec, 3int,
{
    let rs = &tbl[si];
    let ghost mid = old(p).events().push(SpecEvent::StructBegin(rs.name@));
    let r0 = p.write_struct_begin(rs.name.as_str());
    if r0.is_err() {
        return r0;
    }
    let r1 = encode_fields(p, tbl, &rs.fields, &rec.fields, 0);
    if r1.is_err() {
        proof {
            assert(old(p).events().is_prefix_of(mid));
        }
        return r1;
    }
    let ghost mid2 = final(p).events();
    let r2 = p.write_field_stop();
    if r2.is_err() {
        proof {
            assert(old(p).events().is_prefix_of(mid2));
        }
        return r2;
    }
    let r3 = p.write_struct_end();
    proof {
        if r3 is Ok {
            assert(final(p).events() =~= old(p).events() + enc_record(
                tbl@,
                tbl@[si as int].name@,
                tbl@[si as int].fields@,
                rec@,
            ));
        }
    }
    r3
}

/// Encodes a record's fields from schema index `j` on, framing each present
/// field and leaving absent ones silent.
fn encode_fields<P: Protocol>(
    p: &mut P,
    tbl: &SchemaTable,
    schema: &Vec<FieldSchema>,
    fs: &Vec<Option<Value>>,
    j: usize,
) -> (r: Result<(), Error>)
    requires
        old(p).inv(),
        j <= fs@.len(),
        fields_match(tbl@, schema@, fields_view(fs@)),
    ensures
        final(p).inv(),
        final(p).taken() == old(p).taken(),
        r is Ok ==> final(p).events() == old(p).events() + enc_fields(
            tbl@,
            schema@,
            fields_view(fs@),
            j as int,
        ),
        old(p).events().is_prefix_of(final(p).events()),
        final(p).events().is_prefix_of(
            old(p).events() + enc_fields(tbl@, schema@, fields_view(fs@), j as int),
        ),
    decreases fs, fs.len() - j, 2int,
{
    proof {
        lemma_fields_view(fs@);
    }
    if j == fs.len() {
        proof {
            assert(final(p).events() =~= old(p).events() + enc_fields(
                tbl@,
                schema@,
                fields_view(fs@),
                j as int,
            ));
        }
        Ok(())
    } else {
        match &fs[j] {
            Option::None => {
                let r = encode_fields(p, tbl, schema, fs, j + 1);
                proof {
                    if r is Ok {
                        assert(final(p).events() =~= old(p).events() + enc_fields(
                            tbl@,
                            schema@,
                            fields_view(fs@),
                            j as int,
                        ));
                    }
                }
                r
            },
            Option::Some(fv) => {
                let sf = &schema[j];
                let r0 = p.write_field_begin(sf.name.as_str(), sf.kind.wire_type(), sf.id);
                if r0.is_err() {
                    return r0;
                }
                let ghost mid0 = final(p).events();
                let r1 = encode_value(p, tbl, &sf.kind, fv);
                if r1.is_err() {
                    return r1;
                }
                let ghost mid1 = final(p).events();
                let r2 = p.write_field_end();
                if r2.is_err() {
                    proof {
                        assert(old(p).events().is_prefix_of(mid1));
                    }
                    return r2;
                }
                let r3 = encode_fields(p, tbl, schema, fs, j + 1);
                proof {
                    if r3 is Ok {
                        assert(final(p).events() =~= old(p).events() + enc_fields(
                            tbl@,
                            schema@,
                            fields_view(fs@),
                            j as int,
                        ));
                    }
                }
                r3
            },
        }
    }
}

} // verus!
