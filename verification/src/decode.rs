//! The decoder: reads the tagged event stream back into values, skipping
//! unrecognized fields, and is proved to invert the canonical encoding: if
//! the unread stream begins with the encoding of a value, decoding returns
//! exactly that value and consumes exactly its image.

use vstd::prelude::*;
use crate::Error;
use crate::schema::{Kind, WireType, FieldSchema, RecordSchema, SchemaTable, wire_type_of, kind_wf,
    schema_wf, table_wf, ids_unique};
use crate::value::{SpecValue, Value, Record, val_view, vals_view, pairs_view, fields_view,
    opt_view, value_matches, elems_match, pairs_match, fields_match, rt_ok, elems_rt_ok,
    pairs_rt_ok, fields_rt_ok, lemma_vals_view, lemma_vals_view_push, lemma_pairs_view,
    lemma_pairs_view_push, lemma_fields_view};
use crate::events::SpecEvent;
use crate::codec::{enc_value, enc_record, enc_elems, enc_pairs, enc_fields, first_present,
    lemma_first_present, lemma_enc_fields_skip};
use crate::protocol::Protocol;

verus! {

/// The events a protocol still holds for its reader.
pub open spec fn unread<P: Protocol>(p: &P) -> Seq<SpecEvent> {
    p.events().skip(p.taken() as int)
}

/// The event stream of a list value: begin marker with element tag and
/// count, the element encodings, the end marker.
pub open spec fn list_events(tbl: Seq<RecordSchema>, ek: Kind, vs0: Seq<SpecValue>) -> Seq<
    SpecEvent,
> {
    seq![SpecEvent::ListBegin(wire_type_of(ek), vs0.len())] + enc_elems(tbl, ek, vs0, 0) + seq![
        SpecEvent::ListEnd,
    ]
}

/// The event stream of a set value.
pub open spec fn set_events(tbl: Seq<RecordSchema>, ek: Kind, vs0: Seq<SpecValue>) -> Seq<
    SpecEvent,
> {
    seq![SpecEvent::SetBegin(wire_type_of(ek), vs0.len())] + enc_elems(tbl, ek, vs0, 0) + seq![
        SpecEvent::SetEnd,
    ]
}

/// The event stream of a map value.
pub open spec fn map_events(
    tbl: Seq<RecordSchema>,
    kk: Kind,
    kv: Kind,
    ps0: Seq<(SpecValue, SpecValue)>,
) -> Seq<SpecEvent> {
    seq![SpecEvent::MapBegin(wire_type_of(kk), wire_type_of(kv), ps0.len())] + enc_pairs(
        tbl,
        kk,
        kv,
        ps0,
        0,
    ) + seq![SpecEvent::MapEnd]
}

/// A concatenation is a prefix exactly when its parts are prefixes in turn.
pub proof fn lemma_prefix_split<T>(a: Seq<T>, b: Seq<T>, s: Seq<T>)
    requires
        (a + b).is_prefix_of(s),
    ensures
        a.is_prefix_of(s),
        b.is_prefix_of(s.skip(a.len() as int)),
{
    assert(a =~= (a + b).subrange(0, a.len() as int));
    assert(b =~= (a + b).subrange(a.len() as int, (a + b).len() as int));
    assert(a.is_prefix_of(s));
    assert(b.is_prefix_of(s.skip(a.len() as int)));
}

/// A prefix is read pointwise off the stream.
pub proof fn lemma_prefix_index<T>(a: Seq<T>, s: Seq<T>, i: int)
    requires
        a.is_prefix_of(s),
        0 <= i < a.len(),
    ensures
        s[i] == a[i],
{
}

/// After consuming `m` events, what stays unread is the former tail.
pub proof fn lemma_unread_skip<P: Protocol>(p0: &P, p1: &P, m: int)
    requires
        p1.events() == p0.events(),
        0 <= m,
        p1.taken() == p0.taken() + m,
        p0.taken() + m <= p0.events().len(),
    ensures
        unread(p1) == unread(p0).skip(m),
{
    assert(unread(p1) =~= unread(p0).skip(m));
}

/// Looks a wire field up in the schema by its id and wire tag; the match is
/// exact, a known id under a different tag stays unrecognized.
fn find_field(schema: &Vec<FieldSchema>, wt: WireType, id: i16) -> (r: Option<usize>)
    ensures
        r matches Some(m) ==> m < schema@.len() && schema@[m as int].id == id && wire_type_of(
            schema@[m as int].kind,
        ) == wt,
        r is None ==> forall|m: int|
            0 <= m < schema@.len() ==> !((#[trigger] schema@[m].id) == id && wire_type_of(
                schema@[m].kind,
            ) == wt),
{
    let mut m: usize = 0;
    while m < schema.len()
        invariant
            m <= schema@.len(),
            forall|t: int|
                0 <= t < m ==> !((#[trigger] schema@[t].id) == id && wire_type_of(schema@[t].kind)
                    == wt),
        decreases schema@.len() - m,
    {
        let sf = &schema[m];
        if sf.id == id && sf.kind.wire_type() == wt {
            return Some(m);
        }
        m = m + 1;
    }
    None
}

/// Decodes one value of the given kind off the protocol. If the unread
/// stream begins with the canonical encoding of a round-trip-fit value of
/// this kind, the result is exactly that value and exactly its image is
/// consumed.
pub fn decode_value<P: Protocol>(p: &mut P, tbl: &SchemaTable, k: &Kind) -> (r: Result<
    Value,
    Error,
>)
    requires
        old(p).inv(),
        table_wf(tbl@),
        kind_wf(*k, tbl@.len()),
    ensures
        final(p).inv(),
        final(p).events() == old(p).events(),
        old(p).taken() <= final(p).taken() <= final(p).events().len(),
        r matches Ok(v) ==> value_matches(tbl@, *k, v@) && old(p).taken() < final(p).taken(),
        forall|v0: SpecValue|
            (value_matches(tbl@, *k, v0) && rt_ok(v0) && (#[trigger] enc_value(
                tbl@,
                *k,
                v0,
            )).is_prefix_of(unread(old(p)))) ==> (r matches Ok(v) && v@ == v0 && final(p).taken()
                == old(p).taken() + enc_value(tbl@, *k, v0).len()),
    decreases old(p).events().len() - old(p).taken(), 3int,
{
    proof {
        p.inv_bound();
    }
    match k {
        Kind::Bool => {
            let rb = p.read_bool();
            proof {
                assert forall|v0: SpecValue|
                    (value_matches(tbl@, *k, v0) && rt_ok(v0) && (#[trigger] enc_value(
                        tbl@,
                        *k,
                        v0,
                    )).is_prefix_of(unread(old(p)))) implies (rb matches Ok(b)
                    && SpecEvent::PBool(b) == SpecEvent::PBool(v0->Bool_0)
                    && enc_value(tbl@, *k, v0).len() == 1) by {
                    lemma_prefix_index(enc_value(tbl@, *k, v0), unread(old(p)), 0);
                    assert(unread(old(p))[0] == old(p).events()[old(p).taken() as int]);
                }
            }
            match rb {
                Ok(b) => Ok(Value::Bool(b)),
                Err(e) => Err(e),
            }
        },
        Kind::Byte => {
            let rb = p.read_byte();
            proof {
                assert forall|v0: SpecValue|
                    (value_matches(tbl@, *k, v0) && rt_ok(v0) && (#[trigger] enc_value(
                        tbl@,
                        *k,
                        v0,
                    )).is_prefix_of(unread(old(p)))) implies (rb matches Ok(b)
                    && SpecEvent::PByte(b) == SpecEvent::PByte(v0->Byte_0)
                    && enc_value(tbl@, *k, v0).len() == 1) by {
                    lemma_prefix_index(enc_value(tbl@, *k, v0), unread(old(p)), 0);
                    assert(unread(old(p))[0] == old(p).events()[old(p).taken() as int]);
                }
            }
            match rb {
                Ok(b) => Ok(Value::Byte(b)),
                Err(e) => Err(e),
            }
        },
        Kind::I16 => {
            let rb = p.read_i16();
            proof {
                assert forall|v0: SpecValue|
                    (value_matches(tbl@, *k, v0) && rt_ok(v0) && (#[trigger] enc_value(
                        tbl@,
                        *k,
                        v0,
                    )).is_prefix_of(unread(old(p)))) implies (rb matches Ok(x)
                    && SpecEvent::PI16(x) == SpecEvent::PI16(v0->I16_0)
                    && enc_value(tbl@, *k, v0).len() == 1) by {
                    lemma_prefix_index(enc_value(tbl@, *k, v0), unread(old(p)), 0);
                    assert(unread(old(p))[0] == old(p).events()[old(p).taken() as int]);
                }
            }
            match rb {
                Ok(x) => Ok(Value::I16(x)),
                Err(e) => Err(e),
            }
        },
        Kind::I32 => {
            let rb = p.read_i32();
            proof {
                assert forall|v0: SpecValue|
                    (value_matches(tbl@, *k, v0) && rt_ok(v0) && (#[trigger] enc_value(
                        tbl@,
                        *k,
                        v0,
                    )).is_prefix_of(unread(old(p)))) implies (rb matches Ok(x)
                    && SpecEvent::PI32(x) == SpecEvent::PI32(v0->I32_0)
                    && enc_value(tbl@, *k, v0).len() == 1) by {
                    lemma_prefix_index(enc_value(tbl@, *k, v0), unread(old(p)), 0);
                    assert(unread(old(p))[0] == old(p).events()[old(p).taken() as int]);
                }
            }
            match rb {
                Ok(x) => Ok(Value::I32(x)),
                Err(e) => Err(e),
            }
        },
        Kind::I64 => {
            let rb = p.read_i64();
            proof {
                assert forall|v0: SpecValue|
                    (value_matches(tbl@, *k, v0) && rt_ok(v0) && (#[trigger] enc_value(
                        tbl@,
                        *k,
                        v0,
                    )).is_prefix_of(unread(old(p)))) implies (rb matches Ok(x)
                    && SpecEvent::PI64(x) == SpecEvent::PI64(v0->I64_0)
                    && enc_value(tbl@, *k, v0).len() == 1) by {
                    lemma_prefix_index(enc_value(tbl@, *k, v0), unread(old(p)), 0);
                    assert(unread(old(p))[0] == old(p).events()[old(p).taken() as int]);
                }
            }
            match rb {
                Ok(x) => Ok(Value::I64(x)),
                Err(e) => Err(e),
            }
        },
        Kind::Text => {
            let rb = p.read_string();
            proof {
                assert forall|v0: SpecValue|
                    (value_matches(tbl@, *k, v0) && rt_ok(v0) && (#[trigger] enc_value(
                        tbl@,
                        *k,
                        v0,
                    )).is_prefix_of(unread(old(p)))) implies (rb matches Ok(s)
                    && SpecEvent::PStr(s@) == SpecEvent::PStr(v0->Text_0)
                    && enc_value(tbl@, *k, v0).len() == 1) by {
                    lemma_prefix_index(enc_value(tbl@, *k, v0), unread(old(p)), 0);
                    assert(unread(old(p))[0] == old(p).events()[old(p).taken() as int]);
                }
            }
            match rb {
                Ok(s) => Ok(Value::Text(s)),
                Err(e) => Err(e),
            }
        },
        Kind::Blob => {
            let rb = p.read_binary();
            proof {
                assert forall|v0: SpecValue|
                    (value_matches(tbl@, *k, v0) && rt_ok(v0) && (#[trigger] enc_value(
                        tbl@,
                        *k,
                        v0,
                    )).is_prefix_of(unread(old(p)))) implies (rb matches Ok(bs)
                    && SpecEvent::PBlob(bs@) == SpecEvent::PBlob(v0->Blob_0)
                    && enc_value(tbl@, *k, v0).len() == 1) by {
                    lemma_prefix_index(enc_value(tbl@, *k, v0), unread(old(p)), 0);
                    assert(unread(old(p))[0] == old(p).events()[old(p).taken() as int]);
                }
            }
            match rb {
                Ok(bs) => Ok(Value::Blob(bs)),
                Err(e) => Err(e),
            }
        },
        Kind::List(ek) => {
            let r = decode_list(p, tbl, ek);
            proof {
                assert forall|v0: SpecValue|
                    value_matches(tbl@, *k, v0) && rt_ok(v0) && (#[trigger] enc_value(
                        tbl@,
                        *k,
                        v0,
                    )).is_prefix_of(unread(old(p))) implies list_events(
                    tbl@,
                    **ek,
                    v0->List_0,
                ).is_prefix_of(unread(old(p))) && elems_match(tbl@, **ek, v0->List_0)
                    && elems_rt_ok(v0->List_0) && enc_value(tbl@, *k, v0).len() == list_events(
                    tbl@,
                    **ek,
                    v0->List_0,
                ).len() by {
                    assert(enc_value(tbl@, *k, v0) == list_events(tbl@, **ek, v0->List_0));
                }
            }
            match r {
                Ok(vs) => Ok(Value::List(vs)),
                Err(e) => Err(e),
            }
        },
        Kind::SetOf(ek) => {
            let r = decode_set(p, tbl, ek);
            proof {
                assert forall|v0: SpecValue|
                    value_matches(tbl@, *k, v0) && rt_ok(v0) && (#[trigger] enc_value(
                        tbl@,
                        *k,
                        v0,
                    )).is_prefix_of(unread(old(p))) implies set_events(
                    tbl@,
                    **ek,
                    v0->SetOf_0,
                ).is_prefix_of(unread(old(p))) && elems_match(tbl@, **ek, v0->SetOf_0)
                    && elems_rt_ok(v0->SetOf_0) && enc_value(tbl@, *k, v0).len() == set_events(
                    tbl@,
                    **ek,
                    v0->SetOf_0,
                ).len() by {
                    assert(enc_value(tbl@, *k, v0) == set_events(tbl@, **ek, v0->SetOf_0));
                }
            }
            match r {
                Ok(vs) => Ok(Value::SetOf(vs)),
                Err(e) => Err(e),
            }
        },
        Kind::MapOf(kk, kv) => {
            let r = decode_map(p, tbl, kk, kv);
            proof {
                assert forall|v0: SpecValue|
                    value_matches(tbl@, *k, v0) && rt_ok(v0) && (#[trigger] enc_value(
                        tbl@,
                        *k,
                        v0,
                    )).is_prefix_of(unread(old(p))) implies map_events(
                    tbl@,
                    **kk,
                    **kv,
                    v0->MapOf_0,
                ).is_prefix_of(unread(old(p))) && pairs_match(tbl@, **kk, **kv, v0->MapOf_0)
                    && pairs_rt_ok(v0->MapOf_0) && enc_value(tbl@, *k, v0).len() == map_events(
                    tbl@,
                    **kk,
                    **kv,
                    v0->MapOf_0,
                ).len() by {
                    assert(enc_value(tbl@, *k, v0) == map_events(tbl@, **kk, **kv, v0->MapOf_0));
                }
            }
            match r {
                Ok(ps) => Ok(Value::MapOf(ps)),
                Err(e) => Err(e),
            }
        },
        Kind::Rec(si) => {
            let r = decode_record(p, tbl, *si);
            proof {
                assert forall|v0: SpecValue|
                    value_matches(tbl@, *k, v0) && rt_ok(v0) && (#[trigger] enc_value(
                        tbl@,
                        *k,
                        v0,
                    )).is_prefix_of(unread(old(p))) implies enc_record(
                    tbl@,
                    tbl@[*si as int].name@,
                    tbl@[*si as int].fields@,
                    v0->Rec_0,
                ).is_prefix_of(unread(old(p))) && fields_match(
                    tbl@,
                    tbl@[*si as int].fields@,
                    v0->Rec_0,
                ) && fields_rt_ok(v0->Rec_0) && (exists|j: int|
                    0 <= j < v0->Rec_0.len() && v0->Rec_0[j] is Some) && enc_value(
                    tbl@,
                    *k,
                    v0,
                ).len() == enc_record(
                    tbl@,
                    tbl@[*si as int].name@,
                    tbl@[*si as int].fields@,
                    v0->Rec_0,
                ).len() by {
                    assert(enc_value(tbl@, *k, v0) == enc_record(
                        tbl@,
                        tbl@[*si as int].name@,
                        tbl@[*si as int].fields@,
                        v0->Rec_0,
                    ));
                }
            }
            match r {
                Ok(rec) => Ok(Value::Rec(rec)),
                Err(e) => Err(e),
            }
        },
    }
}

/// Decodes a list: begin marker with the expected element tag and the count,
/// the elements, the end marker.
fn decode_list<P: Protocol>(p: &mut P, tbl: &SchemaTable, ek: &Kind) -> (r: Result<
    Vec<Value>,
    Error,
>)
    requires
        old(p).inv(),
        table_wf(tbl@),
        kind_wf(*ek, tbl@.len()),
    ensures
        final(p).inv(),
        final(p).events() == old(p).events(),
        old(p).taken() <= final(p).taken() <= final(p).events().len(),
        r matches Ok(vs) ==> elems_match(tbl@, *ek, vals_view(vs@)) && old(p).taken() < final(p).taken(),
        forall|vs0: Seq<SpecValue>|
            (elems_match(tbl@, *ek, vs0) && elems_rt_ok(vs0) && (#[trigger] list_events(
                tbl@,
                *ek,
                vs0,
            )).is_prefix_of(unread(old(p)))) ==> (r matches Ok(vs) && vals_view(vs@) == vs0
                && final(p).taken() == old(p).taken() + list_events(tbl@, *ek, vs0).len()),
    decreases old(p).events().len() - old(p).taken(), 2int,
{
    proof {
        p.inv_bound();
    }
    let ghost p0 = *p;
    let rb = p.read_list_begin();
    proof {
        assert forall|vs0: Seq<SpecValue>|
            (elems_match(tbl@, *ek, vs0) && elems_rt_ok(vs0) && (#[trigger] list_events(
                tbl@,
                *ek,
                vs0,
            )).is_prefix_of(unread(&p0))) implies (rb matches Ok(v) && v.0 == wire_type_of(*ek)
            && v.1 as nat == vs0.len() && enc_elems(tbl@, *ek, vs0, 0).is_prefix_of(
            unread(&p0).skip(1),
        )) by {
            assert(list_events(tbl@, *ek, vs0) =~= seq![
                SpecEvent::ListBegin(wire_type_of(*ek), vs0.len()),
            ] + (enc_elems(tbl@, *ek, vs0, 0) + seq![SpecEvent::ListEnd]));
            lemma_prefix_split(
                seq![SpecEvent::ListBegin(wire_type_of(*ek), vs0.len())],
                enc_elems(tbl@, *ek, vs0, 0) + seq![SpecEvent::ListEnd],
                unread(&p0),
            );
            lemma_prefix_index(
                seq![SpecEvent::ListBegin(wire_type_of(*ek), vs0.len())],
                unread(&p0),
                0,
            );
            assert(unread(&p0)[0] == SpecEvent::ListBegin(wire_type_of(*ek), vs0.len()));
            lemma_prefix_split(
                enc_elems(tbl@, *ek, vs0, 0),
                seq![SpecEvent::ListEnd],
                unread(&p0).skip(1),
            );
        }
    }
    let (t, n) = match rb {
        Ok(v) => v,
        Err(e) => {
            return Err(e);
        },
    };
    if t != ek.wire_type() {
        return Err(Error::ProtocolViolation);
    }
    let ghost p1 = *p;
    proof {
        lemma_unread_skip(&p0, &p1, 1);
    }
    let mut acc: Vec<Value> = Vec::new();
    let rc = decode_elems(p, tbl, ek, n, &mut acc);
    proof {
        assert(vals_view(Seq::<Value>::empty()) =~= Seq::<SpecValue>::empty());
        assert forall|vs0: Seq<SpecValue>|
            (elems_match(tbl@, *ek, vs0) && elems_rt_ok(vs0) && (#[trigger] list_events(
                tbl@,
                *ek,
                vs0,
            )).is_prefix_of(unread(&p0))) implies (rc is Ok && vals_view(acc@) == vs0 && p.taken()
            == p1.taken() + enc_elems(tbl@, *ek, vs0, 0).len()) by {
            assert(vs0.take(0) =~= Seq::<SpecValue>::empty());
        }
    }
    match rc {
        Ok(()) => (),
        Err(e) => {
            return Err(e);
        },
    }
    let ghost p2 = *p;
    let re = p.read_list_end();
    proof {
        assert forall|vs0: Seq<SpecValue>|
            (elems_match(tbl@, *ek, vs0) && elems_rt_ok(vs0) && (#[trigger] list_events(
                tbl@,
                *ek,
                vs0,
            )).is_prefix_of(unread(&p0))) implies (re is Ok && p.taken() == p0.taken()
            + list_events(tbl@, *ek, vs0).len()) by {
            assert(list_events(tbl@, *ek, vs0) =~= seq![
                SpecEvent::ListBegin(wire_type_of(*ek), vs0.len()),
            ] + (enc_elems(tbl@, *ek, vs0, 0) + seq![SpecEvent::ListEnd]));
            lemma_prefix_split(
                seq![SpecEvent::ListBegin(wire_type_of(*ek), vs0.len())],
                enc_elems(tbl@, *ek, vs0, 0) + seq![SpecEvent::ListEnd],
                unread(&p0),
            );
            lemma_prefix_split(
                enc_elems(tbl@, *ek, vs0, 0),
                seq![SpecEvent::ListEnd],
                unread(&p0).skip(1),
            );
            lemma_unread_skip(&p1, &p2, enc_elems(tbl@, *ek, vs0, 0).len() as int);
            lemma_prefix_index(seq![SpecEvent::ListEnd], unread(&p2), 0);
            assert(unread(&p2)[0] == SpecEvent::ListEnd);
        }
    }
    match re {
        Ok(()) => (),
        Err(e) => {
            return Err(e);
        },
    }
    proof {
        lemma_vals_view(acc@);
    }
    Ok(acc)
}

/// Decodes a set: like a list, under set markers. Elements are kept in wire
/// order; uniqueness is the container's concern, not the codec's.
fn decode_set<P: Protocol>(p: &mut P, tbl: &SchemaTable, ek: &Kind) -> (r: Result<
    Vec<Value>,
    Error,
>)
    requires
        old(p).inv(),
        table_wf(tbl@),
        kind_wf(*ek, tbl@.len()),
    ensures
        final(p).inv(),
        final(p).events() == old(p).events(),
        old(p).taken() <= final(p).taken() <= final(p).events().len(),
        r matches Ok(vs) ==> elems_match(tbl@, *ek, vals_view(vs@)) && old(p).taken() < final(p).taken(),
        forall|vs0: Seq<SpecValue>|
            (elems_match(tbl@, *ek, vs0) && elems_rt_ok(vs0) && (#[trigger] set_events(
                tbl@,
                *ek,
                vs0,
            )).is_prefix_of(unread(old(p)))) ==> (r matches Ok(vs) && vals_view(vs@) == vs0
                && final(p).taken() == old(p).taken() + set_events(tbl@, *ek, vs0).len()),
    decreases old(p).events().len() - old(p).taken(), 2int,
{
    proof {
        p.inv_bound();
    }
    let ghost p0 = *p;
    let rb = p.read_set_begin();
    proof {
        assert forall|vs0: Seq<SpecValue>|
            (elems_match(tbl@, *ek, vs0) && elems_rt_ok(vs0) && (#[trigger] set_events(
                tbl@,
                *ek,
                vs0,
            )).is_prefix_of(unread(&p0))) implies (rb matches Ok(v) && v.0 == wire_type_of(*ek)
            && v.1 as nat == vs0.len() && enc_elems(tbl@, *ek, vs0, 0).is_prefix_of(
            unread(&p0).skip(1),
        )) by {
            assert(set_events(tbl@, *ek, vs0) =~= seq![
                SpecEvent::SetBegin(wire_type_of(*ek), vs0.len()),
            ] + (enc_elems(tbl@, *ek, vs0, 0) + seq![SpecEvent::SetEnd]));
            lemma_prefix_split(
                seq![SpecEvent::SetBegin(wire_type_of(*ek), vs0.len())],
                enc_elems(tbl@, *ek, vs0, 0) + seq![SpecEvent::SetEnd],
                unread(&p0),
            );
            lemma_prefix_index(
                seq![SpecEvent::SetBegin(wire_type_of(*ek), vs0.len())],
                unread(&p0),
                0,
            );
            assert(unread(&p0)[0] == SpecEvent::SetBegin(wire_type_of(*ek), vs0.len()));
            lemma_prefix_split(
                enc_elems(tbl@, *ek, vs0, 0),
                seq![SpecEvent::SetEnd],
                unread(&p0).skip(1),
            );
        }
    }
    let (t, n) = match rb {
        Ok(v) => v,
        Err(e) => {
            return Err(e);
        },
    };
    if t != ek.wire_type() {
        return Err(Error::ProtocolViolation);
    }
    let ghost p1 = *p;
    proof {
        lemma_unread_skip(&p0, &p1, 1);
    }
    let mut acc: Vec<Value> = Vec::new();
    let rc = decode_elems(p, tbl, ek, n, &mut acc);
    proof {
        assert(vals_view(Seq::<Value>::empty()) =~= Seq::<SpecValue>::empty());
        assert forall|vs0: Seq<SpecValue>|
            (elems_match(tbl@, *ek, vs0) && elems_rt_ok(vs0) && (#[trigger] set_events(
                tbl@,
                *ek,
                vs0,
            )).is_prefix_of(unread(&p0))) implies (rc is Ok && vals_view(acc@) == vs0 && p.taken()
            == p1.taken() + enc_elems(tbl@, *ek, vs0, 0).len()) by {
            assert(vs0.take(0) =~= Seq::<SpecValue>::empty());
        }
    }
    match rc {
        Ok(()) => (),
        Err(e) => {
            return Err(e);
        },
    }
    let ghost p2 = *p;
    let re = p.read_set_end();
    proof {
        assert forall|vs0: Seq<SpecValue>|
            (elems_match(tbl@, *ek, vs0) && elems_rt_ok(vs0) && (#[trigger] set_events(
                tbl@,
                *ek,
                vs0,
            )).is_prefix_of(unread(&p0))) implies (re is Ok && p.taken() == p0.taken() + set_events(
            tbl@,
            *ek,
            vs0,
        ).len()) by {
            assert(set_events(tbl@, *ek, vs0) =~= seq![
                SpecEvent::SetBegin(wire_type_of(*ek), vs0.len()),
            ] + (enc_elems(tbl@, *ek, vs0, 0) + seq![SpecEvent::SetEnd]));
            lemma_prefix_split(
                seq![SpecEvent::SetBegin(wire_type_of(*ek), vs0.len())],
                enc_elems(tbl@, *ek, vs0, 0) + seq![SpecEvent::SetEnd],
                unread(&p0),
            );
            lemma_prefix_split(
                enc_elems(tbl@, *ek, vs0, 0),
                seq![SpecEvent::SetEnd],
                unread(&p0).skip(1),
            );
            lemma_unread_skip(&p1, &p2, enc_elems(tbl@, *ek, vs0, 0).len() as int);
            lemma_prefix_index(seq![SpecEvent::SetEnd], unread(&p2), 0);
            assert(unread(&p2)[0] == SpecEvent::SetEnd);
        }
    }
    match re {
        Ok(()) => (),
        Err(e) => {
            return Err(e);
        },
    }
    proof {
        lemma_vals_view(acc@);
    }
    Ok(acc)
}

/// Decodes a map: begin marker with the expected key and value tags and the
/// count, the entries as key/value pairs back to back, the end marker. Pairs
/// are kept in wire order; last write wins is the container's concern.
fn decode_map<P: Protocol>(p: &mut P, tbl: &SchemaTable, kk: &Kind, kv: &Kind) -> (r: Result<
    Vec<(Value, Value)>,
    Error,
>)
    requires
        old(p).inv(),
        table_wf(tbl@),
        kind_wf(*kk, tbl@.len()),
        kind_wf(*kv, tbl@.len()),
    ensures
        final(p).inv(),
        final(p).events() == old(p).events(),
        old(p).taken() <= final(p).taken() <= final(p).events().len(),
        r matches Ok(ps) ==> pairs_match(tbl@, *kk, *kv, pairs_view(ps@)) && old(p).taken()
            < final(p).taken(),
        forall|ps0: Seq<(SpecValue, SpecValue)>|
            (pairs_match(tbl@, *kk, *kv, ps0) && pairs_rt_ok(ps0) && (#[trigger] map_events(
                tbl@,
                *kk,
                *kv,
                ps0,
            )).is_prefix_of(unread(old(p)))) ==> (r matches Ok(ps) && pairs_view(ps@) == ps0
                && final(p).taken() == old(p).taken() + map_events(tbl@, *kk, *kv, ps0).len()),
    decreases old(p).events().len() - old(p).taken(), 2int,
{
    proof {
        p.inv_bound();
    }
    let ghost p0 = *p;
    let rb = p.read_map_begin();
    proof {
        assert forall|ps0: Seq<(SpecValue, SpecValue)>|
            (pairs_match(tbl@, *kk, *kv, ps0) && pairs_rt_ok(ps0) && (#[trigger] map_events(
                tbl@,
                *kk,
                *kv,
                ps0,
            )).is_prefix_of(unread(&p0))) implies (rb matches Ok(v) && v.0 == wire_type_of(*kk)
            && v.1 == wire_type_of(*kv) && v.2 as nat == ps0.len() && enc_pairs(
            tbl@,
            *kk,
            *kv,
            ps0,
            0,
        ).is_prefix_of(unread(&p0).skip(1))) by {
            assert(map_events(tbl@, *kk, *kv, ps0) =~= seq![
                SpecEvent::MapBegin(wire_type_of(*kk), wire_type_of(*kv), ps0.len()),
            ] + (enc_pairs(tbl@, *kk, *kv, ps0, 0) + seq![SpecEvent::MapEnd]));
            lemma_prefix_split(
                seq![SpecEvent::MapBegin(wire_type_of(*kk), wire_type_of(*kv), ps0.len())],
                enc_pairs(tbl@, *kk, *kv, ps0, 0) + seq![SpecEvent::MapEnd],
                unread(&p0),
            );
            lemma_prefix_index(
                seq![SpecEvent::MapBegin(wire_type_of(*kk), wire_type_of(*kv), ps0.len())],
                unread(&p0),
                0,
            );
            assert(unread(&p0)[0] == SpecEvent::MapBegin(
                wire_type_of(*kk),
                wire_type_of(*kv),
                ps0.len(),
            ));
            lemma_prefix_split(
                enc_pairs(tbl@, *kk, *kv, ps0, 0),
                seq![SpecEvent::MapEnd],
                unread(&p0).skip(1),
            );
        }
    }
    let (kt, vt, n) = match rb {
        Ok(v) => v,
        Err(e) => {
            return Err(e);
        },
    };
    if kt != kk.wire_type() || vt != kv.wire_type() {
        return Err(Error::ProtocolViolation);
    }
    let ghost p1 = *p;
    proof {
        lemma_unread_skip(&p0, &p1, 1);
    }
    let mut acc: Vec<(Value, Value)> = Vec::new();
    let rc = decode_pairs(p, tbl, kk, kv, n, &mut acc);
    proof {
        assert(pairs_view(Seq::<(Value, Value)>::empty()) =~= Seq::<(SpecValue, SpecValue)>::empty());
        assert forall|ps0: Seq<(SpecValue, SpecValue)>|
            (pairs_match(tbl@, *kk, *kv, ps0) && pairs_rt_ok(ps0) && (#[trigger] map_events(
                tbl@,
                *kk,
                *kv,
                ps0,
            )).is_prefix_of(unread(&p0))) implies (rc is Ok && pairs_view(acc@) == ps0 && p.taken()
            == p1.taken() + enc_pairs(tbl@, *kk, *kv, ps0, 0).len()) by {
            assert(ps0.take(0) =~= Seq::<(SpecValue, SpecValue)>::empty());
        }
    }
    match rc {
        Ok(()) => (),
        Err(e) => {
            return Err(e);
        },
    }
    let ghost p2 = *p;
    let re = p.read_map_end();
    proof {
        assert forall|ps0: Seq<(SpecValue, SpecValue)>|
            (pairs_match(tbl@, *kk, *kv, ps0) && pairs_rt_ok(ps0) && (#[trigger] map_events(
                tbl@,
                *kk,
                *kv,
                ps0,
            )).is_prefix_of(unread(&p0))) implies (re is Ok && p.taken() == p0.taken() + map_events(
            tbl@,
            *kk,
            *kv,
            ps0,
        ).len()) by {
            assert(map_events(tbl@, *kk, *kv, ps0) =~= seq![
                SpecEvent::MapBegin(wire_type_of(*kk), wire_type_of(*kv), ps0.len()),
            ] + (enc_pairs(tbl@, *kk, *kv, ps0, 0) + seq![SpecEvent::MapEnd]));
            lemma_prefix_split(
                seq![SpecEvent::MapBegin(wire_type_of(*kk), wire_type_of(*kv), ps0.len())],
                enc_pairs(tbl@, *kk, *kv, ps0, 0) + seq![SpecEvent::MapEnd],
                unread(&p0),
            );
            lemma_prefix_split(
                enc_pairs(tbl@, *kk, *kv, ps0, 0),
                seq![SpecEvent::MapEnd],
                unread(&p0).skip(1),
            );
            lemma_unread_skip(&p1, &p2, enc_pairs(tbl@, *kk, *kv, ps0, 0).len() as int);
            lemma_prefix_index(seq![SpecEvent::MapEnd], unread(&p2), 0);
            assert(unread(&p2)[0] == SpecEvent::MapEnd);
        }
    }
    match re {
        Ok(()) => (),
        Err(e) => {
            return Err(e);
        },
    }
    proof {
        lemma_pairs_view(acc@);
    }
    Ok(acc)
}

/// Decodes `n` container elements of one kind, appending them to `acc`.
fn decode_elems<P: Protocol>(
    p: &mut P,
    tbl: &SchemaTable,
    k: &Kind,
    n: usize,
    acc: &mut Vec<Value>,
) -> (r: Result<(), Error>)
    requires
        old(p).inv(),
        table_wf(tbl@),
        kind_wf(*k, tbl@.len()),
    ensures
        final(p).inv(),
        final(p).events() == old(p).events(),
        old(p).taken() <= final(p).taken() <= final(p).events().len(),
        old(acc)@.len() <= final(acc)@.len(),
        forall|t: int| 0 <= t < old(acc)@.len() ==> final(acc)@[t] == old(acc)@[t],
        forall|t: int|
            old(acc)@.len() <= t < final(acc)@.len() ==> value_matches(
                tbl@,
                *k,
                val_view(#[trigger] final(acc)@[t]),
            ),
        r is Ok ==> final(acc)@.len() == old(acc)@.len() + n,
        forall|vs0: Seq<SpecValue>, i: int|
            (0 <= i <= vs0.len() && vs0.len() - i == n && elems_match(tbl@, *k, vs0)
                && elems_rt_ok(vs0) && (#[trigger] enc_elems(tbl@, *k, vs0, i)).is_prefix_of(
                unread(old(p)),
            ) && vals_view(old(acc)@) == vs0.take(i)) ==> (r is Ok && vals_view(final(acc)@) == vs0
                && final(p).taken() == old(p).taken() + enc_elems(tbl@, *k, vs0, i).len()),
    decreases old(p).events().len() - old(p).taken(), 4int,
{
    proof {
        p.inv_bound();
    }
    if n == 0 {
        proof {
            assert forall|vs0: Seq<SpecValue>, i: int|
                (0 <= i <= vs0.len() && vs0.len() - i == n && elems_match(tbl@, *k, vs0)
                    && elems_rt_ok(vs0) && (#[trigger] enc_elems(tbl@, *k, vs0, i)).is_prefix_of(
                    unread(old(p)),
                ) && vals_view(old(acc)@) == vs0.take(i)) implies (vals_view(acc@) == vs0
                && p.taken() == old(p).taken() + enc_elems(tbl@, *k, vs0, i).len()) by {
                assert(vs0.take(i) =~= vs0);
            }
        }
        return Ok(());
    }
    let ghost p0 = *p;
    let ghost acc0 = *acc;
    let rv = decode_value(p, tbl, k);
    let v = match rv {
        Ok(v) => v,
        Err(e) => {
            proof {
                assert forall|vs0: Seq<SpecValue>, i: int|
                    (0 <= i <= vs0.len() && vs0.len() - i == n && elems_match(tbl@, *k, vs0)
                        && elems_rt_ok(vs0) && (#[trigger] enc_elems(
                        tbl@,
                        *k,
                        vs0,
                        i,
                    )).is_prefix_of(unread(&p0)) && vals_view(acc0@) == vs0.take(i)) implies false by {
                    assert(enc_elems(tbl@, *k, vs0, i) == enc_value(tbl@, *k, vs0[i]) + enc_elems(
                        tbl@,
                        *k,
                        vs0,
                        i + 1,
                    ));
                    lemma_prefix_split(
                        enc_value(tbl@, *k, vs0[i]),
                        enc_elems(tbl@, *k, vs0, i + 1),
                        unread(&p0),
                    );
                    assert(value_matches(tbl@, *k, vs0[i]));
                    assert(rt_ok(vs0[i]));
                }
            }
            return Err(e);
        },
    };
    let ghost p1 = *p;
    acc.push(v);
    let ghost acc1 = *acc;
    let rr = decode_elems(p, tbl, k, n - 1, acc);
    proof {
        assert forall|vs0: Seq<SpecValue>, i: int|
            (0 <= i <= vs0.len() && vs0.len() - i == n && elems_match(tbl@, *k, vs0)
                && elems_rt_ok(vs0) && (#[trigger] enc_elems(tbl@, *k, vs0, i)).is_prefix_of(
                unread(&p0),
            ) && vals_view(acc0@) == vs0.take(i)) implies (rr is Ok && vals_view(final(acc)@)
            == vs0 && p.taken() == p0.taken() + enc_elems(tbl@, *k, vs0, i).len()) by {
            assert(enc_elems(tbl@, *k, vs0, i) == enc_value(tbl@, *k, vs0[i]) + enc_elems(
                tbl@,
                *k,
                vs0,
                i + 1,
            ));
            lemma_prefix_split(
                enc_value(tbl@, *k, vs0[i]),
                enc_elems(tbl@, *k, vs0, i + 1),
                unread(&p0),
            );
            assert(value_matches(tbl@, *k, vs0[i]));
            assert(rt_ok(vs0[i]));
            assert(v@ == vs0[i]);
            assert(p1.taken() == p0.taken() + enc_value(tbl@, *k, vs0[i]).len());
            lemma_unread_skip(&p0, &p1, enc_value(tbl@, *k, vs0[i]).len() as int);
            lemma_vals_view_push(acc0@, v);
            assert(vals_view(acc1@) == vs0.take(i).push(vs0[i]));
            assert(vs0.take(i).push(vs0[i]) =~= vs0.take(i + 1));
        }
    }
    match rr {
        Ok(()) => Ok(()),
        Err(e) => Err(e),
    }
}

/// Decodes `n` map entries, appending each key/value pair to `acc`.
fn decode_pairs<P: Protocol>(
    p: &mut P,
    tbl: &SchemaTable,
    kk: &Kind,
    kv: &Kind,
    n: usize,
    acc: &mut Vec<(Value, Value)>,
) -> (r: Result<(), Error>)
    requires
        old(p).inv(),
        table_wf(tbl@),
        kind_wf(*kk, tbl@.len()),
        kind_wf(*kv, tbl@.len()),
    ensures
        final(p).inv(),
        final(p).events() == old(p).events(),
        old(p).taken() <= final(p).taken() <= final(p).events().len(),
        old(acc)@.len() <= final(acc)@.len(),
        forall|t: int| 0 <= t < old(acc)@.len() ==> final(acc)@[t] == old(acc)@[t],
        forall|t: int|
            old(acc)@.len() <= t < final(acc)@.len() ==> value_matches(
                tbl@,
                *kk,
                val_view((#[trigger] final(acc)@[t]).0),
            ) && value_matches(tbl@, *kv, val_view(final(acc)@[t].1)),
        r is Ok ==> final(acc)@.len() == old(acc)@.len() + n,
        forall|ps0: Seq<(SpecValue, SpecValue)>, i: int|
            (0 <= i <= ps0.len() && ps0.len() - i == n && pairs_match(tbl@, *kk, *kv, ps0)
                && pairs_rt_ok(ps0) && (#[trigger] enc_pairs(tbl@, *kk, *kv, ps0, i)).is_prefix_of(
                unread(old(p)),
            ) && pairs_view(old(acc)@) == ps0.take(i)) ==> (r is Ok && pairs_view(final(acc)@)
                == ps0 && final(p).taken() == old(p).taken() + enc_pairs(
                tbl@,
                *kk,
                *kv,
                ps0,
                i,
            ).len()),
    decreases old(p).events().len() - old(p).taken(), 4int,
{
    proof {
        p.inv_bound();
    }
    if n == 0 {
        proof {
            assert forall|ps0: Seq<(SpecValue, SpecValue)>, i: int|
                (0 <= i <= ps0.len() && ps0.len() - i == n && pairs_match(tbl@, *kk, *kv, ps0)
                    && pairs_rt_ok(ps0) && (#[trigger] enc_pairs(
                    tbl@,
                    *kk,
                    *kv,
                    ps0,
                    i,
                )).is_prefix_of(unread(old(p))) && pairs_view(old(acc)@) == ps0.take(i)) implies (
                pairs_view(acc@) == ps0 && p.taken() == old(p).taken() + enc_pairs(
                    tbl@,
                    *kk,
                    *kv,
                    ps0,
                    i,
                ).len()) by {
                assert(ps0.take(i) =~= ps0);
            }
        }
        return Ok(());
    }
    let ghost p0 = *p;
    let ghost acc0 = *acc;
    let rk = decode_value(p, tbl, kk);
    let key = match rk {
        Ok(v) => v,
        Err(e) => {
            proof {
                assert forall|ps0: Seq<(SpecValue, SpecValue)>, i: int|
                    (0 <= i <= ps0.len() && ps0.len() - i == n && pairs_match(tbl@, *kk, *kv, ps0)
                        && pairs_rt_ok(ps0) && (#[trigger] enc_pairs(
                        tbl@,
                        *kk,
                        *kv,
                        ps0,
                        i,
                    )).is_prefix_of(unread(&p0)) && pairs_view(acc0@) == ps0.take(i)) implies false by {
                    assert(enc_pairs(tbl@, *kk, *kv, ps0, i) == enc_value(tbl@, *kk, ps0[i].0) + (
                    enc_value(tbl@, *kv, ps0[i].1) + enc_pairs(tbl@, *kk, *kv, ps0, i + 1)));
                    lemma_prefix_split(
                        enc_value(tbl@, *kk, ps0[i].0),
                        enc_value(tbl@, *kv, ps0[i].1) + enc_pairs(tbl@, *kk, *kv, ps0, i + 1),
                        unread(&p0),
                    );
                    assert(value_matches(tbl@, *kk, ps0[i].0));
                    assert(rt_ok(ps0[i].0));
                }
            }
            return Err(e);
        },
    };
    let ghost p1 = *p;
    let rv = decode_value(p, tbl, kv);
    let val = match rv {
        Ok(v) => v,
        Err(e) => {
            proof {
                assert forall|ps0: Seq<(SpecValue, SpecValue)>, i: int|
                    (0 <= i <= ps0.len() && ps0.len() - i == n && pairs_match(tbl@, *kk, *kv, ps0)
                        && pairs_rt_ok(ps0) && (#[trigger] enc_pairs(
                        tbl@,
                        *kk,
                        *kv,
                        ps0,
                        i,
                    )).is_prefix_of(unread(&p0)) && pairs_view(acc0@) == ps0.take(i)) implies false by {
                    assert(enc_pairs(tbl@, *kk, *kv, ps0, i) == enc_value(tbl@, *kk, ps0[i].0) + (
                    enc_value(tbl@, *kv, ps0[i].1) + enc_pairs(tbl@, *kk, *kv, ps0, i + 1)));
                    lemma_prefix_split(
                        enc_value(tbl@, *kk, ps0[i].0),
                        enc_value(tbl@, *kv, ps0[i].1) + enc_pairs(tbl@, *kk, *kv, ps0, i + 1),
                        unread(&p0),
                    );
                    assert(value_matches(tbl@, *kk, ps0[i].0));
                    assert(rt_ok(ps0[i].0));
                    assert(key@ == ps0[i].0);
                    assert(p1.taken() == p0.taken() + enc_value(tbl@, *kk, ps0[i].0).len());
                    lemma_unread_skip(&p0, &p1, enc_value(tbl@, *kk, ps0[i].0).len() as int);
                    lemma_prefix_split(
                        enc_value(tbl@, *kv, ps0[i].1),
                        enc_pairs(tbl@, *kk, *kv, ps0, i + 1),
                        unread(&p1),
                    );
                    assert(value_matches(tbl@, *kv, ps0[i].1));
                    assert(rt_ok(ps0[i].1));
                }
            }
            return Err(e);
        },
    };
    let ghost p2 = *p;
    acc.push((key, val));
    let ghost acc1 = *acc;
    let rr = decode_pairs(p, tbl, kk, kv, n - 1, acc);
    proof {
        assert forall|ps0: Seq<(SpecValue, SpecValue)>, i: int|
            (0 <= i <= ps0.len() && ps0.len() - i == n && pairs_match(tbl@, *kk, *kv, ps0)
                && pairs_rt_ok(ps0) && (#[trigger] enc_pairs(tbl@, *kk, *kv, ps0, i)).is_prefix_of(
                unread(&p0),
            ) && pairs_view(acc0@) == ps0.take(i)) implies (rr is Ok && pairs_view(final(acc)@)
            == ps0 && p.taken() == p0.taken() + enc_pairs(tbl@, *kk, *kv, ps0, i).len()) by {
            assert(enc_pairs(tbl@, *kk, *kv, ps0, i) == enc_value(tbl@, *kk, ps0[i].0) + (enc_value(
                tbl@,
                *kv,
                ps0[i].1,
            ) + enc_pairs(tbl@, *kk, *kv, ps0, i + 1)));
            lemma_prefix_split(
                enc_value(tbl@, *kk, ps0[i].0),
                enc_value(tbl@, *kv, ps0[i].1) + enc_pairs(tbl@, *kk, *kv, ps0, i + 1),
                unread(&p0),
            );
            assert(value_matches(tbl@, *kk, ps0[i].0));
            assert(rt_ok(ps0[i].0));
            assert(key@ == ps0[i].0);
            assert(p1.taken() == p0.taken() + enc_value(tbl@, *kk, ps0[i].0).len());
            lemma_unread_skip(&p0, &p1, enc_value(tbl@, *kk, ps0[i].0).len() as int);
            lemma_prefix_split(
                enc_value(tbl@, *kv, ps0[i].1),
                enc_pairs(tbl@, *kk, *kv, ps0, i + 1),
                unread(&p1),
            );
            assert(value_matches(tbl@, *kv, ps0[i].1));
            assert(rt_ok(ps0[i].1));
            assert(val@ == ps0[i].1);
            assert(p2.taken() == p1.taken() + enc_value(tbl@, *kv, ps0[i].1).len());
            lemma_unread_skip(&p1, &p2, enc_value(tbl@, *kv, ps0[i].1).len() as int);
            lemma_pairs_view_push(acc0@, (key, val));
            assert(pairs_view(acc1@) == ps0.take(i).push(ps0[i]));
            assert(ps0.take(i).push(ps0[i]) =~= ps0.take(i + 1));
        }
    }
    match rr {
        Ok(()) => Ok(()),
        Err(e) => Err(e),
    }
}


/// Writer schema `sa` and reader schema `sb` agree wherever a field id and
/// its wire tag coincide: the kinds are then identical, so a matched field
/// decodes under the very kind it was written with.
pub open spec fn schemas_agree(sa: Seq<FieldSchema>, sb: Seq<FieldSchema>) -> bool {
    forall|a: int, b: int|
        0 <= a < sa.len() && 0 <= b < sb.len() && (#[trigger] sa[a]).id == (#[trigger] sb[b]).id
            && wire_type_of(sa[a].kind) == wire_type_of(sb[b].kind) ==> sa[a].kind == sb[b].kind
}

/// The reader slot a writer field lands in: the reader index declaring the
/// writer field's id under the same wire tag, if any.
pub open spec fn slot_of(sb: Seq<FieldSchema>, sf: FieldSchema) -> Option<int> {
    if exists|b: int|
        0 <= b < sb.len() && (#[trigger] sb[b]).id == sf.id && wire_type_of(sb[b].kind)
            == wire_type_of(sf.kind) {
        Option::Some(
            choose|b: int|
                0 <= b < sb.len() && (#[trigger] sb[b]).id == sf.id && wire_type_of(sb[b].kind)
                    == wire_type_of(sf.kind),
        )
    } else {
        Option::None
    }
}

/// The reader's view of a writer record after the first `j` writer fields:
/// each present writer field lands in its reader slot, unmatched writer
/// fields are discarded, untouched reader slots stay absent.
pub open spec fn project_fields(
    sa: Seq<FieldSchema>,
    fs0: Seq<Option<SpecValue>>,
    sb: Seq<FieldSchema>,
    j: int,
) -> Seq<Option<SpecValue>>
    decreases j,
{
    if j <= 0 {
        Seq::new(sb.len(), |b: int| Option::None)
    } else {
        let prev = project_fields(sa, fs0, sb, j - 1);
        if 0 <= j - 1 < fs0.len() && fs0[j - 1] is Some && j - 1 < sa.len() && slot_of(
            sb,
            sa[j - 1],
        ) is Some {
            prev.update(slot_of(sb, sa[j - 1])->0, fs0[j - 1])
        } else {
            prev
        }
    }
}

/// Whether any writer field at or after `j` is present and lands in a
/// reader slot.
pub open spec fn any_landed(
    sa: Seq<FieldSchema>,
    fs0: Seq<Option<SpecValue>>,
    sb: Seq<FieldSchema>,
    j: int,
) -> bool {
    exists|a: int|
        j <= a < fs0.len() && a < sa.len() && (#[trigger] fs0[a]) is Some && slot_of(
            sb,
            sa[a],
        ) is Some
}

/// The projection keeps the reader's slot count.
proof fn lemma_project_len(
    sa: Seq<FieldSchema>,
    fs0: Seq<Option<SpecValue>>,
    sb: Seq<FieldSchema>,
    j: int,
)
    requires
        j >= 0,
    ensures
        project_fields(sa, fs0, sb, j).len() == sb.len(),
        forall|m: int|
            0 <= m < sb.len() ==> (#[trigger] project_fields(sa, fs0, sb, j)[m]) is Some
                ==> exists|a: int|
                0 <= a < j && a < fs0.len() && a < sa.len() && fs0[a] is Some && slot_of(
                    sb,
                    sa[a],
                ) == Option::Some(m) && project_fields(sa, fs0, sb, j)[m] == fs0[a],
    decreases j,
{
    if j > 0 {
        lemma_project_len(sa, fs0, sb, j - 1);
    }
}

/// Writer fields that are absent or land nowhere leave the projection as it
/// stands.
proof fn lemma_project_absent_range(
    sa: Seq<FieldSchema>,
    fs0: Seq<Option<SpecValue>>,
    sb: Seq<FieldSchema>,
    j: int,
    e: int,
)
    requires
        0 <= j <= e,
        forall|a: int| j <= a < e ==> !((#[trigger] fs0[a]) is Some),
    ensures
        project_fields(sa, fs0, sb, e) == project_fields(sa, fs0, sb, j),
    decreases e - j,
{
    if e > j {
        lemma_project_absent_range(sa, fs0, sb, j, e - 1);
    }
}

/// One evolution step of the decoder's state: the hypothesis that the
/// remaining wire fields are the writer's encoding from index `j` on, that
/// the schemas agree, and that the accumulator holds the projection of what
/// was already consumed.
pub open spec fn evolution_hyp(
    tbl: Seq<RecordSchema>,
    sa: Seq<FieldSchema>,
    fs0: Seq<Option<SpecValue>>,
    sb: Seq<FieldSchema>,
    j: int,
    s: Seq<SpecEvent>,
    acc: Seq<Option<Value>>,
) -> bool {
    &&& 0 <= j <= fs0.len()
    &&& sa.len() == fs0.len()
    &&& fields_match(tbl, sa, fs0)
    &&& fields_rt_ok(fs0)
    &&& schemas_agree(sa, sb)
    &&& (enc_fields(tbl, sa, fs0, j) + seq![SpecEvent::FieldStop]).is_prefix_of(s)
    &&& acc.len() == sb.len()
    &&& forall|m: int|
        0 <= m < acc.len() ==> opt_view(#[trigger] acc[m]) == project_fields(sa, fs0, sb, j)[m]
}

/// The whole-record evolution hypothesis: the unread stream begins with a
/// writer record image, schemas agree, at least one written field lands in a
/// reader slot, and every non-optional reader field is landed on.
pub open spec fn record_evolution_hyp(
    tbl: Seq<RecordSchema>,
    name_a: Seq<char>,
    sa: Seq<FieldSchema>,
    fs0: Seq<Option<SpecValue>>,
    sb: Seq<FieldSchema>,
    s: Seq<SpecEvent>,
) -> bool {
    &&& sa.len() == fs0.len()
    &&& fields_match(tbl, sa, fs0)
    &&& fields_rt_ok(fs0)
    &&& schemas_agree(sa, sb)
    &&& any_landed(sa, fs0, sb, 0)
    &&& forall|m: int|
        0 <= m < sb.len() && !(#[trigger] sb[m]).optional ==> project_fields(
            sa,
            fs0,
            sb,
            fs0.len() as int,
        )[m] is Some
    &&& enc_record(tbl, name_a, sa, fs0).is_prefix_of(s)
}

/// How a record's field stream from schema index `j` on opens: with the
/// field stop if no field at or after `j` is present, else with the framing
/// of the first present field, followed by its value, its field end, and the
/// rest of the fields.
proof fn lemma_fields_stream(
    tbl: Seq<RecordSchema>,
    schema: Seq<FieldSchema>,
    fs0: Seq<Option<SpecValue>>,
    j: int,
    s: Seq<SpecEvent>,
)
    requires
        0 <= j <= fs0.len(),
        fs0.len() == schema.len(),
        fields_match(tbl, schema, fs0),
        (enc_fields(tbl, schema, fs0, j) + seq![SpecEvent::FieldStop]).is_prefix_of(s),
    ensures
        j <= first_present(fs0, j) <= fs0.len(),
        forall|m2: int| j <= m2 < first_present(fs0, j) ==> fs0[m2] is None,
        s.len() >= 1,
        first_present(fs0, j) == fs0.len() ==> s[0] == SpecEvent::FieldStop && enc_fields(
            tbl,
            schema,
            fs0,
            j,
        ).len() == 0,
        first_present(fs0, j) < fs0.len() ==> {
            let fp = first_present(fs0, j);
            let ev = enc_value(tbl, schema[fp].kind, fs0[fp]->0);
            &&& fs0[fp] is Some
            &&& s[0] == SpecEvent::FieldBegin(
                schema[fp].name@,
                wire_type_of(schema[fp].kind),
                schema[fp].id,
            )
            &&& ev.is_prefix_of(s.skip(1))
            &&& s.skip(1).len() > ev.len()
            &&& s.skip(1)[ev.len() as int] == SpecEvent::FieldEnd
            &&& (enc_fields(tbl, schema, fs0, fp + 1) + seq![SpecEvent::FieldStop]).is_prefix_of(
                s.skip(1).skip(ev.len() as int + 1),
            )
            &&& enc_fields(tbl, schema, fs0, j).len() == 2 + ev.len() + enc_fields(
                tbl,
                schema,
                fs0,
                fp + 1,
            ).len()
        },
{
    lemma_first_present(fs0, j);
    lemma_enc_fields_skip(tbl, schema, fs0, j);
    let fp = first_present(fs0, j);
    if fp == fs0.len() {
        assert(enc_fields(tbl, schema, fs0, j) + seq![SpecEvent::FieldStop] =~= seq![
            SpecEvent::FieldStop,
        ]);
        lemma_prefix_index(seq![SpecEvent::FieldStop], s, 0);
    } else {
        let fb = SpecEvent::FieldBegin(
            schema[fp].name@,
            wire_type_of(schema[fp].kind),
            schema[fp].id,
        );
        let ev = enc_value(tbl, schema[fp].kind, fs0[fp]->0);
        let rest = enc_fields(tbl, schema, fs0, fp + 1);
        assert(enc_fields(tbl, schema, fs0, j) + seq![SpecEvent::FieldStop] =~= seq![fb] + (ev + (
        seq![SpecEvent::FieldEnd] + (rest + seq![SpecEvent::FieldStop]))));
        lemma_prefix_split(
            seq![fb],
            ev + (seq![SpecEvent::FieldEnd] + (rest + seq![SpecEvent::FieldStop])),
            s,
        );
        lemma_prefix_index(seq![fb], s, 0);
        lemma_prefix_split(
            ev,
            seq![SpecEvent::FieldEnd] + (rest + seq![SpecEvent::FieldStop]),
            s.skip(1),
        );
        lemma_prefix_split(
            seq![SpecEvent::FieldEnd],
            rest + seq![SpecEvent::FieldStop],
            s.skip(1).skip(ev.len() as int),
        );
        lemma_prefix_index(seq![SpecEvent::FieldEnd], s.skip(1).skip(ev.len() as int), 0);
        assert(s.skip(1)[ev.len() as int] == s.skip(1).skip(ev.len() as int)[0]);
        assert(s.skip(1).skip(ev.len() as int).skip(1) =~= s.skip(1).skip(ev.len() as int + 1));
    }
}

/// Decodes one record of the schema at table index `si`: struct framing, a
/// field loop matching fields by (wire type, id) and skipping unrecognized
/// ones, closed by the field stop. A record in which no declared field was
/// decoded, or in which a non-optional field never appeared, is a protocol
/// violation. If the unread stream begins with the canonical image of a
/// record instance with at least one present field, exactly that instance
/// comes back. Unknown-field tolerance is part of the contract: when the
/// stream holds the image written under any other schema that agrees with
/// this one wherever a field id and wire tag coincide, decoding succeeds,
/// lands each written field in the slot declaring its id and tag, leaves
/// the other slots absent, and silently discards the extra fields' events.
#[verifier::loop_isolation(false)]
#[verifier::rlimit(100)]
#[verifier::spinoff_prover]
pub fn decode_record<P: Protocol>(p: &mut P, tbl: &SchemaTable, si: usize) -> (r: Result<
    Record,
    Error,
>)
    requires
        old(p).inv(),
        table_wf(tbl@),
        si < tbl@.len(),
    ensures
        final(p).inv(),
        final(p).events() == old(p).events(),
        old(p).taken() <= final(p).taken() <= final(p).events().len(),
        r matches Ok(rec) ==> fields_match(tbl@, tbl@[si as int].fields@, rec@) && old(p).taken()
            < final(p).taken(),
        forall|fs0: Seq<Option<SpecValue>>|
            (fields_match(tbl@, tbl@[si as int].fields@, fs0) && fields_rt_ok(fs0) && (exists|
                j: int,
            | 0 <= j < fs0.len() && fs0[j] is Some) && (#[trigger] enc_record(
                tbl@,
                tbl@[si as int].name@,
                tbl@[si as int].fields@,
                fs0,
            )).is_prefix_of(unread(old(p)))) ==> (r matches Ok(rec) && rec@ == fs0 && final(p).taken() == old(p).taken() + enc_record(
                tbl@,
                tbl@[si as int].name@,
                tbl@[si as int].fields@,
                fs0,
            ).len()),
        forall|name_a: Seq<char>, sa: Seq<FieldSchema>, fs0: Seq<Option<SpecValue>>|
            (#[trigger] record_evolution_hyp(
                tbl@,
                name_a,
                sa,
                fs0,
                tbl@[si as int].fields@,
                unread(old(p)),
            )) ==> (r matches Ok(rec) && rec@ == project_fields(
                sa,
                fs0,
                tbl@[si as int].fields@,
                fs0.len() as int,
            ) && final(p).taken() == old(p).taken() + enc_record(tbl@, name_a, sa, fs0).len()),
    decreases old(p).events().len() - old(p).taken(), 2int,
{
    proof {
        p.inv_bound();
        assert(schema_wf(tbl@[si as int], tbl@.len()));
    }
    let ghost p0 = *p;
    let ghost name0 = tbl@[si as int].name@;
    let ghost schema0 = tbl@[si as int].fields@;
    let rs = &tbl[si];
    let rb = p.read_struct_begin();
    proof {
        assert forall|fs0: Seq<Option<SpecValue>>|
            (fields_match(tbl@, schema0, fs0) && fields_rt_ok(fs0) && (exists|j: int|
                0 <= j < fs0.len() && fs0[j] is Some) && (#[trigger] enc_record(
                tbl@,
                name0,
                schema0,
                fs0,
            )).is_prefix_of(unread(&p0))) implies (rb is Ok && (enc_fields(tbl@, schema0, fs0, 0)
            + seq![SpecEvent::FieldStop]).is_prefix_of(unread(&p0).skip(1))) by {
            assert(enc_record(tbl@, name0, schema0, fs0) =~= seq![SpecEvent::StructBegin(name0)]
                + ((enc_fields(tbl@, schema0, fs0, 0) + seq![SpecEvent::FieldStop]) + seq![
                SpecEvent::StructEnd,
            ]));
            lemma_prefix_split(
                seq![SpecEvent::StructBegin(name0)],
                (enc_fields(tbl@, schema0, fs0, 0) + seq![SpecEvent::FieldStop]) + seq![
                    SpecEvent::StructEnd,
                ],
                unread(&p0),
            );
            lemma_prefix_index(seq![SpecEvent::StructBegin(name0)], unread(&p0), 0);
            lemma_prefix_split(
                enc_fields(tbl@, schema0, fs0, 0) + seq![SpecEvent::FieldStop],
                seq![SpecEvent::StructEnd],
                unread(&p0).skip(1),
            );
        }
        assert forall|name_a: Seq<char>, sa: Seq<FieldSchema>, fs0: Seq<Option<SpecValue>>|
            #[trigger] record_evolution_hyp(tbl@, name_a, sa, fs0, schema0, unread(&p0)) implies (rb is Ok && (enc_fields(
            tbl@,
            sa,
            fs0,
            0,
        ) + seq![SpecEvent::FieldStop]).is_prefix_of(unread(&p0).skip(1))) by {
            lemma_struct_image_split(tbl@, name_a, sa, fs0, unread(&p0));
            assert(unread(&p0)[0] == p0.events()[p0.taken() as int]);
        }
    }
    let _name = match rb {
        Ok(n) => n,
        Err(e) => {
            return Err(e);
        },
    };
    let ghost p1 = *p;
    proof {
        lemma_unread_skip(&p0, &p1, 1);
    }
    let mut acc: Vec<Option<Value>> = Vec::new();
    let mut t: usize = 0;
    while t < rs.fields.len()
        invariant
            acc@.len() == t,
            t <= rs.fields@.len(),
            forall|m: int| 0 <= m < t ==> (#[trigger] acc@[m]) is None,
        decreases rs.fields@.len() - t,
    {
        acc.push(None);
        t = t + 1;
    }
    let mut matched = false;
    let ghost acc1 = acc;
    let rf = decode_fields(p, tbl, &rs.fields, &mut acc, &mut matched);
    proof {
        assert forall|fs0: Seq<Option<SpecValue>>|
            (fields_match(tbl@, schema0, fs0) && fields_rt_ok(fs0) && (exists|j: int|
                0 <= j < fs0.len() && fs0[j] is Some) && (#[trigger] enc_record(
                tbl@,
                name0,
                schema0,
                fs0,
            )).is_prefix_of(unread(&p0))) implies (rf is Ok && (forall|m: int|
            0 <= m < fs0.len() ==> opt_view(acc@[m]) == fs0[m]) && matched && p.taken()
            == p1.taken() + enc_fields(tbl@, schema0, fs0, 0).len() + 1) by {
            assert(forall|m: int| 0 <= m < fs0.len() ==> acc1@[m] is None);
        }
        assert forall|name_a: Seq<char>, sa: Seq<FieldSchema>, fs0: Seq<Option<SpecValue>>|
            #[trigger] record_evolution_hyp(tbl@, name_a, sa, fs0, schema0, unread(&p0)) implies (rf is Ok && (forall|m: int|
            0 <= m < acc@.len() ==> opt_view(#[trigger] acc@[m]) == project_fields(
                sa,
                fs0,
                schema0,
                fs0.len() as int,
            )[m]) && matched && p.taken() == p1.taken() + enc_fields(tbl@, sa, fs0, 0).len()
            + 1) by {
            lemma_struct_image_split(tbl@, name_a, sa, fs0, unread(&p0));
            lemma_project_len(sa, fs0, schema0, 0);
            assert(forall|m: int|
                0 <= m < acc1@.len() ==> opt_view(#[trigger] acc1@[m]) == project_fields(
                    sa,
                    fs0,
                    schema0,
                    0,
                )[m]);
            assert(evolution_hyp(tbl@, sa, fs0, schema0, 0, unread(&p1), acc1@));
        }
    }
    match rf {
        Ok(()) => (),
        Err(e) => {
            return Err(e);
        },
    }
    let ghost p2 = *p;
    let re = p.read_struct_end();
    proof {
        assert forall|fs0: Seq<Option<SpecValue>>|
            (fields_match(tbl@, schema0, fs0) && fields_rt_ok(fs0) && (exists|j: int|
                0 <= j < fs0.len() && fs0[j] is Some) && (#[trigger] enc_record(
                tbl@,
                name0,
                schema0,
                fs0,
            )).is_prefix_of(unread(&p0))) implies (re is Ok && p.taken() == p0.taken()
            + enc_record(tbl@, name0, schema0, fs0).len()) by {
            assert(enc_record(tbl@, name0, schema0, fs0) =~= seq![SpecEvent::StructBegin(name0)]
                + ((enc_fields(tbl@, schema0, fs0, 0) + seq![SpecEvent::FieldStop]) + seq![
                SpecEvent::StructEnd,
            ]));
            lemma_prefix_split(
                seq![SpecEvent::StructBegin(name0)],
                (enc_fields(tbl@, schema0, fs0, 0) + seq![SpecEvent::FieldStop]) + seq![
                    SpecEvent::StructEnd,
                ],
                unread(&p0),
            );
            lemma_prefix_split(
                enc_fields(tbl@, schema0, fs0, 0) + seq![SpecEvent::FieldStop],
                seq![SpecEvent::StructEnd],
                unread(&p0).skip(1),
            );
            lemma_unread_skip(
                &p1,
                &p2,
                enc_fields(tbl@, schema0, fs0, 0).len() as int + 1,
            );
            lemma_prefix_index(seq![SpecEvent::StructEnd], unread(&p2), 0);
            assert(unread(&p2)[0] == SpecEvent::StructEnd);
        }
        assert forall|name_a: Seq<char>, sa: Seq<FieldSchema>, fs0: Seq<Option<SpecValue>>|
            #[trigger] record_evolution_hyp(tbl@, name_a, sa, fs0, schema0, unread(&p0)) implies (re is Ok && p.taken() == p0.taken() + enc_record(
            tbl@,
            name_a,
            sa,
            fs0,
        ).len()) by {
            lemma_struct_image_split(tbl@, name_a, sa, fs0, unread(&p0));
            lemma_unread_skip(&p1, &p2, enc_fields(tbl@, sa, fs0, 0).len() as int + 1);
            lemma_prefix_index(seq![SpecEvent::StructEnd], unread(&p2), 0);
            assert(unread(&p2)[0] == p2.events()[p2.taken() as int]);
        }
    }
    match re {
        Ok(()) => (),
        Err(e) => {
            return Err(e);
        },
    }
    if !matched {
        proof {
            assert forall|name_a: Seq<char>, sa: Seq<FieldSchema>, fs0: Seq<Option<SpecValue>>|
            #[trigger] record_evolution_hyp(tbl@, name_a, sa, fs0, schema0, unread(&p0)) implies false by {
                lemma_struct_image_split(tbl@, name_a, sa, fs0, unread(&p0));
            }
        }
        return Err(Error::ProtocolViolation);
    }
    let mut m: usize = 0;
    while m < rs.fields.len()
        invariant
            acc@.len() == rs.fields@.len(),
            m <= rs.fields@.len(),
            forall|t2: int|
                0 <= t2 < m ==> ((#[trigger] acc@[t2]) is None ==> rs.fields@[t2].optional),
        decreases rs.fields@.len() - m,
    {
        if acc[m].is_none() && !rs.fields[m].optional {
            proof {
                assert forall|fs0: Seq<Option<SpecValue>>|
                    (fields_match(tbl@, schema0, fs0) && fields_rt_ok(fs0) && (exists|j: int|
                        0 <= j < fs0.len() && fs0[j] is Some) && (#[trigger] enc_record(
                        tbl@,
                        name0,
                        schema0,
                        fs0,
                    )).is_prefix_of(unread(&p0))) implies false by {
                    assert(opt_view(acc@[m as int]) == fs0[m as int]);
                    assert(fs0[m as int] is None);
                }
                assert forall|name_a: Seq<char>, sa: Seq<FieldSchema>, fs0: Seq<Option<SpecValue>>|
            #[trigger] record_evolution_hyp(tbl@, name_a, sa, fs0, schema0, unread(&p0)) implies false by {
                    lemma_struct_image_split(tbl@, name_a, sa, fs0, unread(&p0));
                    assert(opt_view(acc@[m as int]) == project_fields(
                        sa,
                        fs0,
                        schema0,
                        fs0.len() as int,
                    )[m as int]);
                    assert(!schema0[m as int].optional);
                }
            }
            return Err(Error::ProtocolViolation);
        }
        m = m + 1;
    }
    proof {
        lemma_fields_view(acc@);
        assert forall|fs0: Seq<Option<SpecValue>>|
            (fields_match(tbl@, schema0, fs0) && fields_rt_ok(fs0) && (exists|j: int|
                0 <= j < fs0.len() && fs0[j] is Some) && (#[trigger] enc_record(
                tbl@,
                name0,
                schema0,
                fs0,
            )).is_prefix_of(unread(&p0))) implies fields_view(acc@) == fs0 by {
            assert(fields_view(acc@) =~= fs0);
        }
        assert forall|name_a: Seq<char>, sa: Seq<FieldSchema>, fs0: Seq<Option<SpecValue>>|
            #[trigger] record_evolution_hyp(tbl@, name_a, sa, fs0, schema0, unread(&p0)) implies
        fields_view(acc@) == project_fields(sa, fs0, schema0, fs0.len() as int) by {
            lemma_struct_image_split(tbl@, name_a, sa, fs0, unread(&p0));
            lemma_project_len(sa, fs0, schema0, fs0.len() as int);
            assert(fields_view(acc@) =~= project_fields(sa, fs0, schema0, fs0.len() as int));
        }
    }
    Ok(Record { fields: acc })
}

/// Reads wire fields until the field stop: a field whose (wire type, id)
/// matches a declared field is decoded into its slot, any other field is
/// skipped whole.
#[verifier::rlimit(100)]
#[verifier::spinoff_prover]
fn decode_fields<P: Protocol>(
    p: &mut P,
    tbl: &SchemaTable,
    schema: &Vec<FieldSchema>,
    acc: &mut Vec<Option<Value>>,
    matched: &mut bool,
) -> (r: Result<(), Error>)
    requires
        old(p).inv(),
        table_wf(tbl@),
        ids_unique(schema@),
        forall|m: int| 0 <= m < schema@.len() ==> kind_wf((#[trigger] schema@[m]).kind, tbl@.len()),
        old(acc)@.len() == schema@.len(),
    ensures
        final(p).inv(),
        final(p).events() == old(p).events(),
        old(p).taken() <= final(p).taken() <= final(p).events().len(),
        final(acc)@.len() == old(acc)@.len(),
        forall|m: int|
            0 <= m < final(acc)@.len() ==> (#[trigger] final(acc)@[m]) == old(acc)@[m] || (
            final(acc)@[m] matches Some(v) && value_matches(tbl@, schema@[m].kind, val_view(v))),
        r is Ok ==> old(p).taken() < final(p).taken(),
        forall|fs0: Seq<Option<SpecValue>>, j: int|
            (0 <= j <= fs0.len() && fs0.len() == schema@.len() && fields_match(tbl@, schema@, fs0)
                && fields_rt_ok(fs0) && ((#[trigger] enc_fields(tbl@, schema@, fs0, j)) + seq![
                SpecEvent::FieldStop,
            ]).is_prefix_of(unread(old(p))) && (forall|m: int|
                0 <= m < j ==> opt_view(old(acc)@[m]) == fs0[m]) && (forall|m: int|
                j <= m < fs0.len() ==> old(acc)@[m] is None)) ==> (r is Ok && (forall|m: int|
                0 <= m < fs0.len() ==> opt_view(final(acc)@[m]) == fs0[m]) && final(p).taken()
                == old(p).taken() + enc_fields(tbl@, schema@, fs0, j).len() + 1 && (*final(matched)
                <==> (*old(matched) || exists|m: int| j <= m < fs0.len() && fs0[m] is Some))),
        forall|sa: Seq<FieldSchema>, fs0: Seq<Option<SpecValue>>, j: int|
            (#[trigger] evolution_hyp(tbl@, sa, fs0, schema@, j, unread(old(p)), old(acc)@)) ==> (
            r is Ok && (forall|m: int|
                0 <= m < final(acc)@.len() ==> opt_view(final(acc)@[m]) == project_fields(
                    sa,
                    fs0,
                    schema@,
                    fs0.len() as int,
                )[m]) && final(p).taken() == old(p).taken() + enc_fields(tbl@, sa, fs0, j).len() + 1
                && (*final(matched) <==> (*old(matched) || any_landed(sa, fs0, schema@, j)))),
    decreases old(p).events().len() - old(p).taken(), 4int,
{
    proof {
        p.inv_bound();
    }
    let ghost p0 = *p;
    let ghost acc0 = *acc;
    let ghost m0 = *matched;
    let rb = p.read_field_begin();
    proof {
        assert forall|fs0: Seq<Option<SpecValue>>, j: int|
            (0 <= j <= fs0.len() && fs0.len() == schema@.len() && fields_match(tbl@, schema@, fs0)
                && fields_rt_ok(fs0) && ((#[trigger] enc_fields(tbl@, schema@, fs0, j)) + seq![
                SpecEvent::FieldStop,
            ]).is_prefix_of(unread(&p0)) && (forall|m: int|
                0 <= m < j ==> opt_view(acc0@[m]) == fs0[m]) && (forall|m: int|
                j <= m < fs0.len() ==> acc0@[m] is None)) implies (rb matches Ok(h) && (
            first_present(fs0, j) == fs0.len() ==> h.1 == WireType::TStop) && (first_present(
                fs0,
                j,
            ) < fs0.len() ==> h.1 == wire_type_of(schema@[first_present(fs0, j)].kind) && h.2
                == schema@[first_present(fs0, j)].id && h.1 != WireType::TStop)) by {
            lemma_fields_stream(tbl@, schema@, fs0, j, unread(&p0));
            assert(unread(&p0)[0] == p0.events()[p0.taken() as int]);
        }
        assert forall|sa: Seq<FieldSchema>, fs0: Seq<Option<SpecValue>>, j: int|
            #[trigger] evolution_hyp(tbl@, sa, fs0, schema@, j, unread(&p0), acc0@) implies (
        rb matches Ok(h) && (first_present(fs0, j) == fs0.len() ==> h.1 == WireType::TStop) && (
        first_present(fs0, j) < fs0.len() ==> h.1 == wire_type_of(
            sa[first_present(fs0, j)].kind,
        ) && h.2 == sa[first_present(fs0, j)].id && h.1 != WireType::TStop)) by {
            lemma_fields_stream(tbl@, sa, fs0, j, unread(&p0));
            assert(unread(&p0)[0] == p0.events()[p0.taken() as int]);
        }
    }
    let (_fname, ftype, fid) = match rb {
        Ok(v) => v,
        Err(e) => {
            return Err(e);
        },
    };
    let ghost p1 = *p;
    proof {
        lemma_unread_skip(&p0, &p1, 1);
    }
    if let WireType::TStop = ftype {
        proof {
            assert forall|fs0: Seq<Option<SpecValue>>, j: int|
                (0 <= j <= fs0.len() && fs0.len() == schema@.len() && fields_match(
                    tbl@,
                    schema@,
                    fs0,
                ) && fields_rt_ok(fs0) && ((#[trigger] enc_fields(tbl@, schema@, fs0, j)) + seq![
                    SpecEvent::FieldStop,
                ]).is_prefix_of(unread(&p0)) && (forall|m: int|
                    0 <= m < j ==> opt_view(acc0@[m]) == fs0[m]) && (forall|m: int|
                    j <= m < fs0.len() ==> acc0@[m] is None)) implies ((forall|m: int|
                0 <= m < fs0.len() ==> opt_view(acc@[m]) == fs0[m]) && p.taken() == p0.taken()
                + enc_fields(tbl@, schema@, fs0, j).len() + 1 && (*matched <==> (m0 || exists|
                m: int,
            | j <= m < fs0.len() && fs0[m] is Some))) by {
                lemma_fields_stream(tbl@, schema@, fs0, j, unread(&p0));
                assert(first_present(fs0, j) == fs0.len());
                assert(forall|m: int| j <= m < fs0.len() ==> fs0[m] is None);
                assert(forall|m: int|
                    0 <= m < fs0.len() ==> opt_view(acc@[m]) == fs0[m]) by {
                    assert(forall|m: int| j <= m < fs0.len() ==> opt_view(acc0@[m]) == fs0[m]);
                }
                assert(!(exists|m: int| j <= m < fs0.len() && fs0[m] is Some));
            }
            assert forall|sa: Seq<FieldSchema>, fs0: Seq<Option<SpecValue>>, j: int|
                #[trigger] evolution_hyp(tbl@, sa, fs0, schema@, j, unread(&p0), acc0@) implies ((
            forall|m: int|
                0 <= m < acc@.len() ==> opt_view(#[trigger] acc@[m]) == project_fields(
                    sa,
                    fs0,
                    schema@,
                    fs0.len() as int,
                )[m]) && p.taken() == p0.taken() + enc_fields(tbl@, sa, fs0, j).len() + 1 && (
            *matched <==> (m0 || any_landed(sa, fs0, schema@, j)))) by {
                lemma_fields_stream(tbl@, sa, fs0, j, unread(&p0));
                assert(first_present(fs0, j) == fs0.len());
                assert(forall|a: int| j <= a < fs0.len() ==> fs0[a] is None);
                lemma_project_absent_range(sa, fs0, schema@, j, fs0.len() as int);
                lemma_project_len(sa, fs0, schema@, j);
                assert(!any_landed(sa, fs0, schema@, j));
            }
        }
        return Ok(());
    }
    match find_field(schema, ftype, fid) {
        Some(fm) => {
            proof {
                assert forall|fs0: Seq<Option<SpecValue>>, j: int|
                    (0 <= j <= fs0.len() && fs0.len() == schema@.len() && fields_match(
                        tbl@,
                        schema@,
                        fs0,
                    ) && fields_rt_ok(fs0) && ((#[trigger] enc_fields(tbl@, schema@, fs0, j))
                        + seq![SpecEvent::FieldStop]).is_prefix_of(unread(&p0)) && (forall|m: int|
                        0 <= m < j ==> opt_view(acc0@[m]) == fs0[m]) && (forall|m: int|
                        j <= m < fs0.len() ==> acc0@[m] is None)) implies (fm as int
                    == first_present(fs0, j) && first_present(fs0, j) < fs0.len() && enc_value(
                    tbl@,
                    schema@[fm as int].kind,
                    fs0[fm as int]->0,
                ).is_prefix_of(unread(&p1)) && value_matches(
                    tbl@,
                    schema@[fm as int].kind,
                    fs0[fm as int]->0,
                ) && rt_ok(fs0[fm as int]->0)) by {
                    lemma_fields_stream(tbl@, schema@, fs0, j, unread(&p0));
                    let fp = first_present(fs0, j);
                    assert(fp < fs0.len());
                    assert(schema@[fm as int].id == schema@[fp].id);
                    assert(fm as int == fp);
                }
                assert forall|sa: Seq<FieldSchema>, fs0: Seq<Option<SpecValue>>, j: int|
                    #[trigger] evolution_hyp(tbl@, sa, fs0, schema@, j, unread(&p0), acc0@) implies ({
                    let fp = first_present(fs0, j);
                    &&& fp < fs0.len()
                    &&& slot_of(schema@, sa[fp]) == Option::Some(fm as int)
                    &&& schema@[fm as int].kind == sa[fp].kind
                    &&& enc_value(tbl@, schema@[fm as int].kind, fs0[fp]->0).is_prefix_of(
                        unread(&p1),
                    )
                    &&& value_matches(tbl@, schema@[fm as int].kind, fs0[fp]->0)
                    &&& rt_ok(fs0[fp]->0)
                }) by {
                    lemma_fields_stream(tbl@, sa, fs0, j, unread(&p0));
                    let fp = first_present(fs0, j);
                    assert(fp < fs0.len());
                    assert(ftype == wire_type_of(sa[fp].kind) && fid == sa[fp].id);
                    assert(schema@[fm as int].id == sa[fp].id && wire_type_of(
                        schema@[fm as int].kind,
                    ) == wire_type_of(sa[fp].kind));
                    assert(slot_of(schema@, sa[fp]) is Some);
                    let b = slot_of(schema@, sa[fp])->0;
                    assert(0 <= b < schema@.len() && schema@[b].id == sa[fp].id);
                    assert(b == fm as int);
                    assert(schema@[fm as int].kind == sa[fp].kind);
                }
            }
            let rv = decode_value(p, tbl, &schema[fm].kind);
            let v = match rv {
                Ok(v) => v,
                Err(e) => {
                    return Err(e);
                },
            };
            let ghost p2 = *p;
            acc.set(fm, Some(v));
            *matched = true;
            let ghost acc2 = *acc;
            let rfe = p.read_field_end();
            proof {
                assert forall|fs0: Seq<Option<SpecValue>>, j: int|
                    (0 <= j <= fs0.len() && fs0.len() == schema@.len() && fields_match(
                        tbl@,
                        schema@,
                        fs0,
                    ) && fields_rt_ok(fs0) && ((#[trigger] enc_fields(tbl@, schema@, fs0, j))
                        + seq![SpecEvent::FieldStop]).is_prefix_of(unread(&p0)) && (forall|m: int|
                        0 <= m < j ==> opt_view(acc0@[m]) == fs0[m]) && (forall|m: int|
                        j <= m < fs0.len() ==> acc0@[m] is None)) implies (rfe is Ok && p.taken()
                    == p1.taken() + enc_value(tbl@, schema@[fm as int].kind, fs0[fm as int]->0).len()
                    + 1) by {
                    lemma_fields_stream(tbl@, schema@, fs0, j, unread(&p0));
                    let ev = enc_value(tbl@, schema@[fm as int].kind, fs0[fm as int]->0);
                    assert(p2.taken() == p1.taken() + ev.len());
                    lemma_unread_skip(&p1, &p2, ev.len() as int);
                    assert(unread(&p2)[0] == unread(&p0).skip(1)[ev.len() as int]);
                    assert(unread(&p2)[0] == SpecEvent::FieldEnd);
                }
                assert forall|sa: Seq<FieldSchema>, fs0: Seq<Option<SpecValue>>, j: int|
                    #[trigger] evolution_hyp(tbl@, sa, fs0, schema@, j, unread(&p0), acc0@) implies (
                rfe is Ok && p.taken() == p1.taken() + enc_value(
                    tbl@,
                    schema@[fm as int].kind,
                    fs0[first_present(fs0, j)]->0,
                ).len() + 1) by {
                    lemma_fields_stream(tbl@, sa, fs0, j, unread(&p0));
                    let fp = first_present(fs0, j);
                    let ev = enc_value(tbl@, sa[fp].kind, fs0[fp]->0);
                    assert(v@ == fs0[fp]->0);
                    assert(p2.taken() == p1.taken() + ev.len());
                    lemma_unread_skip(&p1, &p2, ev.len() as int);
                    assert(unread(&p2)[0] == unread(&p0).skip(1)[ev.len() as int]);
                    assert(unread(&p2)[0] == SpecEvent::FieldEnd);
                    assert(unread(&p2)[0] == p2.events()[p2.taken() as int]);
                }
            }
            match rfe {
                Ok(()) => (),
                Err(e) => {
                    return Err(e);
                },
            }
            let ghost p3 = *p;
            let rr = decode_fields(p, tbl, schema, acc, matched);
            proof {
                assert forall|fs0: Seq<Option<SpecValue>>, j: int|
                    (0 <= j <= fs0.len() && fs0.len() == schema@.len() && fields_match(
                        tbl@,
                        schema@,
                        fs0,
                    ) && fields_rt_ok(fs0) && ((#[trigger] enc_fields(tbl@, schema@, fs0, j))
                        + seq![SpecEvent::FieldStop]).is_prefix_of(unread(&p0)) && (forall|m: int|
                        0 <= m < j ==> opt_view(acc0@[m]) == fs0[m]) && (forall|m: int|
                        j <= m < fs0.len() ==> acc0@[m] is None)) implies (rr is Ok && (forall|
                    m: int,
                |
                    0 <= m < fs0.len() ==> opt_view(final(acc)@[m]) == fs0[m]) && p.taken()
                    == p0.taken() + enc_fields(tbl@, schema@, fs0, j).len() + 1 && (*final(matched)
                    <==> (m0 || exists|m: int| j <= m < fs0.len() && fs0[m] is Some))) by {
                    lemma_fields_stream(tbl@, schema@, fs0, j, unread(&p0));
                    let fp = first_present(fs0, j);
                    let ev = enc_value(tbl@, schema@[fm as int].kind, fs0[fm as int]->0);
                    assert(v@ == fs0[fm as int]->0);
                    assert(p2.taken() == p1.taken() + ev.len());
                    lemma_unread_skip(&p1, &p2, ev.len() as int);
                    assert(p3.taken() == p2.taken() + 1);
                    lemma_unread_skip(&p2, &p3, 1);
                    assert(unread(&p3) =~= unread(&p0).skip(1).skip(ev.len() as int + 1));
                    assert((enc_fields(tbl@, schema@, fs0, fp + 1) + seq![
                        SpecEvent::FieldStop,
                    ]).is_prefix_of(unread(&p3)));
                    assert(acc2@ == acc0@.update(fm as int, Some(v)));
                    assert(forall|m: int| 0 <= m < fp + 1 ==> opt_view(acc2@[m]) == fs0[m]) by {
                        assert(opt_view(Some(v)) == fs0[fm as int]);
                        assert(forall|m: int| j <= m < fp ==> fs0[m] is None);
                    }
                    assert(forall|m: int| fp + 1 <= m < fs0.len() ==> acc2@[m] is None);
                    assert(rr is Ok);
                    assert(*final(matched) <==> (true || exists|m: int|
                        fp + 1 <= m < fs0.len() && fs0[m] is Some));
                    assert(exists|m: int| j <= m < fs0.len() && fs0[m] is Some) by {
                        assert(fs0[fp] is Some);
                    }
                }
                assert forall|sa: Seq<FieldSchema>, fs0: Seq<Option<SpecValue>>, j: int|
                    #[trigger] evolution_hyp(tbl@, sa, fs0, schema@, j, unread(&p0), acc0@) implies (
                rr is Ok && (forall|m: int|
                    0 <= m < final(acc)@.len() ==> opt_view(#[trigger] final(acc)@[m])
                        == project_fields(sa, fs0, schema@, fs0.len() as int)[m]) && p.taken()
                    == p0.taken() + enc_fields(tbl@, sa, fs0, j).len() + 1 && (*final(matched)
                    <==> (m0 || any_landed(sa, fs0, schema@, j)))) by {
                    lemma_fields_stream(tbl@, sa, fs0, j, unread(&p0));
                    let fp = first_present(fs0, j);
                    let ev = enc_value(tbl@, sa[fp].kind, fs0[fp]->0);
                    assert(v@ == fs0[fp]->0);
                    assert(p2.taken() == p1.taken() + ev.len());
                    lemma_unread_skip(&p1, &p2, ev.len() as int);
                    assert(p3.taken() == p2.taken() + 1);
                    lemma_unread_skip(&p2, &p3, 1);
                    assert(unread(&p3) =~= unread(&p0).skip(1).skip(ev.len() as int + 1));
                    assert((enc_fields(tbl@, sa, fs0, fp + 1) + seq![
                        SpecEvent::FieldStop,
                    ]).is_prefix_of(unread(&p3)));
                    lemma_project_len(sa, fs0, schema@, j);
                    lemma_project_len(sa, fs0, schema@, fp + 1);
                    lemma_project_absent_range(sa, fs0, schema@, j, fp);
                    assert(project_fields(sa, fs0, schema@, fp + 1) == project_fields(
                        sa,
                        fs0,
                        schema@,
                        fp,
                    ).update(fm as int, fs0[fp]));
                    assert(acc2@ == acc0@.update(fm as int, Some(v)));
                    assert(forall|m: int|
                        0 <= m < acc2@.len() ==> opt_view(#[trigger] acc2@[m]) == project_fields(
                            sa,
                            fs0,
                            schema@,
                            fp + 1,
                        )[m]) by {
                        assert(opt_view(Some(v)) == fs0[fp]);
                    }
                    assert(evolution_hyp(tbl@, sa, fs0, schema@, fp + 1, unread(&p3), acc2@));
                    assert(any_landed(sa, fs0, schema@, j)) by {
                        assert(fs0[fp] is Some && slot_of(schema@, sa[fp]) is Some);
                    }
                }
            }
            match rr {
                Ok(()) => Ok(()),
                Err(e) => Err(e),
            }
        },
        None => {
            proof {
                assert forall|fs0: Seq<Option<SpecValue>>, j: int|
                    (0 <= j <= fs0.len() && fs0.len() == schema@.len() && fields_match(
                        tbl@,
                        schema@,
                        fs0,
                    ) && fields_rt_ok(fs0) && ((#[trigger] enc_fields(tbl@, schema@, fs0, j))
                        + seq![SpecEvent::FieldStop]).is_prefix_of(unread(&p0)) && (forall|m: int|
                        0 <= m < j ==> opt_view(acc0@[m]) == fs0[m]) && (forall|m: int|
                        j <= m < fs0.len() ==> acc0@[m] is None)) implies false by {
                    lemma_fields_stream(tbl@, schema@, fs0, j, unread(&p0));
                    let fp = first_present(fs0, j);
                    assert(fp < fs0.len());
                    assert(schema@[fp].id == fid && wire_type_of(schema@[fp].kind) == ftype);
                }
                assert forall|sa: Seq<FieldSchema>, fs0: Seq<Option<SpecValue>>, j: int|
                    #[trigger] evolution_hyp(tbl@, sa, fs0, schema@, j, unread(&p0), acc0@) implies ({
                    let fp = first_present(fs0, j);
                    &&& fp < fs0.len()
                    &&& slot_of(schema@, sa[fp]) is None
                    &&& wire_type_of(sa[fp].kind) == ftype
                    &&& enc_value(tbl@, sa[fp].kind, fs0[fp]->0).is_prefix_of(unread(&p1))
                    &&& value_matches(tbl@, sa[fp].kind, fs0[fp]->0)
                }) by {
                    lemma_fields_stream(tbl@, sa, fs0, j, unread(&p0));
                    let fp = first_present(fs0, j);
                    assert(fp < fs0.len());
                    assert(ftype == wire_type_of(sa[fp].kind) && fid == sa[fp].id);
                    assert(forall|b: int|
                        0 <= b < schema@.len() ==> !((#[trigger] schema@[b].id) == sa[fp].id
                            && wire_type_of(schema@[b].kind) == wire_type_of(sa[fp].kind)));
                    assert(slot_of(schema@, sa[fp]) is None);
                }
            }
            let rs = skip_value(p, ftype);
            proof {
                assert forall|sa: Seq<FieldSchema>, fs0: Seq<Option<SpecValue>>, j: int|
                    #[trigger] evolution_hyp(tbl@, sa, fs0, schema@, j, unread(&p0), acc0@) implies (
                rs is Ok && p.taken() == p1.taken() + enc_value(
                    tbl@,
                    sa[first_present(fs0, j)].kind,
                    fs0[first_present(fs0, j)]->0,
                ).len()) by {
                    let fp = first_present(fs0, j);
                    assert(enc_value(tbl@, sa[fp].kind, fs0[fp]->0).is_prefix_of(unread(&p1)));
                }
            }
            match rs {
                Ok(()) => (),
                Err(e) => {
                    return Err(e);
                },
            }
            let ghost p2 = *p;
            let rfe = p.read_field_end();
            proof {
                assert forall|sa: Seq<FieldSchema>, fs0: Seq<Option<SpecValue>>, j: int|
                    #[trigger] evolution_hyp(tbl@, sa, fs0, schema@, j, unread(&p0), acc0@) implies (
                rfe is Ok && p.taken() == p2.taken() + 1) by {
                    lemma_fields_stream(tbl@, sa, fs0, j, unread(&p0));
                    let fp = first_present(fs0, j);
                    let ev = enc_value(tbl@, sa[fp].kind, fs0[fp]->0);
                    assert(p2.taken() == p1.taken() + ev.len());
                    lemma_unread_skip(&p1, &p2, ev.len() as int);
                    assert(unread(&p2)[0] == unread(&p0).skip(1)[ev.len() as int]);
                    assert(unread(&p2)[0] == SpecEvent::FieldEnd);
                    assert(unread(&p2)[0] == p2.events()[p2.taken() as int]);
                }
            }
            match rfe {
                Ok(()) => (),
                Err(e) => {
                    return Err(e);
                },
            }
            let ghost p3 = *p;
            let rr = decode_fields(p, tbl, schema, acc, matched);
            proof {
                assert forall|sa: Seq<FieldSchema>, fs0: Seq<Option<SpecValue>>, j: int|
                    #[trigger] evolution_hyp(tbl@, sa, fs0, schema@, j, unread(&p0), acc0@) implies (
                rr is Ok && (forall|m: int|
                    0 <= m < final(acc)@.len() ==> opt_view(#[trigger] final(acc)@[m])
                        == project_fields(sa, fs0, schema@, fs0.len() as int)[m]) && p.taken()
                    == p0.taken() + enc_fields(tbl@, sa, fs0, j).len() + 1 && (*final(matched)
                    <==> (m0 || any_landed(sa, fs0, schema@, j)))) by {
                    lemma_fields_stream(tbl@, sa, fs0, j, unread(&p0));
                    let fp = first_present(fs0, j);
                    let ev = enc_value(tbl@, sa[fp].kind, fs0[fp]->0);
                    assert(p2.taken() == p1.taken() + ev.len());
                    lemma_unread_skip(&p1, &p2, ev.len() as int);
                    assert(p3.taken() == p2.taken() + 1);
                    lemma_unread_skip(&p2, &p3, 1);
                    assert(unread(&p3) =~= unread(&p0).skip(1).skip(ev.len() as int + 1));
                    assert((enc_fields(tbl@, sa, fs0, fp + 1) + seq![
                        SpecEvent::FieldStop,
                    ]).is_prefix_of(unread(&p3)));
                    lemma_project_len(sa, fs0, schema@, j);
                    lemma_project_len(sa, fs0, schema@, fp + 1);
                    lemma_project_absent_range(sa, fs0, schema@, j, fp);
                    assert(project_fields(sa, fs0, schema@, fp + 1) == project_fields(
                        sa,
                        fs0,
                        schema@,
                        fp,
                    ));
                    assert(evolution_hyp(tbl@, sa, fs0, schema@, fp + 1, unread(&p3), acc0@));
                    assert(any_landed(sa, fs0, schema@, j) <==> any_landed(
                        sa,
                        fs0,
                        schema@,
                        fp + 1,
                    )) by {
                        if any_landed(sa, fs0, schema@, j) {
                            let a = choose|a: int|
                                j <= a < fs0.len() && a < sa.len() && (#[trigger] fs0[a]) is Some
                                    && slot_of(schema@, sa[a]) is Some;
                            assert(fs0[a] is Some && slot_of(schema@, sa[a]) is Some);
                            assert(a != fp);
                            assert(a > fp);
                            assert(any_landed(sa, fs0, schema@, fp + 1));
                        }
                        if any_landed(sa, fs0, schema@, fp + 1) {
                            let a = choose|a: int|
                                fp + 1 <= a < fs0.len() && a < sa.len()
                                    && (#[trigger] fs0[a]) is Some
                                    && slot_of(schema@, sa[a]) is Some;
                            assert(j <= a < fs0.len() && fs0[a] is Some && slot_of(
                                schema@,
                                sa[a],
                            ) is Some);
                            assert(any_landed(sa, fs0, schema@, j));
                        }
                    }
                }
            }
            match rr {
                Ok(()) => Ok(()),
                Err(e) => Err(e),
            }
        },
    }
}

/// Consumes and discards one value of the given wire type, recursing through
/// nested structural markers so the stream stays aligned. If the unread
/// stream begins with the canonical image of any value carrying this tag,
/// exactly that image is consumed. A double cannot be represented here and
/// cannot be skipped.
#[verifier::rlimit(100)]
pub fn skip_value<P: Protocol>(p: &mut P, wt: WireType) -> (r: Result<(), Error>)
    requires
        old(p).inv(),
    ensures
        final(p).inv(),
        final(p).events() == old(p).events(),
        old(p).taken() <= final(p).taken() <= final(p).events().len(),
        r is Ok ==> old(p).taken() < final(p).taken(),
        forall|tbl0: Seq<RecordSchema>, k0: Kind, u0: SpecValue|
            (value_matches(tbl0, k0, u0) && wire_type_of(k0) == wt && (#[trigger] enc_value(
                tbl0,
                k0,
                u0,
            )).is_prefix_of(unread(old(p)))) ==> (r is Ok && final(p).taken() == old(p).taken()
                + enc_value(tbl0, k0, u0).len()),
    decreases old(p).events().len() - old(p).taken(), 0int,
{
    proof {
        p.inv_bound();
    }
    match wt {
        WireType::TBool => {
            let rb = p.read_bool();
            proof {
                lemma_skip_prim_head(old(p), wt);
            }
            match rb {
                Ok(_) => Ok(()),
                Err(e) => Err(e),
            }
        },
        WireType::TByte => {
            let rb = p.read_byte();
            proof {
                lemma_skip_prim_head(old(p), wt);
            }
            match rb {
                Ok(_) => Ok(()),
                Err(e) => Err(e),
            }
        },
        WireType::TI16 => {
            let rb = p.read_i16();
            proof {
                lemma_skip_prim_head(old(p), wt);
            }
            match rb {
                Ok(_) => Ok(()),
                Err(e) => Err(e),
            }
        },
        WireType::TI32 => {
            let rb = p.read_i32();
            proof {
                lemma_skip_prim_head(old(p), wt);
            }
            match rb {
                Ok(_) => Ok(()),
                Err(e) => Err(e),
            }
        },
        WireType::TI64 => {
            let rb = p.read_i64();
            proof {
                lemma_skip_prim_head(old(p), wt);
            }
            match rb {
                Ok(_) => Ok(()),
                Err(e) => Err(e),
            }
        },
        WireType::TString => {
            let rb = p.read_string();
            proof {
                lemma_skip_prim_head(old(p), wt);
            }
            match rb {
                Ok(_) => Ok(()),
                Err(e) => Err(e),
            }
        },
        WireType::TBinary => {
            let rb = p.read_binary();
            proof {
                lemma_skip_prim_head(old(p), wt);
            }
            match rb {
                Ok(_) => Ok(()),
                Err(e) => Err(e),
            }
        },
        WireType::TList => {
            let ghost p0 = *p;
            let rb = p.read_list_begin();
            proof {
                assert forall|tbl0: Seq<RecordSchema>, k0: Kind, u0: SpecValue|
                    (value_matches(tbl0, k0, u0) && wire_type_of(k0) == wt && (#[trigger] enc_value(
                        tbl0,
                        k0,
                        u0,
                    )).is_prefix_of(unread(&p0))) implies (rb matches Ok(h) && h.0 == wire_type_of(
                    *k0->List_0,
                ) && h.1 as nat == u0->List_0.len() && enc_elems(
                    tbl0,
                    *k0->List_0,
                    u0->List_0,
                    0,
                ).is_prefix_of(unread(&p0).skip(1))) by {
                    let vs0 = u0->List_0;
                    let ek0 = *k0->List_0;
                    assert(enc_value(tbl0, k0, u0) =~= seq![
                        SpecEvent::ListBegin(wire_type_of(ek0), vs0.len()),
                    ] + (enc_elems(tbl0, ek0, vs0, 0) + seq![SpecEvent::ListEnd]));
                    lemma_prefix_split(
                        seq![SpecEvent::ListBegin(wire_type_of(ek0), vs0.len())],
                        enc_elems(tbl0, ek0, vs0, 0) + seq![SpecEvent::ListEnd],
                        unread(&p0),
                    );
                    lemma_prefix_index(
                        seq![SpecEvent::ListBegin(wire_type_of(ek0), vs0.len())],
                        unread(&p0),
                        0,
                    );
                    assert(unread(&p0)[0] == p0.events()[p0.taken() as int]);
                    lemma_prefix_split(
                        enc_elems(tbl0, ek0, vs0, 0),
                        seq![SpecEvent::ListEnd],
                        unread(&p0).skip(1),
                    );
                }
            }
            let (t, n) = match rb {
                Ok(v) => v,
                Err(e) => {
                    return Err(e);
                },
            };
            let ghost p1 = *p;
            proof {
                lemma_unread_skip(&p0, &p1, 1);
            }
            let rc = skip_elems(p, t, n);
            match rc {
                Ok(()) => (),
                Err(e) => {
                    return Err(e);
                },
            }
            let ghost p2 = *p;
            let re = p.read_list_end();
            proof {
                assert forall|tbl0: Seq<RecordSchema>, k0: Kind, u0: SpecValue|
                    (value_matches(tbl0, k0, u0) && wire_type_of(k0) == wt && (#[trigger] enc_value(
                        tbl0,
                        k0,
                        u0,
                    )).is_prefix_of(unread(&p0))) implies (re is Ok && p.taken() == p0.taken()
                    + enc_value(tbl0, k0, u0).len()) by {
                    let vs0 = u0->List_0;
                    let ek0 = *k0->List_0;
                    assert(enc_value(tbl0, k0, u0) =~= seq![
                        SpecEvent::ListBegin(wire_type_of(ek0), vs0.len()),
                    ] + (enc_elems(tbl0, ek0, vs0, 0) + seq![SpecEvent::ListEnd]));
                    lemma_prefix_split(
                        seq![SpecEvent::ListBegin(wire_type_of(ek0), vs0.len())],
                        enc_elems(tbl0, ek0, vs0, 0) + seq![SpecEvent::ListEnd],
                        unread(&p0),
                    );
                    lemma_prefix_split(
                        enc_elems(tbl0, ek0, vs0, 0),
                        seq![SpecEvent::ListEnd],
                        unread(&p0).skip(1),
                    );
                    assert(p2.taken() == p1.taken() + enc_elems(tbl0, ek0, vs0, 0).len());
                    lemma_unread_skip(&p1, &p2, enc_elems(tbl0, ek0, vs0, 0).len() as int);
                    lemma_prefix_index(seq![SpecEvent::ListEnd], unread(&p2), 0);
                    assert(unread(&p2)[0] == p2.events()[p2.taken() as int]);
                }
            }
            match re {
                Ok(()) => Ok(()),
                Err(e) => Err(e),
            }
        },
        WireType::TSet => {
            let ghost p0 = *p;
            let rb = p.read_set_begin();
            proof {
                assert forall|tbl0: Seq<RecordSchema>, k0: Kind, u0: SpecValue|
                    (value_matches(tbl0, k0, u0) && wire_type_of(k0) == wt && (#[trigger] enc_value(
                        tbl0,
                        k0,
                        u0,
                    )).is_prefix_of(unread(&p0))) implies (rb matches Ok(h) && h.0 == wire_type_of(
                    *k0->SetOf_0,
                ) && h.1 as nat == u0->SetOf_0.len() && enc_elems(
                    tbl0,
                    *k0->SetOf_0,
                    u0->SetOf_0,
                    0,
                ).is_prefix_of(unread(&p0).skip(1))) by {
                    let vs0 = u0->SetOf_0;
                    let ek0 = *k0->SetOf_0;
                    assert(enc_value(tbl0, k0, u0) =~= seq![
                        SpecEvent::SetBegin(wire_type_of(ek0), vs0.len()),
                    ] + (enc_elems(tbl0, ek0, vs0, 0) + seq![SpecEvent::SetEnd]));
                    lemma_prefix_split(
                        seq![SpecEvent::SetBegin(wire_type_of(ek0), vs0.len())],
                        enc_elems(tbl0, ek0, vs0, 0) + seq![SpecEvent::SetEnd],
                        unread(&p0),
                    );
                    lemma_prefix_index(
                        seq![SpecEvent::SetBegin(wire_type_of(ek0), vs0.len())],
                        unread(&p0),
                        0,
                    );
                    assert(unread(&p0)[0] == p0.events()[p0.taken() as int]);
                    lemma_prefix_split(
                        enc_elems(tbl0, ek0, vs0, 0),
                        seq![SpecEvent::SetEnd],
                        unread(&p0).skip(1),
                    );
                }
            }
            let (t, n) = match rb {
                Ok(v) => v,
                Err(e) => {
                    return Err(e);
                },
            };
            let ghost p1 = *p;
            proof {
                lemma_unread_skip(&p0, &p1, 1);
            }
            let rc = skip_elems(p, t, n);
            match rc {
                Ok(()) => (),
                Err(e) => {
                    return Err(e);
                },
            }
            let ghost p2 = *p;
            let re = p.read_set_end();
            proof {
                assert forall|tbl0: Seq<RecordSchema>, k0: Kind, u0: SpecValue|
                    (value_matches(tbl0, k0, u0) && wire_type_of(k0) == wt && (#[trigger] enc_value(
                        tbl0,
                        k0,
                        u0,
                    )).is_prefix_of(unread(&p0))) implies (re is Ok && p.taken() == p0.taken()
                    + enc_value(tbl0, k0, u0).len()) by {
                    let vs0 = u0->SetOf_0;
                    let ek0 = *k0->SetOf_0;
                    assert(enc_value(tbl0, k0, u0) =~= seq![
                        SpecEvent::SetBegin(wire_type_of(ek0), vs0.len()),
                    ] + (enc_elems(tbl0, ek0, vs0, 0) + seq![SpecEvent::SetEnd]));
                    lemma_prefix_split(
                        seq![SpecEvent::SetBegin(wire_type_of(ek0), vs0.len())],
                        enc_elems(tbl0, ek0, vs0, 0) + seq![SpecEvent::SetEnd],
                        unread(&p0),
                    );
                    lemma_prefix_split(
                        enc_elems(tbl0, ek0, vs0, 0),
                        seq![SpecEvent::SetEnd],
                        unread(&p0).skip(1),
                    );
                    assert(p2.taken() == p1.taken() + enc_elems(tbl0, ek0, vs0, 0).len());
                    lemma_unread_skip(&p1, &p2, enc_elems(tbl0, ek0, vs0, 0).len() as int);
                    lemma_prefix_index(seq![SpecEvent::SetEnd], unread(&p2), 0);
                    assert(unread(&p2)[0] == p2.events()[p2.taken() as int]);
                }
            }
            match re {
                Ok(()) => Ok(()),
                Err(e) => Err(e),
            }
        },
        WireType::TMap => {
            let ghost p0 = *p;
            let rb = p.read_map_begin();
            proof {
                assert forall|tbl0: Seq<RecordSchema>, k0: Kind, u0: SpecValue|
                    (value_matches(tbl0, k0, u0) && wire_type_of(k0) == wt && (#[trigger] enc_value(
                        tbl0,
                        k0,
                        u0,
                    )).is_prefix_of(unread(&p0))) implies (rb matches Ok(h) && h.0 == wire_type_of(
                    *k0->MapOf_0,
                ) && h.1 == wire_type_of(*k0->MapOf_1) && h.2 as nat == u0->MapOf_0.len()
                    && enc_pairs(tbl0, *k0->MapOf_0, *k0->MapOf_1, u0->MapOf_0, 0).is_prefix_of(
                    unread(&p0).skip(1),
                )) by {
                    let ps0 = u0->MapOf_0;
                    let kk0 = *k0->MapOf_0;
                    let kv0 = *k0->MapOf_1;
                    assert(enc_value(tbl0, k0, u0) =~= seq![
                        SpecEvent::MapBegin(wire_type_of(kk0), wire_type_of(kv0), ps0.len()),
                    ] + (enc_pairs(tbl0, kk0, kv0, ps0, 0) + seq![SpecEvent::MapEnd]));
                    lemma_prefix_split(
                        seq![SpecEvent::MapBegin(wire_type_of(kk0), wire_type_of(kv0), ps0.len())],
                        enc_pairs(tbl0, kk0, kv0, ps0, 0) + seq![SpecEvent::MapEnd],
                        unread(&p0),
                    );
                    lemma_prefix_index(
                        seq![SpecEvent::MapBegin(wire_type_of(kk0), wire_type_of(kv0), ps0.len())],
                        unread(&p0),
                        0,
                    );
                    assert(unread(&p0)[0] == p0.events()[p0.taken() as int]);
                    lemma_prefix_split(
                        enc_pairs(tbl0, kk0, kv0, ps0, 0),
                        seq![SpecEvent::MapEnd],
                        unread(&p0).skip(1),
                    );
                }
            }
            let (kt, vt, n) = match rb {
                Ok(v) => v,
                Err(e) => {
                    return Err(e);
                },
            };
            let ghost p1 = *p;
            proof {
                lemma_unread_skip(&p0, &p1, 1);
            }
            let rc = skip_entries(p, kt, vt, n);
            match rc {
                Ok(()) => (),
                Err(e) => {
                    return Err(e);
                },
            }
            let ghost p2 = *p;
            let re = p.read_map_end();
            proof {
                assert forall|tbl0: Seq<RecordSchema>, k0: Kind, u0: SpecValue|
                    (value_matches(tbl0, k0, u0) && wire_type_of(k0) == wt && (#[trigger] enc_value(
                        tbl0,
                        k0,
                        u0,
                    )).is_prefix_of(unread(&p0))) implies (re is Ok && p.taken() == p0.taken()
                    + enc_value(tbl0, k0, u0).len()) by {
                    let ps0 = u0->MapOf_0;
                    let kk0 = *k0->MapOf_0;
                    let kv0 = *k0->MapOf_1;
                    assert(enc_value(tbl0, k0, u0) =~= seq![
                        SpecEvent::MapBegin(wire_type_of(kk0), wire_type_of(kv0), ps0.len()),
                    ] + (enc_pairs(tbl0, kk0, kv0, ps0, 0) + seq![SpecEvent::MapEnd]));
                    lemma_prefix_split(
                        seq![SpecEvent::MapBegin(wire_type_of(kk0), wire_type_of(kv0), ps0.len())],
                        enc_pairs(tbl0, kk0, kv0, ps0, 0) + seq![SpecEvent::MapEnd],
                        unread(&p0),
                    );
                    lemma_prefix_split(
                        enc_pairs(tbl0, kk0, kv0, ps0, 0),
                        seq![SpecEvent::MapEnd],
                        unread(&p0).skip(1),
                    );
                    assert(p2.taken() == p1.taken() + enc_pairs(tbl0, kk0, kv0, ps0, 0).len());
                    lemma_unread_skip(&p1, &p2, enc_pairs(tbl0, kk0, kv0, ps0, 0).len() as int);
                    lemma_prefix_index(seq![SpecEvent::MapEnd], unread(&p2), 0);
                    assert(unread(&p2)[0] == p2.events()[p2.taken() as int]);
                }
            }
            match re {
                Ok(()) => Ok(()),
                Err(e) => Err(e),
            }
        },
        WireType::TStruct => {
            let ghost p0 = *p;
            let rb = p.read_struct_begin();
            proof {
                assert forall|tbl0: Seq<RecordSchema>, k0: Kind, u0: SpecValue|
                    (value_matches(tbl0, k0, u0) && wire_type_of(k0) == wt && (#[trigger] enc_value(
                        tbl0,
                        k0,
                        u0,
                    )).is_prefix_of(unread(&p0))) implies (rb is Ok && (enc_fields(
                    tbl0,
                    tbl0[k0->Rec_0 as int].fields@,
                    u0->Rec_0,
                    0,
                ) + seq![SpecEvent::FieldStop]).is_prefix_of(unread(&p0).skip(1))) by {
                    let si0 = k0->Rec_0 as int;
                    let fs0 = u0->Rec_0;
                    lemma_struct_image_split(tbl0, tbl0[si0].name@, tbl0[si0].fields@, fs0, unread(&p0));
                    assert(unread(&p0)[0] == p0.events()[p0.taken() as int]);
                }
            }
            match rb {
                Ok(_) => (),
                Err(e) => {
                    return Err(e);
                },
            }
            let ghost p1 = *p;
            proof {
                lemma_unread_skip(&p0, &p1, 1);
            }
            let rc = skip_fields(p);
            match rc {
                Ok(()) => (),
                Err(e) => {
                    return Err(e);
                },
            }
            let ghost p2 = *p;
            let re = p.read_struct_end();
            proof {
                assert forall|tbl0: Seq<RecordSchema>, k0: Kind, u0: SpecValue|
                    (value_matches(tbl0, k0, u0) && wire_type_of(k0) == wt && (#[trigger] enc_value(
                        tbl0,
                        k0,
                        u0,
                    )).is_prefix_of(unread(&p0))) implies (re is Ok && p.taken() == p0.taken()
                    + enc_value(tbl0, k0, u0).len()) by {
                    let si0 = k0->Rec_0 as int;
                    let fs0 = u0->Rec_0;
                    let schema0 = tbl0[si0].fields@;
                    lemma_struct_image_split(tbl0, tbl0[si0].name@, schema0, fs0, unread(&p0));
                    assert(p2.taken() == p1.taken() + enc_fields(tbl0, schema0, fs0, 0).len() + 1);
                    lemma_unread_skip(&p1, &p2, enc_fields(tbl0, schema0, fs0, 0).len() as int + 1);
                    lemma_prefix_index(seq![SpecEvent::StructEnd], unread(&p2), 0);
                    assert(unread(&p2)[0] == p2.events()[p2.taken() as int]);
                }
            }
            match re {
                Ok(()) => Ok(()),
                Err(e) => Err(e),
            }
        },
        WireType::TDouble => {
            proof {
                lemma_no_kind_has_tag(wt);
            }
            Err(Error::UnsupportedSkip)
        },
        WireType::TStop => {
            proof {
                lemma_no_kind_has_tag(wt);
            }
            Err(Error::UnsupportedSkip)
        },
    }
}

/// No kind carries the double or the stop tag: doubles are not representable
/// here and the stop is not a value.
proof fn lemma_no_kind_has_tag(wt: WireType)
    requires
        wt == WireType::TDouble || wt == WireType::TStop,
    ensures
        forall|k0: Kind| wire_type_of(k0) != wt,
{
    assert forall|k0: Kind| wire_type_of(k0) != wt by {
        match k0 {
            Kind::Bool => {},
            Kind::Byte => {},
            Kind::I16 => {},
            Kind::I32 => {},
            Kind::I64 => {},
            Kind::Text => {},
            Kind::Blob => {},
            Kind::List(_) => {},
            Kind::SetOf(_) => {},
            Kind::MapOf(_, _) => {},
            Kind::Rec(_) => {},
        }
    }
}

/// A primitive image under a primitive tag: its head is the one primitive
/// event the tag's reader accepts, and the image is that single event.
proof fn lemma_skip_prim_head<P: Protocol>(p0: &P, wt: WireType)
    requires
        p0.taken() <= p0.events().len(),
        wt != WireType::TList,
        wt != WireType::TSet,
        wt != WireType::TMap,
        wt != WireType::TStruct,
    ensures
        forall|tbl0: Seq<RecordSchema>, k0: Kind, u0: SpecValue|
            (value_matches(tbl0, k0, u0) && wire_type_of(k0) == wt && (#[trigger] enc_value(
                tbl0,
                k0,
                u0,
            )).is_prefix_of(unread(p0))) ==> enc_value(tbl0, k0, u0).len() == 1 && unread(p0).len()
                >= 1 && unread(p0)[0] == enc_value(tbl0, k0, u0)[0] && unread(p0)[0]
                == p0.events()[p0.taken() as int],
{
    assert forall|tbl0: Seq<RecordSchema>, k0: Kind, u0: SpecValue|
        (value_matches(tbl0, k0, u0) && wire_type_of(k0) == wt && (#[trigger] enc_value(
            tbl0,
            k0,
            u0,
        )).is_prefix_of(unread(p0))) implies enc_value(tbl0, k0, u0).len() == 1 && unread(p0).len()
        >= 1 && unread(p0)[0] == enc_value(tbl0, k0, u0)[0] && unread(p0)[0] == p0.events()[p0.taken() as int] by {
        lemma_prefix_index(enc_value(tbl0, k0, u0), unread(p0), 0);
    }
}

/// A record image splits at its struct begin: the head is the begin marker,
/// then come the framed fields closed by the field stop, then the struct end.
proof fn lemma_struct_image_split(
    tbl0: Seq<RecordSchema>,
    name: Seq<char>,
    schema: Seq<FieldSchema>,
    fs0: Seq<Option<SpecValue>>,
    s: Seq<SpecEvent>,
)
    requires
        enc_record(tbl0, name, schema, fs0).is_prefix_of(s),
    ensures
        s.len() >= 1,
        s[0] == SpecEvent::StructBegin(name),
        (enc_fields(tbl0, schema, fs0, 0) + seq![SpecEvent::FieldStop]).is_prefix_of(s.skip(1)),
        seq![SpecEvent::StructEnd].is_prefix_of(
            s.skip(1).skip(enc_fields(tbl0, schema, fs0, 0).len() as int + 1),
        ),
        enc_record(tbl0, name, schema, fs0).len() == enc_fields(tbl0, schema, fs0, 0).len() + 3,
{
    let ef = enc_fields(tbl0, schema, fs0, 0);
    assert(enc_record(tbl0, name, schema, fs0) =~= seq![SpecEvent::StructBegin(name)] + ((ef
        + seq![SpecEvent::FieldStop]) + seq![SpecEvent::StructEnd]));
    lemma_prefix_split(
        seq![SpecEvent::StructBegin(name)],
        (ef + seq![SpecEvent::FieldStop]) + seq![SpecEvent::StructEnd],
        s,
    );
    lemma_prefix_index(seq![SpecEvent::StructBegin(name)], s, 0);
    lemma_prefix_split(ef + seq![SpecEvent::FieldStop], seq![SpecEvent::StructEnd], s.skip(1));
    assert(s.skip(1).skip((ef + seq![SpecEvent::FieldStop]).len() as int) =~= s.skip(1).skip(
        ef.len() as int + 1,
    ));
}

/// Skips `n` container elements of one wire type.
fn skip_elems<P: Protocol>(p: &mut P, t: WireType, n: usize) -> (r: Result<(), Error>)
    requires
        old(p).inv(),
    ensures
        final(p).inv(),
        final(p).events() == old(p).events(),
        old(p).taken() <= final(p).taken() <= final(p).events().len(),
        forall|tbl0: Seq<RecordSchema>, k0: Kind, vs0: Seq<SpecValue>, i: int|
            (0 <= i <= vs0.len() && vs0.len() - i == n && elems_match(tbl0, k0, vs0)
                && wire_type_of(k0) == t && (#[trigger] enc_elems(tbl0, k0, vs0, i)).is_prefix_of(
                unread(old(p)),
            )) ==> (r is Ok && final(p).taken() == old(p).taken() + enc_elems(
                tbl0,
                k0,
                vs0,
                i,
            ).len()),
    decreases old(p).events().len() - old(p).taken(), 1int,
{
    proof {
        p.inv_bound();
    }
    if n == 0 {
        return Ok(());
    }
    let ghost p0 = *p;
    let rv = skip_value(p, t);
    proof {
        assert forall|tbl0: Seq<RecordSchema>, k0: Kind, vs0: Seq<SpecValue>, i: int|
            (0 <= i <= vs0.len() && vs0.len() - i == n && elems_match(tbl0, k0, vs0)
                && wire_type_of(k0) == t && (#[trigger] enc_elems(tbl0, k0, vs0, i)).is_prefix_of(
                unread(&p0),
            )) implies (rv is Ok && p.taken() == p0.taken() + enc_value(tbl0, k0, vs0[i]).len()
            && enc_elems(tbl0, k0, vs0, i + 1).is_prefix_of(
            unread(&p0).skip(enc_value(tbl0, k0, vs0[i]).len() as int),
        )) by {
            assert(enc_elems(tbl0, k0, vs0, i) == enc_value(tbl0, k0, vs0[i]) + enc_elems(
                tbl0,
                k0,
                vs0,
                i + 1,
            ));
            lemma_prefix_split(
                enc_value(tbl0, k0, vs0[i]),
                enc_elems(tbl0, k0, vs0, i + 1),
                unread(&p0),
            );
            assert(value_matches(tbl0, k0, vs0[i]));
        }
    }
    match rv {
        Ok(()) => (),
        Err(e) => {
            return Err(e);
        },
    }
    let ghost p1 = *p;
    let rr = skip_elems(p, t, n - 1);
    proof {
        assert forall|tbl0: Seq<RecordSchema>, k0: Kind, vs0: Seq<SpecValue>, i: int|
            (0 <= i <= vs0.len() && vs0.len() - i == n && elems_match(tbl0, k0, vs0)
                && wire_type_of(k0) == t && (#[trigger] enc_elems(tbl0, k0, vs0, i)).is_prefix_of(
                unread(&p0),
            )) implies (rr is Ok && p.taken() == p0.taken() + enc_elems(tbl0, k0, vs0, i).len()) by {
            assert(enc_elems(tbl0, k0, vs0, i) == enc_value(tbl0, k0, vs0[i]) + enc_elems(
                tbl0,
                k0,
                vs0,
                i + 1,
            ));
            assert(p1.taken() == p0.taken() + enc_value(tbl0, k0, vs0[i]).len());
            lemma_unread_skip(&p0, &p1, enc_value(tbl0, k0, vs0[i]).len() as int);
        }
    }
    match rr {
        Ok(()) => Ok(()),
        Err(e) => Err(e),
    }
}

/// Skips `n` map entries of the given key and value wire types.
fn skip_entries<P: Protocol>(p: &mut P, kt: WireType, vt: WireType, n: usize) -> (r: Result<
    (),
    Error,
>)
    requires
        old(p).inv(),
    ensures
        final(p).inv(),
        final(p).events() == old(p).events(),
        old(p).taken() <= final(p).taken() <= final(p).events().len(),
        forall|tbl0: Seq<RecordSchema>, kk0: Kind, kv0: Kind, ps0: Seq<(SpecValue, SpecValue)>, i: int|
            (0 <= i <= ps0.len() && ps0.len() - i == n && pairs_match(tbl0, kk0, kv0, ps0)
                && wire_type_of(kk0) == kt && wire_type_of(kv0) == vt && (#[trigger] enc_pairs(
                tbl0,
                kk0,
                kv0,
                ps0,
                i,
            )).is_prefix_of(unread(old(p)))) ==> (r is Ok && final(p).taken() == old(p).taken()
                + enc_pairs(tbl0, kk0, kv0, ps0, i).len()),
    decreases old(p).events().len() - old(p).taken(), 1int,
{
    proof {
        p.inv_bound();
    }
    if n == 0 {
        return Ok(());
    }
    let ghost p0 = *p;
    let rk = skip_value(p, kt);
    proof {
        assert forall|tbl0: Seq<RecordSchema>, kk0: Kind, kv0: Kind, ps0: Seq<(SpecValue, SpecValue)>, i: int|
            (0 <= i <= ps0.len() && ps0.len() - i == n && pairs_match(tbl0, kk0, kv0, ps0)
                && wire_type_of(kk0) == kt && wire_type_of(kv0) == vt && (#[trigger] enc_pairs(
                tbl0,
                kk0,
                kv0,
                ps0,
                i,
            )).is_prefix_of(unread(&p0))) implies (rk is Ok && p.taken() == p0.taken() + enc_value(
            tbl0,
            kk0,
            ps0[i].0,
        ).len() && (enc_value(tbl0, kv0, ps0[i].1) + enc_pairs(
            tbl0,
            kk0,
            kv0,
            ps0,
            i + 1,
        )).is_prefix_of(unread(&p0).skip(enc_value(tbl0, kk0, ps0[i].0).len() as int))) by {
            assert(enc_pairs(tbl0, kk0, kv0, ps0, i) == enc_value(tbl0, kk0, ps0[i].0) + (enc_value(
                tbl0,
                kv0,
                ps0[i].1,
            ) + enc_pairs(tbl0, kk0, kv0, ps0, i + 1)));
            lemma_prefix_split(
                enc_value(tbl0, kk0, ps0[i].0),
                enc_value(tbl0, kv0, ps0[i].1) + enc_pairs(tbl0, kk0, kv0, ps0, i + 1),
                unread(&p0),
            );
            assert(pairs_match(tbl0, kk0, kv0, ps0));
            assert(value_matches(tbl0, kk0, ps0[i].0));
        }
    }
    match rk {
        Ok(()) => (),
        Err(e) => {
            return Err(e);
        },
    }
    let ghost p1 = *p;
    let rv = skip_value(p, vt);
    proof {
        assert forall|tbl0: Seq<RecordSchema>, kk0: Kind, kv0: Kind, ps0: Seq<(SpecValue, SpecValue)>, i: int|
            (0 <= i <= ps0.len() && ps0.len() - i == n && pairs_match(tbl0, kk0, kv0, ps0)
                && wire_type_of(kk0) == kt && wire_type_of(kv0) == vt && (#[trigger] enc_pairs(
                tbl0,
                kk0,
                kv0,
                ps0,
                i,
            )).is_prefix_of(unread(&p0))) implies (rv is Ok && p.taken() == p1.taken() + enc_value(
            tbl0,
            kv0,
            ps0[i].1,
        ).len() && enc_pairs(tbl0, kk0, kv0, ps0, i + 1).is_prefix_of(
            unread(&p1).skip(enc_value(tbl0, kv0, ps0[i].1).len() as int),
        )) by {
            assert(enc_pairs(tbl0, kk0, kv0, ps0, i) == enc_value(tbl0, kk0, ps0[i].0) + (enc_value(
                tbl0,
                kv0,
                ps0[i].1,
            ) + enc_pairs(tbl0, kk0, kv0, ps0, i + 1)));
            lemma_prefix_split(
                enc_value(tbl0, kk0, ps0[i].0),
                enc_value(tbl0, kv0, ps0[i].1) + enc_pairs(tbl0, kk0, kv0, ps0, i + 1),
                unread(&p0),
            );
            assert(p1.taken() == p0.taken() + enc_value(tbl0, kk0, ps0[i].0).len());
            lemma_unread_skip(&p0, &p1, enc_value(tbl0, kk0, ps0[i].0).len() as int);
            lemma_prefix_split(
                enc_value(tbl0, kv0, ps0[i].1),
                enc_pairs(tbl0, kk0, kv0, ps0, i + 1),
                unread(&p1),
            );
            assert(value_matches(tbl0, kv0, ps0[i].1));
        }
    }
    match rv {
        Ok(()) => (),
        Err(e) => {
            return Err(e);
        },
    }
    let ghost p2 = *p;
    let rr = skip_entries(p, kt, vt, n - 1);
    proof {
        assert forall|tbl0: Seq<RecordSchema>, kk0: Kind, kv0: Kind, ps0: Seq<(SpecValue, SpecValue)>, i: int|
            (0 <= i <= ps0.len() && ps0.len() - i == n && pairs_match(tbl0, kk0, kv0, ps0)
                && wire_type_of(kk0) == kt && wire_type_of(kv0) == vt && (#[trigger] enc_pairs(
                tbl0,
                kk0,
                kv0,
                ps0,
                i,
            )).is_prefix_of(unread(&p0))) implies (rr is Ok && p.taken() == p0.taken() + enc_pairs(
            tbl0,
            kk0,
            kv0,
            ps0,
            i,
        ).len()) by {
            assert(enc_pairs(tbl0, kk0, kv0, ps0, i) == enc_value(tbl0, kk0, ps0[i].0) + (enc_value(
                tbl0,
                kv0,
                ps0[i].1,
            ) + enc_pairs(tbl0, kk0, kv0, ps0, i + 1)));
            assert(p2.taken() == p1.taken() + enc_value(tbl0, kv0, ps0[i].1).len());
            lemma_unread_skip(&p1, &p2, enc_value(tbl0, kv0, ps0[i].1).len() as int);
        }
    }
    match rr {
        Ok(()) => Ok(()),
        Err(e) => Err(e),
    }
}

/// Reads and skips wire fields until the field stop.
fn skip_fields<P: Protocol>(p: &mut P) -> (r: Result<(), Error>)
    requires
        old(p).inv(),
    ensures
        final(p).inv(),
        final(p).events() == old(p).events(),
        old(p).taken() <= final(p).taken() <= final(p).events().len(),
        r is Ok ==> old(p).taken() < final(p).taken(),
        forall|tbl0: Seq<RecordSchema>, schema0: Seq<FieldSchema>, fs0: Seq<Option<SpecValue>>, j: int|
            (0 <= j <= fs0.len() && fs0.len() == schema0.len() && fields_match(tbl0, schema0, fs0)
                && ((#[trigger] enc_fields(tbl0, schema0, fs0, j)) + seq![
                SpecEvent::FieldStop,
            ]).is_prefix_of(unread(old(p)))) ==> (r is Ok && final(p).taken() == old(p).taken()
                + enc_fields(tbl0, schema0, fs0, j).len() + 1),
    decreases old(p).events().len() - old(p).taken(), 2int,
{
    proof {
        p.inv_bound();
    }
    let ghost p0 = *p;
    let rb = p.read_field_begin();
    proof {
        assert forall|tbl0: Seq<RecordSchema>, schema0: Seq<FieldSchema>, fs0: Seq<Option<SpecValue>>, j: int|
            (0 <= j <= fs0.len() && fs0.len() == schema0.len() && fields_match(tbl0, schema0, fs0)
                && ((#[trigger] enc_fields(tbl0, schema0, fs0, j)) + seq![
                SpecEvent::FieldStop,
            ]).is_prefix_of(unread(&p0))) implies (rb matches Ok(h) && (first_present(fs0, j)
            == fs0.len() ==> h.1 == WireType::TStop) && (first_present(fs0, j) < fs0.len() ==> h.1
            == wire_type_of(schema0[first_present(fs0, j)].kind) && h.1 != WireType::TStop)) by {
            lemma_fields_stream(tbl0, schema0, fs0, j, unread(&p0));
            assert(unread(&p0)[0] == p0.events()[p0.taken() as int]);
        }
    }
    let (_fname, ftype, _fid) = match rb {
        Ok(v) => v,
        Err(e) => {
            return Err(e);
        },
    };
    let ghost p1 = *p;
    proof {
        lemma_unread_skip(&p0, &p1, 1);
    }
    if let WireType::TStop = ftype {
        proof {
            assert forall|tbl0: Seq<RecordSchema>, schema0: Seq<FieldSchema>, fs0: Seq<Option<SpecValue>>, j: int|
                (0 <= j <= fs0.len() && fs0.len() == schema0.len() && fields_match(
                    tbl0,
                    schema0,
                    fs0,
                ) && ((#[trigger] enc_fields(tbl0, schema0, fs0, j)) + seq![
                    SpecEvent::FieldStop,
                ]).is_prefix_of(unread(&p0))) implies (p.taken() == p0.taken() + enc_fields(
                tbl0,
                schema0,
                fs0,
                j,
            ).len() + 1) by {
                lemma_fields_stream(tbl0, schema0, fs0, j, unread(&p0));
                assert(first_present(fs0, j) == fs0.len());
            }
        }
        return Ok(());
    }
    let rs = skip_value(p, ftype);
    proof {
        assert forall|tbl0: Seq<RecordSchema>, schema0: Seq<FieldSchema>, fs0: Seq<Option<SpecValue>>, j: int|
            (0 <= j <= fs0.len() && fs0.len() == schema0.len() && fields_match(tbl0, schema0, fs0)
                && ((#[trigger] enc_fields(tbl0, schema0, fs0, j)) + seq![
                SpecEvent::FieldStop,
            ]).is_prefix_of(unread(&p0))) implies (rs is Ok && p.taken() == p1.taken() + enc_value(
            tbl0,
            schema0[first_present(fs0, j)].kind,
            fs0[first_present(fs0, j)]->0,
        ).len()) by {
            lemma_fields_stream(tbl0, schema0, fs0, j, unread(&p0));
            let fp = first_present(fs0, j);
            assert(fp < fs0.len());
            assert(value_matches(tbl0, schema0[fp].kind, fs0[fp]->0));
        }
    }
    match rs {
        Ok(()) => (),
        Err(e) => {
            return Err(e);
        },
    }
    let ghost p2 = *p;
    let rfe = p.read_field_end();
    proof {
        assert forall|tbl0: Seq<RecordSchema>, schema0: Seq<FieldSchema>, fs0: Seq<Option<SpecValue>>, j: int|
            (0 <= j <= fs0.len() && fs0.len() == schema0.len() && fields_match(tbl0, schema0, fs0)
                && ((#[trigger] enc_fields(tbl0, schema0, fs0, j)) + seq![
                SpecEvent::FieldStop,
            ]).is_prefix_of(unread(&p0))) implies (rfe is Ok && p.taken() == p2.taken() + 1 && (
        enc_fields(tbl0, schema0, fs0, first_present(fs0, j) + 1) + seq![
            SpecEvent::FieldStop,
        ]).is_prefix_of(unread(&p0).skip(1).skip(enc_value(
            tbl0,
            schema0[first_present(fs0, j)].kind,
            fs0[first_present(fs0, j)]->0,
        ).len() as int + 1))) by {
            lemma_fields_stream(tbl0, schema0, fs0, j, unread(&p0));
            let fp = first_present(fs0, j);
            let ev = enc_value(tbl0, schema0[fp].kind, fs0[fp]->0);
            assert(p2.taken() == p1.taken() + ev.len());
            lemma_unread_skip(&p1, &p2, ev.len() as int);
            assert(unread(&p2)[0] == unread(&p0).skip(1)[ev.len() as int]);
            assert(unread(&p2)[0] == p2.events()[p2.taken() as int]);
        }
    }
    match rfe {
        Ok(()) => (),
        Err(e) => {
            return Err(e);
        },
    }
    let ghost p3 = *p;
    let rr = skip_fields(p);
    proof {
        assert forall|tbl0: Seq<RecordSchema>, schema0: Seq<FieldSchema>, fs0: Seq<Option<SpecValue>>, j: int|
            (0 <= j <= fs0.len() && fs0.len() == schema0.len() && fields_match(tbl0, schema0, fs0)
                && ((#[trigger] enc_fields(tbl0, schema0, fs0, j)) + seq![
                SpecEvent::FieldStop,
            ]).is_prefix_of(unread(&p0))) implies (rr is Ok && p.taken() == p0.taken()
            + enc_fields(tbl0, schema0, fs0, j).len() + 1) by {
            lemma_fields_stream(tbl0, schema0, fs0, j, unread(&p0));
            let fp = first_present(fs0, j);
            let ev = enc_value(tbl0, schema0[fp].kind, fs0[fp]->0);
            assert(p2.taken() == p1.taken() + ev.len());
            lemma_unread_skip(&p1, &p2, ev.len() as int);
            assert(p3.taken() == p2.taken() + 1);
            lemma_unread_skip(&p2, &p3, 1);
            assert(unread(&p3) =~= unread(&p0).skip(1).skip(ev.len() as int + 1));
        }
    }
    match rr {
        Ok(()) => Ok(()),
        Err(e) => Err(e),
    }
}

} // verus!
