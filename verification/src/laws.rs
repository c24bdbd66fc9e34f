//! Laws of the codec, stated once for every schema and every value.

use vstd::prelude::*;
use crate::Error;
use crate::schema::{Kind, FieldSchema, RecordSchema, SchemaTable, kind_wf, table_wf,
    wire_type_of};
use crate::value::{SpecValue, Value, value_matches, elems_match, pairs_match, fields_match,
    rt_ok};
use crate::events::SpecEvent;
use crate::codec::{enc_value, enc_record, enc_elems, enc_pairs, enc_fields, encode_value};
use crate::decode::{unread, decode_value};
use crate::protocol::Protocol;

verus! {

/// Round-trip law: decoding what was just encoded yields the value back.
/// For every kind `k` and every round-trip-fit value `v` of that kind,
/// encoding `v` onto a fully drained protocol and decoding it again returns
/// a value observably equal to `v`; the result differs from `Ok` only when
/// the protocol refused a write.
pub fn round_trip<P: Protocol>(p: &mut P, tbl: &SchemaTable, k: &Kind, v: &Value) -> (r: Result<
    Value,
    Error,
>)
    requires
        old(p).inv(),
        table_wf(tbl@),
        kind_wf(*k, tbl@.len()),
        value_matches(tbl@, *k, v@),
        rt_ok(v@),
        old(p).taken() == old(p).events().len(),
    ensures
        final(p).inv(),
        r matches Ok(w) ==> w@ == v@,
{
    match encode_value(p, tbl, k, v) {
        Ok(()) => (),
        Err(e) => {
            return Err(e);
        },
    }
    let ghost pm = *p;
    proof {
        assert(unread(&pm) =~= enc_value(tbl@, *k, v@));
        assert(enc_value(tbl@, *k, v@).is_prefix_of(unread(&pm)));
    }
    decode_value(p, tbl, k)
}

/// The framed field encodings are unchanged when an absent field is dropped
/// from both the schema and the instance.
proof fn lemma_enc_fields_remove(
    tbl: Seq<RecordSchema>,
    schema: Seq<FieldSchema>,
    fs: Seq<Option<SpecValue>>,
    m: int,
    j: int,
)
    requires
        0 <= j <= fs.len(),
        0 <= m < fs.len(),
        fs.len() == schema.len(),
        fs[m] is None,
    ensures
        enc_fields(tbl, schema, fs, j) == enc_fields(
            tbl,
            schema.remove(m),
            fs.remove(m),
            if j <= m {
                j
            } else {
                j - 1
            },
        ),
    decreases fs.len() - j,
{
    let schema2 = schema.remove(m);
    let fs2 = fs.remove(m);
    assert(schema2 =~= schema.take(m) + schema.skip(m + 1));
    assert(fs2 =~= fs.take(m) + fs.skip(m + 1));
    if j == fs.len() {
    } else {
        lemma_enc_fields_remove(tbl, schema, fs, m, j + 1);
        if j == m {
            assert(enc_fields(tbl, schema, fs, j) =~= enc_fields(tbl, schema, fs, j + 1));
        } else if j < m {
            assert(fs2[j] == fs[j]);
            assert(schema2[j] == schema[j]);
        } else {
            assert(fs2[j - 1] == fs[j]);
            assert(schema2[j - 1] == schema[j]);
        }
    }
}

/// Optional-absence law: a record with an absent field encodes to exactly
/// the image of the record with that field dropped from the schema and the
/// instance; nothing of the absent field, in particular no field begin,
/// reaches the wire. That decoding such an image leaves the field absent is
/// the decoder's round-trip guarantee (see `decode_record`).
pub proof fn lemma_optional_absent(
    tbl: Seq<RecordSchema>,
    name: Seq<char>,
    schema: Seq<FieldSchema>,
    fs: Seq<Option<SpecValue>>,
    m: int,
)
    requires
        0 <= m < fs.len(),
        fs.len() == schema.len(),
        fs[m] is None,
    ensures
        enc_record(tbl, name, schema, fs) == enc_record(
            tbl,
            name,
            schema.remove(m),
            fs.remove(m),
        ),
{
    lemma_enc_fields_remove(tbl, schema, fs, m, 0);
}

/// Stop-marker framing: every record image opens with its struct begin and
/// closes with exactly one field stop directly followed by the struct end;
/// everything in between is the present fields' framed encodings. That a
/// parse of the image meets this stop as its final field-level event is the
/// decoder's consumption guarantee (see `decode_record`).
pub proof fn lemma_record_stop_framing(
    tbl: Seq<RecordSchema>,
    name: Seq<char>,
    schema: Seq<FieldSchema>,
    fs: Seq<Option<SpecValue>>,
)
    ensures
        enc_record(tbl, name, schema, fs).len() == enc_fields(tbl, schema, fs, 0).len() + 3,
        enc_record(tbl, name, schema, fs)[0] == SpecEvent::StructBegin(name),
        enc_record(tbl, name, schema, fs)[enc_record(tbl, name, schema, fs).len() - 2]
            == SpecEvent::FieldStop,
        enc_record(tbl, name, schema, fs)[enc_record(tbl, name, schema, fs).len() - 1]
            == SpecEvent::StructEnd,
        enc_record(tbl, name, schema, fs).subrange(
            1,
            enc_record(tbl, name, schema, fs).len() - 2,
        ) == enc_fields(tbl, schema, fs, 0),
{
    assert(enc_record(tbl, name, schema, fs).subrange(
        1,
        enc_record(tbl, name, schema, fs).len() - 2,
    ) =~= enc_fields(tbl, schema, fs, 0));
}


/// How one event changes the struct nesting depth.
pub open spec fn struct_delta(e: SpecEvent) -> int {
    match e {
        SpecEvent::StructBegin(_) => 1,
        SpecEvent::StructEnd => -1,
        _ => 0,
    }
}

/// The struct nesting depth after a stream: struct begins opened minus
/// struct ends closed.
pub open spec fn struct_depth(s: Seq<SpecEvent>) -> int
    decreases s.len(),
{
    if s.len() == 0 {
        0
    } else {
        struct_depth(s.drop_last()) + struct_delta(s.last())
    }
}

proof fn lemma_depth_concat(a: Seq<SpecEvent>, b: Seq<SpecEvent>)
    ensures
        struct_depth(a + b) == struct_depth(a) + struct_depth(b),
    decreases b.len(),
{
    if b.len() == 0 {
        assert(a + b =~= a);
    } else {
        lemma_depth_concat(a, b.drop_last());
        assert((a + b).drop_last() =~= a + b.drop_last());
        assert((a + b).last() == b.last());
    }
}

proof fn lemma_take_concat(a: Seq<SpecEvent>, b: Seq<SpecEvent>, j: int)
    requires
        0 <= j <= a.len() + b.len(),
    ensures
        j <= a.len() ==> (a + b).take(j) == a.take(j),
        j > a.len() ==> (a + b).take(j) == a + b.take(j - a.len()),
{
    if j <= a.len() {
        assert((a + b).take(j) =~= a.take(j));
    } else {
        assert((a + b).take(j) =~= a + b.take(j - a.len()));
    }
}

/// A stream is balanced for stops above a base depth `d`: no prefix closes
/// below the base, and every field stop sits under at least one struct
/// opened at or above the base.
pub open spec fn stops_nested_from(s: Seq<SpecEvent>, d: int) -> bool {
    &&& forall|j: int| 0 <= j <= s.len() ==> d + struct_depth(#[trigger] s.take(j)) >= 0
    &&& forall|i: int|
        0 <= i < s.len() && (#[trigger] s[i]) is FieldStop ==> d + struct_depth(s.take(i)) >= 1
}

/// A stream is balanced for stops on its own.
pub open spec fn stops_nested(s: Seq<SpecEvent>) -> bool {
    stops_nested_from(s, 0)
}

proof fn lemma_stops_nested_mono(s: Seq<SpecEvent>, d: int, d2: int)
    requires
        stops_nested_from(s, d),
        d2 >= d,
    ensures
        stops_nested_from(s, d2),
{
}

proof fn lemma_stops_nested_concat(a: Seq<SpecEvent>, b: Seq<SpecEvent>, d: int)
    requires
        stops_nested_from(a, d),
        stops_nested_from(b, d + struct_depth(a)),
    ensures
        stops_nested_from(a + b, d),
{
    assert forall|j: int| 0 <= j <= (a + b).len() implies d + struct_depth(
        #[trigger] (a + b).take(j),
    ) >= 0 by {
        lemma_take_concat(a, b, j);
        if j <= a.len() {
            assert(d + struct_depth(a.take(j)) >= 0);
        } else {
            lemma_depth_concat(a, b.take(j - a.len()));
            assert(d + struct_depth(a) + struct_depth(b.take(j - a.len())) >= 0);
        }
    }
    assert forall|i: int|
        0 <= i < (a + b).len() && (#[trigger] (a + b)[i]) is FieldStop implies d + struct_depth(
        (a + b).take(i),
    ) >= 1 by {
        lemma_take_concat(a, b, i);
        if i < a.len() {
            assert(a[i] is FieldStop);
            assert((a + b).take(i) == a.take(i));
        } else {
            assert(b[i - a.len()] is FieldStop);
            assert((d + struct_depth(a)) + struct_depth(b.take(i - a.len())) >= 1);
            if i == a.len() {
                assert((a + b).take(i) =~= a);
                assert(b.take(0) =~= Seq::<SpecEvent>::empty());
                assert(struct_depth(b.take(0)) == 0);
            } else {
                lemma_depth_concat(a, b.take(i - a.len()));
            }
        }
    }
}

proof fn lemma_depth_singleton(e: SpecEvent)
    ensures
        struct_depth(seq![e]) == struct_delta(e),
{
    assert(seq![e].len() == 1);
    assert(seq![e].last() == e);
    assert(seq![e].drop_last() =~= Seq::<SpecEvent>::empty());
    assert(struct_depth(Seq::<SpecEvent>::empty()) == 0);
}

proof fn lemma_stops_singleton(e: SpecEvent, d: int)
    requires
        d >= 0,
        d + struct_delta(e) >= 0,
        e is FieldStop ==> d >= 1,
    ensures
        stops_nested_from(seq![e], d),
{
    lemma_depth_singleton(e);
    assert(seq![e].take(0) =~= Seq::<SpecEvent>::empty());
    assert(seq![e].take(1) =~= seq![e]);
    assert forall|i: int|
        0 <= i < 1 && (#[trigger] seq![e][i]) is FieldStop implies d + struct_depth(
        seq![e].take(i),
    ) >= 1 by {}
}

/// A value's image opens and closes its structs in balance, and every field
/// stop in it sits inside the record that wrote it.
proof fn lemma_value_stream_balanced(tbl: Seq<RecordSchema>, k: Kind, v: SpecValue)
    requires
        value_matches(tbl, k, v),
    ensures
        struct_depth(enc_value(tbl, k, v)) == 0,
        stops_nested(enc_value(tbl, k, v)),
    decreases v, 1int,
{
    let img = enc_value(tbl, k, v);
    match v {
        SpecValue::List(vs) => {
            let ek = *k->List_0;
            let bg = seq![SpecEvent::ListBegin(wire_type_of(ek), vs.len())];
            lemma_elems_stream_balanced(tbl, ek, vs, 0);
            lemma_depth_singleton(bg[0]);
            lemma_depth_singleton(SpecEvent::ListEnd);
            assert(bg =~= seq![bg[0]]);
            lemma_depth_concat(bg, enc_elems(tbl, ek, vs, 0));
            lemma_depth_concat(bg + enc_elems(tbl, ek, vs, 0), seq![SpecEvent::ListEnd]);
            lemma_stops_singleton(bg[0], 0);
            lemma_stops_nested_concat(bg, enc_elems(tbl, ek, vs, 0), 0);
            lemma_stops_singleton(SpecEvent::ListEnd, 0);
            lemma_stops_nested_concat(
                bg + enc_elems(tbl, ek, vs, 0),
                seq![SpecEvent::ListEnd],
                0,
            );
        },
        SpecValue::SetOf(vs) => {
            let ek = *k->SetOf_0;
            let bg = seq![SpecEvent::SetBegin(wire_type_of(ek), vs.len())];
            lemma_elems_stream_balanced(tbl, ek, vs, 0);
            lemma_depth_singleton(bg[0]);
            lemma_depth_singleton(SpecEvent::SetEnd);
            assert(bg =~= seq![bg[0]]);
            lemma_depth_concat(bg, enc_elems(tbl, ek, vs, 0));
            lemma_depth_concat(bg + enc_elems(tbl, ek, vs, 0), seq![SpecEvent::SetEnd]);
            lemma_stops_singleton(bg[0], 0);
            lemma_stops_nested_concat(bg, enc_elems(tbl, ek, vs, 0), 0);
            lemma_stops_singleton(SpecEvent::SetEnd, 0);
            lemma_stops_nested_concat(bg + enc_elems(tbl, ek, vs, 0), seq![SpecEvent::SetEnd], 0);
        },
        SpecValue::MapOf(ps) => {
            let kk = *k->MapOf_0;
            let kv = *k->MapOf_1;
            let bg = seq![SpecEvent::MapBegin(wire_type_of(kk), wire_type_of(kv), ps.len())];
            lemma_pairs_stream_balanced(tbl, kk, kv, ps, 0);
            lemma_depth_singleton(bg[0]);
            lemma_depth_singleton(SpecEvent::MapEnd);
            assert(bg =~= seq![bg[0]]);
            lemma_depth_concat(bg, enc_pairs(tbl, kk, kv, ps, 0));
            lemma_depth_concat(bg + enc_pairs(tbl, kk, kv, ps, 0), seq![SpecEvent::MapEnd]);
            lemma_stops_singleton(bg[0], 0);
            lemma_stops_nested_concat(bg, enc_pairs(tbl, kk, kv, ps, 0), 0);
            lemma_stops_singleton(SpecEvent::MapEnd, 0);
            lemma_stops_nested_concat(
                bg + enc_pairs(tbl, kk, kv, ps, 0),
                seq![SpecEvent::MapEnd],
                0,
            );
        },
        SpecValue::Rec(fs) => {
            let si = k->Rec_0 as int;
            lemma_fields_stream_balanced(tbl, tbl[si].fields@, fs, 0);
            lemma_record_stream_balanced_parts(tbl, tbl[si].name@, tbl[si].fields@, fs);
        },
        _ => {
            lemma_depth_singleton(img[0]);
            lemma_stops_singleton(img[0], 0);
            assert(img =~= seq![img[0]]);
        },
    }
}

/// Balance of a record image, assembled from its parts.
proof fn lemma_record_stream_balanced_parts(
    tbl: Seq<RecordSchema>,
    name: Seq<char>,
    schema: Seq<FieldSchema>,
    fs: Seq<Option<SpecValue>>,
)
    requires
        struct_depth(enc_fields(tbl, schema, fs, 0)) == 0,
        stops_nested(enc_fields(tbl, schema, fs, 0)),
    ensures
        struct_depth(enc_record(tbl, name, schema, fs)) == 0,
        stops_nested(enc_record(tbl, name, schema, fs)),
        struct_depth(
            enc_record(tbl, name, schema, fs).take(enc_record(tbl, name, schema, fs).len() - 2),
        ) == 1,
{
    let ef = enc_fields(tbl, schema, fs, 0);
    let sb = seq![SpecEvent::StructBegin(name)];
    let img = enc_record(tbl, name, schema, fs);
    lemma_depth_singleton(SpecEvent::StructBegin(name));
    lemma_depth_singleton(SpecEvent::FieldStop);
    lemma_depth_singleton(SpecEvent::StructEnd);
    lemma_depth_concat(sb, ef);
    lemma_depth_concat(sb + ef, seq![SpecEvent::FieldStop]);
    lemma_depth_concat((sb + ef) + seq![SpecEvent::FieldStop], seq![SpecEvent::StructEnd]);
    assert(img =~= ((sb + ef) + seq![SpecEvent::FieldStop]) + seq![SpecEvent::StructEnd]);
    assert(img.take(img.len() - 2) =~= sb + ef);
    lemma_stops_singleton(SpecEvent::StructBegin(name), 0);
    lemma_stops_nested_mono(ef, 0, 1);
    lemma_stops_nested_concat(sb, ef, 0);
    lemma_stops_singleton(SpecEvent::FieldStop, 1);
    lemma_stops_nested_concat(sb + ef, seq![SpecEvent::FieldStop], 0);
    lemma_stops_singleton(SpecEvent::StructEnd, 1);
    lemma_stops_nested_concat(
        (sb + ef) + seq![SpecEvent::FieldStop],
        seq![SpecEvent::StructEnd],
        0,
    );
}

/// Balance of a container's element images from `i` on.
proof fn lemma_elems_stream_balanced(tbl: Seq<RecordSchema>, k: Kind, vs: Seq<SpecValue>, i: int)
    requires
        elems_match(tbl, k, vs),
        0 <= i <= vs.len(),
    ensures
        struct_depth(enc_elems(tbl, k, vs, i)) == 0,
        stops_nested(enc_elems(tbl, k, vs, i)),
    decreases vs, vs.len() - i,
{
    if i < vs.len() {
        lemma_value_stream_balanced(tbl, k, vs[i]);
        lemma_elems_stream_balanced(tbl, k, vs, i + 1);
        lemma_depth_concat(enc_value(tbl, k, vs[i]), enc_elems(tbl, k, vs, i + 1));
        lemma_stops_nested_concat(enc_value(tbl, k, vs[i]), enc_elems(tbl, k, vs, i + 1), 0);
    } else {
        assert(enc_elems(tbl, k, vs, i) =~= Seq::<SpecEvent>::empty());
        assert forall|j: int| 0 <= j <= 0 implies 0 + struct_depth(
            #[trigger] enc_elems(tbl, k, vs, i).take(j),
        ) >= 0 by {
            assert(enc_elems(tbl, k, vs, i).take(j) =~= Seq::<SpecEvent>::empty());
        }
    }
}

/// Balance of a map's entry images from `i` on.
proof fn lemma_pairs_stream_balanced(
    tbl: Seq<RecordSchema>,
    kk: Kind,
    kv: Kind,
    ps: Seq<(SpecValue, SpecValue)>,
    i: int,
)
    requires
        pairs_match(tbl, kk, kv, ps),
        0 <= i <= ps.len(),
    ensures
        struct_depth(enc_pairs(tbl, kk, kv, ps, i)) == 0,
        stops_nested(enc_pairs(tbl, kk, kv, ps, i)),
    decreases ps, ps.len() - i,
{
    if i < ps.len() {
        lemma_value_stream_balanced(tbl, kk, ps[i].0);
        lemma_value_stream_balanced(tbl, kv, ps[i].1);
        lemma_pairs_stream_balanced(tbl, kk, kv, ps, i + 1);
        lemma_depth_concat(enc_value(tbl, kv, ps[i].1), enc_pairs(tbl, kk, kv, ps, i + 1));
        lemma_stops_nested_concat(
            enc_value(tbl, kv, ps[i].1),
            enc_pairs(tbl, kk, kv, ps, i + 1),
            0,
        );
        lemma_depth_concat(
            enc_value(tbl, kk, ps[i].0),
            enc_value(tbl, kv, ps[i].1) + enc_pairs(tbl, kk, kv, ps, i + 1),
        );
        lemma_stops_nested_concat(
            enc_value(tbl, kk, ps[i].0),
            enc_value(tbl, kv, ps[i].1) + enc_pairs(tbl, kk, kv, ps, i + 1),
            0,
        );
        assert(enc_pairs(tbl, kk, kv, ps, i) =~= enc_value(tbl, kk, ps[i].0) + (enc_value(
            tbl,
            kv,
            ps[i].1,
        ) + enc_pairs(tbl, kk, kv, ps, i + 1)));
    } else {
        assert(enc_pairs(tbl, kk, kv, ps, i) =~= Seq::<SpecEvent>::empty());
        assert forall|j: int| 0 <= j <= 0 implies 0 + struct_depth(
            #[trigger] enc_pairs(tbl, kk, kv, ps, i).take(j),
        ) >= 0 by {
            assert(enc_pairs(tbl, kk, kv, ps, i).take(j) =~= Seq::<SpecEvent>::empty());
        }
    }
}

/// Balance of a record's framed field images from `j` on.
proof fn lemma_fields_stream_balanced(
    tbl: Seq<RecordSchema>,
    schema: Seq<FieldSchema>,
    fs: Seq<Option<SpecValue>>,
    j: int,
)
    requires
        fields_match(tbl, schema, fs),
        0 <= j <= fs.len(),
    ensures
        struct_depth(enc_fields(tbl, schema, fs, j)) == 0,
        stops_nested(enc_fields(tbl, schema, fs, j)),
    decreases fs, fs.len() - j,
{
    if j < fs.len() {
        lemma_fields_stream_balanced(tbl, schema, fs, j + 1);
        match fs[j] {
            Option::None => {
                assert(enc_fields(tbl, schema, fs, j) =~= enc_fields(tbl, schema, fs, j + 1));
            },
            Option::Some(v) => {
                let fb = seq![
                    SpecEvent::FieldBegin(
                        schema[j].name@,
                        wire_type_of(schema[j].kind),
                        schema[j].id,
                    ),
                ];
                let ev = enc_value(tbl, schema[j].kind, v);
                lemma_value_stream_balanced(tbl, schema[j].kind, v);
                lemma_depth_singleton(fb[0]);
                lemma_depth_singleton(SpecEvent::FieldEnd);
                assert(fb =~= seq![fb[0]]);
                lemma_depth_concat(fb, ev);
                lemma_depth_concat(fb + ev, seq![SpecEvent::FieldEnd]);
                lemma_depth_concat(
                    (fb + ev) + seq![SpecEvent::FieldEnd],
                    enc_fields(tbl, schema, fs, j + 1),
                );
                lemma_stops_singleton(fb[0], 0);
                lemma_stops_nested_concat(fb, ev, 0);
                lemma_stops_singleton(SpecEvent::FieldEnd, 0);
                lemma_stops_nested_concat(fb + ev, seq![SpecEvent::FieldEnd], 0);
                lemma_stops_nested_concat(
                    (fb + ev) + seq![SpecEvent::FieldEnd],
                    enc_fields(tbl, schema, fs, j + 1),
                    0,
                );
                assert(enc_fields(tbl, schema, fs, j) =~= ((fb + ev) + seq![SpecEvent::FieldEnd])
                    + enc_fields(tbl, schema, fs, j + 1));
            },
        }
    } else {
        assert(enc_fields(tbl, schema, fs, j) =~= Seq::<SpecEvent>::empty());
        assert forall|t: int| 0 <= t <= 0 implies 0 + struct_depth(
            #[trigger] enc_fields(tbl, schema, fs, j).take(t),
        ) >= 0 by {
            assert(enc_fields(tbl, schema, fs, j).take(t) =~= Seq::<SpecEvent>::empty());
        }
    }
}

/// Stop-marker uniqueness: a record image carries exactly one field stop at
/// the record's own framing depth, and it stands directly before the closing
/// struct end; every other field stop in the image lies strictly deeper,
/// inside a nested record.
pub proof fn lemma_stop_marker_unique(
    tbl: Seq<RecordSchema>,
    name: Seq<char>,
    schema: Seq<FieldSchema>,
    fs: Seq<Option<SpecValue>>,
)
    requires
        fields_match(tbl, schema, fs),
    ensures
        ({
            let img = enc_record(tbl, name, schema, fs);
            &&& img.len() >= 3
            &&& img[img.len() - 2] == SpecEvent::FieldStop
            &&& img[img.len() - 1] == SpecEvent::StructEnd
            &&& struct_depth(img.take(img.len() - 2)) == 1
            &&& forall|i: int|
                0 <= i < img.len() - 2 && (#[trigger] img[i]) is FieldStop ==> struct_depth(
                    img.take(i),
                ) >= 2
        }),
{
    let img = enc_record(tbl, name, schema, fs);
    let ef = enc_fields(tbl, schema, fs, 0);
    let sb = seq![SpecEvent::StructBegin(name)];
    lemma_record_stop_framing(tbl, name, schema, fs);
    lemma_fields_stream_balanced(tbl, schema, fs, 0);
    lemma_record_stream_balanced_parts(tbl, name, schema, fs);
    lemma_depth_singleton(SpecEvent::StructBegin(name));
    assert forall|i: int|
        0 <= i < img.len() - 2 && (#[trigger] img[i]) is FieldStop implies struct_depth(
        img.take(i),
    ) >= 2 by {
        assert(i >= 1);
        assert(ef[i - 1] is FieldStop) by {
            assert(ef[i - 1] == img.subrange(1, img.len() - 2)[i - 1]);
        }
        assert(0 + struct_depth(ef.take(i - 1)) >= 1);
        lemma_depth_concat(sb, ef.take(i - 1));
        assert(img.take(i) =~= sb + ef.take(i - 1));
    }
}


/// How many struct begins a stream holds.
pub open spec fn struct_begin_count(s: Seq<SpecEvent>) -> int
    decreases s.len(),
{
    if s.len() == 0 {
        0
    } else {
        struct_begin_count(s.drop_last()) + if s.last() is StructBegin {
            1int
        } else {
            0int
        }
    }
}

/// How many struct ends a stream holds.
pub open spec fn struct_end_count(s: Seq<SpecEvent>) -> int
    decreases s.len(),
{
    if s.len() == 0 {
        0
    } else {
        struct_end_count(s.drop_last()) + if s.last() is StructEnd {
            1int
        } else {
            0int
        }
    }
}

/// How many record instances a value contains, itself included when it is
/// one.
pub open spec fn record_nodes(v: SpecValue) -> int
    decreases v, 1int,
{
    match v {
        SpecValue::List(vs) => record_nodes_elems(vs, 0),
        SpecValue::SetOf(vs) => record_nodes_elems(vs, 0),
        SpecValue::MapOf(ps) => record_nodes_pairs(ps, 0),
        SpecValue::Rec(fs) => 1 + record_nodes_fields(fs, 0),
        _ => 0,
    }
}

/// Record instances contained in a container's elements from `i` on.
pub open spec fn record_nodes_elems(vs: Seq<SpecValue>, i: int) -> int
    decreases vs, vs.len() - i,
{
    if 0 <= i < vs.len() {
        record_nodes(vs[i]) + record_nodes_elems(vs, i + 1)
    } else {
        0
    }
}

/// Record instances contained in a map's entries from `i` on.
pub open spec fn record_nodes_pairs(ps: Seq<(SpecValue, SpecValue)>, i: int) -> int
    decreases ps, ps.len() - i,
{
    if 0 <= i < ps.len() {
        record_nodes(ps[i].0) + record_nodes(ps[i].1) + record_nodes_pairs(ps, i + 1)
    } else {
        0
    }
}

/// Record instances contained in a record's present fields from `j` on.
pub open spec fn record_nodes_fields(fs: Seq<Option<SpecValue>>, j: int) -> int
    decreases fs, fs.len() - j,
{
    if 0 <= j < fs.len() {
        (match fs[j] {
            Option::None => 0int,
            Option::Some(v) => record_nodes(v),
        }) + record_nodes_fields(fs, j + 1)
    } else {
        0
    }
}

proof fn lemma_counts_concat(a: Seq<SpecEvent>, b: Seq<SpecEvent>)
    ensures
        struct_begin_count(a + b) == struct_begin_count(a) + struct_begin_count(b),
        struct_end_count(a + b) == struct_end_count(a) + struct_end_count(b),
    decreases b.len(),
{
    if b.len() == 0 {
        assert(a + b =~= a);
    } else {
        lemma_counts_concat(a, b.drop_last());
        assert((a + b).drop_last() =~= a + b.drop_last());
        assert((a + b).last() == b.last());
    }
}

proof fn lemma_counts_singleton(e: SpecEvent)
    ensures
        struct_begin_count(seq![e]) == if e is StructBegin {
            1int
        } else {
            0int
        },
        struct_end_count(seq![e]) == if e is StructEnd {
            1int
        } else {
            0int
        },
{
    assert(seq![e].len() == 1);
    assert(seq![e].last() == e);
    assert(seq![e].drop_last() =~= Seq::<SpecEvent>::empty());
    assert(struct_begin_count(Seq::<SpecEvent>::empty()) == 0);
    assert(struct_end_count(Seq::<SpecEvent>::empty()) == 0);
}

/// A value's image opens one struct per record instance it contains, and
/// closes as many.
pub proof fn lemma_record_node_framing(tbl: Seq<RecordSchema>, k: Kind, v: SpecValue)
    requires
        value_matches(tbl, k, v),
    ensures
        struct_begin_count(enc_value(tbl, k, v)) == record_nodes(v),
        struct_end_count(enc_value(tbl, k, v)) == record_nodes(v),
    decreases v, 1int,
{
    match v {
        SpecValue::List(vs) => {
            let ek = *k->List_0;
            let bg = seq![SpecEvent::ListBegin(wire_type_of(ek), vs.len())];
            lemma_node_framing_elems(tbl, ek, vs, 0);
            lemma_counts_singleton(bg[0]);
            lemma_counts_singleton(SpecEvent::ListEnd);
            assert(bg =~= seq![bg[0]]);
            lemma_counts_concat(bg, enc_elems(tbl, ek, vs, 0));
            lemma_counts_concat(bg + enc_elems(tbl, ek, vs, 0), seq![SpecEvent::ListEnd]);
        },
        SpecValue::SetOf(vs) => {
            let ek = *k->SetOf_0;
            let bg = seq![SpecEvent::SetBegin(wire_type_of(ek), vs.len())];
            lemma_node_framing_elems(tbl, ek, vs, 0);
            lemma_counts_singleton(bg[0]);
            lemma_counts_singleton(SpecEvent::SetEnd);
            assert(bg =~= seq![bg[0]]);
            lemma_counts_concat(bg, enc_elems(tbl, ek, vs, 0));
            lemma_counts_concat(bg + enc_elems(tbl, ek, vs, 0), seq![SpecEvent::SetEnd]);
        },
        SpecValue::MapOf(ps) => {
            let kk = *k->MapOf_0;
            let kv = *k->MapOf_1;
            let bg = seq![SpecEvent::MapBegin(wire_type_of(kk), wire_type_of(kv), ps.len())];
            lemma_node_framing_pairs(tbl, kk, kv, ps, 0);
            lemma_counts_singleton(bg[0]);
            lemma_counts_singleton(SpecEvent::MapEnd);
            assert(bg =~= seq![bg[0]]);
            lemma_counts_concat(bg, enc_pairs(tbl, kk, kv, ps, 0));
            lemma_counts_concat(bg + enc_pairs(tbl, kk, kv, ps, 0), seq![SpecEvent::MapEnd]);
        },
        SpecValue::Rec(fs) => {
            let si = k->Rec_0 as int;
            let name = tbl[si].name@;
            let schema = tbl[si].fields@;
            let sb = seq![SpecEvent::StructBegin(name)];
            let ef = enc_fields(tbl, schema, fs, 0);
            lemma_node_framing_fields(tbl, schema, fs, 0);
            lemma_counts_singleton(SpecEvent::StructBegin(name));
            lemma_counts_singleton(SpecEvent::FieldStop);
            lemma_counts_singleton(SpecEvent::StructEnd);
            lemma_counts_concat(sb, ef);
            lemma_counts_concat(sb + ef, seq![SpecEvent::FieldStop]);
            lemma_counts_concat((sb + ef) + seq![SpecEvent::FieldStop], seq![SpecEvent::StructEnd]);
            assert(enc_value(tbl, k, v) =~= ((sb + ef) + seq![SpecEvent::FieldStop]) + seq![
                SpecEvent::StructEnd,
            ]);
        },
        _ => {
            lemma_counts_singleton(enc_value(tbl, k, v)[0]);
            assert(enc_value(tbl, k, v) =~= seq![enc_value(tbl, k, v)[0]]);
        },
    }
}

proof fn lemma_node_framing_elems(tbl: Seq<RecordSchema>, k: Kind, vs: Seq<SpecValue>, i: int)
    requires
        elems_match(tbl, k, vs),
        0 <= i <= vs.len(),
    ensures
        struct_begin_count(enc_elems(tbl, k, vs, i)) == record_nodes_elems(vs, i),
        struct_end_count(enc_elems(tbl, k, vs, i)) == record_nodes_elems(vs, i),
    decreases vs, vs.len() - i,
{
    if i < vs.len() {
        lemma_record_node_framing(tbl, k, vs[i]);
        lemma_node_framing_elems(tbl, k, vs, i + 1);
        lemma_counts_concat(enc_value(tbl, k, vs[i]), enc_elems(tbl, k, vs, i + 1));
    } else {
        assert(enc_elems(tbl, k, vs, i) =~= Seq::<SpecEvent>::empty());
    }
}

proof fn lemma_node_framing_pairs(
    tbl: Seq<RecordSchema>,
    kk: Kind,
    kv: Kind,
    ps: Seq<(SpecValue, SpecValue)>,
    i: int,
)
    requires
        pairs_match(tbl, kk, kv, ps),
        0 <= i <= ps.len(),
    ensures
        struct_begin_count(enc_pairs(tbl, kk, kv, ps, i)) == record_nodes_pairs(ps, i),
        struct_end_count(enc_pairs(tbl, kk, kv, ps, i)) == record_nodes_pairs(ps, i),
    decreases ps, ps.len() - i,
{
    if i < ps.len() {
        lemma_record_node_framing(tbl, kk, ps[i].0);
        lemma_record_node_framing(tbl, kv, ps[i].1);
        lemma_node_framing_pairs(tbl, kk, kv, ps, i + 1);
        lemma_counts_concat(enc_value(tbl, kv, ps[i].1), enc_pairs(tbl, kk, kv, ps, i + 1));
        lemma_counts_concat(
            enc_value(tbl, kk, ps[i].0),
            enc_value(tbl, kv, ps[i].1) + enc_pairs(tbl, kk, kv, ps, i + 1),
        );
        assert(enc_pairs(tbl, kk, kv, ps, i) =~= enc_value(tbl, kk, ps[i].0) + (enc_value(
            tbl,
            kv,
            ps[i].1,
        ) + enc_pairs(tbl, kk, kv, ps, i + 1)));
    } else {
        assert(enc_pairs(tbl, kk, kv, ps, i) =~= Seq::<SpecEvent>::empty());
    }
}

proof fn lemma_node_framing_fields(
    tbl: Seq<RecordSchema>,
    schema: Seq<FieldSchema>,
    fs: Seq<Option<SpecValue>>,
    j: int,
)
    requires
        fields_match(tbl, schema, fs),
        0 <= j <= fs.len(),
    ensures
        struct_begin_count(enc_fields(tbl, schema, fs, j)) == record_nodes_fields(fs, j),
        struct_end_count(enc_fields(tbl, schema, fs, j)) == record_nodes_fields(fs, j),
    decreases fs, fs.len() - j,
{
    if j < fs.len() {
        lemma_node_framing_fields(tbl, schema, fs, j + 1);
        match fs[j] {
            Option::None => {
                assert(enc_fields(tbl, schema, fs, j) =~= enc_fields(tbl, schema, fs, j + 1));
            },
            Option::Some(v) => {
                let fb = seq![
                    SpecEvent::FieldBegin(
                        schema[j].name@,
                        wire_type_of(schema[j].kind),
                        schema[j].id,
                    ),
                ];
                let ev = enc_value(tbl, schema[j].kind, v);
                lemma_record_node_framing(tbl, schema[j].kind, v);
                lemma_counts_singleton(fb[0]);
                lemma_counts_singleton(SpecEvent::FieldEnd);
                assert(fb =~= seq![fb[0]]);
                lemma_counts_concat(fb, ev);
                lemma_counts_concat(fb + ev, seq![SpecEvent::FieldEnd]);
                lemma_counts_concat(
                    (fb + ev) + seq![SpecEvent::FieldEnd],
                    enc_fields(tbl, schema, fs, j + 1),
                );
                assert(enc_fields(tbl, schema, fs, j) =~= ((fb + ev) + seq![SpecEvent::FieldEnd])
                    + enc_fields(tbl, schema, fs, j + 1));
            },
        }
    } else {
        assert(enc_fields(tbl, schema, fs, j) =~= Seq::<SpecEvent>::empty());
    }
}

} // verus!
