//! The service layer: a dispatcher routing incoming call messages to a
//! bound service implementation, and a client stub framing calls and
//! extracting reply results.

use vstd::prelude::*;
use crate::Error;
use crate::schema::{MessageType, SchemaTable, table_wf};
use crate::value::{SpecValue, Value, Record, value_matches, fields_match, fields_rt_ok, rt_ok,
    value_conforms, lemma_fields_view};
use crate::events::SpecEvent;
use crate::codec::{enc_record, encode_record, lemma_prefix_extend, lemma_prefix_chain};
use crate::decode::{unread, decode_record, lemma_prefix_split, lemma_prefix_index,
    lemma_unread_skip};
use crate::protocol::Protocol;

verus! {

/// Declares one service method: its wire name, the table index of its
/// arguments record (one field per argument, under the declared ids), and
/// the table index of its result record, which has exactly one non-optional
/// field at id 0 holding the return value.
#[derive(Debug)]
pub struct MethodSchema {
    pub name: String,
    pub args_idx: usize,
    pub result_idx: usize,
}

/// A method table fits a schema table: every method's records exist and the
/// result record carries exactly the single field at id 0.
pub open spec fn methods_wf(tbl: Seq<crate::schema::RecordSchema>, ms: Seq<MethodSchema>) -> bool {
    &&& forall|i: int|
        0 <= i < ms.len() ==> {
            &&& (#[trigger] ms[i]).args_idx < tbl.len()
            &&& ms[i].result_idx < tbl.len()
            &&& tbl[ms[i].result_idx as int].fields@.len() == 1
            &&& tbl[ms[i].result_idx as int].fields@[0].id == 0
            &&& !tbl[ms[i].result_idx as int].fields@[0].optional
        }
    &&& forall|i: int, j: int|
        0 <= i < j < ms.len() ==> (#[trigger] ms[i].name)@ != (#[trigger] ms[j].name)@
}

/// The whole event stream of one call message: the envelope, the arguments
/// record image under the method's args schema, and the message end.
pub open spec fn call_image(
    tbl: Seq<crate::schema::RecordSchema>,
    m: MethodSchema,
    mt: MessageType,
    sid: i32,
    args0: Seq<Option<SpecValue>>,
) -> Seq<SpecEvent> {
    seq![SpecEvent::MsgBegin(m.name@, mt, sid)] + enc_record(
        tbl,
        tbl[m.args_idx as int].name@,
        tbl[m.args_idx as int].fields@,
        args0,
    ) + seq![SpecEvent::MsgEnd]
}

/// Whether an event is a message envelope under the given name and
/// sequence id, of any message type.
pub open spec fn envelope_like(e: SpecEvent, nm: Seq<char>, sid: i32) -> bool {
    &&& e is MsgBegin
    &&& e->MsgBegin_0 == nm
    &&& e->MsgBegin_2 == sid
}

/// A service implementation: one callable entry per declared method, keyed
/// by the method's position in the dispatcher's table, taking the decoded
/// arguments record and returning the result value.
pub trait Service {
    fn handle(&mut self, method: usize, args: Record) -> Result<Value, Error>;
}


/// Runtime check that no two methods share a wire name.
fn method_names_unique(ms: &Vec<MethodSchema>) -> (r: bool)
    ensures
        r == forall|i: int, j: int|
            0 <= i < j < ms@.len() ==> (#[trigger] ms@[i].name)@ != (#[trigger] ms@[j].name)@,
{
    let mut i: usize = 0;
    while i < ms.len()
        invariant
            i <= ms@.len(),
            forall|a: int, b: int|
                0 <= a < b < ms@.len() && a < i ==> (#[trigger] ms@[a].name)@ != (
                #[trigger] ms@[b].name)@,
        decreases ms@.len() - i,
    {
        let mut b: usize = i + 1;
        while b < ms.len()
            invariant
                i < ms@.len(),
                i < b <= ms@.len(),
                forall|t: int| i < t < b ==> ms@[i as int].name@ != (#[trigger] ms@[t].name)@,
            decreases ms@.len() - b,
        {
            if ms[i].name == ms[b].name {
                return false;
            }
            b = b + 1;
        }
        i = i + 1;
    }
    true
}

/// Runtime check of a method table against a schema table.
pub fn methods_conform(tbl: &SchemaTable, ms: &Vec<MethodSchema>) -> (r: bool)
    ensures
        r == methods_wf(tbl@, ms@),
{
    if !method_names_unique(ms) {
        return false;
    }
    let mut i: usize = 0;
    while i < ms.len()
        invariant
            i <= ms@.len(),
            forall|t: int|
                0 <= t < i ==> {
                    &&& (#[trigger] ms@[t]).args_idx < tbl@.len()
                    &&& ms@[t].result_idx < tbl@.len()
                    &&& tbl@[ms@[t].result_idx as int].fields@.len() == 1
                    &&& tbl@[ms@[t].result_idx as int].fields@[0].id == 0
                    &&& !tbl@[ms@[t].result_idx as int].fields@[0].optional
                },
        decreases ms@.len() - i,
    {
        let m = &ms[i];
        if m.args_idx >= tbl.len() || m.result_idx >= tbl.len() {
            return false;
        }
        let res = &tbl[m.result_idx];
        if res.fields.len() != 1 || res.fields[0].id != 0 || res.fields[0].optional {
            return false;
        }
        i = i + 1;
    }
    true
}

/// Server-side dispatcher: owns a service implementation and a read-only
/// method table, and routes one call message per `process` invocation.
pub struct Processor<S: Service> {
    pub service: S,
    pub methods: Vec<MethodSchema>,
}

/// Looks a method up by its wire name.
fn find_method(methods: &Vec<MethodSchema>, name: &String) -> (r: Option<usize>)
    ensures
        r matches Some(i) ==> i < methods@.len() && methods@[i as int].name@ == name@,
        r is None ==> forall|i: int|
            0 <= i < methods@.len() ==> (#[trigger] methods@[i].name)@ != name@,
{
    let mut i: usize = 0;
    while i < methods.len()
        invariant
            i <= methods@.len(),
            forall|t: int| 0 <= t < i ==> (#[trigger] methods@[t].name)@ != name@,
        decreases methods@.len() - i,
    {
        if methods[i].name == *name {
            return Some(i);
        }
        i = i + 1;
    }
    None
}

impl<S: Service> Processor<S> {
    /// A dispatcher over the given service implementation and method table.
    pub fn new(service: S, methods: Vec<MethodSchema>) -> (r: Processor<S>)
        ensures
            r.service == service,
            r.methods == methods,
    {
        Processor { service, methods }
    }

    /// One synchronous request/response cycle: read the message envelope,
    /// look the method up by name, decode its arguments record, invoke the
    /// service, and reply with a result record holding the returned value
    /// under field id 0, framed with the same sequence id that was read.
    ///
    /// A call whose method name is absent from the table fails with
    /// `UnknownMethod` after consuming nothing beyond the envelope, writing
    /// nothing, and never touching the service. When the incoming message is
    /// a canonical call for a declared method, exactly the envelope, one
    /// arguments record image and the message end are consumed, whatever the
    /// outcome.
    pub fn process<P: Protocol>(&mut self, p: &mut P, tbl: &SchemaTable) -> (r: Result<(), Error>)
        requires
            old(p).inv(),
            table_wf(tbl@),
            methods_wf(tbl@, old(self).methods@),
        ensures
            final(p).inv(),
            final(self).methods == old(self).methods,
            old(p).events().is_prefix_of(final(p).events()),
            old(p).taken() <= final(p).taken() <= final(p).events().len(),
            forall|nm: Seq<char>, mt: MessageType, sid: i32|
                (unread(old(p)).len() >= 1 && unread(old(p))[0] == SpecEvent::MsgBegin(
                    nm,
                    mt,
                    sid,
                ) && !(exists|i: int|
                    0 <= i < old(self).methods@.len() && (#[trigger] old(self).methods@[i].name)@ == nm)) ==> r == Err::<(), Error>(Error::UnknownMethod)
                    && final(p).taken() == old(p).taken() + 1 && final(p).events() == old(
                    p,
                ).events() && final(self).service == old(self).service,
            forall|i: int, mt: MessageType, sid: i32, args0: Seq<Option<SpecValue>>|
                (0 <= i < old(self).methods@.len() && fields_match(
                    tbl@,
                    tbl@[old(self).methods@[i].args_idx as int].fields@,
                    args0,
                ) && fields_rt_ok(args0) && (exists|j: int| 0 <= j < args0.len() && args0[j] is Some)
                    && (#[trigger] call_image(
                    tbl@,
                    old(self).methods@[i],
                    mt,
                    sid,
                    args0,
                )).is_prefix_of(unread(old(p)))) ==> final(p).taken() == old(p).taken()
                    + call_image(tbl@, old(self).methods@[i], mt, sid, args0).len(),
            r is Ok ==> exists|i: int, sid: i32, v: SpecValue|
                {
                    &&& 0 <= i < old(self).methods@.len()
                    &&& unread(old(p)).len() >= 1
                    &&& #[trigger] envelope_like(
                        unread(old(p))[0],
                        old(self).methods@[i].name@,
                        sid,
                    )
                    &&& #[trigger] value_matches(
                        tbl@,
                        tbl@[old(self).methods@[i].result_idx as int].fields@[0].kind,
                        v,
                    )
                    &&& final(p).events() == old(p).events() + seq![
                        SpecEvent::MsgBegin(old(self).methods@[i].name@, MessageType::Reply, sid),
                    ] + enc_record(
                        tbl@,
                        tbl@[old(self).methods@[i].result_idx as int].name@,
                        tbl@[old(self).methods@[i].result_idx as int].fields@,
                        seq![Option::Some(v)],
                    ) + seq![SpecEvent::MsgEnd]
                },
    {
        proof {
            p.inv_bound();
        }
        let ghost p0 = *p;
        let rb = p.read_message_begin();
        proof {
            assert forall|i: int, mt: MessageType, sid: i32, args0: Seq<Option<SpecValue>>|
                (0 <= i < old(self).methods@.len() && fields_match(
                    tbl@,
                    tbl@[old(self).methods@[i].args_idx as int].fields@,
                    args0,
                ) && fields_rt_ok(args0) && (exists|j: int| 0 <= j < args0.len() && args0[j] is Some)
                    && (#[trigger] call_image(
                    tbl@,
                    old(self).methods@[i],
                    mt,
                    sid,
                    args0,
                )).is_prefix_of(unread(&p0))) implies (rb matches Ok(h) && h.0@ == old(self).methods@[i].name@ && enc_record(
                tbl@,
                tbl@[old(self).methods@[i].args_idx as int].name@,
                tbl@[old(self).methods@[i].args_idx as int].fields@,
                args0,
            ).is_prefix_of(unread(&p0).skip(1)) && seq![SpecEvent::MsgEnd].is_prefix_of(
                unread(&p0).skip(1).skip(
                    enc_record(
                        tbl@,
                        tbl@[old(self).methods@[i].args_idx as int].name@,
                        tbl@[old(self).methods@[i].args_idx as int].fields@,
                        args0,
                    ).len() as int,
                ),
            )) by {
                let am = enc_record(
                    tbl@,
                    tbl@[old(self).methods@[i].args_idx as int].name@,
                    tbl@[old(self).methods@[i].args_idx as int].fields@,
                    args0,
                );
                let mb = SpecEvent::MsgBegin(old(self).methods@[i].name@, mt, sid);
                assert(call_image(tbl@, old(self).methods@[i], mt, sid, args0) =~= seq![mb] + (am
                    + seq![SpecEvent::MsgEnd]));
                lemma_prefix_split(seq![mb], am + seq![SpecEvent::MsgEnd], unread(&p0));
                lemma_prefix_index(seq![mb], unread(&p0), 0);
                assert(unread(&p0)[0] == p0.events()[p0.taken() as int]);
                lemma_prefix_split(am, seq![SpecEvent::MsgEnd], unread(&p0).skip(1));
            }
        }
        let (name, _mtype, seqid) = match rb {
            Ok(v) => v,
            Err(e) => {
                proof {
                    assert(unread(&p0).len() >= 1 ==> unread(&p0)[0] == p0.events()[p0.taken() as int]);
                }
                return Err(e);
            },
        };
        proof {
            assert(unread(&p0).len() >= 1);
            assert(unread(&p0)[0] == p0.events()[p0.taken() as int]);
        }
        let mi = match find_method(&self.methods, &name) {
            Some(i) => i,
            None => {
                proof {
                    assert forall|i: int, mt: MessageType, sid: i32, args0: Seq<Option<SpecValue>>|
                        (0 <= i < old(self).methods@.len() && fields_match(
                            tbl@,
                            tbl@[old(self).methods@[i].args_idx as int].fields@,
                            args0,
                        ) && fields_rt_ok(args0) && (exists|j: int|
                            0 <= j < args0.len() && args0[j] is Some) && (#[trigger] call_image(
                            tbl@,
                            old(self).methods@[i],
                            mt,
                            sid,
                            args0,
                        )).is_prefix_of(unread(&p0))) implies false by {
                        assert(name@ == old(self).methods@[i].name@);
                        assert((old(self).methods@[i].name)@ != name@);
                    }
                }
                return Err(Error::UnknownMethod);
            },
        };
        proof {
            assert forall|i: int, mt: MessageType, sid: i32, args0: Seq<Option<SpecValue>>|
                (0 <= i < old(self).methods@.len() && fields_match(
                    tbl@,
                    tbl@[old(self).methods@[i].args_idx as int].fields@,
                    args0,
                ) && fields_rt_ok(args0) && (exists|j: int| 0 <= j < args0.len() && args0[j] is Some)
                    && (#[trigger] call_image(
                    tbl@,
                    old(self).methods@[i],
                    mt,
                    sid,
                    args0,
                )).is_prefix_of(unread(&p0))) implies (mi as int == i) by {
                assert(name@ == old(self).methods@[i].name@);
                assert(old(self).methods@[mi as int].name@ == name@);
                if (mi as int) < i {
                    assert((old(self).methods@[mi as int].name)@ != (old(self).methods@[i].name)@);
                } else if i < mi as int {
                    assert((old(self).methods@[i].name)@ != (old(self).methods@[mi as int].name)@);
                }
            }
        }
        let ghost p1 = *p;
        let rd = decode_record(p, tbl, self.methods[mi].args_idx);
        proof {
            assert forall|i: int, mt: MessageType, sid: i32, args0: Seq<Option<SpecValue>>|
                (0 <= i < old(self).methods@.len() && fields_match(
                    tbl@,
                    tbl@[old(self).methods@[i].args_idx as int].fields@,
                    args0,
                ) && fields_rt_ok(args0) && (exists|j: int| 0 <= j < args0.len() && args0[j] is Some)
                    && (#[trigger] call_image(
                    tbl@,
                    old(self).methods@[i],
                    mt,
                    sid,
                    args0,
                )).is_prefix_of(unread(&p0))) implies (rd matches Ok(a) && p.taken() == p1.taken()
                + enc_record(
                tbl@,
                tbl@[old(self).methods@[i].args_idx as int].name@,
                tbl@[old(self).methods@[i].args_idx as int].fields@,
                args0,
            ).len()) by {
                assert(mi as int == i);
                assert(p1.taken() == p0.taken() + 1);
                lemma_unread_skip(&p0, &p1, 1);
                assert(enc_record(
                    tbl@,
                    tbl@[self.methods@[mi as int].args_idx as int].name@,
                    tbl@[self.methods@[mi as int].args_idx as int].fields@,
                    args0,
                ).is_prefix_of(unread(&p1)));
            }
        }
        let args = match rd {
            Ok(a) => a,
            Err(e) => {
                return Err(e);
            },
        };
        let ghost p2 = *p;
        let rme = p.read_message_end();
        proof {
            assert forall|i: int, mt: MessageType, sid: i32, args0: Seq<Option<SpecValue>>|
                (0 <= i < old(self).methods@.len() && fields_match(
                    tbl@,
                    tbl@[old(self).methods@[i].args_idx as int].fields@,
                    args0,
                ) && fields_rt_ok(args0) && (exists|j: int| 0 <= j < args0.len() && args0[j] is Some)
                    && (#[trigger] call_image(
                    tbl@,
                    old(self).methods@[i],
                    mt,
                    sid,
                    args0,
                )).is_prefix_of(unread(&p0))) implies (rme is Ok && p.taken() == p0.taken()
                + call_image(tbl@, old(self).methods@[i], mt, sid, args0).len()) by {
                let am = enc_record(
                    tbl@,
                    tbl@[old(self).methods@[i].args_idx as int].name@,
                    tbl@[old(self).methods@[i].args_idx as int].fields@,
                    args0,
                );
                assert(p2.taken() == p1.taken() + am.len());
                lemma_unread_skip(&p1, &p2, am.len() as int);
                assert(unread(&p2) =~= unread(&p0).skip(1).skip(am.len() as int));
                lemma_prefix_index(seq![SpecEvent::MsgEnd], unread(&p2), 0);
                assert(unread(&p2)[0] == p2.events()[p2.taken() as int]);
                assert(call_image(tbl@, old(self).methods@[i], mt, sid, args0).len() == 2
                    + am.len());
            }
        }
        match rme {
            Ok(()) => (),
            Err(e) => {
                return Err(e);
            },
        }
        let ret = match self.service.handle(mi, args) {
            Ok(v) => v,
            Err(e) => {
                return Err(e);
            },
        };
        let ridx = self.methods[mi].result_idx;
        let ret_kind = &tbl[ridx].fields[0].kind;
        if !value_conforms(tbl, ret_kind, &ret) {
            return Err(Error::ProtocolViolation);
        }
        let ghost retv = ret@;
        let mut fields: Vec<Option<Value>> = Vec::new();
        fields.push(Some(ret));
        let resrec = Record { fields };
        proof {
            lemma_fields_view(resrec.fields@);
            assert(resrec@ =~= seq![Option::Some(retv)]);
        }
        let ghost pw = *p;
        match p.write_message_begin(self.methods[mi].name.as_str(), MessageType::Reply, seqid) {
            Ok(()) => (),
            Err(e) => {
                return Err(e);
            },
        }
        match encode_record(p, tbl, ridx, &resrec) {
            Ok(()) => (),
            Err(e) => {
                return Err(e);
            },
        }
        match p.write_message_end() {
            Ok(()) => (),
            Err(e) => {
                return Err(e);
            },
        }
        proof {
            assert(final(p).events() =~= pw.events() + seq![
                SpecEvent::MsgBegin(self.methods@[mi as int].name@, MessageType::Reply, seqid),
            ] + enc_record(
                tbl@,
                tbl@[ridx as int].name@,
                tbl@[ridx as int].fields@,
                seq![Option::Some(retv)],
            ) + seq![SpecEvent::MsgEnd]);
            assert(old(p).events().is_prefix_of(final(p).events()));
            assert(unread(&p0)[0] == p0.events()[p0.taken() as int]);
            assert(envelope_like(unread(&p0)[0], self.methods@[mi as int].name@, seqid));
            assert(value_matches(
                tbl@,
                tbl@[self.methods@[mi as int].result_idx as int].fields@[0].kind,
                retv,
            ));
        }
        Ok(())
    }
}

/// Client-side stub: owns its protocol and frames one call per invocation.
pub struct Client<P: Protocol> {
    pub protocol: P,
}

impl<P: Protocol> Client<P> {
    /// A stub over the given protocol.
    pub fn new(protocol: P) -> (r: Client<P>)
        ensures
            r.protocol == protocol,
    {
        Client { protocol }
    }

    /// One method call: send the arguments record as a call message under
    /// the given sequence id, then read the reply message and return the
    /// result record's single field. A reply whose message type is not
    /// `Reply` or whose sequence id differs from the call's is rejected as a
    /// protocol violation; so is a reply whose result field is absent: on
    /// success the consumed reply envelope provably bore `Reply` and this
    /// call's sequence id.
    ///
    /// If the unread stream holds a canonical reply to this call, exactly
    /// its result value comes back.
    pub fn call(
        &mut self,
        tbl: &SchemaTable,
        method: &MethodSchema,
        sequence_id: i32,
        args: &Record,
    ) -> (r: Result<Value, Error>)
        requires
            old(self).protocol.inv(),
            table_wf(tbl@),
            method.args_idx < tbl@.len(),
            method.result_idx < tbl@.len(),
            tbl@[method.result_idx as int].fields@.len() == 1,
            !tbl@[method.result_idx as int].fields@[0].optional,
            fields_match(tbl@, tbl@[method.args_idx as int].fields@, args@),
        ensures
            final(self).protocol.inv(),
            r matches Ok(v) ==> value_matches(
                tbl@,
                tbl@[method.result_idx as int].fields@[0].kind,
                v@,
            ),
            r is Ok ==> final(self).protocol.events() == old(self).protocol.events() + seq![
                SpecEvent::MsgBegin(method.name@, MessageType::Call, sequence_id),
            ] + enc_record(
                tbl@,
                tbl@[method.args_idx as int].name@,
                tbl@[method.args_idx as int].fields@,
                args@,
            ) + seq![SpecEvent::MsgEnd],
            old(self).protocol.events().is_prefix_of(final(self).protocol.events()),
            final(self).protocol.events().is_prefix_of(
                old(self).protocol.events() + seq![
                    SpecEvent::MsgBegin(method.name@, MessageType::Call, sequence_id),
                ] + enc_record(
                    tbl@,
                    tbl@[method.args_idx as int].name@,
                    tbl@[method.args_idx as int].fields@,
                    args@,
                ) + seq![SpecEvent::MsgEnd],
            ),
            old(self).protocol.taken() <= final(self).protocol.taken() <= final(self).protocol.events().len(),
            r is Ok ==> old(self).protocol.taken() < final(self).protocol.taken() && old(self).protocol.taken() < final(self).protocol.events().len() && (final(self).protocol.events()[old(self).protocol.taken() as int] is MsgBegin) && final(self).protocol.events()[old(self).protocol.taken() as int]->MsgBegin_1
                == MessageType::Reply && final(self).protocol.events()[old(self).protocol.taken() as int]->MsgBegin_2 == sequence_id,
            forall|v0: SpecValue|
                (value_matches(tbl@, tbl@[method.result_idx as int].fields@[0].kind, v0) && rt_ok(
                    v0,
                ) && ((seq![SpecEvent::MsgBegin(method.name@, MessageType::Reply, sequence_id)]
                    + (#[trigger] enc_record(
                    tbl@,
                    tbl@[method.result_idx as int].name@,
                    tbl@[method.result_idx as int].fields@,
                    seq![Option::Some(v0)],
                ))) + seq![SpecEvent::MsgEnd]).is_prefix_of(unread(&old(self).protocol))) ==> ((
            r matches Ok(v) && v@ == v0) || final(self).protocol.events().len() < old(self).protocol.events().len() + 2 + enc_record(
                tbl@,
                tbl@[method.args_idx as int].name@,
                tbl@[method.args_idx as int].fields@,
                args@,
            ).len()),
    {
        let p = &mut self.protocol;
        proof {
            p.inv_bound();
        }
        let ghost p0 = *p;
        let ghost img = enc_record(
            tbl@,
            tbl@[method.args_idx as int].name@,
            tbl@[method.args_idx as int].fields@,
            args@,
        );
        let ghost full = p0.events() + seq![
            SpecEvent::MsgBegin(method.name@, MessageType::Call, sequence_id),
        ] + img + seq![SpecEvent::MsgEnd];
        match p.write_message_begin(method.name.as_str(), MessageType::Call, sequence_id) {
            Ok(()) => (),
            Err(e) => {
                proof {
                    lemma_prefix_extend(
                        p0.events(),
                        seq![SpecEvent::MsgBegin(method.name@, MessageType::Call, sequence_id)]
                            + img + seq![SpecEvent::MsgEnd],
                    );
                    assert(full =~= p0.events() + (seq![
                        SpecEvent::MsgBegin(method.name@, MessageType::Call, sequence_id),
                    ] + img + seq![SpecEvent::MsgEnd]));
                }
                return Err(e);
            },
        }
        let ghost pw = *p;
        match encode_record(p, tbl, method.args_idx, args) {
            Ok(()) => (),
            Err(e) => {
                proof {
                    lemma_prefix_extend(pw.events() + img, seq![SpecEvent::MsgEnd]);
                    assert(full =~= (pw.events() + img) + seq![SpecEvent::MsgEnd]);
                    lemma_prefix_chain(p.events(), pw.events() + img, full);
                }
                return Err(e);
            },
        }
        match p.write_message_end() {
            Ok(()) => (),
            Err(e) => {
                proof {
                    lemma_prefix_extend(p.events(), seq![SpecEvent::MsgEnd]);
                    assert(full =~= p.events() + seq![SpecEvent::MsgEnd]);
                }
                return Err(e);
            },
        }
        let ghost p1 = *p;
        proof {
            assert(p1.events() =~= p0.events() + seq![
                SpecEvent::MsgBegin(method.name@, MessageType::Call, sequence_id),
            ] + enc_record(
                tbl@,
                tbl@[method.args_idx as int].name@,
                tbl@[method.args_idx as int].fields@,
                args@,
            ) + seq![SpecEvent::MsgEnd]);
            assert(p1.events() == full);
            assert(full.is_prefix_of(full)) by {
                assert(full =~= full.subrange(0, full.len() as int));
            }
            assert(unread(&p0).is_prefix_of(unread(&p1))) by {
                assert(unread(&p0) =~= unread(&p1).subrange(0, unread(&p0).len() as int));
            }
        }
        let ghost resname = tbl@[method.result_idx as int].name@;
        let ghost resfields = tbl@[method.result_idx as int].fields@;
        let rb = p.read_message_begin();
        proof {
            assert forall|v0: SpecValue|
                (value_matches(tbl@, resfields[0].kind, v0) && rt_ok(v0) && ((seq![
                    SpecEvent::MsgBegin(method.name@, MessageType::Reply, sequence_id),
                ] + (#[trigger] enc_record(tbl@, resname, resfields, seq![Option::Some(v0)])))
                    + seq![SpecEvent::MsgEnd]).is_prefix_of(unread(&p0))) implies (rb matches Ok(h)
                && h.1 == MessageType::Reply && h.2 == sequence_id && enc_record(
                tbl@,
                resname,
                resfields,
                seq![Option::Some(v0)],
            ).is_prefix_of(unread(&p1).skip(1))) by {
                let img = enc_record(tbl@, resname, resfields, seq![Option::Some(v0)]);
                let whole = (seq![
                    SpecEvent::MsgBegin(method.name@, MessageType::Reply, sequence_id),
                ] + img) + seq![SpecEvent::MsgEnd];
                assert(whole.is_prefix_of(unread(&p1))) by {
                    assert(whole.is_prefix_of(unread(&p0)));
                    assert(whole =~= unread(&p0).subrange(0, whole.len() as int));
                    assert(whole =~= unread(&p1).subrange(0, whole.len() as int));
                }
                assert(whole =~= seq![
                    SpecEvent::MsgBegin(method.name@, MessageType::Reply, sequence_id),
                ] + (img + seq![SpecEvent::MsgEnd]));
                lemma_prefix_split(
                    seq![SpecEvent::MsgBegin(method.name@, MessageType::Reply, sequence_id)],
                    img + seq![SpecEvent::MsgEnd],
                    unread(&p1),
                );
                lemma_prefix_index(
                    seq![SpecEvent::MsgBegin(method.name@, MessageType::Reply, sequence_id)],
                    unread(&p1),
                    0,
                );
                assert(unread(&p1)[0] == p1.events()[p1.taken() as int]);
                lemma_prefix_split(img, seq![SpecEvent::MsgEnd], unread(&p1).skip(1));
            }
        }
        let (_rname, rtype, rsid) = match rb {
            Ok(v) => v,
            Err(e) => {
                return Err(e);
            },
        };
        match rtype {
            MessageType::Reply => (),
            _ => {
                return Err(Error::ProtocolViolation);
            },
        }
        if rsid != sequence_id {
            return Err(Error::ProtocolViolation);
        }
        let ghost p2 = *p;
        proof {
            lemma_unread_skip(&p1, &p2, 1);
        }
        let rrec = decode_record(p, tbl, method.result_idx);
        proof {
            assert forall|v0: SpecValue|
                (value_matches(tbl@, resfields[0].kind, v0) && rt_ok(v0) && ((seq![
                    SpecEvent::MsgBegin(method.name@, MessageType::Reply, sequence_id),
                ] + (#[trigger] enc_record(tbl@, resname, resfields, seq![Option::Some(v0)])))
                    + seq![SpecEvent::MsgEnd]).is_prefix_of(unread(&p0))) implies (rrec matches Ok(
                rec,
            ) && rec@ == seq![Option::Some(v0)] && p.taken() == p2.taken() + enc_record(
                tbl@,
                resname,
                resfields,
                seq![Option::Some(v0)],
            ).len()) by {
                let fs0: Seq<Option<SpecValue>> = seq![Option::Some(v0)];
                assert(fields_match(tbl@, resfields, fs0));
                assert(fields_rt_ok(fs0));
                assert(fs0[0] is Some);
            }
        }
        let rec = match rrec {
            Ok(rec) => rec,
            Err(e) => {
                return Err(e);
            },
        };
        let ghost p3 = *p;
        let rme = p.read_message_end();
        proof {
            assert forall|v0: SpecValue|
                (value_matches(tbl@, resfields[0].kind, v0) && rt_ok(v0) && ((seq![
                    SpecEvent::MsgBegin(method.name@, MessageType::Reply, sequence_id),
                ] + (#[trigger] enc_record(tbl@, resname, resfields, seq![Option::Some(v0)])))
                    + seq![SpecEvent::MsgEnd]).is_prefix_of(unread(&p0))) implies (rme is Ok
                && rec@ == seq![Option::Some(v0)]) by {
                let img = enc_record(tbl@, resname, resfields, seq![Option::Some(v0)]);
                let whole = (seq![
                    SpecEvent::MsgBegin(method.name@, MessageType::Reply, sequence_id),
                ] + img) + seq![SpecEvent::MsgEnd];
                assert(whole.is_prefix_of(unread(&p1))) by {
                    assert(whole.is_prefix_of(unread(&p0)));
                    assert(whole =~= unread(&p0).subrange(0, whole.len() as int));
                    assert(whole =~= unread(&p1).subrange(0, whole.len() as int));
                }
                assert(whole =~= seq![
                    SpecEvent::MsgBegin(method.name@, MessageType::Reply, sequence_id),
                ] + (img + seq![SpecEvent::MsgEnd]));
                lemma_prefix_split(
                    seq![SpecEvent::MsgBegin(method.name@, MessageType::Reply, sequence_id)],
                    img + seq![SpecEvent::MsgEnd],
                    unread(&p1),
                );
                lemma_prefix_split(img, seq![SpecEvent::MsgEnd], unread(&p1).skip(1));
                lemma_unread_skip(&p2, &p3, img.len() as int);
                assert(unread(&p3) =~= unread(&p1).skip(1).skip(img.len() as int));
                lemma_prefix_index(seq![SpecEvent::MsgEnd], unread(&p3), 0);
                assert(unread(&p3)[0] == p3.events()[p3.taken() as int]);
            }
        }
        match rme {
            Ok(()) => (),
            Err(e) => {
                return Err(e);
            },
        }
        let mut rec = rec;
        proof {
            lemma_fields_view(rec.fields@);
        }
        if rec.fields.len() != 1 {
            return Err(Error::ProtocolViolation);
        }
        let out = rec.fields.pop();
        match out {
            Some(Some(v)) => Ok(v),
            _ => Err(Error::ProtocolViolation),
        }
    }
}

} // verus!
