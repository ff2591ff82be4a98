//! The decisions of iterative resolution. A lookup walks the DNS hierarchy
//! from a root server: each response either ends the lookup, names the next
//! server through glue, or names a server host that must itself be resolved
//! first. The I/O is left to the caller, which performs each `Action` and
//! hands back the response it got.
use vstd::prelude::*;

use crate::addr::Ipv4Addr;
use crate::header::{empty_header, Header};
use crate::packet::{
    a_addrs, addr_octets, glue_addrs, ns_hosts, query_models, record_models, Packet, PacketModel,
};
use crate::query::{Query, QueryModel};
use crate::query_type::QueryType;
use crate::return_code::ReturnCode;

verus! {

/// The transaction id of the requests sent upstream.
pub const LOOKUP_ID: u16 = 1234;

/// The port that name servers listen on.
pub const DNS_PORT: u16 = 53;

/// The octets of a.root-servers.net, where every lookup starts.
pub open spec fn root_octets() -> Seq<u8> {
    seq![198u8, 41u8, 0u8, 4u8]
}

/// The root server where every lookup starts.
pub fn root_server() -> (r: Ipv4Addr)
    ensures
        r.octets@ == root_octets(),
{
    Ipv4Addr::new(198, 41, 0, 4)
}

/// The request sent upstream for one question: a fixed id, recursion
/// desired, and that single question.
pub fn lookup_request(qname: &str, qtype: QueryType) -> (r: Packet)
    ensures
        r.header == (Header {
            id: LOOKUP_ID,
            queries_total: 1,
            recursion_desired: true,
            ..empty_header()
        }),
        query_models(r.queries@) == seq![QueryModel { qname: qname@, qtype }],
        r.answer_records@.len() == 0,
        r.authoritative_records@.len() == 0,
        r.additional_records@.len() == 0,
{
    let mut packet = Packet::new();
    packet.header.id = LOOKUP_ID;
    packet.header.queries_total = 1;
    packet.header.recursion_desired = true;
    packet.queries.push(Query::new(qname.to_string(), qtype));
    assert(query_models(packet.queries@) =~= seq![QueryModel { qname: qname@, qtype }]);
    packet
}

/// A response ends a lookup when it answers without error, or says that the
/// name does not exist.
pub open spec fn is_final(p: PacketModel) -> bool {
    (p.answers.len() > 0 && p.header.return_code == ReturnCode::NOERROR) || p.header.return_code
        == ReturnCode::NXDOMAIN
}

/// What a response to a lookup of `qname` calls for.
#[derive(Debug)]
pub enum Step {
    /// The lookup ends with this response.
    Done,
    /// Ask the given server next.
    NextServer(Ipv4Addr),
    /// Resolve the given name server host first.
    ResolveHost(String),
}

/// What a response calls for, as a model. Among several candidates the last
/// in wire order is taken.
pub enum StepModel {
    Done,
    NextServer(Seq<u8>),
    ResolveHost(Seq<char>),
}

impl View for Step {
    type V = StepModel;

    open spec fn view(&self) -> StepModel {
        match self {
            Step::Done => StepModel::Done,
            Step::NextServer(a) => StepModel::NextServer(a.octets@),
            Step::ResolveHost(h) => StepModel::ResolveHost(h@),
        }
    }
}

/// The step that the response `p` to a lookup of `qname` calls for: done when
/// final; else the last glue address of an in-zone server; else the last
/// in-zone server host to resolve; else done, at a dead end.
pub open spec fn step_for(qname: Seq<char>, p: PacketModel) -> StepModel {
    let glue = glue_addrs(ns_hosts(p.authorities, qname), p.additionals);
    let hosts = ns_hosts(p.authorities, qname);
    if is_final(p) {
        StepModel::Done
    } else if glue.len() > 0 {
        StepModel::NextServer(glue.last())
    } else if hosts.len() > 0 {
        StepModel::ResolveHost(hosts.last())
    } else {
        StepModel::Done
    }
}

/// Decides what the response to a lookup of `qname` calls for.
pub fn next_step(qname: &str, response: &Packet) -> (r: Step)
    ensures
        r@ == step_for(qname@, response@),
{
    if (response.answer_records.len() > 0 && response.header.return_code == ReturnCode::NOERROR)
        || response.header.return_code == ReturnCode::NXDOMAIN {
        return Step::Done;
    }
    let glue = response.get_ns_from_additional_records(qname);
    if glue.len() > 0 {
        let last = glue[glue.len() - 1];
        assert(addr_octets(glue@).last() == last.octets@);
        return Step::NextServer(last);
    }
    let hosts = response.get_ns_hosts(qname);
    if hosts.len() > 0 {
        let last = hosts[hosts.len() - 1].clone();
        assert(hosts@.map_values(|h: String| h@).last() == last@);
        return Step::ResolveHost(last);
    }
    Step::Done
}

/// One lookup in progress: the name asked for and, while a server host is
/// being resolved on its behalf, the response that named that host.
pub struct Frame {
    qname: String,
    parked: Option<Packet>,
}

pub struct FrameModel {
    pub qname: Seq<char>,
    pub parked: Option<PacketModel>,
}

impl View for Frame {
    type V = FrameModel;

    closed spec fn view(&self) -> FrameModel {
        FrameModel {
            qname: self.qname@,
            parked: match self.parked {
                Some(p) => Some(p@),
                None => None,
            },
        }
    }
}

/// What the caller is to do next.
#[derive(Debug)]
pub enum Action {
    /// Send a lookup of this question to this server, on `DNS_PORT`, and hand
    /// the response back.
    Query { qname: String, qtype: QueryType, server: Ipv4Addr },
    /// The resolution is over, with this response.
    Finished(Packet),
}

pub enum ActionModel {
    Query { qname: Seq<char>, qtype: QueryType, server: Seq<u8> },
    Finished(PacketModel),
}

impl View for Action {
    type V = ActionModel;

    open spec fn view(&self) -> ActionModel {
        match self {
            Action::Query { qname, qtype, server } => ActionModel::Query {
                qname: qname@,
                qtype: *qtype,
                server: server.octets@,
            },
            Action::Finished(p) => ActionModel::Finished(p@),
        }
    }
}

/// A resolution of one question: a stack of lookups, the innermost last.
/// Each lookup but the innermost waits for the innermost to give it the
/// address of a name server.
pub struct Resolution {
    qtype: QueryType,
    frames: Vec<Frame>,
}

pub struct ResolutionModel {
    pub qtype: QueryType,
    pub frames: Seq<FrameModel>,
}

impl View for Resolution {
    type V = ResolutionModel;

    closed spec fn view(&self) -> ResolutionModel {
        ResolutionModel { qtype: self.qtype, frames: self.frames@.map_values(|f: Frame| f@) }
    }
}

/// A lookup has ended with `result`: hand it to the lookup that waits on it.
/// That lookup asks the last address of the result's A answers next, or, when
/// there is none, ends itself with the response it had parked.
pub open spec fn unwind(qtype: QueryType, frames: Seq<FrameModel>, result: PacketModel) -> (
    Seq<FrameModel>,
    ActionModel,
)
    decreases frames.len(),
{
    if frames.len() == 0 {
        (frames, ActionModel::Finished(result))
    } else {
        let parent = frames.last();
        let addrs = a_addrs(result.answers);
        if addrs.len() > 0 {
            (
                frames.update(frames.len() - 1, FrameModel { qname: parent.qname, parked: None }),
                ActionModel::Query { qname: parent.qname, qtype, server: addrs.last() },
            )
        } else {
            match parent.parked {
                Some(p) => unwind(qtype, frames.drop_last(), p),
                None => (frames.drop_last(), ActionModel::Finished(result)),
            }
        }
    }
}

/// The next state and action once the innermost lookup got `resp`.
pub open spec fn respond(m: ResolutionModel, resp: PacketModel) -> (ResolutionModel, ActionModel) {
    if m.frames.len() == 0 {
        (m, ActionModel::Finished(resp))
    } else {
        let top = m.frames.last();
        match step_for(top.qname, resp) {
            StepModel::NextServer(ip) => (
                m,
                ActionModel::Query { qname: top.qname, qtype: m.qtype, server: ip },
            ),
            StepModel::ResolveHost(h) => (
                ResolutionModel {
                    qtype: m.qtype,
                    frames: m.frames.update(
                        m.frames.len() - 1,
                        FrameModel { qname: top.qname, parked: Some(resp) },
                    ).push(FrameModel { qname: h, parked: None }),
                },
                ActionModel::Query { qname: h, qtype: m.qtype, server: root_octets() },
            ),
            StepModel::Done => {
                let (fs, a) = unwind(m.qtype, m.frames.drop_last(), resp);
                (ResolutionModel { qtype: m.qtype, frames: fs }, a)
            },
        }
    }
}

impl Resolution {
    /// Starts resolving a question: one lookup, sent to the root server.
    pub fn start(qname: &str, qtype: QueryType) -> (r: (Resolution, Action))
        ensures
            r.0@ == (ResolutionModel {
                qtype,
                frames: seq![FrameModel { qname: qname@, parked: None }],
            }),
            r.1@ == (ActionModel::Query { qname: qname@, qtype, server: root_octets() }),
    {
        let mut frames: Vec<Frame> = Vec::new();
        frames.push(Frame { qname: qname.to_string(), parked: None });
        let res = Resolution { qtype, frames };
        assert(res@.frames =~= seq![FrameModel { qname: qname@, parked: None }]);
        (res, Action::Query { qname: qname.to_string(), qtype, server: root_server() })
    }

    /// Takes the response to the last `Action::Query` and says what to do next.
    pub fn on_response(&mut self, response: Packet) -> (r: Action)
        ensures
            (final(self)@, r@) == respond(old(self)@, response@),
    {
        let n = self.frames.len();
        if n == 0 {
            return Action::Finished(response);
        }
        let step = next_step(self.frames[n - 1].qname.as_str(), &response);
        let ghost frames0 = self@.frames;
        match step {
            Step::NextServer(ip) => {
                let qname = self.frames[n - 1].qname.clone();
                Action::Query { qname, qtype: self.qtype, server: ip }
            },
            Step::ResolveHost(host) => {
                let mut top = self.frames.pop().unwrap();
                top.parked = Some(response);
                self.frames.push(top);
                self.frames.push(Frame { qname: host.clone(), parked: None });
                proof {
                    let m = respond(old(self)@, response@).0;
                    assert(self@.frames =~= m.frames);
                }
                Action::Query { qname: host, qtype: self.qtype, server: root_server() }
            },
            Step::Done => {
                self.frames.pop();
                proof {
                    assert(self@.frames =~= frames0.drop_last());
                }
                self.finish_lookup(response)
            },
        }
    }

    /// Hands the result of the innermost lookup, which has just ended, to the
    /// lookups that wait on it.
    fn finish_lookup(&mut self, response: Packet) -> (r: Action)
        ensures
            (final(self)@, r@) == ({
                let (fs, a) = unwind(old(self)@.qtype, old(self)@.frames, response@);
                (ResolutionModel { qtype: old(self)@.qtype, frames: fs }, a)
            }),
    {
        let mut result = response;
        loop
            invariant
                self@.qtype == old(self)@.qtype,
                unwind(self@.qtype, self@.frames, result@) == unwind(
                    old(self)@.qtype,
                    old(self)@.frames,
                    response@,
                ),
            decreases self@.frames.len(),
        {
            let k = self.frames.len();
            if k == 0 {
                return Action::Finished(result);
            }
            let ghost frames0 = self@.frames;
            let addrs = result.get_answer_a_records();
            if addrs.len() > 0 {
                let server = addrs[addrs.len() - 1];
                assert(addr_octets(addrs@).last() == server.octets@);
                let mut parent = self.frames.pop().unwrap();
                let qname = parent.qname.clone();
                parent.parked = None;
                self.frames.push(parent);
                proof {
                    assert(self@.frames =~= frames0.update(
                        frames0.len() - 1,
                        FrameModel { qname: frames0.last().qname, parked: None },
                    ));
                }
                return Action::Query { qname, qtype: self.qtype, server };
            }
            let parent = self.frames.pop().unwrap();
            proof {
                assert(self@.frames =~= frames0.drop_last());
                assert(parent@ == frames0.last());
            }
            match parent.parked {
                Some(p) => {
                    result = p;
                },
                None => {
                    return Action::Finished(result);
                },
            }
        }
    }
}

/// The reply to `request` before any lookup: the request's id, flagged as a
/// response with recursion desired and available, and `FORMERR` when the
/// request asks nothing.
pub fn new_reply(request: &Packet) -> (r: Packet)
    ensures
        r.header == (Header {
            id: request.header.id,
            response: true,
            recursion_desired: true,
            recursion_available: true,
            return_code: if request.queries@.len() == 0 {
                ReturnCode::FORMERR
            } else {
                ReturnCode::NOERROR
            },
            ..empty_header()
        }),
        r.queries@.len() == 0,
        r.answer_records@.len() == 0,
        r.authoritative_records@.len() == 0,
        r.additional_records@.len() == 0,
{
    let mut reply = Packet::new();
    reply.header.id = request.header.id;
    reply.header.recursion_desired = true;
    reply.header.recursion_available = true;
    reply.header.response = true;
    if request.queries.len() == 0 {
        reply.header.return_code = ReturnCode::FORMERR;
    }
    reply
}

/// The response code of a reply once a resolution that ended with code `c`
/// is added: `SERVFAIL` when an earlier question's lookup failed, else `c`.
pub open spec fn code_after(failed_before: bool, c: ReturnCode) -> ReturnCode {
    if failed_before {
        ReturnCode::SERVFAIL
    } else {
        c
    }
}

/// Adds the outcome of resolving `query` to the reply; `failed_before` says
/// whether the lookup of an earlier question of the same request failed. A
/// resolution that ended gives the question and all its records, section by
/// section, and its response code unless an earlier lookup failed; a failed
/// lookup sets `SERVFAIL` and leaves the rest as it was.
pub fn add_lookup_result(
    reply: &mut Packet,
    query: &Query,
    result: Option<Packet>,
    failed_before: bool,
)
    ensures
        match result {
            Some(p) => final(reply)@ == (PacketModel {
                header: Header {
                    return_code: code_after(failed_before, p.header.return_code),
                    ..old(reply).header
                },
                queries: old(reply)@.queries.push(query@),
                answers: old(reply)@.answers + p@.answers,
                authorities: old(reply)@.authorities + p@.authorities,
                additionals: old(reply)@.additionals + p@.additionals,
            }),
            None => final(reply)@ == (PacketModel {
                header: Header { return_code: ReturnCode::SERVFAIL, ..old(reply).header },
                ..old(reply)@
            }),
        },
{
    match result {
        Some(mut p) => {
            reply.queries.push(Query { qname: query.qname.clone(), qtype: query.qtype });
            reply.header.return_code = if failed_before {
                ReturnCode::SERVFAIL
            } else {
                p.header.return_code
            };
            let ghost pm = p@;
            reply.answer_records.append(&mut p.answer_records);
            reply.authoritative_records.append(&mut p.authoritative_records);
            reply.additional_records.append(&mut p.additional_records);
            proof {
                assert(reply@.queries =~= old(reply)@.queries.push(query@));
                assert(reply@.answers =~= old(reply)@.answers + pm.answers);
                assert(reply@.authorities =~= old(reply)@.authorities + pm.authorities);
                assert(reply@.additionals =~= old(reply)@.additionals + pm.additionals);
            }
        },
        None => {
            reply.header.return_code = ReturnCode::SERVFAIL;
        },
    }
}

} // verus!
