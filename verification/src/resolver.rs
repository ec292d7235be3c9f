//! The decision core of the recursive lookup engine.
//!
//! The engine walks the delegation chain: it sends the question to a
//! nameserver, reads the response, and decides the next step here.
//! The sending and receiving live outside the library; every decision
//! about a response is made by `delegation_step`, and the packets the
//! engine sends and returns are built by the functions beside it.

use vstd::prelude::*;
#[allow(unused_imports)]
use vstd::string::StringExecFns;

use crate::types::{
    spec_resolved_ns, spec_unresolved_ns, DnsHeader, DnsPacket, DnsQuestion, Ipv4Addr, QueryType,
    ResponseCode,
};

verus! {

/// The root nameserver the delegation walk starts from, with its port.
pub fn root_dns_server() -> (r: (Ipv4Addr, u16))
    ensures
        r.0 == (Ipv4Addr { o0: 198, o1: 41, o2: 0, o3: 4 }),
        r.1 == 53,
{
    (Ipv4Addr::new(198, 41, 0, 4), 53)
}

/// The public recursive resolver the client sends its question to.
pub fn recursive_dns_server() -> (r: (Ipv4Addr, u16))
    ensures
        r.0 == (Ipv4Addr { o0: 8, o1: 8, o2: 8, o3: 8 }),
        r.1 == 53,
{
    (Ipv4Addr::new(8, 8, 8, 8), 53)
}

/// What the engine does with the latest response.
#[derive(Debug, Clone, PartialEq, Eq)]
pub enum LookupStep {
    /// The response answers the question: return it.
    Answered,
    /// The name does not exist: return the response.
    Nxdomain,
    /// A delegation with glue: ask this address next.
    FollowGlue(Ipv4Addr),
    /// A delegation without glue: resolve this host first, then ask
    /// its address.
    ResolveNs(String),
    /// No usable delegation: return the response as it stands.
    GiveUp,
}

/// Chooses the engine's next step from a response, in the fixed
/// order: an answered response is returned, then a name error, then a
/// delegation with glue, then one without, and failing all that the
/// response itself.
pub fn delegation_step(response: &DnsPacket, qname: &str) -> (r: LookupStep)
    ensures
        ({
            let p = response@;
            let answered = p.answers.len() > 0 && p.header.rescode == ResponseCode::NOERROR;
            let nx = p.header.rescode == ResponseCode::NXDOMAIN;
            let glue = spec_resolved_ns(p.authorities, p.resources, qname@);
            let ns = spec_unresolved_ns(p.authorities, qname@);
            &&& (answered ==> r == LookupStep::Answered)
            &&& (!answered && nx ==> r == LookupStep::Nxdomain)
            &&& (!answered && !nx && glue is Some ==> r == LookupStep::FollowGlue(glue->0))
            &&& (!answered && !nx && glue is None && ns is Some ==> r is ResolveNs
                && r->ResolveNs_0@ == ns->0)
            &&& (!answered && !nx && glue is None && ns is None ==> r == LookupStep::GiveUp)
        }),
{
    if response.has_answers() && response.rescode() == ResponseCode::NOERROR {
        return LookupStep::Answered;
    }
    if response.rescode() == ResponseCode::NXDOMAIN {
        return LookupStep::Nxdomain;
    }
    match response.get_resolved_ns(qname) {
        Some(addr) => {
            return LookupStep::FollowGlue(addr);
        },
        None => {},
    }
    match response.get_unresolved_ns(qname) {
        Some(host) => LookupStep::ResolveNs(host),
        None => LookupStep::GiveUp,
    }
}

/// Builds the query the engine sends: one question, a fresh id, and
/// recursion desired.
pub fn mk_query(id: u16, qname: &str, qtype: QueryType) -> (r: DnsPacket)
    ensures
        r.header == (DnsHeader {
            id,
            response: false,
            opcode: 0,
            authoritative_answer: false,
            truncated_message: false,
            recursion_desired: true,
            recursion_available: false,
            z: false,
            authed_data: false,
            checking_disabled: false,
            rescode: ResponseCode::NOERROR,
            questions: 1,
            answers: 0,
            authoritative_entries: 0,
            resource_entries: 0,
        }),
        r@.questions.len() == 1,
        r@.questions[0].name == qname@,
        r@.questions[0].qtype == qtype,
        r@.answers.len() == 0,
        r@.authorities.len() == 0,
        r@.resources.len() == 0,
{
    let header = DnsHeader {
        id,
        response: false,
        opcode: 0,
        authoritative_answer: false,
        truncated_message: false,
        recursion_desired: true,
        recursion_available: false,
        z: false,
        authed_data: false,
        checking_disabled: false,
        rescode: ResponseCode::NOERROR,
        questions: 1,
        answers: 0,
        authoritative_entries: 0,
        resource_entries: 0,
    };
    let question = DnsQuestion { name: String::from_str(qname), qtype };
    let mut questions: Vec<DnsQuestion> = Vec::new();
    questions.push(question);
    DnsPacket {
        header,
        questions,
        answers: Vec::new(),
        authorities: Vec::new(),
        resources: Vec::new(),
    }
}

/// Builds the response returned to the client when the engine came
/// back with a result: the client's id, the flags of a recursive
/// answer, the echoed question, and the engine's three record
/// sections under their true counts.
pub fn build_success_response(id: u16, question: &DnsQuestion, result: DnsPacket) -> (r: DnsPacket)
    requires
        result@.answers.len() <= 0xffff,
        result@.authorities.len() <= 0xffff,
        result@.resources.len() <= 0xffff,
    ensures
        r.header == (DnsHeader {
            id,
            response: true,
            opcode: 0,
            authoritative_answer: false,
            truncated_message: false,
            recursion_desired: true,
            recursion_available: true,
            z: false,
            authed_data: false,
            checking_disabled: false,
            rescode: ResponseCode::NOERROR,
            questions: 1,
            answers: result@.answers.len() as u16,
            authoritative_entries: result@.authorities.len() as u16,
            resource_entries: result@.resources.len() as u16,
        }),
        r@.questions.len() == 1,
        r@.questions[0] == question@,
        r@.answers == result@.answers,
        r@.authorities == result@.authorities,
        r@.resources == result@.resources,
{
    let header = DnsHeader {
        id,
        response: true,
        opcode: 0,
        authoritative_answer: false,
        truncated_message: false,
        recursion_desired: true,
        recursion_available: true,
        z: false,
        authed_data: false,
        checking_disabled: false,
        rescode: ResponseCode::NOERROR,
        questions: 1,
        answers: result.answers.len() as u16,
        authoritative_entries: result.authorities.len() as u16,
        resource_entries: result.resources.len() as u16,
    };
    let mut questions: Vec<DnsQuestion> = Vec::new();
    questions.push(DnsQuestion { name: question.name.clone(), qtype: question.qtype });
    let r = DnsPacket {
        header,
        questions,
        answers: result.answers,
        authorities: result.authorities,
        resources: result.resources,
    };
    proof {
        assert(r@.answers =~= result@.answers);
        assert(r@.authorities =~= result@.authorities);
        assert(r@.resources =~= result@.resources);
    }
    r
}

/// Builds the response returned to the client when the lookup could
/// not be served: the client's id, the flags of a recursive answer,
/// the given error status, and no records at all.
pub fn build_failure_response(id: u16, rescode: ResponseCode) -> (r: DnsPacket)
    ensures
        r.header == (DnsHeader {
            id,
            response: true,
            opcode: 0,
            authoritative_answer: false,
            truncated_message: false,
            recursion_desired: true,
            recursion_available: true,
            z: false,
            authed_data: false,
            checking_disabled: false,
            rescode,
            questions: 0,
            answers: 0,
            authoritative_entries: 0,
            resource_entries: 0,
        }),
        r@.questions.len() == 0,
        r@.answers.len() == 0,
        r@.authorities.len() == 0,
        r@.resources.len() == 0,
{
    let header = DnsHeader {
        id,
        response: true,
        opcode: 0,
        authoritative_answer: false,
        truncated_message: false,
        recursion_desired: true,
        recursion_available: true,
        z: false,
        authed_data: false,
        checking_disabled: false,
        rescode,
        questions: 0,
        answers: 0,
        authoritative_entries: 0,
        resource_entries: 0,
    };
    DnsPacket {
        header,
        questions: Vec::new(),
        answers: Vec::new(),
        authorities: Vec::new(),
        resources: Vec::new(),
    }
}

} // verus!
