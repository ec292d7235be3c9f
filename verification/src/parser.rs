//! Decoding DNS messages from their wire form.
//!
//! All multi-octet values are big-endian.  Every function takes the
//! whole message buffer and a position, because compressed names may
//! point back into any earlier part of the message.

use vstd::prelude::*;

use crate::name::{read_name, spec_name_at};
use crate::types::{
    rescode_from_num, qtype_from_num, DnsError, DnsHeader, DnsPacket, DnsQuestion, DnsRecord,
    Ipv4Addr, Ipv6Addr, PacketV, QueryType, QuestionV, RecordV,
};

verus! {

/// The big-endian 16-bit value at `pos`.
pub open spec fn spec_u16_at(buf: Seq<u8>, pos: int) -> u16 {
    (256 * (buf[pos] as int) + (buf[pos + 1] as int)) as u16
}

/// The big-endian 32-bit value at `pos`.
pub open spec fn spec_u32_at(buf: Seq<u8>, pos: int) -> u32 {
    (16777216 * (buf[pos] as int) + 65536 * (buf[pos + 1] as int) + 256 * (buf[pos + 2] as int) + (
    buf[pos + 3] as int)) as u32
}

fn read_u16(buf: &[u8], pos: usize) -> (r: u16)
    requires
        pos + 2 <= buf@.len(),
    ensures
        r == spec_u16_at(buf@, pos as int),
{
    (buf[pos] as u16) * 256 + (buf[pos + 1] as u16)
}

fn read_u32(buf: &[u8], pos: usize) -> (r: u32)
    requires
        pos + 4 <= buf@.len(),
    ensures
        r == spec_u32_at(buf@, pos as int),
{
    (buf[pos] as u32) * 16777216 + (buf[pos + 1] as u32) * 65536 + (buf[pos + 2] as u32) * 256 + (
    buf[pos + 3] as u32)
}

/// The header whose twelve octets start at `pos`, field by field.
pub open spec fn spec_header_fields(buf: Seq<u8>, pos: int) -> DnsHeader {
    let a = buf[pos + 2];
    let b = buf[pos + 3];
    DnsHeader {
        id: spec_u16_at(buf, pos),
        recursion_desired: a & 1 != 0,
        truncated_message: a & 2 != 0,
        authoritative_answer: a & 4 != 0,
        opcode: (a >> 3) & 0x0f,
        response: a & 0x80 != 0,
        rescode: rescode_from_num(b & 0x0f),
        checking_disabled: b & 0x10 != 0,
        authed_data: b & 0x20 != 0,
        z: b & 0x40 != 0,
        recursion_available: b & 0x80 != 0,
        questions: spec_u16_at(buf, pos + 4),
        answers: spec_u16_at(buf, pos + 6),
        authoritative_entries: spec_u16_at(buf, pos + 8),
        resource_entries: spec_u16_at(buf, pos + 10),
    }
}

/// The decoded header at `pos` and the position just past it.
pub open spec fn spec_header_at(buf: Seq<u8>, pos: int) -> Option<(DnsHeader, int)> {
    if pos + 12 <= buf.len() {
        Some((spec_header_fields(buf, pos), pos + 12))
    } else {
        None
    }
}

/// Decodes the 12-octet header at `pos`.
pub fn header(buf: &[u8], pos: usize) -> (r: Result<(DnsHeader, usize), DnsError>)
    ensures
        ({
            let s = spec_header_at(buf@, pos as int);
            &&& (r is Ok <==> s is Some)
            &&& (r is Ok ==> r->Ok_0.0 == s->Some_0.0)
            &&& (r is Ok ==> r->Ok_0.1 == s->Some_0.1)
            &&& (r is Err ==> r->Err_0 == DnsError::FormatError)
        }),
{
    if buf.len() < 12 || pos > buf.len() - 12 {
        return Err(DnsError::FormatError);
    }
    let a = buf[pos + 2];
    let b = buf[pos + 3];
    let h = DnsHeader {
        id: read_u16(buf, pos),
        recursion_desired: a & 1 != 0,
        truncated_message: a & 2 != 0,
        authoritative_answer: a & 4 != 0,
        opcode: (a >> 3) & 0x0f,
        response: a & 0x80 != 0,
        rescode: crate::types::ResponseCode::from_num(b & 0x0f),
        checking_disabled: b & 0x10 != 0,
        authed_data: b & 0x20 != 0,
        z: b & 0x40 != 0,
        recursion_available: b & 0x80 != 0,
        questions: read_u16(buf, pos + 4),
        answers: read_u16(buf, pos + 6),
        authoritative_entries: read_u16(buf, pos + 8),
        resource_entries: read_u16(buf, pos + 10),
    };
    Ok((h, pos + 12))
}

/// The decoded question at `pos`: a name, a query type, and the
/// discarded class.
pub open spec fn spec_question_at(buf: Seq<u8>, pos: int) -> Option<(QuestionV, int)> {
    match spec_name_at(buf, pos, buf.len() as int) {
        Some((name, p1)) => if p1 + 4 <= buf.len() {
            Some((QuestionV { name, qtype: qtype_from_num(spec_u16_at(buf, p1)) }, p1 + 4))
        } else {
            None
        },
        None => None,
    }
}

/// Decodes the question at `pos`: its name, then QTYPE, then the
/// QCLASS, which is read and discarded.
pub fn question(buf: &[u8], pos: usize) -> (r: Result<(DnsQuestion, usize), DnsError>)
    ensures
        ({
            let s = spec_question_at(buf@, pos as int);
            &&& (r is Ok <==> s is Some)
            &&& (r is Ok ==> r->Ok_0.0@ == s->Some_0.0)
            &&& (r is Ok ==> r->Ok_0.1 == s->Some_0.1)
            &&& (r is Err ==> r->Err_0 == DnsError::FormatError)
        }),
{
    let (name, p1) = match crate::name::domain_name(buf, pos) {
        Ok(x) => x,
        Err(e) => {
            return Err(e);
        },
    };
    if buf.len() < 4 || p1 > buf.len() - 4 {
        return Err(DnsError::FormatError);
    }
    let qtype = QueryType::from_num(read_u16(buf, p1));
    Ok((DnsQuestion { name, qtype }, p1 + 4))
}

/// The decoded resource record at `pos`.  The cursor always advances
/// by exactly RDLENGTH past the record preamble; for the known record
/// types the RDATA must have the shape the type requires.
pub open spec fn spec_record_at(buf: Seq<u8>, pos: int) -> Option<(RecordV, int)> {
    match spec_name_at(buf, pos, buf.len() as int) {
        Some((domain, p1)) => if p1 + 10 <= buf.len() {
            let qnum = spec_u16_at(buf, p1);
            let ttl = spec_u32_at(buf, p1 + 4);
            let rdlen = spec_u16_at(buf, p1 + 8);
            let rstart = p1 + 10;
            let rend = rstart + rdlen;
            if rend <= buf.len() {
                match qtype_from_num(qnum) {
                    QueryType::A => if rdlen == 4 {
                        Some(
                            (
                                RecordV::A {
                                    domain,
                                    addr: Ipv4Addr {
                                        o0: buf[rstart],
                                        o1: buf[rstart + 1],
                                        o2: buf[rstart + 2],
                                        o3: buf[rstart + 3],
                                    },
                                    ttl,
                                },
                                rend,
                            ),
                        )
                    } else {
                        None
                    },
                    QueryType::AAAA => if rdlen == 16 {
                        Some(
                            (
                                RecordV::AAAA {
                                    domain,
                                    addr: Ipv6Addr {
                                        s0: spec_u16_at(buf, rstart),
                                        s1: spec_u16_at(buf, rstart + 2),
                                        s2: spec_u16_at(buf, rstart + 4),
                                        s3: spec_u16_at(buf, rstart + 6),
                                        s4: spec_u16_at(buf, rstart + 8),
                                        s5: spec_u16_at(buf, rstart + 10),
                                        s6: spec_u16_at(buf, rstart + 12),
                                        s7: spec_u16_at(buf, rstart + 14),
                                    },
                                    ttl,
                                },
                                rend,
                            ),
                        )
                    } else {
                        None
                    },
                    QueryType::NS => match spec_name_at(buf, rstart, rend) {
                        Some((host, _)) => Some((RecordV::NS { domain, host, ttl }, rend)),
                        None => None,
                    },
                    QueryType::CNAME => match spec_name_at(buf, rstart, rend) {
                        Some((host, _)) => Some((RecordV::CNAME { domain, host, ttl }, rend)),
                        None => None,
                    },
                    QueryType::MX => if rdlen >= 2 {
                        match spec_name_at(buf, rstart + 2, rend) {
                            Some((host, _)) => Some(
                                (
                                    RecordV::MX {
                                        domain,
                                        priority: spec_u16_at(buf, rstart),
                                        host,
                                        ttl,
                                    },
                                    rend,
                                ),
                            ),
                            None => None,
                        }
                    } else {
                        None
                    },
                    QueryType::UNKNOWN(_) => Some(
                        (RecordV::UNKNOWN { domain, qtype: qnum, data_len: rdlen, ttl }, rend),
                    ),
                }
            } else {
                None
            }
        } else {
            None
        },
        None => None,
    }
}

/// Decodes the resource record at `pos`: name, TYPE, the discarded
/// CLASS, TTL, RDLENGTH, and the RDATA interpreted per TYPE.
pub fn answer(buf: &[u8], pos: usize) -> (r: Result<(DnsRecord, usize), DnsError>)
    ensures
        ({
            let s = spec_record_at(buf@, pos as int);
            &&& (r is Ok <==> s is Some)
            &&& (r is Ok ==> r->Ok_0.0@ == s->Some_0.0)
            &&& (r is Ok ==> r->Ok_0.1 == s->Some_0.1)
            &&& (r is Err ==> r->Err_0 == DnsError::FormatError)
        }),
{
    let (domain, p1) = match crate::name::domain_name(buf, pos) {
        Ok(x) => x,
        Err(e) => {
            return Err(e);
        },
    };
    if buf.len() < 10 || p1 > buf.len() - 10 {
        return Err(DnsError::FormatError);
    }
    let qnum = read_u16(buf, p1);
    let ttl = read_u32(buf, p1 + 4);
    let rdlen = read_u16(buf, p1 + 8) as usize;
    let rstart = p1 + 10;
    if buf.len() - rstart < rdlen {
        return Err(DnsError::FormatError);
    }
    let rend = rstart + rdlen;
    match QueryType::from_num(qnum) {
        QueryType::A => {
            if rdlen != 4 {
                return Err(DnsError::FormatError);
            }
            let addr = Ipv4Addr::new(buf[rstart], buf[rstart + 1], buf[rstart + 2], buf[rstart + 3]);
            Ok((DnsRecord::A { domain, addr, ttl }, rend))
        },
        QueryType::AAAA => {
            if rdlen != 16 {
                return Err(DnsError::FormatError);
            }
            let addr = Ipv6Addr::new(
                read_u16(buf, rstart),
                read_u16(buf, rstart + 2),
                read_u16(buf, rstart + 4),
                read_u16(buf, rstart + 6),
                read_u16(buf, rstart + 8),
                read_u16(buf, rstart + 10),
                read_u16(buf, rstart + 12),
                read_u16(buf, rstart + 14),
            );
            Ok((DnsRecord::AAAA { domain, addr, ttl }, rend))
        },
        QueryType::NS => {
            let (host, _) = match read_name(buf, rstart, rend) {
                Ok(x) => x,
                Err(e) => {
                    return Err(e);
                },
            };
            Ok((DnsRecord::NS { domain, host, ttl }, rend))
        },
        QueryType::CNAME => {
            let (host, _) = match read_name(buf, rstart, rend) {
                Ok(x) => x,
                Err(e) => {
                    return Err(e);
                },
            };
            Ok((DnsRecord::CNAME { domain, host, ttl }, rend))
        },
        QueryType::MX => {
            if rdlen < 2 {
                return Err(DnsError::FormatError);
            }
            let priority = read_u16(buf, rstart);
            let (host, _) = match read_name(buf, rstart + 2, rend) {
                Ok(x) => x,
                Err(e) => {
                    return Err(e);
                },
            };
            Ok((DnsRecord::MX { domain, priority, host, ttl }, rend))
        },
        QueryType::UNKNOWN(x) => {
            Ok((DnsRecord::UNKNOWN { domain, qtype: x, data_len: rdlen as u16, ttl }, rend))
        },
    }
}

/// The `n` questions decoded one after another from `pos`.
pub open spec fn spec_questions_at(buf: Seq<u8>, pos: int, n: int) -> Option<(Seq<QuestionV>, int)>
    decreases n,
{
    if n <= 0 {
        Some((Seq::empty(), pos))
    } else {
        match spec_question_at(buf, pos) {
            Some((q, p)) => match spec_questions_at(buf, p, n - 1) {
                Some((qs, e)) => Some((seq![q] + qs, e)),
                None => None,
            },
            None => None,
        }
    }
}

/// The `n` records decoded one after another from `pos`.
pub open spec fn spec_records_at(buf: Seq<u8>, pos: int, n: int) -> Option<(Seq<RecordV>, int)>
    decreases n,
{
    if n <= 0 {
        Some((Seq::empty(), pos))
    } else {
        match spec_record_at(buf, pos) {
            Some((rec, p)) => match spec_records_at(buf, p, n - 1) {
                Some((rs, e)) => Some((seq![rec] + rs, e)),
                None => None,
            },
            None => None,
        }
    }
}

/// A decoded question section holds exactly as many questions as were
/// asked of it.
pub proof fn lemma_questions_len(buf: Seq<u8>, pos: int, n: int)
    requires
        n >= 0,
        spec_questions_at(buf, pos, n) is Some,
    ensures
        spec_questions_at(buf, pos, n)->Some_0.0.len() == n,
    decreases n,
{
    if n > 0 {
        let p = spec_question_at(buf, pos)->Some_0.1;
        lemma_questions_len(buf, p, n - 1);
    }
}

/// A decoded record section holds exactly as many records as were
/// asked of it.
pub proof fn lemma_records_len(buf: Seq<u8>, pos: int, n: int)
    requires
        n >= 0,
        spec_records_at(buf, pos, n) is Some,
    ensures
        spec_records_at(buf, pos, n)->Some_0.0.len() == n,
    decreases n,
{
    if n > 0 {
        let p = spec_record_at(buf, pos)->Some_0.1;
        lemma_records_len(buf, p, n - 1);
    }
}

/// A question prefix joined onto the outcome of the remaining section.
pub open spec fn spec_prepend_questions(
    prefix: Seq<QuestionV>,
    r: Option<(Seq<QuestionV>, int)>,
) -> Option<(Seq<QuestionV>, int)> {
    match r {
        Some((qs, e)) => Some((prefix + qs, e)),
        None => None,
    }
}

/// A record prefix joined onto the outcome of the remaining section.
pub open spec fn spec_prepend_records(prefix: Seq<RecordV>, r: Option<(Seq<RecordV>, int)>) -> Option<
    (Seq<RecordV>, int),
> {
    match r {
        Some((rs, e)) => Some((prefix + rs, e)),
        None => None,
    }
}

/// Reads `n` questions in wire order starting at `pos`.
#[verifier::loop_isolation(false)]
fn read_questions(buf: &[u8], pos: usize, n: u16) -> (r: Result<(Vec<DnsQuestion>, usize), DnsError>)
    ensures
        ({
            let s = spec_questions_at(buf@, pos as int, n as int);
            &&& (r is Ok <==> s is Some)
            &&& (r is Ok ==> Seq::new(r->Ok_0.0@.len(), |k: int| r->Ok_0.0@[k]@) == s->Some_0.0)
            &&& (r is Ok ==> r->Ok_0.1 == s->Some_0.1)
            &&& (r is Err ==> r->Err_0 == DnsError::FormatError)
        }),
{
    let ghost target = spec_questions_at(buf@, pos as int, n as int);
    let mut qs: Vec<DnsQuestion> = Vec::new();
    let mut cur: usize = pos;
    let mut i: u16 = 0;
    proof {
        assert(Seq::new(qs@.len(), |k: int| qs@[k]@) =~= Seq::<QuestionV>::empty());
        if spec_questions_at(buf@, cur as int, (n - i) as int) is Some {
            assert(Seq::<QuestionV>::empty() + spec_questions_at(buf@, cur as int, (n - i) as int)
                ->Some_0.0 =~= spec_questions_at(buf@, cur as int, (n - i) as int)->Some_0.0);
        }
    }
    while i < n
        invariant
            i <= n,
            target == spec_prepend_questions(
                Seq::new(qs@.len(), |k: int| qs@[k]@),
                spec_questions_at(buf@, cur as int, (n - i) as int),
            ),
        decreases n - i,
    {
        let ghost prefix = Seq::new(qs@.len(), |k: int| qs@[k]@);
        match question(buf, cur) {
            Ok((q, p)) => {
                proof {
                    let rest = spec_questions_at(buf@, p as int, (n - i - 1) as int);
                    if rest is Some {
                        assert(prefix + (seq![q@] + rest->Some_0.0) =~= prefix.push(q@)
                            + rest->Some_0.0);
                    }
                }
                qs.push(q);
                proof {
                    assert(Seq::new(qs@.len(), |k: int| qs@[k]@) =~= prefix.push(q@));
                }
                cur = p;
            },
            Err(e) => {
                return Err(e);
            },
        }
        i = i + 1;
    }
    proof {
        assert(spec_questions_at(buf@, cur as int, 0) == Some::<(Seq<QuestionV>, int)>(
            (Seq::<QuestionV>::empty(), cur as int),
        ));
        assert(Seq::new(qs@.len(), |k: int| qs@[k]@) + Seq::<QuestionV>::empty() =~= Seq::new(
            qs@.len(),
            |k: int| qs@[k]@,
        ));
    }
    Ok((qs, cur))
}

/// Reads `n` records in wire order starting at `pos`.
#[verifier::loop_isolation(false)]
fn read_records(buf: &[u8], pos: usize, n: u16) -> (r: Result<(Vec<DnsRecord>, usize), DnsError>)
    ensures
        ({
            let s = spec_records_at(buf@, pos as int, n as int);
            &&& (r is Ok <==> s is Some)
            &&& (r is Ok ==> Seq::new(r->Ok_0.0@.len(), |k: int| r->Ok_0.0@[k]@) == s->Some_0.0)
            &&& (r is Ok ==> r->Ok_0.1 == s->Some_0.1)
            &&& (r is Err ==> r->Err_0 == DnsError::FormatError)
        }),
{
    let ghost target = spec_records_at(buf@, pos as int, n as int);
    let mut rs: Vec<DnsRecord> = Vec::new();
    let mut cur: usize = pos;
    let mut i: u16 = 0;
    proof {
        assert(Seq::new(rs@.len(), |k: int| rs@[k]@) =~= Seq::<RecordV>::empty());
        if spec_records_at(buf@, cur as int, (n - i) as int) is Some {
            assert(Seq::<RecordV>::empty() + spec_records_at(buf@, cur as int, (n - i) as int)
                ->Some_0.0 =~= spec_records_at(buf@, cur as int, (n - i) as int)->Some_0.0);
        }
    }
    while i < n
        invariant
            i <= n,
            target == spec_prepend_records(
                Seq::new(rs@.len(), |k: int| rs@[k]@),
                spec_records_at(buf@, cur as int, (n - i) as int),
            ),
        decreases n - i,
    {
        let ghost prefix = Seq::new(rs@.len(), |k: int| rs@[k]@);
        match answer(buf, cur) {
            Ok((rec, p)) => {
                proof {
                    let rest = spec_records_at(buf@, p as int, (n - i - 1) as int);
                    if rest is Some {
                        assert(prefix + (seq![rec@] + rest->Some_0.0) =~= prefix.push(rec@)
                            + rest->Some_0.0);
                    }
                }
                rs.push(rec);
                proof {
                    assert(Seq::new(rs@.len(), |k: int| rs@[k]@) =~= prefix.push(rec@));
                }
                cur = p;
            },
            Err(e) => {
                return Err(e);
            },
        }
        i = i + 1;
    }
    proof {
        assert(spec_records_at(buf@, cur as int, 0) == Some::<(Seq<RecordV>, int)>(
            (Seq::<RecordV>::empty(), cur as int),
        ));
        assert(Seq::new(rs@.len(), |k: int| rs@[k]@) + Seq::<RecordV>::empty() =~= Seq::new(
            rs@.len(),
            |k: int| rs@[k]@,
        ));
    }
    Ok((rs, cur))
}

/// The message a whole wire buffer denotes: header, the four sections
/// with the counts the header gives, and nothing left over.
pub open spec fn spec_packet(buf: Seq<u8>) -> Option<PacketV> {
    match spec_header_at(buf, 0) {
        Some((h, p0)) => match spec_questions_at(buf, p0, h.questions as int) {
            Some((qs, p1)) => match spec_records_at(buf, p1, h.answers as int) {
                Some((ans, p2)) => match spec_records_at(buf, p2, h.authoritative_entries as int) {
                    Some((auth, p3)) => match spec_records_at(
                        buf,
                        p3,
                        h.resource_entries as int,
                    ) {
                        Some((res, p4)) => if p4 == buf.len() {
                            Some(
                                PacketV {
                                    header: h,
                                    questions: qs,
                                    answers: ans,
                                    authorities: auth,
                                    resources: res,
                                },
                            )
                        } else {
                            None
                        },
                        None => None,
                    },
                    None => None,
                },
                None => None,
            },
            None => None,
        },
        None => None,
    }
}

/// Decodes a whole DNS message: the header, then as many questions,
/// answers, authorities and additional records as the header counts
/// say, in that order.  Trailing octets are a format error, and the
/// counts of the returned packet's header equal the lengths of its
/// sections.
pub fn packet(buf: &[u8]) -> (r: Result<DnsPacket, DnsError>)
    ensures
        r is Ok <==> spec_packet(buf@) is Some,
        r is Ok ==> r->Ok_0@ == spec_packet(buf@)->Some_0,
        r is Ok ==> r->Ok_0.questions@.len() == r->Ok_0.header.questions
            && r->Ok_0.answers@.len() == r->Ok_0.header.answers && r->Ok_0.authorities@.len()
            == r->Ok_0.header.authoritative_entries && r->Ok_0.resources@.len()
            == r->Ok_0.header.resource_entries,
        r is Err ==> r->Err_0 == DnsError::FormatError,
{
    let (h, p0) = match header(buf, 0) {
        Ok(x) => x,
        Err(e) => {
            return Err(e);
        },
    };
    let (questions, p1) = match read_questions(buf, p0, h.questions) {
        Ok(x) => x,
        Err(e) => {
            return Err(e);
        },
    };
    let (answers, p2) = match read_records(buf, p1, h.answers) {
        Ok(x) => x,
        Err(e) => {
            return Err(e);
        },
    };
    let (authorities, p3) = match read_records(buf, p2, h.authoritative_entries) {
        Ok(x) => x,
        Err(e) => {
            return Err(e);
        },
    };
    let (resources, p4) = match read_records(buf, p3, h.resource_entries) {
        Ok(x) => x,
        Err(e) => {
            return Err(e);
        },
    };
    if p4 != buf.len() {
        return Err(DnsError::FormatError);
    }
    proof {
        lemma_questions_len(buf@, p0 as int, h.questions as int);
        lemma_records_len(buf@, p1 as int, h.answers as int);
        lemma_records_len(buf@, p2 as int, h.authoritative_entries as int);
        lemma_records_len(buf@, p3 as int, h.resource_entries as int);
    }
    Ok(DnsPacket { header: h, questions, answers, authorities, resources })
}

} // verus!
