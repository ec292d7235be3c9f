//! The in-memory model of a DNS message: header, question, resource
//! records, and the packet that groups them, together with the ghost
//! views that the codec contracts are stated over.

use vstd::prelude::*;

verus! {

/// The error kinds of the library.
///
/// `FormatError` covers malformed wire data; `BufferOverflow` covers an
/// encoder write past the 512-octet limit or a name bound exceeded;
/// the remaining kinds belong to the resolver boundary.
#[derive(Clone, Copy, Debug, PartialEq, Eq, Structural)]
pub enum DnsError {
    FormatError,
    BufferOverflow,
    NetworkError,
    InputError,
    InternalError,
}

/// The 4-bit response status of a DNS message.
#[derive(Clone, Copy, Debug, PartialEq, Eq, Structural)]
pub enum ResponseCode {
    NOERROR,
    FORMERR,
    SERVFAIL,
    NXDOMAIN,
    NOTIMP,
    REFUSED,
}

/// The wire value of a response code.
pub open spec fn rescode_num(r: ResponseCode) -> u8 {
    match r {
        ResponseCode::NOERROR => 0,
        ResponseCode::FORMERR => 1,
        ResponseCode::SERVFAIL => 2,
        ResponseCode::NXDOMAIN => 3,
        ResponseCode::NOTIMP => 4,
        ResponseCode::REFUSED => 5,
    }
}

/// The response code denoted by a wire value; values outside the
/// enumeration fall back to `NOERROR`.
pub open spec fn rescode_from_num(num: u8) -> ResponseCode {
    match num {
        1u8 => ResponseCode::FORMERR,
        2u8 => ResponseCode::SERVFAIL,
        3u8 => ResponseCode::NXDOMAIN,
        4u8 => ResponseCode::NOTIMP,
        5u8 => ResponseCode::REFUSED,
        _ => ResponseCode::NOERROR,
    }
}

impl ResponseCode {
    pub fn from_num(num: u8) -> (r: ResponseCode)
        ensures
            r == rescode_from_num(num),
    {
        match num {
            1 => ResponseCode::FORMERR,
            2 => ResponseCode::SERVFAIL,
            3 => ResponseCode::NXDOMAIN,
            4 => ResponseCode::NOTIMP,
            5 => ResponseCode::REFUSED,
            _ => ResponseCode::NOERROR,
        }
    }

    pub fn to_num(self) -> (r: u8)
        ensures
            r == rescode_num(self),
    {
        match self {
            ResponseCode::NOERROR => 0,
            ResponseCode::FORMERR => 1,
            ResponseCode::SERVFAIL => 2,
            ResponseCode::NXDOMAIN => 3,
            ResponseCode::NOTIMP => 4,
            ResponseCode::REFUSED => 5,
        }
    }
}

/// The record type asked for by a question or carried by a record.
#[derive(PartialEq, Eq, Debug, Clone, Hash, Copy, Structural)]
pub enum QueryType {
    UNKNOWN(u16),
    A,
    CNAME,
    NS,
    MX,
    AAAA,
}

/// The wire value of a query type.
pub open spec fn qtype_num(q: QueryType) -> u16 {
    match q {
        QueryType::UNKNOWN(x) => x,
        QueryType::A => 1,
        QueryType::CNAME => 5,
        QueryType::NS => 2,
        QueryType::MX => 15,
        QueryType::AAAA => 28,
    }
}

/// The query type denoted by a wire value.
pub open spec fn qtype_from_num(num: u16) -> QueryType {
    match num {
        1u16 => QueryType::A,
        2u16 => QueryType::NS,
        5u16 => QueryType::CNAME,
        15u16 => QueryType::MX,
        28u16 => QueryType::AAAA,
        _ => QueryType::UNKNOWN(num),
    }
}

impl QueryType {
    pub fn to_num(self) -> (r: u16)
        ensures
            r == qtype_num(self),
    {
        match self {
            QueryType::UNKNOWN(x) => x,
            QueryType::A => 1,
            QueryType::CNAME => 5,
            QueryType::NS => 2,
            QueryType::MX => 15,
            QueryType::AAAA => 28,
        }
    }

    pub fn from_num(num: u16) -> (r: QueryType)
        ensures
            r == qtype_from_num(num),
    {
        match num {
            1 => QueryType::A,
            2 => QueryType::NS,
            5 => QueryType::CNAME,
            15 => QueryType::MX,
            28 => QueryType::AAAA,
            _ => QueryType::UNKNOWN(num),
        }
    }
}

/// An IPv4 address as its four octets.
#[derive(Clone, Copy, Debug, PartialEq, Eq, Hash, PartialOrd, Ord, Structural)]
pub struct Ipv4Addr {
    pub o0: u8,
    pub o1: u8,
    pub o2: u8,
    pub o3: u8,
}

impl Ipv4Addr {
    pub fn new(o0: u8, o1: u8, o2: u8, o3: u8) -> (r: Ipv4Addr)
        ensures
            r == (Ipv4Addr { o0, o1, o2, o3 }),
    {
        Ipv4Addr { o0, o1, o2, o3 }
    }
}

/// An IPv6 address as its eight 16-bit groups.
#[derive(Clone, Copy, Debug, PartialEq, Eq, Hash, PartialOrd, Ord, Structural)]
pub struct Ipv6Addr {
    pub s0: u16,
    pub s1: u16,
    pub s2: u16,
    pub s3: u16,
    pub s4: u16,
    pub s5: u16,
    pub s6: u16,
    pub s7: u16,
}

impl Ipv6Addr {
    pub fn new(
        s0: u16,
        s1: u16,
        s2: u16,
        s3: u16,
        s4: u16,
        s5: u16,
        s6: u16,
        s7: u16,
    ) -> (r: Ipv6Addr)
        ensures
            r == (Ipv6Addr { s0, s1, s2, s3, s4, s5, s6, s7 }),
    {
        Ipv6Addr { s0, s1, s2, s3, s4, s5, s6, s7 }
    }
}

/// The 12-octet message header.
#[derive(Clone, Copy, Debug, PartialEq, Eq, Structural)]
pub struct DnsHeader {
    /// Transaction id; a response carries the id of its query.
    pub id: u16,
    /// QR: false for queries, true for responses.
    pub response: bool,
    /// The 4-bit kind of query.
    pub opcode: u8,
    /// AA: the responder is an authority for the queried zone.
    pub authoritative_answer: bool,
    /// TC: the message was truncated by the transport.
    pub truncated_message: bool,
    /// RD: the client asks the server to pursue the query recursively.
    pub recursion_desired: bool,
    /// RA: the responder offers recursive lookup.
    pub recursion_available: bool,
    /// Z: reserved bit, now used by DNSSEC.
    pub z: bool,
    /// AD: authentic data.
    pub authed_data: bool,
    /// CD: checking disabled.
    pub checking_disabled: bool,
    /// The 4-bit response status.
    pub rescode: ResponseCode,
    /// QDCOUNT: entries in the question section.
    pub questions: u16,
    /// ANCOUNT: entries in the answer section.
    pub answers: u16,
    /// NSCOUNT: entries in the authority section.
    pub authoritative_entries: u16,
    /// ARCOUNT: entries in the additional section.
    pub resource_entries: u16,
}

/// The low flag octet of the header word: RCODE in bits 0..3, then CD,
/// AD, Z and RA in bits 4 to 7.
pub open spec fn spec_flags_low(h: DnsHeader) -> u8 {
    rescode_num(h.rescode) | (if h.checking_disabled {
        0x10u8
    } else {
        0u8
    }) | (if h.authed_data {
        0x20u8
    } else {
        0u8
    }) | (if h.z {
        0x40u8
    } else {
        0u8
    }) | (if h.recursion_available {
        0x80u8
    } else {
        0u8
    })
}

/// The high flag octet of the header word: RD, TC and AA in bits 0..2,
/// the opcode in bits 3..6, and QR in bit 7.
pub open spec fn spec_flags_high(h: DnsHeader) -> u8 {
    (if h.recursion_desired {
        1u8
    } else {
        0u8
    }) | (if h.truncated_message {
        2u8
    } else {
        0u8
    }) | (if h.authoritative_answer {
        4u8
    } else {
        0u8
    }) | (h.opcode << 3) | (if h.response {
        0x80u8
    } else {
        0u8
    })
}

/// Both flag octets as one 16-bit word, high octet first.
pub open spec fn spec_flags(h: DnsHeader) -> u16 {
    ((spec_flags_high(h) as u16) << 8) | (spec_flags_low(h) as u16)
}

impl DnsHeader {
    /// The 16-bit flags word of the header, as written to the wire.
    pub fn flags(&self) -> (r: u16)
        ensures
            r == spec_flags(*self),
    {
        let low: u8 = self.rescode.to_num() | (if self.checking_disabled {
            0x10u8
        } else {
            0u8
        }) | (if self.authed_data {
            0x20u8
        } else {
            0u8
        }) | (if self.z {
            0x40u8
        } else {
            0u8
        }) | (if self.recursion_available {
            0x80u8
        } else {
            0u8
        });
        let high: u8 = (if self.recursion_desired {
            1u8
        } else {
            0u8
        }) | (if self.truncated_message {
            2u8
        } else {
            0u8
        }) | (if self.authoritative_answer {
            4u8
        } else {
            0u8
        }) | (self.opcode << 3) | (if self.response {
            0x80u8
        } else {
            0u8
        });
        ((high as u16) << 8) | (low as u16)
    }
}

/// A question: a domain name in dotted form and a query type.  The
/// class is always IN and is not represented.
#[derive(Debug, Clone, PartialEq, Eq)]
pub struct DnsQuestion {
    pub name: String,
    pub qtype: QueryType,
}

/// The ghost value of a question.
pub ghost struct QuestionV {
    pub name: Seq<char>,
    pub qtype: QueryType,
}

impl View for DnsQuestion {
    type V = QuestionV;

    open spec fn view(&self) -> QuestionV {
        QuestionV { name: self.name@, qtype: self.qtype }
    }
}

/// A resource record, tagged by its type.
#[derive(Debug, Clone, PartialEq, Eq, Hash, PartialOrd, Ord)]
pub enum DnsRecord {
    A { domain: String, addr: Ipv4Addr, ttl: u32 },
    NS { domain: String, host: String, ttl: u32 },
    CNAME { domain: String, host: String, ttl: u32 },
    MX { domain: String, priority: u16, host: String, ttl: u32 },
    AAAA { domain: String, addr: Ipv6Addr, ttl: u32 },
    UNKNOWN { domain: String, qtype: u16, data_len: u16, ttl: u32 },
}

/// The ghost value of a resource record.
pub ghost enum RecordV {
    A { domain: Seq<char>, addr: Ipv4Addr, ttl: u32 },
    NS { domain: Seq<char>, host: Seq<char>, ttl: u32 },
    CNAME { domain: Seq<char>, host: Seq<char>, ttl: u32 },
    MX { domain: Seq<char>, priority: u16, host: Seq<char>, ttl: u32 },
    AAAA { domain: Seq<char>, addr: Ipv6Addr, ttl: u32 },
    UNKNOWN { domain: Seq<char>, qtype: u16, data_len: u16, ttl: u32 },
}

impl View for DnsRecord {
    type V = RecordV;

    open spec fn view(&self) -> RecordV {
        match self {
            DnsRecord::A { domain, addr, ttl } => RecordV::A {
                domain: domain@,
                addr: *addr,
                ttl: *ttl,
            },
            DnsRecord::NS { domain, host, ttl } => RecordV::NS {
                domain: domain@,
                host: host@,
                ttl: *ttl,
            },
            DnsRecord::CNAME { domain, host, ttl } => RecordV::CNAME {
                domain: domain@,
                host: host@,
                ttl: *ttl,
            },
            DnsRecord::MX { domain, priority, host, ttl } => RecordV::MX {
                domain: domain@,
                priority: *priority,
                host: host@,
                ttl: *ttl,
            },
            DnsRecord::AAAA { domain, addr, ttl } => RecordV::AAAA {
                domain: domain@,
                addr: *addr,
                ttl: *ttl,
            },
            DnsRecord::UNKNOWN { domain, qtype, data_len, ttl } => RecordV::UNKNOWN {
                domain: domain@,
                qtype: *qtype,
                data_len: *data_len,
                ttl: *ttl,
            },
        }
    }
}

/// A whole DNS message: one header and the four record sections in
/// wire order.
#[derive(Clone, Debug, PartialEq, Eq)]
pub struct DnsPacket {
    pub header: DnsHeader,
    pub questions: Vec<DnsQuestion>,
    pub answers: Vec<DnsRecord>,
    pub authorities: Vec<DnsRecord>,
    pub resources: Vec<DnsRecord>,
}

/// The ghost value of a packet.
pub ghost struct PacketV {
    pub header: DnsHeader,
    pub questions: Seq<QuestionV>,
    pub answers: Seq<RecordV>,
    pub authorities: Seq<RecordV>,
    pub resources: Seq<RecordV>,
}

impl View for DnsPacket {
    type V = PacketV;

    open spec fn view(&self) -> PacketV {
        PacketV {
            header: self.header,
            questions: Seq::new(self.questions@.len(), |i: int| self.questions@[i]@),
            answers: Seq::new(self.answers@.len(), |i: int| self.answers@[i]@),
            authorities: Seq::new(self.authorities@.len(), |i: int| self.authorities@[i]@),
            resources: Seq::new(self.resources@.len(), |i: int| self.resources@[i]@),
        }
    }
}

/// The address of the first A record of a section, if any.
pub open spec fn spec_first_a(rs: Seq<RecordV>) -> Option<Ipv4Addr>
    decreases rs.len(),
{
    if rs.len() == 0 {
        None
    } else {
        match rs[0] {
            RecordV::A { addr, .. } => Some(addr),
            _ => spec_first_a(rs.drop_first()),
        }
    }
}

/// The address of the first A record owned by `host`, if any.
pub open spec fn spec_first_a_for(rs: Seq<RecordV>, host: Seq<char>) -> Option<Ipv4Addr>
    decreases rs.len(),
{
    if rs.len() == 0 {
        None
    } else {
        match rs[0] {
            RecordV::A { domain, addr, .. } => if domain == host {
                Some(addr)
            } else {
                spec_first_a_for(rs.drop_first(), host)
            },
            _ => spec_first_a_for(rs.drop_first(), host),
        }
    }
}

/// Walking the authority NS records whose owner is a suffix of
/// `qname` in order: the first glue address found, taking for each
/// such NS the first additional A record owned by its target.
pub open spec fn spec_resolved_ns(
    auths: Seq<RecordV>,
    resources: Seq<RecordV>,
    qname: Seq<char>,
) -> Option<Ipv4Addr>
    decreases auths.len(),
{
    if auths.len() == 0 {
        None
    } else {
        let rest = spec_resolved_ns(auths.drop_first(), resources, qname);
        match auths[0] {
            RecordV::NS { domain, host, .. } => if crate::utils::spec_ends_with(qname, domain) {
                match spec_first_a_for(resources, host) {
                    Some(a) => Some(a),
                    None => rest,
                }
            } else {
                rest
            },
            _ => rest,
        }
    }
}

/// The target host of the first authority NS record whose owner is a
/// suffix of `qname`, glue or no glue.
pub open spec fn spec_unresolved_ns(auths: Seq<RecordV>, qname: Seq<char>) -> Option<Seq<char>>
    decreases auths.len(),
{
    if auths.len() == 0 {
        None
    } else {
        match auths[0] {
            RecordV::NS { domain, host, .. } => if crate::utils::spec_ends_with(qname, domain) {
                Some(host)
            } else {
                spec_unresolved_ns(auths.drop_first(), qname)
            },
            _ => spec_unresolved_ns(auths.drop_first(), qname),
        }
    }
}

impl DnsPacket {
    /// The first question, if any.
    pub fn first_question(&self) -> (r: Option<&DnsQuestion>)
        ensures
            r is Some <==> self@.questions.len() > 0,
            r is Some ==> r->0@ == self@.questions[0],
    {
        if self.questions.len() > 0 {
            Some(&self.questions[0])
        } else {
            None
        }
    }

    /// Whether the header carries any error status.
    pub fn is_valid(&self) -> (r: bool)
        ensures
            r == (self.header.rescode != ResponseCode::NOERROR),
    {
        self.header.rescode != ResponseCode::NOERROR
    }

    /// Whether the answer section is non-empty.
    pub fn has_answers(&self) -> (r: bool)
        ensures
            r == (self@.answers.len() > 0),
    {
        !self.answers.is_empty()
    }

    /// The header's response code.
    pub fn rescode(&self) -> (r: ResponseCode)
        ensures
            r == self.header.rescode,
    {
        self.header.rescode
    }

    /// The query type of the first question, if any.
    pub fn qtype(&self) -> (r: Option<QueryType>)
        ensures
            r is Some <==> self@.questions.len() > 0,
            r is Some ==> r->0 == self@.questions[0].qtype,
    {
        match self.first_question() {
            Some(q) => Some(q.qtype),
            None => None,
        }
    }

    /// The name of the first question, if any.
    pub fn qname(&self) -> (r: Option<String>)
        ensures
            r is Some <==> self@.questions.len() > 0,
            r is Some ==> r->0@ == self@.questions[0].name,
    {
        if self.questions.len() > 0 {
            Some(self.questions[0].name.clone())
        } else {
            None
        }
    }

    /// The IPv4 address of the first A record in the answer section.
    #[verifier::loop_isolation(false)]
    pub fn get_random_a(&self) -> (r: Option<Ipv4Addr>)
        ensures
            r == spec_first_a(self@.answers),
    {
        let ghost ansv = self@.answers;
        let mut i: usize = 0;
        proof {
            assert(ansv.skip(0) =~= ansv);
        }
        while i < self.answers.len()
            invariant
                i <= ansv.len(),
                spec_first_a(ansv) == spec_first_a(ansv.skip(i as int)),
            decreases ansv.len() - i,
        {
            proof {
                assert(ansv.skip(i as int)[0] == ansv[i as int]);
                assert(ansv.skip(i as int).drop_first() =~= ansv.skip(i + 1));
            }
            match &self.answers[i] {
                DnsRecord::A { addr, .. } => {
                    return Some(*addr);
                },
                _ => {},
            }
            i = i + 1;
        }
        proof {
            assert(ansv.skip(ansv.len() as int) =~= Seq::<RecordV>::empty());
        }
        None
    }

    /// The glue address of the first matching delegation: the first
    /// authority NS record whose owner is a suffix of `qname` and
    /// whose target owns an additional A record.
    #[verifier::loop_isolation(false)]
    pub fn get_resolved_ns(&self, qname: &str) -> (r: Option<Ipv4Addr>)
        ensures
            r == spec_resolved_ns(self@.authorities, self@.resources, qname@),
    {
        let ghost authv = self@.authorities;
        let ghost resv = self@.resources;
        let mut i: usize = 0;
        proof {
            assert(authv.skip(0) =~= authv);
        }
        while i < self.authorities.len()
            invariant
                i <= authv.len(),
                spec_resolved_ns(authv, resv, qname@) == spec_resolved_ns(
                    authv.skip(i as int),
                    resv,
                    qname@,
                ),
            decreases authv.len() - i,
        {
            proof {
                assert(authv.skip(i as int)[0] == authv[i as int]);
                assert(authv.skip(i as int).drop_first() =~= authv.skip(i + 1));
            }
            match &self.authorities[i] {
                DnsRecord::NS { domain, host, .. } => {
                    if crate::utils::ends_with(qname, domain.as_str()) {
                        let mut k: usize = 0;
                        proof {
                            assert(resv.skip(0) =~= resv);
                        }
                        while k < self.resources.len()
                            invariant
                                k <= resv.len(),
                                spec_first_a_for(resv, host@) == spec_first_a_for(
                                    resv.skip(k as int),
                                    host@,
                                ),
                            decreases resv.len() - k,
                        {
                            proof {
                                assert(resv.skip(k as int)[0] == resv[k as int]);
                                assert(resv.skip(k as int).drop_first() =~= resv.skip(k + 1));
                            }
                            match &self.resources[k] {
                                DnsRecord::A { domain: rdomain, addr, .. } => {
                                    if *rdomain == *host {
                                        return Some(*addr);
                                    }
                                },
                                _ => {},
                            }
                            k = k + 1;
                        }
                        proof {
                            assert(resv.skip(resv.len() as int) =~= Seq::<RecordV>::empty());
                        }
                    }
                },
                _ => {},
            }
            i = i + 1;
        }
        proof {
            assert(authv.skip(authv.len() as int) =~= Seq::<RecordV>::empty());
        }
        None
    }

    /// The target host of the first authority NS record whose owner
    /// is a suffix of `qname`, whether or not glue exists for it.
    #[verifier::loop_isolation(false)]
    pub fn get_unresolved_ns(&self, qname: &str) -> (r: Option<String>)
        ensures
            r is Some <==> spec_unresolved_ns(self@.authorities, qname@) is Some,
            r is Some ==> r->0@ == spec_unresolved_ns(self@.authorities, qname@)->0,
    {
        let ghost authv = self@.authorities;
        let mut i: usize = 0;
        proof {
            assert(authv.skip(0) =~= authv);
        }
        while i < self.authorities.len()
            invariant
                i <= authv.len(),
                spec_unresolved_ns(authv, qname@) == spec_unresolved_ns(
                    authv.skip(i as int),
                    qname@,
                ),
            decreases authv.len() - i,
        {
            proof {
                assert(authv.skip(i as int)[0] == authv[i as int]);
                assert(authv.skip(i as int).drop_first() =~= authv.skip(i + 1));
            }
            match &self.authorities[i] {
                DnsRecord::NS { domain, host, .. } => {
                    if crate::utils::ends_with(qname, domain.as_str()) {
                        return Some(host.clone());
                    }
                },
                _ => {},
            }
            i = i + 1;
        }
        proof {
            assert(authv.skip(authv.len() as int) =~= Seq::<RecordV>::empty());
        }
        None
    }
}

} // verus!
