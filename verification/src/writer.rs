//! Encoding DNS messages into their wire form.
//!
//! The encoder writes into a fixed 512-octet buffer and fails with
//! `BufferOverflow` where a write would pass that bound.  Names are
//! emitted uncompressed, and the header's four counts are the lengths
//! of the sections actually written.

use vstd::prelude::*;
#[allow(unused_imports)]
use vstd::pervasive::VecAdditionalExecFns;

use crate::name::{name_wire_bytes, spec_name_bytes};
use crate::types::{
    qtype_num, spec_flags, DnsError, DnsHeader, DnsPacket, DnsQuestion, DnsRecord, Ipv4Addr,
    Ipv6Addr, PacketV, QueryType, QuestionV, RecordV,
};

verus! {

/// The two octets of a 16-bit value, high first.
pub open spec fn spec_u16_bytes(v: u16) -> Seq<u8> {
    seq![(v >> 8) as u8, (v & 0xff) as u8]
}

/// The four octets of a 32-bit value, high first.
pub open spec fn spec_u32_bytes(v: u32) -> Seq<u8> {
    seq![
        ((v >> 24) & 0xff) as u8,
        ((v >> 16) & 0xff) as u8,
        ((v >> 8) & 0xff) as u8,
        (v & 0xff) as u8,
    ]
}

/// `bytes` written into `b` at `pos`, the rest unchanged.
pub open spec fn splice(b: Seq<u8>, pos: int, bytes: Seq<u8>) -> Seq<u8>
    recommends
        0 <= pos,
        pos + bytes.len() <= b.len(),
{
    b.take(pos) + bytes + b.skip(pos + bytes.len())
}

/// How a splice reads back, octet by octet.
pub proof fn lemma_splice_index(b: Seq<u8>, pos: int, bytes: Seq<u8>)
    requires
        0 <= pos,
        pos + bytes.len() <= b.len(),
    ensures
        splice(b, pos, bytes).len() == b.len(),
        forall|i: int|
            0 <= i < b.len() ==> #[trigger] splice(b, pos, bytes)[i] == (if pos <= i < pos
                + bytes.len() {
                bytes[i - pos]
            } else {
                b[i]
            }),
{
}

/// Two adjacent splices are one.
pub proof fn lemma_splice_splice(b: Seq<u8>, pos: int, x: Seq<u8>, y: Seq<u8>)
    requires
        0 <= pos,
        pos + x.len() + y.len() <= b.len(),
    ensures
        splice(splice(b, pos, x), pos + x.len(), y) == splice(b, pos, x + y),
{
    lemma_splice_index(b, pos, x + y);
    lemma_splice_index(b, pos, x);
    lemma_splice_index(splice(b, pos, x), pos + x.len(), y);
    assert(splice(splice(b, pos, x), pos + x.len(), y) =~= splice(b, pos, x + y));
}

/// A fixed 512-octet buffer and the position of the next write.
pub struct BytePacketBuffer {
    pub buf: Vec<u8>,
    pub pos: usize,
}

impl BytePacketBuffer {
    /// The buffer keeps its fixed size and the cursor stays inside it.
    pub open spec fn wf(&self) -> bool {
        self.buf@.len() == 512 && self.pos <= 512
    }

    /// Wraps a 512-octet buffer for writing from its start.
    pub fn new(buffer: Vec<u8>) -> (r: BytePacketBuffer)
        requires
            buffer@.len() == 512,
        ensures
            r.wf(),
            r.pos == 0,
            r.buf@ == buffer@,
    {
        BytePacketBuffer { buf: buffer, pos: 0 }
    }

    /// Writes one octet at the cursor, or fails at the buffer's end.
    pub fn write(&mut self, val: u8) -> (r: Result<(), DnsError>)
        requires
            old(self).wf(),
        ensures
            final(self).wf(),
            old(self).pos + 1 <= 512 ==> r is Ok && final(self).buf@ == splice(
                old(self).buf@,
                old(self).pos as int,
                seq![val],
            ) && final(self).pos == old(self).pos + 1,
            old(self).pos + 1 > 512 ==> r is Err && r->Err_0 == DnsError::BufferOverflow && *final(self)
                == *old(self),
    {
        if self.pos >= 512 {
            return Err(DnsError::BufferOverflow);
        }
        self.buf.set(self.pos, val);
        proof {
            assert(self.buf@ =~= splice(old(self).buf@, old(self).pos as int, seq![val]));
        }
        self.pos = self.pos + 1;
        Ok(())
    }

    /// Writes one octet.
    pub fn write_u8(&mut self, val: u8) -> (r: Result<(), DnsError>)
        requires
            old(self).wf(),
        ensures
            final(self).wf(),
            old(self).pos + 1 <= 512 ==> r is Ok && final(self).buf@ == splice(
                old(self).buf@,
                old(self).pos as int,
                seq![val],
            ) && final(self).pos == old(self).pos + 1,
            old(self).pos + 1 > 512 ==> r is Err && r->Err_0 == DnsError::BufferOverflow && *final(self)
                == *old(self),
    {
        self.write(val)
    }

    /// Writes a 16-bit value big-endian.
    pub fn write_u16(&mut self, val: u16) -> (r: Result<(), DnsError>)
        requires
            old(self).wf(),
        ensures
            final(self).wf(),
            old(self).pos + 2 <= 512 ==> r is Ok && final(self).buf@ == splice(
                old(self).buf@,
                old(self).pos as int,
                spec_u16_bytes(val),
            ) && final(self).pos == old(self).pos + 2,
            old(self).pos + 2 > 512 ==> r is Err && r->Err_0 == DnsError::BufferOverflow,
    {
        let ghost b0 = self.buf@;
        let ghost p0 = self.pos as int;
        match self.write((val >> 8) as u8) {
            Ok(_) => {},
            Err(e) => {
                return Err(e);
            },
        }
        match self.write((val & 0xff) as u8) {
            Ok(_) => {},
            Err(e) => {
                return Err(e);
            },
        }
        proof {
            lemma_splice_splice(b0, p0, seq![(val >> 8) as u8], seq![(val & 0xff) as u8]);
            assert(seq![(val >> 8) as u8] + seq![(val & 0xff) as u8] =~= spec_u16_bytes(val));
        }
        Ok(())
    }

    /// Writes a 32-bit value big-endian.
    pub fn write_u32(&mut self, val: u32) -> (r: Result<(), DnsError>)
        requires
            old(self).wf(),
        ensures
            final(self).wf(),
            old(self).pos + 4 <= 512 ==> r is Ok && final(self).buf@ == splice(
                old(self).buf@,
                old(self).pos as int,
                spec_u32_bytes(val),
            ) && final(self).pos == old(self).pos + 4,
            old(self).pos + 4 > 512 ==> r is Err && r->Err_0 == DnsError::BufferOverflow,
    {
        let ghost b0 = self.buf@;
        let ghost p0 = self.pos as int;
        match self.write(((val >> 24) & 0xff) as u8) {
            Ok(_) => {},
            Err(e) => {
                return Err(e);
            },
        }
        match self.write(((val >> 16) & 0xff) as u8) {
            Ok(_) => {},
            Err(e) => {
                return Err(e);
            },
        }
        match self.write(((val >> 8) & 0xff) as u8) {
            Ok(_) => {},
            Err(e) => {
                return Err(e);
            },
        }
        match self.write((val & 0xff) as u8) {
            Ok(_) => {},
            Err(e) => {
                return Err(e);
            },
        }
        proof {
            let s0 = seq![((val >> 24) & 0xff) as u8];
            let s1 = seq![((val >> 16) & 0xff) as u8];
            let s2 = seq![((val >> 8) & 0xff) as u8];
            let s3 = seq![(val & 0xff) as u8];
            lemma_splice_splice(b0, p0, s0, s1);
            lemma_splice_splice(b0, p0, s0 + s1, s2);
            lemma_splice_splice(b0, p0, s0 + s1 + s2, s3);
            assert(s0 + s1 + s2 + s3 =~= spec_u32_bytes(val));
        }
        Ok(())
    }

    /// Writes all the given octets at the cursor, or fails with the
    /// buffer unchanged where they do not fit.
    #[verifier::loop_isolation(false)]
    fn write_all(&mut self, bytes: &Vec<u8>) -> (r: Result<(), DnsError>)
        requires
            old(self).wf(),
        ensures
            final(self).wf(),
            old(self).pos + bytes@.len() <= 512 ==> r is Ok && final(self).buf@ == splice(
                old(self).buf@,
                old(self).pos as int,
                bytes@,
            ) && final(self).pos == old(self).pos + bytes@.len(),
            old(self).pos + bytes@.len() > 512 ==> r is Err && r->Err_0
                == DnsError::BufferOverflow && *final(self) == *old(self),
    {
        if 512 - self.pos < bytes.len() {
            return Err(DnsError::BufferOverflow);
        }
        let ghost b0 = self.buf@;
        let ghost p0 = self.pos as int;
        let mut i: usize = 0;
        while i < bytes.len()
            invariant
                i <= bytes@.len(),
                self.pos == p0 + i,
                self.buf@ == splice(b0, p0, bytes@.take(i as int)),
            decreases bytes@.len() - i,
        {
            let ghost bprev = self.buf@;
            match self.write(bytes[i]) {
                Ok(_) => {},
                Err(_) => {
                    proof {
                        assert(false);
                    }
                    return Err(DnsError::BufferOverflow);
                },
            }
            proof {
                lemma_splice_splice(b0, p0, bytes@.take(i as int), seq![bytes@[i as int]]);
                assert(bytes@.take(i as int) + seq![bytes@[i as int]] =~= bytes@.take(i + 1));
            }
            i = i + 1;
        }
        proof {
            assert(bytes@.take(bytes@.len() as int) =~= bytes@);
        }
        Ok(())
    }

    /// Writes a name in its uncompressed wire form: length-prefixed
    /// labels and a terminating zero octet, with the name bounds
    /// enforced before anything is written.
    pub fn write_qname(&mut self, qname: &str) -> (r: Result<(), DnsError>)
        requires
            old(self).wf(),
        ensures
            final(self).wf(),
            ({
                let s = spec_name_bytes(qname@);
                &&& (s is Err ==> r is Err && r->Err_0 == s->Err_0 && *final(self) == *old(self))
                &&& (s is Ok && old(self).pos + s->Ok_0.len() <= 512 ==> r is Ok && final(self).buf@
                    == splice(old(self).buf@, old(self).pos as int, s->Ok_0) && final(self).pos == old(
                    self,
                ).pos + s->Ok_0.len())
                &&& (s is Ok && old(self).pos + s->Ok_0.len() > 512 ==> r is Err && r->Err_0
                    == DnsError::BufferOverflow && *final(self) == *old(self))
            }),
    {
        let nb = match name_wire_bytes(qname) {
            Ok(x) => x,
            Err(e) => {
                return Err(e);
            },
        };
        self.write_all(&nb)
    }

    /// Overwrites the octet at `pos` without moving the cursor.
    pub fn set(&mut self, pos: usize, val: u8) -> (r: Result<(), DnsError>)
        requires
            old(self).wf(),
            pos < 512,
        ensures
            final(self).wf(),
            r is Ok,
            final(self).buf@ == old(self).buf@.update(pos as int, val),
            final(self).pos == old(self).pos,
    {
        self.buf.set(pos, val);
        Ok(())
    }

    /// Overwrites two octets at `pos` with a big-endian 16-bit value.
    pub fn set_u16(&mut self, pos: usize, val: u16) -> (r: Result<(), DnsError>)
        requires
            old(self).wf(),
            pos + 2 <= 512,
        ensures
            final(self).wf(),
            r is Ok,
            final(self).buf@ == old(self).buf@.update(pos as int, (val >> 8) as u8).update(
                pos + 1,
                (val & 0xff) as u8,
            ),
            final(self).pos == old(self).pos,
    {
        match self.set(pos, (val >> 8) as u8) {
            Ok(_) => {},
            Err(e) => {
                return Err(e);
            },
        }
        match self.set(pos + 1, (val & 0xff) as u8) {
            Ok(_) => {},
            Err(e) => {
                return Err(e);
            },
        }
        Ok(())
    }
}

/// The twelve octets of a header, the counts as stored in it.
pub open spec fn spec_header_bytes(h: DnsHeader) -> Seq<u8> {
    spec_u16_bytes(h.id) + spec_u16_bytes(spec_flags(h)) + spec_u16_bytes(h.questions)
        + spec_u16_bytes(h.answers) + spec_u16_bytes(h.authoritative_entries) + spec_u16_bytes(
        h.resource_entries,
    )
}

/// The wire octets of a question: its name, QTYPE, and the constant
/// QCLASS of one.
pub open spec fn spec_question_bytes(q: QuestionV) -> Result<Seq<u8>, DnsError> {
    match spec_name_bytes(q.name) {
        Ok(nb) => Ok(nb + spec_u16_bytes(qtype_num(q.qtype)) + spec_u16_bytes(1u16)),
        Err(e) => Err(e),
    }
}

/// The wire octets of a resource record: name, TYPE, the constant
/// CLASS, TTL, RDLENGTH and the RDATA of its variant.  A record of an
/// unknown type is dropped: it encodes to no octets at all.
pub open spec fn spec_record_bytes(rec: RecordV) -> Result<Seq<u8>, DnsError> {
    match rec {
        RecordV::A { domain, addr, ttl } => match spec_name_bytes(domain) {
            Ok(nb) => Ok(
                nb + spec_u16_bytes(1u16) + spec_u16_bytes(1u16) + spec_u32_bytes(ttl)
                    + spec_u16_bytes(4u16) + seq![addr.o0, addr.o1, addr.o2, addr.o3],
            ),
            Err(e) => Err(e),
        },
        RecordV::NS { domain, host, ttl } => match spec_name_bytes(domain) {
            Ok(nb) => match spec_name_bytes(host) {
                Ok(hb) => Ok(
                    nb + spec_u16_bytes(2u16) + spec_u16_bytes(1u16) + spec_u32_bytes(ttl)
                        + spec_u16_bytes(hb.len() as u16) + hb,
                ),
                Err(e) => Err(e),
            },
            Err(e) => Err(e),
        },
        RecordV::CNAME { domain, host, ttl } => match spec_name_bytes(domain) {
            Ok(nb) => match spec_name_bytes(host) {
                Ok(hb) => Ok(
                    nb + spec_u16_bytes(5u16) + spec_u16_bytes(1u16) + spec_u32_bytes(ttl)
                        + spec_u16_bytes(hb.len() as u16) + hb,
                ),
                Err(e) => Err(e),
            },
            Err(e) => Err(e),
        },
        RecordV::MX { domain, priority, host, ttl } => match spec_name_bytes(domain) {
            Ok(nb) => match spec_name_bytes(host) {
                Ok(hb) => Ok(
                    nb + spec_u16_bytes(15u16) + spec_u16_bytes(1u16) + spec_u32_bytes(ttl)
                        + spec_u16_bytes((hb.len() + 2) as u16) + spec_u16_bytes(priority) + hb,
                ),
                Err(e) => Err(e),
            },
            Err(e) => Err(e),
        },
        RecordV::AAAA { domain, addr, ttl } => match spec_name_bytes(domain) {
            Ok(nb) => Ok(
                nb + spec_u16_bytes(28u16) + spec_u16_bytes(1u16) + spec_u32_bytes(ttl)
                    + spec_u16_bytes(16u16) + spec_u16_bytes(addr.s0) + spec_u16_bytes(addr.s1)
                    + spec_u16_bytes(addr.s2) + spec_u16_bytes(addr.s3) + spec_u16_bytes(addr.s4)
                    + spec_u16_bytes(addr.s5) + spec_u16_bytes(addr.s6) + spec_u16_bytes(addr.s7),
            ),
            Err(e) => Err(e),
        },
        RecordV::UNKNOWN { .. } => Ok(Seq::empty()),
    }
}

/// Appends octets to what was written so far, failing where the
/// 512-octet buffer would be passed.
pub open spec fn spec_put(st: Result<Seq<u8>, DnsError>, bytes: Seq<u8>) -> Result<
    Seq<u8>,
    DnsError,
> {
    match st {
        Ok(cur) => if cur.len() + bytes.len() <= 512 {
            Ok(cur + bytes)
        } else {
            Err(DnsError::BufferOverflow)
        },
        Err(e) => Err(e),
    }
}

/// Appends an element's encoding: the element's own error wins over a
/// full buffer, and an earlier error stands.
pub open spec fn spec_put_r(st: Result<Seq<u8>, DnsError>, r: Result<Seq<u8>, DnsError>) -> Result<
    Seq<u8>,
    DnsError,
> {
    match st {
        Ok(_) => match r {
            Ok(b) => spec_put(st, b),
            Err(e) => Err(e),
        },
        Err(e0) => Err(e0),
    }
}

/// The questions encoded in order onto an encoding state.
pub open spec fn spec_write_questions(st: Result<Seq<u8>, DnsError>, qs: Seq<QuestionV>) -> Result<
    Seq<u8>,
    DnsError,
>
    decreases qs.len(),
{
    if qs.len() == 0 {
        st
    } else {
        spec_write_questions(spec_put_r(st, spec_question_bytes(qs[0])), qs.drop_first())
    }
}

/// The records encoded in order onto an encoding state.
pub open spec fn spec_write_records(st: Result<Seq<u8>, DnsError>, rs: Seq<RecordV>) -> Result<
    Seq<u8>,
    DnsError,
>
    decreases rs.len(),
{
    if rs.len() == 0 {
        st
    } else {
        spec_write_records(spec_put_r(st, spec_record_bytes(rs[0])), rs.drop_first())
    }
}

/// An error state stays through any further questions.
pub proof fn lemma_write_questions_err(e: DnsError, qs: Seq<QuestionV>)
    ensures
        spec_write_questions(Err(e), qs) == Err::<Seq<u8>, DnsError>(e),
    decreases qs.len(),
{
    if qs.len() > 0 {
        lemma_write_questions_err(e, qs.drop_first());
    }
}

/// An error state stays through any further records.
pub proof fn lemma_write_records_err(e: DnsError, rs: Seq<RecordV>)
    ensures
        spec_write_records(Err(e), rs) == Err::<Seq<u8>, DnsError>(e),
    decreases rs.len(),
{
    if rs.len() > 0 {
        lemma_write_records_err(e, rs.drop_first());
    }
}

/// Writing one more question appends its encoding to the state.
pub proof fn lemma_write_questions_push(
    st: Result<Seq<u8>, DnsError>,
    qs: Seq<QuestionV>,
    q: QuestionV,
)
    ensures
        spec_write_questions(st, qs.push(q)) == spec_put_r(
            spec_write_questions(st, qs),
            spec_question_bytes(q),
        ),
    decreases qs.len(),
{
    if qs.len() == 0 {
        assert(qs.push(q).drop_first() =~= Seq::<QuestionV>::empty());
        assert(qs.push(q)[0] == q);
        assert(spec_write_questions(spec_put_r(st, spec_question_bytes(q)), Seq::<
            QuestionV,
        >::empty()) == spec_put_r(st, spec_question_bytes(q)));
    } else {
        assert(qs.push(q).drop_first() =~= qs.drop_first().push(q));
        assert(qs.push(q)[0] == qs[0]);
        lemma_write_questions_push(spec_put_r(st, spec_question_bytes(qs[0])), qs.drop_first(), q);
    }
}

/// Writing one more record appends its encoding to the state.
pub proof fn lemma_write_records_push(st: Result<Seq<u8>, DnsError>, rs: Seq<RecordV>, rec: RecordV)
    ensures
        spec_write_records(st, rs.push(rec)) == spec_put_r(
            spec_write_records(st, rs),
            spec_record_bytes(rec),
        ),
    decreases rs.len(),
{
    if rs.len() == 0 {
        assert(rs.push(rec).drop_first() =~= Seq::<RecordV>::empty());
        assert(rs.push(rec)[0] == rec);
        assert(spec_write_records(spec_put_r(st, spec_record_bytes(rec)), Seq::<
            RecordV,
        >::empty()) == spec_put_r(st, spec_record_bytes(rec)));
    } else {
        assert(rs.push(rec).drop_first() =~= rs.drop_first().push(rec));
        assert(rs.push(rec)[0] == rs[0]);
        lemma_write_records_push(spec_put_r(st, spec_record_bytes(rs[0])), rs.drop_first(), rec);
    }
}

/// A question section encodes in two stages: first a prefix, then the
/// rest from the state the prefix left.
pub proof fn lemma_write_questions_split(st: Result<Seq<u8>, DnsError>, qs: Seq<QuestionV>, i: int)
    requires
        0 <= i <= qs.len(),
    ensures
        spec_write_questions(st, qs) == spec_write_questions(
            spec_write_questions(st, qs.take(i)),
            qs.skip(i),
        ),
    decreases i,
{
    if i == 0 {
        assert(qs.take(0) =~= Seq::<QuestionV>::empty());
        assert(qs.skip(0) =~= qs);
    } else {
        let st1 = spec_put_r(st, spec_question_bytes(qs[0]));
        assert(qs.take(i)[0] == qs[0]);
        assert(qs.take(i).drop_first() =~= qs.drop_first().take(i - 1));
        assert(qs.skip(i) =~= qs.drop_first().skip(i - 1));
        lemma_write_questions_split(st1, qs.drop_first(), i - 1);
    }
}

/// A record section encodes in two stages: first a prefix, then the
/// rest from the state the prefix left.
pub proof fn lemma_write_records_split(st: Result<Seq<u8>, DnsError>, rs: Seq<RecordV>, i: int)
    requires
        0 <= i <= rs.len(),
    ensures
        spec_write_records(st, rs) == spec_write_records(
            spec_write_records(st, rs.take(i)),
            rs.skip(i),
        ),
    decreases i,
{
    if i == 0 {
        assert(rs.take(0) =~= Seq::<RecordV>::empty());
        assert(rs.skip(0) =~= rs);
    } else {
        let st1 = spec_put_r(st, spec_record_bytes(rs[0]));
        assert(rs.take(i)[0] == rs[0]);
        assert(rs.take(i).drop_first() =~= rs.drop_first().take(i - 1));
        assert(rs.skip(i) =~= rs.drop_first().skip(i - 1));
        lemma_write_records_split(st1, rs.drop_first(), i - 1);
    }
}

/// How many of these records the encoder keeps: every record but the
/// unknown ones, which it drops.
pub open spec fn spec_count_known(rs: Seq<RecordV>) -> int
    decreases rs.len(),
{
    if rs.len() == 0 {
        0
    } else {
        (if rs[0] is UNKNOWN {
            0int
        } else {
            1int
        }) + spec_count_known(rs.drop_first())
    }
}

/// One more record raises the count unless it is unknown.
pub proof fn lemma_count_known_push(rs: Seq<RecordV>, rec: RecordV)
    ensures
        spec_count_known(rs.push(rec)) == spec_count_known(rs) + (if rec is UNKNOWN {
            0int
        } else {
            1int
        }),
    decreases rs.len(),
{
    if rs.len() == 0 {
        assert(rs.push(rec).drop_first() =~= Seq::<RecordV>::empty());
        assert(rs.push(rec)[0] == rec);
        assert(spec_count_known(Seq::<RecordV>::empty()) == 0);
    } else {
        assert(rs.push(rec).drop_first() =~= rs.drop_first().push(rec));
        assert(rs.push(rec)[0] == rs[0]);
        lemma_count_known_push(rs.drop_first(), rec);
    }
}

/// The count is never negative.
pub proof fn lemma_count_known_nonneg(rs: Seq<RecordV>)
    ensures
        spec_count_known(rs) >= 0,
    decreases rs.len(),
{
    if rs.len() > 0 {
        lemma_count_known_nonneg(rs.drop_first());
    }
}

/// The header a packet is encoded with: its own header, but the four
/// counts replaced by the number of entries each section will carry on
/// the wire.
pub open spec fn spec_counted_header(p: PacketV) -> DnsHeader {
    DnsHeader {
        questions: p.questions.len() as u16,
        answers: spec_count_known(p.answers) as u16,
        authoritative_entries: spec_count_known(p.authorities) as u16,
        resource_entries: spec_count_known(p.resources) as u16,
        ..p.header
    }
}

/// The wire octets of a whole packet: the header with the counts the
/// sections will actually carry, then every section in order.  A
/// section too large for a 16-bit count cannot be encoded at all.
pub open spec fn spec_encode_packet(p: PacketV) -> Result<Seq<u8>, DnsError> {
    if p.questions.len() > 0xffff || spec_count_known(p.answers) > 0xffff || spec_count_known(
        p.authorities,
    ) > 0xffff || spec_count_known(p.resources) > 0xffff {
        Err(DnsError::BufferOverflow)
    } else {
        spec_write_records(
            spec_write_records(
                spec_write_records(
                    spec_write_questions(
                        Ok(spec_header_bytes(spec_counted_header(p))),
                        p.questions,
                    ),
                    p.answers,
                ),
                p.authorities,
            ),
            p.resources,
        )
    }
}

/// Updating one octet inside a splice updates the spliced bytes.
pub proof fn lemma_splice_update(b: Seq<u8>, pos: int, x: Seq<u8>, k: int, v: u8)
    requires
        0 <= pos,
        pos + x.len() <= b.len(),
        0 <= k < x.len(),
    ensures
        splice(b, pos, x).update(pos + k, v) == splice(b, pos, x.update(k, v)),
{
    lemma_splice_index(b, pos, x);
    lemma_splice_index(b, pos, x.update(k, v));
    assert(splice(b, pos, x).update(pos + k, v) =~= splice(b, pos, x.update(k, v)));
}

/// Writes the six 16-bit words of a header: id, flags, and the four
/// counts as the header stores them.
pub fn write_header(header: &DnsHeader, buffer: &mut BytePacketBuffer) -> (r: Result<(), DnsError>)
    requires
        old(buffer).wf(),
    ensures
        final(buffer).wf(),
        old(buffer).pos + 12 <= 512 ==> r is Ok && final(buffer).buf@ == splice(
            old(buffer).buf@,
            old(buffer).pos as int,
            spec_header_bytes(*header),
        ) && final(buffer).pos == old(buffer).pos + 12,
        old(buffer).pos + 12 > 512 ==> r is Err && r->Err_0 == DnsError::BufferOverflow,
{
    let ghost b0 = buffer.buf@;
    let ghost p0 = buffer.pos as int;
    match buffer.write_u16(header.id) {
        Ok(_) => {},
        Err(e) => {
            return Err(e);
        },
    }
    match buffer.write_u16(header.flags()) {
        Ok(_) => {},
        Err(e) => {
            return Err(e);
        },
    }
    match buffer.write_u16(header.questions) {
        Ok(_) => {},
        Err(e) => {
            return Err(e);
        },
    }
    match buffer.write_u16(header.answers) {
        Ok(_) => {},
        Err(e) => {
            return Err(e);
        },
    }
    match buffer.write_u16(header.authoritative_entries) {
        Ok(_) => {},
        Err(e) => {
            return Err(e);
        },
    }
    match buffer.write_u16(header.resource_entries) {
        Ok(_) => {},
        Err(e) => {
            return Err(e);
        },
    }
    proof {
        let h = *header;
        let s0 = spec_u16_bytes(h.id);
        let s1 = spec_u16_bytes(spec_flags(h));
        let s2 = spec_u16_bytes(h.questions);
        let s3 = spec_u16_bytes(h.answers);
        let s4 = spec_u16_bytes(h.authoritative_entries);
        let s5 = spec_u16_bytes(h.resource_entries);
        lemma_splice_splice(b0, p0, s0, s1);
        lemma_splice_splice(b0, p0, s0 + s1, s2);
        lemma_splice_splice(b0, p0, s0 + s1 + s2, s3);
        lemma_splice_splice(b0, p0, s0 + s1 + s2 + s3, s4);
        lemma_splice_splice(b0, p0, s0 + s1 + s2 + s3 + s4, s5);
        assert(s0 + s1 + s2 + s3 + s4 + s5 =~= spec_header_bytes(h));
    }
    Ok(())
}

/// Writes a question: its name, QTYPE, and the constant QCLASS of one.
pub fn write_question(question: &DnsQuestion, buffer: &mut BytePacketBuffer) -> (r: Result<
    (),
    DnsError,
>)
    requires
        old(buffer).wf(),
    ensures
        final(buffer).wf(),
        ({
            let s = spec_question_bytes(question@);
            &&& (s is Err ==> r is Err && r->Err_0 == s->Err_0 && *final(buffer) == *old(buffer))
            &&& (s is Ok && old(buffer).pos + s->Ok_0.len() <= 512 ==> r is Ok && final(buffer).buf@ == splice(old(buffer).buf@, old(buffer).pos as int, s->Ok_0) && final(buffer).pos == old(buffer).pos + s->Ok_0.len())
            &&& (s is Ok && old(buffer).pos + s->Ok_0.len() > 512 ==> r is Err && r->Err_0
                == DnsError::BufferOverflow)
        }),
{
    let ghost b0 = buffer.buf@;
    let ghost p0 = buffer.pos as int;
    match buffer.write_qname(question.name.as_str()) {
        Ok(_) => {},
        Err(e) => {
            return Err(e);
        },
    }
    let typenum = question.qtype.to_num();
    match buffer.write_u16(typenum) {
        Ok(_) => {},
        Err(e) => {
            return Err(e);
        },
    }
    match buffer.write_u16(1) {
        Ok(_) => {},
        Err(e) => {
            return Err(e);
        },
    }
    proof {
        let nb = spec_name_bytes(question.name@)->Ok_0;
        lemma_splice_splice(b0, p0, nb, spec_u16_bytes(qtype_num(question.qtype)));
        lemma_splice_splice(
            b0,
            p0,
            nb + spec_u16_bytes(qtype_num(question.qtype)),
            spec_u16_bytes(1u16),
        );
    }
    Ok(())
}

/// The wire octets of an A record from its parts.
pub open spec fn spec_a_bytes(domain: Seq<char>, addr: Ipv4Addr, ttl: u32) -> Result<
    Seq<u8>,
    DnsError,
> {
    spec_record_bytes(RecordV::A { domain, addr, ttl })
}

/// Writes an A record: the four address octets behind the fixed
/// RDLENGTH of four.
fn write_a_record(buffer: &mut BytePacketBuffer, domain: &String, addr: &Ipv4Addr, ttl: u32) -> (r:
    Result<usize, DnsError>)
    requires
        old(buffer).wf(),
    ensures
        final(buffer).wf(),
        ({
            let s = spec_a_bytes(domain@, *addr, ttl);
            &&& (s is Err ==> r is Err && r->Err_0 == s->Err_0 && *final(buffer) == *old(buffer))
            &&& (s is Ok && old(buffer).pos + s->Ok_0.len() <= 512 ==> r is Ok && r->Ok_0
                == s->Ok_0.len() && final(buffer).buf@ == splice(
                old(buffer).buf@,
                old(buffer).pos as int,
                s->Ok_0,
            ) && final(buffer).pos == old(buffer).pos + s->Ok_0.len())
            &&& (s is Ok && old(buffer).pos + s->Ok_0.len() > 512 ==> r is Err && r->Err_0
                == DnsError::BufferOverflow)
        }),
{
    let ghost b0 = buffer.buf@;
    let ghost p0 = buffer.pos as int;
    let start_pos = buffer.pos;
    match buffer.write_qname(domain.as_str()) {
        Ok(_) => {},
        Err(e) => {
            return Err(e);
        },
    }
    match buffer.write_u16(QueryType::A.to_num()) {
        Ok(_) => {},
        Err(e) => {
            return Err(e);
        },
    }
    match buffer.write_u16(1) {
        Ok(_) => {},
        Err(e) => {
            return Err(e);
        },
    }
    match buffer.write_u32(ttl) {
        Ok(_) => {},
        Err(e) => {
            return Err(e);
        },
    }
    match buffer.write_u16(4) {
        Ok(_) => {},
        Err(e) => {
            return Err(e);
        },
    }
    match buffer.write_u8(addr.o0) {
        Ok(_) => {},
        Err(e) => {
            return Err(e);
        },
    }
    match buffer.write_u8(addr.o1) {
        Ok(_) => {},
        Err(e) => {
            return Err(e);
        },
    }
    match buffer.write_u8(addr.o2) {
        Ok(_) => {},
        Err(e) => {
            return Err(e);
        },
    }
    match buffer.write_u8(addr.o3) {
        Ok(_) => {},
        Err(e) => {
            return Err(e);
        },
    }
    proof {
        let nb = spec_name_bytes(domain@)->Ok_0;
        let s1 = spec_u16_bytes(1u16);
        let s2 = spec_u32_bytes(ttl);
        let s3 = spec_u16_bytes(4u16);
        lemma_splice_splice(b0, p0, nb, s1);
        lemma_splice_splice(b0, p0, nb + s1, s1);
        lemma_splice_splice(b0, p0, nb + s1 + s1, s2);
        lemma_splice_splice(b0, p0, nb + s1 + s1 + s2, s3);
        lemma_splice_splice(b0, p0, nb + s1 + s1 + s2 + s3, seq![addr.o0]);
        lemma_splice_splice(b0, p0, nb + s1 + s1 + s2 + s3 + seq![addr.o0], seq![addr.o1]);
        lemma_splice_splice(
            b0,
            p0,
            nb + s1 + s1 + s2 + s3 + seq![addr.o0] + seq![addr.o1],
            seq![addr.o2],
        );
        lemma_splice_splice(
            b0,
            p0,
            nb + s1 + s1 + s2 + s3 + seq![addr.o0] + seq![addr.o1] + seq![addr.o2],
            seq![addr.o3],
        );
        assert(nb + s1 + s1 + s2 + s3 + seq![addr.o0] + seq![addr.o1] + seq![addr.o2]
            + seq![addr.o3] =~= spec_a_bytes(domain@, *addr, ttl)->Ok_0);
    }
    Ok(buffer.pos - start_pos)
}

/// The wire octets of an AAAA record from its parts.
pub open spec fn spec_aaaa_bytes(domain: Seq<char>, addr: Ipv6Addr, ttl: u32) -> Result<
    Seq<u8>,
    DnsError,
> {
    spec_record_bytes(RecordV::AAAA { domain, addr, ttl })
}

/// Writes an AAAA record: the eight 16-bit address groups behind the
/// fixed RDLENGTH of sixteen.
#[verifier::rlimit(100)]
fn write_aaaa_record(
    buffer: &mut BytePacketBuffer,
    domain: &String,
    addr: &Ipv6Addr,
    ttl: u32,
) -> (r: Result<usize, DnsError>)
    requires
        old(buffer).wf(),
    ensures
        final(buffer).wf(),
        ({
            let s = spec_aaaa_bytes(domain@, *addr, ttl);
            &&& (s is Err ==> r is Err && r->Err_0 == s->Err_0 && *final(buffer) == *old(buffer))
            &&& (s is Ok && old(buffer).pos + s->Ok_0.len() <= 512 ==> r is Ok && r->Ok_0
                == s->Ok_0.len() && final(buffer).buf@ == splice(
                old(buffer).buf@,
                old(buffer).pos as int,
                s->Ok_0,
            ) && final(buffer).pos == old(buffer).pos + s->Ok_0.len())
            &&& (s is Ok && old(buffer).pos + s->Ok_0.len() > 512 ==> r is Err && r->Err_0
                == DnsError::BufferOverflow)
        }),
{
    let ghost b0 = buffer.buf@;
    let ghost p0 = buffer.pos as int;
    let start_pos = buffer.pos;
    match buffer.write_qname(domain.as_str()) {
        Ok(_) => {},
        Err(e) => {
            return Err(e);
        },
    }
    match buffer.write_u16(QueryType::AAAA.to_num()) {
        Ok(_) => {},
        Err(e) => {
            return Err(e);
        },
    }
    match buffer.write_u16(1) {
        Ok(_) => {},
        Err(e) => {
            return Err(e);
        },
    }
    match buffer.write_u32(ttl) {
        Ok(_) => {},
        Err(e) => {
            return Err(e);
        },
    }
    match buffer.write_u16(16) {
        Ok(_) => {},
        Err(e) => {
            return Err(e);
        },
    }
    match buffer.write_u16(addr.s0) {
        Ok(_) => {},
        Err(e) => {
            return Err(e);
        },
    }
    match buffer.write_u16(addr.s1) {
        Ok(_) => {},
        Err(e) => {
            return Err(e);
        },
    }
    match buffer.write_u16(addr.s2) {
        Ok(_) => {},
        Err(e) => {
            return Err(e);
        },
    }
    match buffer.write_u16(addr.s3) {
        Ok(_) => {},
        Err(e) => {
            return Err(e);
        },
    }
    match buffer.write_u16(addr.s4) {
        Ok(_) => {},
        Err(e) => {
            return Err(e);
        },
    }
    match buffer.write_u16(addr.s5) {
        Ok(_) => {},
        Err(e) => {
            return Err(e);
        },
    }
    match buffer.write_u16(addr.s6) {
        Ok(_) => {},
        Err(e) => {
            return Err(e);
        },
    }
    match buffer.write_u16(addr.s7) {
        Ok(_) => {},
        Err(e) => {
            return Err(e);
        },
    }
    proof {
        let nb = spec_name_bytes(domain@)->Ok_0;
        let c1 = spec_u16_bytes(28u16);
        let c2 = spec_u16_bytes(1u16);
        let c3 = spec_u32_bytes(ttl);
        let c4 = spec_u16_bytes(16u16);
        let g0 = spec_u16_bytes(addr.s0);
        let g1 = spec_u16_bytes(addr.s1);
        let g2 = spec_u16_bytes(addr.s2);
        let g3 = spec_u16_bytes(addr.s3);
        let g4 = spec_u16_bytes(addr.s4);
        let g5 = spec_u16_bytes(addr.s5);
        let g6 = spec_u16_bytes(addr.s6);
        let g7 = spec_u16_bytes(addr.s7);
        lemma_splice_splice(b0, p0, nb, c1);
        lemma_splice_splice(b0, p0, nb + c1, c2);
        lemma_splice_splice(b0, p0, nb + c1 + c2, c3);
        lemma_splice_splice(b0, p0, nb + c1 + c2 + c3, c4);
        lemma_splice_splice(b0, p0, nb + c1 + c2 + c3 + c4, g0);
        lemma_splice_splice(b0, p0, nb + c1 + c2 + c3 + c4 + g0, g1);
        lemma_splice_splice(b0, p0, nb + c1 + c2 + c3 + c4 + g0 + g1, g2);
        lemma_splice_splice(b0, p0, nb + c1 + c2 + c3 + c4 + g0 + g1 + g2, g3);
        lemma_splice_splice(b0, p0, nb + c1 + c2 + c3 + c4 + g0 + g1 + g2 + g3, g4);
        lemma_splice_splice(b0, p0, nb + c1 + c2 + c3 + c4 + g0 + g1 + g2 + g3 + g4, g5);
        lemma_splice_splice(b0, p0, nb + c1 + c2 + c3 + c4 + g0 + g1 + g2 + g3 + g4 + g5, g6);
        lemma_splice_splice(b0, p0, nb + c1 + c2 + c3 + c4 + g0 + g1 + g2 + g3 + g4 + g5 + g6, g7);
        assert(nb + c1 + c2 + c3 + c4 + g0 + g1 + g2 + g3 + g4 + g5 + g6 + g7 =~= spec_aaaa_bytes(
            domain@,
            *addr,
            ttl,
        )->Ok_0);
    }
    Ok(buffer.pos - start_pos)
}

/// Writes a resource record: name, TYPE, the constant CLASS, TTL, and
/// an RDLENGTH that is reserved first and patched to the number of
/// RDATA octets once they are written.  A record of unknown type is
/// skipped.  Returns how many octets the record took.
pub fn write_record(record: &DnsRecord, buffer: &mut BytePacketBuffer) -> (r: Result<
    usize,
    DnsError,
>)
    requires
        old(buffer).wf(),
    ensures
        final(buffer).wf(),
        ({
            let s = spec_record_bytes(record@);
            &&& (s is Err ==> r is Err && r->Err_0 == s->Err_0 && *final(buffer) == *old(buffer))
            &&& (s is Ok && old(buffer).pos + s->Ok_0.len() <= 512 ==> r is Ok && r->Ok_0
                == s->Ok_0.len() && final(buffer).buf@ == splice(
                old(buffer).buf@,
                old(buffer).pos as int,
                s->Ok_0,
            ) && final(buffer).pos == old(buffer).pos + s->Ok_0.len())
            &&& (s is Ok && old(buffer).pos + s->Ok_0.len() > 512 ==> r is Err && r->Err_0
                == DnsError::BufferOverflow)
        }),
{
    match record {
        DnsRecord::A { domain, addr, ttl } => write_a_record(buffer, domain, addr, *ttl),
        DnsRecord::NS { domain, host, ttl } => {
            let r = write_host_record(buffer, domain, QueryType::NS.to_num(), None, host, *ttl);
            proof {
                lemma_host_record_is_record(record@, 2, None);
            }
            r
        },
        DnsRecord::CNAME { domain, host, ttl } => {
            let r = write_host_record(buffer, domain, QueryType::CNAME.to_num(), None, host, *ttl);
            proof {
                lemma_host_record_is_record(record@, 5, None);
            }
            r
        },
        DnsRecord::MX { domain, priority, host, ttl } => {
            let r = write_host_record(
                buffer,
                domain,
                QueryType::MX.to_num(),
                Some(*priority),
                host,
                *ttl,
            );
            proof {
                lemma_host_record_is_record(record@, 15, Some(*priority));
            }
            r
        },
        DnsRecord::AAAA { domain, addr, ttl } => write_aaaa_record(buffer, domain, addr, *ttl),
        DnsRecord::UNKNOWN { .. } => {
            proof {
                assert(splice(buffer.buf@, buffer.pos as int, Seq::<u8>::empty()) =~= buffer.buf@);
            }
            Ok(0)
        },
    }
}

/// A host-carrying record's octets are those of the shared layout.
pub proof fn lemma_host_record_is_record(rec: RecordV, typenum: u16, priority: Option<u16>)
    requires
        rec is NS ==> typenum == 2 && priority is None,
        rec is CNAME ==> typenum == 5 && priority is None,
        rec is MX ==> typenum == 15 && priority == Some(rec->MX_priority),
        rec is NS || rec is CNAME || rec is MX,
    ensures
        rec is NS ==> spec_host_record_bytes(rec->NS_domain, typenum, priority, rec->NS_host, rec->NS_ttl)
            == spec_record_bytes(rec),
        rec is CNAME ==> spec_host_record_bytes(
            rec->CNAME_domain,
            typenum,
            priority,
            rec->CNAME_host,
            rec->CNAME_ttl,
        ) == spec_record_bytes(rec),
        rec is MX ==> spec_host_record_bytes(
            rec->MX_domain,
            typenum,
            priority,
            rec->MX_host,
            rec->MX_ttl,
        ) == spec_record_bytes(rec),
{
    if rec is NS {
        let domain = rec->NS_domain;
        let host = rec->NS_host;
        if spec_name_bytes(domain) is Ok && spec_name_bytes(host) is Ok {
            let nb = spec_name_bytes(domain)->Ok_0;
            let hb = spec_name_bytes(host)->Ok_0;
            assert(nb + spec_u16_bytes(2u16) + spec_u16_bytes(1u16) + spec_u32_bytes(rec->NS_ttl)
                + spec_u16_bytes((hb.len() + 0) as u16) + Seq::<u8>::empty() + hb =~= nb
                + spec_u16_bytes(2u16) + spec_u16_bytes(1u16) + spec_u32_bytes(rec->NS_ttl)
                + spec_u16_bytes(hb.len() as u16) + hb);
        }
    } else if rec is CNAME {
        let domain = rec->CNAME_domain;
        let host = rec->CNAME_host;
        if spec_name_bytes(domain) is Ok && spec_name_bytes(host) is Ok {
            let nb = spec_name_bytes(domain)->Ok_0;
            let hb = spec_name_bytes(host)->Ok_0;
            assert(nb + spec_u16_bytes(5u16) + spec_u16_bytes(1u16) + spec_u32_bytes(rec->CNAME_ttl)
                + spec_u16_bytes((hb.len() + 0) as u16) + Seq::<u8>::empty() + hb =~= nb
                + spec_u16_bytes(5u16) + spec_u16_bytes(1u16) + spec_u32_bytes(rec->CNAME_ttl)
                + spec_u16_bytes(hb.len() as u16) + hb);
        }
    } else {
        let domain = rec->MX_domain;
        let host = rec->MX_host;
        if spec_name_bytes(domain) is Ok && spec_name_bytes(host) is Ok {
            let nb = spec_name_bytes(domain)->Ok_0;
            let hb = spec_name_bytes(host)->Ok_0;
            assert((hb.len() + 2) as u16 == (hb.len() + 2int) as u16);
        }
    }
}



/// The wire octets of a record whose RDATA is a host name, with an
/// optional 16-bit preference before it.
pub open spec fn spec_host_record_bytes(
    domain: Seq<char>,
    typenum: u16,
    priority: Option<u16>,
    host: Seq<char>,
    ttl: u32,
) -> Result<Seq<u8>, DnsError> {
    match spec_name_bytes(domain) {
        Ok(nb) => match spec_name_bytes(host) {
            Ok(hb) => Ok(
                nb + spec_u16_bytes(typenum) + spec_u16_bytes(1u16) + spec_u32_bytes(ttl)
                    + spec_u16_bytes(
                    (hb.len() + (if priority is Some {
                        2int
                    } else {
                        0int
                    })) as u16,
                ) + (if priority is Some {
                    spec_u16_bytes(priority->0)
                } else {
                    Seq::<u8>::empty()
                }) + hb,
            ),
            Err(e) => Err(e),
        },
        Err(e) => Err(e),
    }
}

/// Writes a record whose RDATA is a host name: the RDLENGTH field is
/// reserved as two zero octets, the RDATA written, and the field then
/// patched to the octets the RDATA took.
#[verifier::rlimit(100)]
fn write_host_record(
    buffer: &mut BytePacketBuffer,
    domain: &String,
    typenum: u16,
    priority: Option<u16>,
    host: &String,
    ttl: u32,
) -> (r: Result<usize, DnsError>)
    requires
        old(buffer).wf(),
    ensures
        final(buffer).wf(),
        ({
            let s = spec_host_record_bytes(domain@, typenum, priority, host@, ttl);
            &&& (s is Err ==> r is Err && r->Err_0 == s->Err_0 && *final(buffer) == *old(buffer))
            &&& (s is Ok && old(buffer).pos + s->Ok_0.len() <= 512 ==> r is Ok && r->Ok_0
                == s->Ok_0.len() && final(buffer).buf@ == splice(
                old(buffer).buf@,
                old(buffer).pos as int,
                s->Ok_0,
            ) && final(buffer).pos == old(buffer).pos + s->Ok_0.len())
            &&& (s is Ok && old(buffer).pos + s->Ok_0.len() > 512 ==> r is Err && r->Err_0
                == DnsError::BufferOverflow)
        }),
{
    let ghost b0 = buffer.buf@;
    let ghost p0 = buffer.pos as int;
    let start_pos = buffer.pos;
    let ob = match name_wire_bytes(domain.as_str()) {
        Ok(x) => x,
        Err(e) => {
            return Err(e);
        },
    };
    let hb = match name_wire_bytes(host.as_str()) {
        Ok(x) => x,
        Err(e) => {
            return Err(e);
        },
    };
    proof {
        assert(hb@.len() <= 255);
    }
    match buffer.write_all(&ob) {
        Ok(_) => {},
        Err(e) => {
            return Err(e);
        },
    }
    match buffer.write_u16(typenum) {
        Ok(_) => {},
        Err(e) => {
            return Err(e);
        },
    }
    match buffer.write_u16(1) {
        Ok(_) => {},
        Err(e) => {
            return Err(e);
        },
    }
    match buffer.write_u32(ttl) {
        Ok(_) => {},
        Err(e) => {
            return Err(e);
        },
    }
    let ppos = buffer.pos;
    match buffer.write_u16(0) {
        Ok(_) => {},
        Err(e) => {
            return Err(e);
        },
    }
    match priority {
        Some(pr) => {
            match buffer.write_u16(pr) {
                Ok(_) => {},
                Err(e) => {
                    return Err(e);
                },
            }
        },
        None => {},
    }
    match buffer.write_all(&hb) {
        Ok(_) => {},
        Err(e) => {
            return Err(e);
        },
    }
    let size = buffer.pos - (ppos + 2);
    match buffer.set_u16(ppos, size as u16) {
        Ok(_) => {},
        Err(e) => {
            return Err(e);
        },
    }
    proof {
        let pre = ob@ + spec_u16_bytes(typenum) + spec_u16_bytes(1u16) + spec_u32_bytes(ttl);
        let prio = if priority is Some {
            spec_u16_bytes(priority->0)
        } else {
            Seq::<u8>::empty()
        };
        let size16 = size as u16;
        lemma_splice_splice(b0, p0, ob@, spec_u16_bytes(typenum));
        lemma_splice_splice(b0, p0, ob@ + spec_u16_bytes(typenum), spec_u16_bytes(1u16));
        lemma_splice_splice(
            b0,
            p0,
            ob@ + spec_u16_bytes(typenum) + spec_u16_bytes(1u16),
            spec_u32_bytes(ttl),
        );
        lemma_splice_splice(b0, p0, pre, spec_u16_bytes(0u16));
        if priority is Some {
            lemma_splice_splice(b0, p0, pre + spec_u16_bytes(0u16), prio);
        } else {
            assert(pre + spec_u16_bytes(0u16) + prio =~= pre + spec_u16_bytes(0u16));
        }
        lemma_splice_splice(b0, p0, pre + spec_u16_bytes(0u16) + prio, hb@);
        let x = pre + spec_u16_bytes(0u16) + prio + hb@;
        let k = pre.len() as int;
        lemma_splice_update(b0, p0, x, k, (size16 >> 8) as u8);
        lemma_splice_update(
            b0,
            p0,
            x.update(k, (size16 >> 8) as u8),
            k + 1,
            (size16 & 0xff) as u8,
        );
        let bytes = spec_host_record_bytes(domain@, typenum, priority, host@, ttl)->Ok_0;
        assert(x.update(k, (size16 >> 8) as u8).update(k + 1, (size16 & 0xff) as u8) =~= bytes);
    }
    Ok(buffer.pos - start_pos)
}

/// How many of the given records the encoder will keep: all but the
/// unknown ones.
#[verifier::loop_isolation(false)]
fn count_known(records: &Vec<DnsRecord>) -> (r: usize)
    ensures
        r == spec_count_known(Seq::new(records@.len(), |i: int| records@[i]@)),
        r <= records@.len(),
{
    let ghost rv = Seq::new(records@.len(), |i: int| records@[i]@);
    let mut cnt: usize = 0;
    let mut i: usize = 0;
    proof {
        assert(rv.take(0) =~= Seq::<RecordV>::empty());
        assert(spec_count_known(Seq::<RecordV>::empty()) == 0);
    }
    while i < records.len()
        invariant
            i <= records@.len(),
            cnt <= i,
            cnt == spec_count_known(rv.take(i as int)),
        decreases records@.len() - i,
    {
        proof {
            lemma_count_known_push(rv.take(i as int), rv[i as int]);
            assert(rv.take(i + 1) =~= rv.take(i as int).push(rv[i as int]));
        }
        match records[i] {
            DnsRecord::UNKNOWN { .. } => {},
            _ => {
                cnt = cnt + 1;
            },
        }
        i = i + 1;
    }
    proof {
        assert(rv.take(records@.len() as int) =~= rv);
    }
    cnt
}

/// Writes every question of a section in order onto the buffer.
#[verifier::loop_isolation(false)]
fn write_questions_section(buffer: &mut BytePacketBuffer, questions: &Vec<DnsQuestion>) -> (r:
    Result<(), DnsError>)
    requires
        old(buffer).wf(),
    ensures
        final(buffer).wf(),
        ({
            let st = Ok::<Seq<u8>, DnsError>(old(buffer).buf@.take(old(buffer).pos as int));
            let out = spec_write_questions(st, Seq::new(questions@.len(), |i: int| questions@[i]@));
            &&& (r is Ok ==> out == Ok::<Seq<u8>, DnsError>(
                final(buffer).buf@.take(final(buffer).pos as int),
            ))
            &&& (r is Err ==> out == Err::<Seq<u8>, DnsError>(r->Err_0))
        }),
{
    let ghost st0 = Ok::<Seq<u8>, DnsError>(buffer.buf@.take(buffer.pos as int));
    let ghost qsv = Seq::new(questions@.len(), |i: int| questions@[i]@);
    let mut i: usize = 0;
    proof {
        assert(qsv.take(0) =~= Seq::<QuestionV>::empty());
    }
    while i < questions.len()
        invariant
            i <= questions@.len(),
            buffer.wf(),
            spec_write_questions(st0, qsv.take(i as int)) == Ok::<Seq<u8>, DnsError>(
                buffer.buf@.take(buffer.pos as int),
            ),
        decreases questions@.len() - i,
    {
        let ghost bprev = buffer.buf@;
        let ghost pprev = buffer.pos as int;
        proof {
            lemma_write_questions_push(st0, qsv.take(i as int), qsv[i as int]);
            assert(qsv.take(i + 1) =~= qsv.take(i as int).push(qsv[i as int]));
            assert(bprev.take(pprev).len() == pprev);
        }
        match write_question(&questions[i], buffer) {
            Ok(_) => {
                proof {
                    let qb = spec_question_bytes(qsv[i as int])->Ok_0;
                    lemma_splice_index(bprev, pprev, qb);
                    assert(buffer.buf@.take(buffer.pos as int) =~= bprev.take(pprev) + qb);
                }
            },
            Err(e) => {
                proof {
                    lemma_write_questions_split(st0, qsv, i + 1);
                    lemma_write_questions_err(e, qsv.skip(i + 1));
                }
                return Err(e);
            },
        }
        i = i + 1;
    }
    proof {
        assert(qsv.take(questions@.len() as int) =~= qsv);
    }
    Ok(())
}

/// Writes every record of a section in order onto the buffer.
#[verifier::loop_isolation(false)]
fn write_records_section(buffer: &mut BytePacketBuffer, records: &Vec<DnsRecord>) -> (r: Result<
    (),
    DnsError,
>)
    requires
        old(buffer).wf(),
    ensures
        final(buffer).wf(),
        ({
            let st = Ok::<Seq<u8>, DnsError>(old(buffer).buf@.take(old(buffer).pos as int));
            let out = spec_write_records(st, Seq::new(records@.len(), |i: int| records@[i]@));
            &&& (r is Ok ==> out == Ok::<Seq<u8>, DnsError>(
                final(buffer).buf@.take(final(buffer).pos as int),
            ))
            &&& (r is Err ==> out == Err::<Seq<u8>, DnsError>(r->Err_0))
        }),
{
    let ghost st0 = Ok::<Seq<u8>, DnsError>(buffer.buf@.take(buffer.pos as int));
    let ghost rv = Seq::new(records@.len(), |i: int| records@[i]@);
    let mut i: usize = 0;
    proof {
        assert(rv.take(0) =~= Seq::<RecordV>::empty());
    }
    while i < records.len()
        invariant
            i <= records@.len(),
            buffer.wf(),
            spec_write_records(st0, rv.take(i as int)) == Ok::<Seq<u8>, DnsError>(
                buffer.buf@.take(buffer.pos as int),
            ),
        decreases records@.len() - i,
    {
        let ghost bprev = buffer.buf@;
        let ghost pprev = buffer.pos as int;
        proof {
            lemma_write_records_push(st0, rv.take(i as int), rv[i as int]);
            assert(rv.take(i + 1) =~= rv.take(i as int).push(rv[i as int]));
            assert(bprev.take(pprev).len() == pprev);
        }
        match write_record(&records[i], buffer) {
            Ok(_) => {
                proof {
                    let rb = spec_record_bytes(rv[i as int])->Ok_0;
                    lemma_splice_index(bprev, pprev, rb);
                    assert(buffer.buf@.take(buffer.pos as int) =~= bprev.take(pprev) + rb);
                }
            },
            Err(e) => {
                proof {
                    lemma_write_records_split(st0, rv, i + 1);
                    lemma_write_records_err(e, rv.skip(i + 1));
                }
                return Err(e);
            },
        }
        i = i + 1;
    }
    proof {
        assert(rv.take(records@.len() as int) =~= rv);
    }
    Ok(())
}

/// Encodes a packet into the buffer from its start.
#[verifier::rlimit(100)]
fn encode_packet(buffer: &mut BytePacketBuffer, packet: &DnsPacket) -> (r: Result<usize, DnsError>)
    requires
        old(buffer).wf(),
        old(buffer).pos == 0,
    ensures
        final(buffer).wf(),
        ({
            let s = spec_encode_packet(packet@);
            &&& (s is Ok ==> r is Ok && r->Ok_0 == s->Ok_0.len() && final(buffer).buf@.take(
                s->Ok_0.len() as int,
            ) == s->Ok_0 && final(buffer).pos == s->Ok_0.len())
            &&& (s is Err ==> r is Err && r->Err_0 == s->Err_0)
        }),
{
    let ghost pv = packet@;
    let qn = packet.questions.len();
    let an = count_known(&packet.answers);
    let nn = count_known(&packet.authorities);
    let rn = count_known(&packet.resources);
    if qn > 0xffff || an > 0xffff || nn > 0xffff || rn > 0xffff {
        return Err(DnsError::BufferOverflow);
    }
    let patched = DnsHeader {
        questions: qn as u16,
        answers: an as u16,
        authoritative_entries: nn as u16,
        resource_entries: rn as u16,
        ..packet.header
    };
    proof {
        assert(pv.answers =~= Seq::new(packet.answers@.len(), |i: int| packet.answers@[i]@));
        assert(pv.authorities =~= Seq::new(
            packet.authorities@.len(),
            |i: int| packet.authorities@[i]@,
        ));
        assert(pv.resources =~= Seq::new(packet.resources@.len(), |i: int| packet.resources@[i]@));
        assert(patched == spec_counted_header(pv));
    }
    let ghost b0 = buffer.buf@;
    match write_header(&patched, buffer) {
        Ok(_) => {},
        Err(_) => {
            proof {
                assert(false);
            }
            return Err(DnsError::BufferOverflow);
        },
    }
    let ghost st0 = Ok::<Seq<u8>, DnsError>(spec_header_bytes(patched));
    proof {
        lemma_splice_index(b0, 0, spec_header_bytes(patched));
        assert(buffer.buf@.take(buffer.pos as int) =~= spec_header_bytes(patched));
    }
    let ghost qsv = pv.questions;
    proof {
        assert(qsv =~= Seq::new(packet.questions@.len(), |i: int| packet.questions@[i]@));
    }
    match write_questions_section(buffer, &packet.questions) {
        Ok(_) => {},
        Err(e) => {
            proof {
                lemma_write_records_err(e, pv.answers);
                lemma_write_records_err(e, pv.authorities);
                lemma_write_records_err(e, pv.resources);
            }
            return Err(e);
        },
    }
    let ghost st1 = spec_write_questions(st0, qsv);
    match write_records_section(buffer, &packet.answers) {
        Ok(_) => {},
        Err(e) => {
            proof {
                lemma_write_records_err(e, pv.authorities);
                lemma_write_records_err(e, pv.resources);
            }
            return Err(e);
        },
    }
    let ghost st2 = spec_write_records(st1, pv.answers);
    match write_records_section(buffer, &packet.authorities) {
        Ok(_) => {},
        Err(e) => {
            proof {
                lemma_write_records_err(e, pv.resources);
            }
            return Err(e);
        },
    }
    let ghost st3 = spec_write_records(st2, pv.authorities);
    match write_records_section(buffer, &packet.resources) {
        Ok(_) => {},
        Err(e) => {
            return Err(e);
        },
    }
    Ok(buffer.pos)
}


/// Encodes a whole packet into the first octets of a 512-octet buffer
/// and returns how many octets were written.  The four counts written
/// are the lengths of the sections as emitted, unknown records left
/// aside.
#[verifier::loop_isolation(false)]
pub fn write(buf: &mut Vec<u8>, packet: &DnsPacket) -> (r: Result<usize, DnsError>)
    requires
        old(buf)@.len() == 512,
    ensures
        final(buf)@.len() == 512,
        ({
            let s = spec_encode_packet(packet@);
            &&& (s is Ok ==> r is Ok && r->Ok_0 == s->Ok_0.len() && final(buf)@.take(
                s->Ok_0.len() as int,
            ) == s->Ok_0)
            &&& (s is Err ==> r is Err && r->Err_0 == s->Err_0)
        }),
{
    let mut tmp: Vec<u8> = Vec::new();
    core::mem::swap(buf, &mut tmp);
    let mut buffer = BytePacketBuffer::new(tmp);
    let res = encode_packet(&mut buffer, packet);
    let BytePacketBuffer { buf: inner, pos: _ } = buffer;
    *buf = inner;
    res
}

} // verus!
