//! The laws the codec obeys, proved over its wire model: decoding an
//! encoded message gives the message back, decoding sees only the
//! logical message and not its pointer layout, name bounds are
//! enforced on both paths, and a pointer loop is rejected.

use vstd::prelude::*;
#[allow(unused_imports)]
use vstd::utf8::*;

use crate::name::{
    label_chars, labels_wire_len, spec_encode_parts, spec_join_parts, spec_labels_at,
    spec_name_at, spec_name_bytes, spec_name_of_labels, split_dots, lemma_join_split,
    lemma_split_nonempty,
};
use crate::parser::{
    spec_header_at, spec_header_fields, spec_question_at, spec_questions_at, spec_record_at,
    spec_records_at, spec_u16_at, spec_u32_at,
};
use crate::types::{
    qtype_from_num, qtype_num, rescode_from_num, rescode_num, spec_flags, spec_flags_high,
    spec_flags_low, DnsError, DnsHeader, PacketV, QuestionV, RecordV, ResponseCode,
};
use crate::parser::spec_packet;
use crate::writer::{
    lemma_count_known_nonneg, lemma_write_questions_err, lemma_write_records_err,
    spec_count_known, spec_counted_header, spec_encode_packet, spec_header_bytes, spec_put_r,
    spec_question_bytes, spec_record_bytes, spec_u16_bytes, spec_u32_bytes, spec_write_questions,
    spec_write_records,
};

verus! {

/// The encoded octets of each part.
pub open spec fn parts_bytes(parts: Seq<Seq<char>>) -> Seq<Seq<u8>> {
    Seq::new(parts.len(), |i: int| encode_utf8(parts[i]))
}

/// A successful part encoding spends one length octet and at least
/// one octet per part, and one terminator.
pub proof fn lemma_parts_len(parts: Seq<Seq<char>>)
    requires
        spec_encode_parts(parts) is Ok,
    ensures
        spec_encode_parts(parts)->Ok_0.len() >= 2 * parts.len() + 1,
        spec_encode_parts(parts)->Ok_0.len() == labels_wire_len(parts_bytes(parts)),
    decreases parts.len(),
{
    if parts.len() == 0 {
        assert(parts_bytes(parts) =~= Seq::<Seq<u8>>::empty());
    } else {
        lemma_parts_len(parts.drop_first());
        assert(parts_bytes(parts).drop_first() =~= parts_bytes(parts.drop_first()));
        assert(parts_bytes(parts)[0] == encode_utf8(parts[0]));
    }
}

/// Reading back an encoded part list: at any position where its
/// octets lie, with inline reach at least past them and fuel for
/// every label, the labels read are the parts' octets and the cursor
/// stops just past the terminator.
pub proof fn lemma_parts_decode(
    buf: Seq<u8>,
    pos: int,
    end: int,
    fuel: nat,
    parts: Seq<Seq<char>>,
)
    requires
        spec_encode_parts(parts) is Ok,
        0 <= pos,
        pos + spec_encode_parts(parts)->Ok_0.len() <= end <= buf.len(),
        buf.subrange(pos, pos + spec_encode_parts(parts)->Ok_0.len()) == spec_encode_parts(
            parts,
        )->Ok_0,
        fuel >= parts.len() + 1,
    ensures
        spec_labels_at(buf, pos, end, fuel) == Some((parts_bytes(parts), pos + spec_encode_parts(
            parts,
        )->Ok_0.len())),
    decreases parts.len(),
{
    let pb = spec_encode_parts(parts)->Ok_0;
    buf.lemma_element_from_slice(pb, pos, pos + pb.len() as int, pos);
    if parts.len() == 0 {
        assert(pb == seq![0u8]);
        assert(pb[0] == 0);
        assert(buf[pos] == 0);
        assert(parts_bytes(parts) =~= Seq::<Seq<u8>>::empty());
    } else {
        let lb = encode_utf8(parts[0]);
        let tail = spec_encode_parts(parts.drop_first())->Ok_0;
        assert(pb == seq![lb.len() as u8] + lb + tail);
        lemma_parts_len(parts.drop_first());
        assert(pb[0] == (seq![lb.len() as u8] + lb + tail)[0]);
        assert(pb[0] == lb.len() as u8);
        assert(buf[pos] == lb.len() as u8);
        assert(1 <= lb.len() <= 63);
        assert(buf[pos] != 0 && buf[pos] < 0xc0 && buf[pos] <= 63);
        assert(pos + 1 + buf[pos] <= end);
        // The label octets are right behind the length octet.
        buf.lemma_slice_of_slice(pos, pos + pb.len() as int, 1, 1 + lb.len() as int);
        assert forall|i: int| 0 <= i < lb.len() implies pb.subrange(1, 1 + lb.len() as int)[i]
            == lb[i] by {
            assert(pb[1 + i] == (seq![lb.len() as u8] + lb + tail)[1 + i]);
            assert((seq![lb.len() as u8] + lb + tail)[1 + i] == lb[i]);
        }
        assert(pb.subrange(1, 1 + lb.len() as int) =~= lb);
        assert(buf.subrange(pos + 1, pos + 1 + lb.len() as int) =~= lb);
        // The rest of the parts encode right behind the label.
        let pos2 = pos + 1 + lb.len() as int;
        buf.lemma_slice_of_slice(pos, pos + pb.len() as int, 1 + lb.len() as int, pb.len() as int);
        assert forall|i: int| 0 <= i < tail.len() implies pb.subrange(
            1 + lb.len() as int,
            pb.len() as int,
        )[i] == tail[i] by {
            assert(pb[1 + lb.len() + i] == (seq![lb.len() as u8] + lb + tail)[1 + lb.len() + i]);
            assert((seq![lb.len() as u8] + lb + tail)[1 + lb.len() + i] == tail[i]);
        }
        assert(pb.subrange(1 + lb.len() as int, pb.len() as int) =~= tail);
        assert(buf.subrange(pos2, pos2 + tail.len() as int) =~= tail);
        lemma_parts_decode(buf, pos2, end, (fuel - 1) as nat, parts.drop_first());
        assert(spec_labels_at(buf, pos, end, fuel) == Some(
            (seq![buf.subrange(pos + 1, pos + 1 + buf[pos])] + parts_bytes(parts.drop_first()),
            pos + pb.len()),
        ));
        assert(seq![buf.subrange(pos + 1, pos + 1 + buf[pos])] + parts_bytes(parts.drop_first())
            =~= parts_bytes(parts));
    }
}

/// The characters the parts' octets stand for are the parts
/// themselves: each part encodes to valid UTF-8, which reads back
/// verbatim.
pub proof fn lemma_parts_chars(parts: Seq<Seq<char>>)
    ensures
        spec_name_of_labels(parts_bytes(parts)) == spec_join_parts(parts),
{
    assert forall|i: int| 0 <= i < parts.len() implies #[trigger] label_chars(
        parts_bytes(parts)[i],
    ) == parts[i] by {
        encode_utf8_valid_utf8(parts[i]);
        encode_utf8_decode_utf8(parts[i]);
    }
    assert(Seq::new(parts_bytes(parts).len(), |i: int| label_chars(parts_bytes(parts)[i]))
        =~= parts);
}

/// Decoding an encoded name gives the name back: at any position
/// where its octets lie, the name reads back as it was written and
/// the cursor stops just past it.
pub proof fn lemma_name_roundtrip(buf: Seq<u8>, pos: int, end: int, s: Seq<char>)
    requires
        spec_name_bytes(s) is Ok,
        0 <= pos,
        pos + spec_name_bytes(s)->Ok_0.len() <= end <= buf.len(),
        buf.subrange(pos, pos + spec_name_bytes(s)->Ok_0.len()) == spec_name_bytes(s)->Ok_0,
    ensures
        spec_name_at(buf, pos, end) == Some((s, pos + spec_name_bytes(s)->Ok_0.len())),
{
    let nb = spec_name_bytes(s)->Ok_0;
    if s.len() == 0 {
        assert(nb == seq![0u8]);
        let parts = Seq::<Seq<char>>::empty();
        assert(spec_encode_parts(parts) == Ok::<Seq<u8>, DnsError>(seq![0u8]));
        lemma_parts_decode(buf, pos, end, buf.len() as nat, parts);
        assert(parts_bytes(parts) =~= Seq::<Seq<u8>>::empty());
        assert(labels_wire_len(Seq::<Seq<u8>>::empty()) == 1);
        assert(spec_name_of_labels(Seq::<Seq<u8>>::empty()) == spec_join_parts(
            Seq::<Seq<char>>::empty(),
        )) by {
            assert(Seq::new(0, |i: int| label_chars(Seq::<Seq<u8>>::empty()[i]))
                =~= Seq::<Seq<char>>::empty());
        }
    } else {
        let parts = split_dots(s);
        assert(spec_encode_parts(parts) == Ok::<Seq<u8>, DnsError>(nb));
        lemma_parts_len(parts);
        lemma_split_nonempty(s);
        lemma_parts_decode(buf, pos, end, buf.len() as nat, parts);
        lemma_parts_chars(parts);
        lemma_join_split(s);
        assert(labels_wire_len(parts_bytes(parts)) == nb.len());
        assert(nb.len() <= 255);
    }
}

/// The left half of an embedded concatenation lies at its start, the
/// right half just behind it.
pub proof fn lemma_concat_embedded(buf: Seq<u8>, pos: int, x: Seq<u8>, y: Seq<u8>)
    requires
        0 <= pos,
        pos + x.len() + y.len() <= buf.len(),
        buf.subrange(pos, pos + x.len() + y.len()) == x + y,
    ensures
        buf.subrange(pos, pos + x.len()) == x,
        buf.subrange(pos + x.len(), pos + x.len() + y.len()) == y,
{
    buf.lemma_slice_of_slice(pos, pos + x.len() + y.len(), 0, x.len() as int);
    buf.lemma_slice_of_slice(pos, pos + x.len() + y.len(), x.len() as int, (x.len() + y.len()) as int);
    assert((x + y).subrange(0, x.len() as int) =~= x);
    assert((x + y).subrange(x.len() as int, (x.len() + y.len()) as int) =~= y);
}

/// A 16-bit value is its two octets put back together.
pub proof fn lemma_u16_roundtrip(v: u16)
    by (bit_vector)
    ensures
        256 * (((v >> 8) as u8) as int) + (((v & 0xff) as u8) as int) == v as int,
{
}

/// A 32-bit value is its four octets put back together.
pub proof fn lemma_u32_roundtrip(v: u32)
    by (bit_vector)
    ensures
        16777216 * ((((v >> 24) & 0xff) as u8) as int) + 65536 * ((((v >> 16) & 0xff) as u8) as int)
            + 256 * ((((v >> 8) & 0xff) as u8) as int) + (((v & 0xff) as u8) as int) == v as int,
{
}

/// A 16-bit word read where a value's two octets lie gives the value.
pub proof fn lemma_u16_embedded(buf: Seq<u8>, p: int, v: u16)
    requires
        0 <= p,
        p + 2 <= buf.len(),
        buf.subrange(p, p + 2) == spec_u16_bytes(v),
    ensures
        spec_u16_at(buf, p) == v,
{
    assert(buf.subrange(p, p + 2)[0] == buf[p]);
    assert(buf.subrange(p, p + 2)[1] == buf[p + 1]);
    assert(spec_u16_bytes(v)[0] == (v >> 8) as u8);
    assert(spec_u16_bytes(v)[1] == (v & 0xff) as u8);
    lemma_u16_roundtrip(v);
}

/// A 32-bit word read where a value's four octets lie gives the value.
pub proof fn lemma_u32_embedded(buf: Seq<u8>, p: int, v: u32)
    requires
        0 <= p,
        p + 4 <= buf.len(),
        buf.subrange(p, p + 4) == spec_u32_bytes(v),
    ensures
        spec_u32_at(buf, p) == v,
{
    assert(buf.subrange(p, p + 4)[0] == buf[p]);
    assert(buf.subrange(p, p + 4)[1] == buf[p + 1]);
    assert(buf.subrange(p, p + 4)[2] == buf[p + 2]);
    assert(buf.subrange(p, p + 4)[3] == buf[p + 3]);
    assert(spec_u32_bytes(v)[0] == ((v >> 24) & 0xff) as u8);
    assert(spec_u32_bytes(v)[1] == ((v >> 16) & 0xff) as u8);
    assert(spec_u32_bytes(v)[2] == ((v >> 8) & 0xff) as u8);
    assert(spec_u32_bytes(v)[3] == (v & 0xff) as u8);
    lemma_u32_roundtrip(v);
}

/// The two octets of a flags word are its halves.
pub proof fn lemma_flags_split(hi: u8, lo: u8)
    by (bit_vector)
    ensures
        (((((hi as u16) << 8) | (lo as u16)) >> 8) as u8) == hi,
        (((((hi as u16) << 8) | (lo as u16)) & 0xff) as u8) == lo,
{
}

/// Every field of the high flag octet reads back.
pub proof fn lemma_flags_high_decode(rd: bool, tc: bool, aa: bool, op: u8, qr: bool)
    by (bit_vector)
    requires
        op < 16,
    ensures
        ({
            let a = (if rd {
                1u8
            } else {
                0u8
            }) | (if tc {
                2u8
            } else {
                0u8
            }) | (if aa {
                4u8
            } else {
                0u8
            }) | (op << 3) | (if qr {
                0x80u8
            } else {
                0u8
            });
            &&& (a & 1 != 0) == rd
            &&& (a & 2 != 0) == tc
            &&& (a & 4 != 0) == aa
            &&& ((a >> 3) & 0x0f) == op
            &&& (a & 0x80 != 0) == qr
        }),
{
}

/// Every field of the low flag octet reads back.
pub proof fn lemma_flags_low_decode(rc: u8, cd: bool, ad: bool, z: bool, ra: bool)
    by (bit_vector)
    requires
        rc <= 15,
    ensures
        ({
            let b = rc | (if cd {
                0x10u8
            } else {
                0u8
            }) | (if ad {
                0x20u8
            } else {
                0u8
            }) | (if z {
                0x40u8
            } else {
                0u8
            }) | (if ra {
                0x80u8
            } else {
                0u8
            });
            &&& (b & 0x0f) == rc
            &&& (b & 0x10 != 0) == cd
            &&& (b & 0x20 != 0) == ad
            &&& (b & 0x40 != 0) == z
            &&& (b & 0x80 != 0) == ra
        }),
{
}

/// A response code survives its wire value.
pub proof fn lemma_rescode_id(r: ResponseCode)
    ensures
        rescode_from_num(rescode_num(r)) == r,
{
}

/// Decoding an encoded header gives the header back, its 4-bit
/// opcode permitting.
pub proof fn lemma_header_roundtrip(buf: Seq<u8>, pos: int, h: DnsHeader)
    requires
        h.opcode < 16,
        0 <= pos,
        pos + 12 <= buf.len(),
        buf.subrange(pos, pos + 12) == spec_header_bytes(h),
    ensures
        spec_header_at(buf, pos) == Some((h, pos + 12)),
{
    let s0 = spec_u16_bytes(h.id);
    let s1 = spec_u16_bytes(spec_flags(h));
    let s2 = spec_u16_bytes(h.questions);
    let s3 = spec_u16_bytes(h.answers);
    let s4 = spec_u16_bytes(h.authoritative_entries);
    let s5 = spec_u16_bytes(h.resource_entries);
    assert(spec_header_bytes(h) =~= s0 + (s1 + (s2 + (s3 + (s4 + s5)))));
    lemma_concat_embedded(buf, pos, s0, s1 + (s2 + (s3 + (s4 + s5))));
    lemma_concat_embedded(buf, pos + 2, s1, s2 + (s3 + (s4 + s5)));
    lemma_concat_embedded(buf, pos + 4, s2, s3 + (s4 + s5));
    lemma_concat_embedded(buf, pos + 6, s3, s4 + s5);
    lemma_concat_embedded(buf, pos + 8, s4, s5);
    lemma_u16_embedded(buf, pos, h.id);
    lemma_u16_embedded(buf, pos + 2, spec_flags(h));
    lemma_u16_embedded(buf, pos + 4, h.questions);
    lemma_u16_embedded(buf, pos + 6, h.answers);
    lemma_u16_embedded(buf, pos + 8, h.authoritative_entries);
    lemma_u16_embedded(buf, pos + 10, h.resource_entries);
    // The flag octets themselves.
    assert(buf.subrange(pos + 2, pos + 4)[0] == buf[pos + 2]);
    assert(buf.subrange(pos + 2, pos + 4)[1] == buf[pos + 3]);
    lemma_flags_split(spec_flags_high(h), spec_flags_low(h));
    assert(buf[pos + 2] == spec_flags_high(h));
    assert(buf[pos + 3] == spec_flags_low(h));
    lemma_flags_high_decode(
        h.recursion_desired,
        h.truncated_message,
        h.authoritative_answer,
        h.opcode,
        h.response,
    );
    lemma_flags_low_decode(
        rescode_num(h.rescode),
        h.checking_disabled,
        h.authed_data,
        h.z,
        h.recursion_available,
    );
    lemma_rescode_id(h.rescode);
    assert(spec_header_fields(buf, pos) == h);
}

/// Decoding an encoded question gives the question back, provided its
/// query type denotes its own wire value.
pub proof fn lemma_question_roundtrip(buf: Seq<u8>, pos: int, q: QuestionV)
    requires
        spec_question_bytes(q) is Ok,
        qtype_from_num(qtype_num(q.qtype)) == q.qtype,
        0 <= pos,
        pos + spec_question_bytes(q)->Ok_0.len() <= buf.len(),
        buf.subrange(pos, pos + spec_question_bytes(q)->Ok_0.len()) == spec_question_bytes(
            q,
        )->Ok_0,
    ensures
        spec_question_at(buf, pos) == Some((q, pos + spec_question_bytes(q)->Ok_0.len())),
{
    let nb = spec_name_bytes(q.name)->Ok_0;
    let t = spec_u16_bytes(qtype_num(q.qtype));
    let c = spec_u16_bytes(1u16);
    assert(spec_question_bytes(q)->Ok_0 =~= nb + (t + c));
    lemma_concat_embedded(buf, pos, nb, t + c);
    lemma_concat_embedded(buf, pos + nb.len(), t, c);
    lemma_name_roundtrip(buf, pos, buf.len() as int, q.name);
    lemma_u16_embedded(buf, pos + nb.len(), qtype_num(q.qtype));
}

/// What the common record preamble reads back as, when a record's
/// octets lie at `pos`: its name, type, TTL and RDLENGTH, with the
/// RDATA octets just behind them.
pub proof fn lemma_preamble_decode(
    buf: Seq<u8>,
    pos: int,
    domain: Seq<char>,
    typenum: u16,
    ttl: u32,
    rdlen16: u16,
    rdata: Seq<u8>,
)
    requires
        spec_name_bytes(domain) is Ok,
        rdata.len() == rdlen16,
        0 <= pos,
        pos + spec_name_bytes(domain)->Ok_0.len() + 10 + rdata.len() <= buf.len(),
        buf.subrange(
            pos,
            pos + spec_name_bytes(domain)->Ok_0.len() + 10 + rdata.len(),
        ) == spec_name_bytes(domain)->Ok_0 + spec_u16_bytes(typenum) + spec_u16_bytes(1u16)
            + spec_u32_bytes(ttl) + spec_u16_bytes(rdlen16) + rdata,
    ensures
        ({
            let nl = spec_name_bytes(domain)->Ok_0.len();
            &&& spec_name_at(buf, pos, buf.len() as int) == Some((domain, pos + nl))
            &&& spec_u16_at(buf, pos + nl) == typenum
            &&& spec_u32_at(buf, pos + nl + 4) == ttl
            &&& spec_u16_at(buf, pos + nl + 8) == rdlen16
            &&& buf.subrange(pos + nl + 10, pos + nl + 10 + rdata.len()) == rdata
        }),
{
    let nb = spec_name_bytes(domain)->Ok_0;
    let t = spec_u16_bytes(typenum);
    let c = spec_u16_bytes(1u16);
    let tt = spec_u32_bytes(ttl);
    let rl = spec_u16_bytes(rdlen16);
    assert(nb + t + c + tt + rl + rdata =~= nb + (t + (c + (tt + (rl + rdata)))));
    lemma_concat_embedded(buf, pos, nb, t + (c + (tt + (rl + rdata))));
    lemma_concat_embedded(buf, pos + nb.len(), t, c + (tt + (rl + rdata)));
    lemma_concat_embedded(buf, pos + nb.len() + 2, c, tt + (rl + rdata));
    lemma_concat_embedded(buf, pos + nb.len() + 4, tt, rl + rdata);
    lemma_concat_embedded(buf, pos + nb.len() + 8, rl, rdata);
    lemma_name_roundtrip(buf, pos, buf.len() as int, domain);
    lemma_u16_embedded(buf, pos + nb.len(), typenum);
    lemma_u32_embedded(buf, pos + nb.len() + 4, ttl);
    lemma_u16_embedded(buf, pos + nb.len() + 8, rdlen16);
}

/// Decoding an encoded A record gives it back.
#[verifier::rlimit(100)]
pub proof fn lemma_record_roundtrip_a(buf: Seq<u8>, pos: int, rec: RecordV)
    requires
        rec is A,
        spec_record_bytes(rec) is Ok,
        0 <= pos,
        pos + spec_record_bytes(rec)->Ok_0.len() <= buf.len(),
        buf.subrange(pos, pos + spec_record_bytes(rec)->Ok_0.len()) == spec_record_bytes(
            rec,
        )->Ok_0,
    ensures
        spec_record_at(buf, pos) == Some((rec, pos + spec_record_bytes(rec)->Ok_0.len())),
{
    let rb = spec_record_bytes(rec)->Ok_0;
    let domain = rec->A_domain;
    let addr = rec->A_addr;
    let ttl = rec->A_ttl;
    let nb = spec_name_bytes(domain)->Ok_0;
    let rdata = seq![addr.o0, addr.o1, addr.o2, addr.o3];
    assert(rb =~= nb + spec_u16_bytes(1u16) + spec_u16_bytes(1u16) + spec_u32_bytes(ttl)
        + spec_u16_bytes(4u16) + rdata);
    lemma_preamble_decode(buf, pos, domain, 1u16, ttl, 4u16, rdata);
    let rstart = pos + nb.len() + 10;
    assert(buf.subrange(rstart, rstart + 4)[0] == buf[rstart]);
    assert(buf.subrange(rstart, rstart + 4)[1] == buf[rstart + 1]);
    assert(buf.subrange(rstart, rstart + 4)[2] == buf[rstart + 2]);
    assert(buf.subrange(rstart, rstart + 4)[3] == buf[rstart + 3]);
    assert(buf[rstart] == addr.o0 && buf[rstart + 1] == addr.o1 && buf[rstart + 2] == addr.o2
        && buf[rstart + 3] == addr.o3);
    assert(spec_record_at(buf, pos) == Some((rec, pos + rb.len())));
}

/// Decoding an encoded NS or CNAME record gives it back.
#[verifier::rlimit(100)]
pub proof fn lemma_record_roundtrip_host(buf: Seq<u8>, pos: int, rec: RecordV)
    requires
        rec is NS || rec is CNAME,
        spec_record_bytes(rec) is Ok,
        0 <= pos,
        pos + spec_record_bytes(rec)->Ok_0.len() <= buf.len(),
        buf.subrange(pos, pos + spec_record_bytes(rec)->Ok_0.len()) == spec_record_bytes(
            rec,
        )->Ok_0,
    ensures
        spec_record_at(buf, pos) == Some((rec, pos + spec_record_bytes(rec)->Ok_0.len())),
{
    let rb = spec_record_bytes(rec)->Ok_0;
    let domain = if rec is NS {
        rec->NS_domain
    } else {
        rec->CNAME_domain
    };
    let host = if rec is NS {
        rec->NS_host
    } else {
        rec->CNAME_host
    };
    let ttl = if rec is NS {
        rec->NS_ttl
    } else {
        rec->CNAME_ttl
    };
    let typenum: u16 = if rec is NS {
        2u16
    } else {
        5u16
    };
    let nb = spec_name_bytes(domain)->Ok_0;
    let hb = spec_name_bytes(host)->Ok_0;
    assert(hb.len() <= 255);
    assert(rb =~= nb + spec_u16_bytes(typenum) + spec_u16_bytes(1u16) + spec_u32_bytes(ttl)
        + spec_u16_bytes(hb.len() as u16) + hb);
    lemma_preamble_decode(buf, pos, domain, typenum, ttl, hb.len() as u16, hb);
    let rstart = pos + nb.len() + 10;
    lemma_name_roundtrip(buf, rstart, rstart + hb.len() as int, host);
    assert(spec_record_at(buf, pos) == Some((rec, pos + rb.len())));
}

/// Decoding an encoded MX record gives it back.
#[verifier::rlimit(100)]
pub proof fn lemma_record_roundtrip_mx(buf: Seq<u8>, pos: int, rec: RecordV)
    requires
        rec is MX,
        spec_record_bytes(rec) is Ok,
        0 <= pos,
        pos + spec_record_bytes(rec)->Ok_0.len() <= buf.len(),
        buf.subrange(pos, pos + spec_record_bytes(rec)->Ok_0.len()) == spec_record_bytes(
            rec,
        )->Ok_0,
    ensures
        spec_record_at(buf, pos) == Some((rec, pos + spec_record_bytes(rec)->Ok_0.len())),
{
    let rb = spec_record_bytes(rec)->Ok_0;
    let domain = rec->MX_domain;
    let priority = rec->MX_priority;
    let host = rec->MX_host;
    let ttl = rec->MX_ttl;
    let nb = spec_name_bytes(domain)->Ok_0;
    let hb = spec_name_bytes(host)->Ok_0;
    assert(hb.len() <= 255);
    let rdata = spec_u16_bytes(priority) + hb;
    assert(rb =~= nb + spec_u16_bytes(15u16) + spec_u16_bytes(1u16) + spec_u32_bytes(ttl)
        + spec_u16_bytes((hb.len() + 2) as u16) + rdata);
    lemma_preamble_decode(buf, pos, domain, 15u16, ttl, (hb.len() + 2) as u16, rdata);
    let rstart = pos + nb.len() + 10;
    lemma_concat_embedded(buf, rstart, spec_u16_bytes(priority), hb);
    lemma_u16_embedded(buf, rstart, priority);
    lemma_name_roundtrip(buf, rstart + 2, rstart + 2 + hb.len() as int, host);
    assert(spec_record_at(buf, pos) == Some((rec, pos + rb.len())));
}

/// Decoding an encoded AAAA record gives it back.
#[verifier::rlimit(100)]
pub proof fn lemma_record_roundtrip_aaaa(buf: Seq<u8>, pos: int, rec: RecordV)
    requires
        rec is AAAA,
        spec_record_bytes(rec) is Ok,
        0 <= pos,
        pos + spec_record_bytes(rec)->Ok_0.len() <= buf.len(),
        buf.subrange(pos, pos + spec_record_bytes(rec)->Ok_0.len()) == spec_record_bytes(
            rec,
        )->Ok_0,
    ensures
        spec_record_at(buf, pos) == Some((rec, pos + spec_record_bytes(rec)->Ok_0.len())),
{
    let rb = spec_record_bytes(rec)->Ok_0;
    let domain = rec->AAAA_domain;
    let addr = rec->AAAA_addr;
    let ttl = rec->AAAA_ttl;
    let nb = spec_name_bytes(domain)->Ok_0;
    let g0 = spec_u16_bytes(addr.s0);
    let g1 = spec_u16_bytes(addr.s1);
    let g2 = spec_u16_bytes(addr.s2);
    let g3 = spec_u16_bytes(addr.s3);
    let g4 = spec_u16_bytes(addr.s4);
    let g5 = spec_u16_bytes(addr.s5);
    let g6 = spec_u16_bytes(addr.s6);
    let g7 = spec_u16_bytes(addr.s7);
    let rdata = g0 + (g1 + (g2 + (g3 + (g4 + (g5 + (g6 + g7))))));
    assert(rb =~= nb + spec_u16_bytes(28u16) + spec_u16_bytes(1u16) + spec_u32_bytes(ttl)
        + spec_u16_bytes(16u16) + rdata);
    lemma_preamble_decode(buf, pos, domain, 28u16, ttl, 16u16, rdata);
    let rstart = pos + nb.len() + 10;
    lemma_concat_embedded(buf, rstart, g0, g1 + (g2 + (g3 + (g4 + (g5 + (g6 + g7))))));
    lemma_concat_embedded(buf, rstart + 2, g1, g2 + (g3 + (g4 + (g5 + (g6 + g7)))));
    lemma_concat_embedded(buf, rstart + 4, g2, g3 + (g4 + (g5 + (g6 + g7))));
    lemma_concat_embedded(buf, rstart + 6, g3, g4 + (g5 + (g6 + g7)));
    lemma_concat_embedded(buf, rstart + 8, g4, g5 + (g6 + g7));
    lemma_concat_embedded(buf, rstart + 10, g5, g6 + g7);
    lemma_concat_embedded(buf, rstart + 12, g6, g7);
    lemma_u16_embedded(buf, rstart, addr.s0);
    lemma_u16_embedded(buf, rstart + 2, addr.s1);
    lemma_u16_embedded(buf, rstart + 4, addr.s2);
    lemma_u16_embedded(buf, rstart + 6, addr.s3);
    lemma_u16_embedded(buf, rstart + 8, addr.s4);
    lemma_u16_embedded(buf, rstart + 10, addr.s5);
    lemma_u16_embedded(buf, rstart + 12, addr.s6);
    lemma_u16_embedded(buf, rstart + 14, addr.s7);
    assert(spec_record_at(buf, pos) == Some((rec, pos + rb.len())));
}

/// Decoding an encoded record gives the record back.  An unknown
/// record encodes to nothing, so it is not spoken of here.
pub proof fn lemma_record_roundtrip(buf: Seq<u8>, pos: int, rec: RecordV)
    requires
        !(rec is UNKNOWN),
        spec_record_bytes(rec) is Ok,
        0 <= pos,
        pos + spec_record_bytes(rec)->Ok_0.len() <= buf.len(),
        buf.subrange(pos, pos + spec_record_bytes(rec)->Ok_0.len()) == spec_record_bytes(
            rec,
        )->Ok_0,
    ensures
        spec_record_at(buf, pos) == Some((rec, pos + spec_record_bytes(rec)->Ok_0.len())),
{
    if rec is A {
        lemma_record_roundtrip_a(buf, pos, rec);
    } else if rec is NS || rec is CNAME {
        lemma_record_roundtrip_host(buf, pos, rec);
    } else if rec is MX {
        lemma_record_roundtrip_mx(buf, pos, rec);
    } else {
        lemma_record_roundtrip_aaaa(buf, pos, rec);
    }
}


/// The questions' encodings, one after another.
pub open spec fn bytes_of_questions(qs: Seq<QuestionV>) -> Seq<u8>
    decreases qs.len(),
{
    if qs.len() == 0 {
        Seq::empty()
    } else {
        spec_question_bytes(qs[0])->Ok_0 + bytes_of_questions(qs.drop_first())
    }
}

/// The records the encoder keeps, in order.
pub open spec fn known_records(rs: Seq<RecordV>) -> Seq<RecordV>
    decreases rs.len(),
{
    if rs.len() == 0 {
        Seq::empty()
    } else if rs[0] is UNKNOWN {
        known_records(rs.drop_first())
    } else {
        seq![rs[0]] + known_records(rs.drop_first())
    }
}

/// The count of kept records is their number.
pub proof fn lemma_known_records_len(rs: Seq<RecordV>)
    ensures
        known_records(rs).len() == spec_count_known(rs),
    decreases rs.len(),
{
    if rs.len() > 0 {
        lemma_known_records_len(rs.drop_first());
    }
}

/// The records' encodings, one after another, unknown records absent.
pub open spec fn bytes_of_records(rs: Seq<RecordV>) -> Seq<u8>
    decreases rs.len(),
{
    if rs.len() == 0 {
        Seq::empty()
    } else if rs[0] is UNKNOWN {
        bytes_of_records(rs.drop_first())
    } else {
        spec_record_bytes(rs[0])->Ok_0 + bytes_of_records(rs.drop_first())
    }
}

/// A question section that encodes appends each question's octets in
/// turn: the state grows by exactly the section's octets, never past
/// the buffer, with every question's own encoding succeeding.
pub proof fn lemma_fold_q_flat(cur: Seq<u8>, qs: Seq<QuestionV>)
    requires
        cur.len() <= 512,
        spec_write_questions(Ok(cur), qs) is Ok,
    ensures
        forall|i: int| 0 <= i < qs.len() ==> (#[trigger] spec_question_bytes(qs[i])) is Ok,
        spec_write_questions(Ok(cur), qs)->Ok_0 == cur + bytes_of_questions(qs),
        spec_write_questions(Ok(cur), qs)->Ok_0.len() <= 512,
    decreases qs.len(),
{
    if qs.len() == 0 {
        assert(cur + bytes_of_questions(qs) =~= cur);
    } else {
        let st1 = spec_put_r(Ok(cur), spec_question_bytes(qs[0]));
        if st1 is Err {
            lemma_write_questions_err(st1->Err_0, qs.drop_first());
            assert(false);
        }
        let qb0 = spec_question_bytes(qs[0])->Ok_0;
        assert(st1 == Ok::<Seq<u8>, DnsError>(cur + qb0));
        lemma_fold_q_flat(cur + qb0, qs.drop_first());
        assert(forall|i: int|
            1 <= i < qs.len() ==> qs.drop_first()[i - 1] == #[trigger] qs[i]);
        assert(cur + qb0 + bytes_of_questions(qs.drop_first()) =~= cur + (qb0
            + bytes_of_questions(qs.drop_first())));
    }
}

/// A record section that encodes appends each kept record's octets in
/// turn.
pub proof fn lemma_fold_r_flat(cur: Seq<u8>, rs: Seq<RecordV>)
    requires
        cur.len() <= 512,
        spec_write_records(Ok(cur), rs) is Ok,
    ensures
        forall|i: int|
            0 <= i < rs.len() && !(rs[i] is UNKNOWN) ==> (#[trigger] spec_record_bytes(rs[i]))
                is Ok,
        spec_write_records(Ok(cur), rs)->Ok_0 == cur + bytes_of_records(rs),
        spec_write_records(Ok(cur), rs)->Ok_0.len() <= 512,
    decreases rs.len(),
{
    if rs.len() == 0 {
        assert(cur + bytes_of_records(rs) =~= cur);
    } else {
        let st1 = spec_put_r(Ok(cur), spec_record_bytes(rs[0]));
        if st1 is Err {
            lemma_write_records_err(st1->Err_0, rs.drop_first());
            assert(false);
        }
        let rb0 = spec_record_bytes(rs[0])->Ok_0;
        if rs[0] is UNKNOWN {
            assert(rb0 =~= Seq::<u8>::empty());
            assert(cur + rb0 =~= cur);
            assert(st1 == Ok::<Seq<u8>, DnsError>(cur));
            lemma_fold_r_flat(cur, rs.drop_first());
        } else {
            assert(st1 == Ok::<Seq<u8>, DnsError>(cur + rb0));
            lemma_fold_r_flat(cur + rb0, rs.drop_first());
            assert(cur + rb0 + bytes_of_records(rs.drop_first()) =~= cur + (rb0
                + bytes_of_records(rs.drop_first())));
        }
        assert(forall|i: int|
            1 <= i < rs.len() ==> rs.drop_first()[i - 1] == #[trigger] rs[i]);
    }
}

/// A question section's octets, laid out anywhere in a message, read
/// back as the questions themselves.
pub proof fn lemma_questions_at_of_bytes(buf: Seq<u8>, pos: int, qs: Seq<QuestionV>)
    requires
        forall|i: int|
            0 <= i < qs.len() ==> qtype_from_num(
                qtype_num(#[trigger] qs[i].qtype),
            ) == qs[i].qtype,
        forall|i: int| 0 <= i < qs.len() ==> (#[trigger] spec_question_bytes(qs[i])) is Ok,
        0 <= pos,
        pos + bytes_of_questions(qs).len() <= buf.len(),
        buf.subrange(pos, pos + bytes_of_questions(qs).len()) == bytes_of_questions(qs),
    ensures
        spec_questions_at(buf, pos, qs.len() as int) == Some(
            (qs, pos + bytes_of_questions(qs).len()),
        ),
    decreases qs.len(),
{
    if qs.len() == 0 {
        assert(qs =~= Seq::<QuestionV>::empty());
    } else {
        let qb0 = spec_question_bytes(qs[0])->Ok_0;
        let rest = bytes_of_questions(qs.drop_first());
        lemma_concat_embedded(buf, pos, qb0, rest);
        lemma_question_roundtrip(buf, pos, qs[0]);
        assert(forall|i: int|
            1 <= i < qs.len() ==> qs.drop_first()[i - 1] == #[trigger] qs[i]);
        lemma_questions_at_of_bytes(buf, pos + qb0.len(), qs.drop_first());
        assert(seq![qs[0]] + qs.drop_first() =~= qs);
    }
}

/// A record section's octets, laid out anywhere in a message, read
/// back as the kept records.
pub proof fn lemma_records_at_of_bytes(buf: Seq<u8>, pos: int, rs: Seq<RecordV>)
    requires
        forall|i: int|
            0 <= i < rs.len() && !(rs[i] is UNKNOWN) ==> (#[trigger] spec_record_bytes(rs[i]))
                is Ok,
        0 <= pos,
        pos + bytes_of_records(rs).len() <= buf.len(),
        buf.subrange(pos, pos + bytes_of_records(rs).len()) == bytes_of_records(rs),
    ensures
        spec_records_at(buf, pos, known_records(rs).len() as int) == Some(
            (known_records(rs), pos + bytes_of_records(rs).len()),
        ),
    decreases rs.len(),
{
    if rs.len() == 0 {
    } else {
        assert(forall|i: int|
            1 <= i < rs.len() ==> rs.drop_first()[i - 1] == #[trigger] rs[i]);
        if rs[0] is UNKNOWN {
            lemma_records_at_of_bytes(buf, pos, rs.drop_first());
        } else {
            let rb0 = spec_record_bytes(rs[0])->Ok_0;
            let rest = bytes_of_records(rs.drop_first());
            lemma_concat_embedded(buf, pos, rb0, rest);
            lemma_record_roundtrip(buf, pos, rs[0]);
            lemma_records_at_of_bytes(buf, pos + rb0.len(), rs.drop_first());
            assert(known_records(rs).len() == 1 + known_records(rs.drop_first()).len());
            assert(known_records(rs)[0] == rs[0]);
            assert(known_records(rs).drop_first() =~= known_records(rs.drop_first()));
            assert(seq![rs[0]] + known_records(rs.drop_first()) =~= known_records(rs));
        }
    }
}

/// A packet's header after encoding: the counts are the entries of
/// the sections as written; everything else stands.  Unknown records
/// are left aside.
pub open spec fn spec_normalized(p: PacketV) -> PacketV {
    PacketV {
        header: spec_counted_header(p),
        questions: p.questions,
        answers: known_records(p.answers),
        authorities: known_records(p.authorities),
        resources: known_records(p.resources),
    }
}

/// When a packet encodes, every stage of the fold succeeds.
#[verifier::rlimit(100)]
#[verifier::spinoff_prover]
pub proof fn lemma_encode_states_ok(p: PacketV)
    requires
        spec_encode_packet(p) is Ok,
    ensures
        ({
            let st0 = Ok::<Seq<u8>, DnsError>(spec_header_bytes(spec_counted_header(p)));
            let st1 = spec_write_questions(st0, p.questions);
            let st2 = spec_write_records(st1, p.answers);
            let st3 = spec_write_records(st2, p.authorities);
            &&& st1 is Ok
            &&& st2 is Ok
            &&& st3 is Ok
            &&& spec_write_records(st3, p.resources) == spec_encode_packet(p)
        }),
        p.questions.len() <= 0xffff,
        spec_count_known(p.answers) <= 0xffff,
        spec_count_known(p.authorities) <= 0xffff,
        spec_count_known(p.resources) <= 0xffff,
{
    let st0 = Ok::<Seq<u8>, DnsError>(spec_header_bytes(spec_counted_header(p)));
    let st1 = spec_write_questions(st0, p.questions);
    if st1 is Err {
        lemma_write_records_err(st1->Err_0, p.answers);
        lemma_write_records_err(st1->Err_0, p.authorities);
        lemma_write_records_err(st1->Err_0, p.resources);
        assert(false);
    }
    let st2 = spec_write_records(st1, p.answers);
    if st2 is Err {
        lemma_write_records_err(st2->Err_0, p.authorities);
        lemma_write_records_err(st2->Err_0, p.resources);
        assert(false);
    }
    let st3 = spec_write_records(st2, p.authorities);
    if st3 is Err {
        lemma_write_records_err(st3->Err_0, p.resources);
        assert(false);
    }
}

/// After the questions, the state holds the header octets and the
/// question section's octets.
#[verifier::rlimit(100)]
#[verifier::spinoff_prover]
pub proof fn lemma_section_questions(p: PacketV)
    requires
        spec_encode_packet(p) is Ok,
    ensures
        forall|i: int|
            0 <= i < p.questions.len() ==> (#[trigger] spec_question_bytes(p.questions[i])) is Ok,
        spec_write_questions(
            Ok(spec_header_bytes(spec_counted_header(p))),
            p.questions,
        ) == Ok::<Seq<u8>, DnsError>(
            spec_header_bytes(spec_counted_header(p)) + bytes_of_questions(p.questions),
        ),
        spec_header_bytes(spec_counted_header(p)).len() + bytes_of_questions(
            p.questions,
        ).len() <= 512,
{
    lemma_encode_states_ok(p);
    let hb = spec_header_bytes(spec_counted_header(p));
    assert(hb.len() == 12);
    lemma_fold_q_flat(hb, p.questions);
}

/// After the answers, the state has grown by the answer section's
/// octets.
#[verifier::rlimit(100)]
#[verifier::spinoff_prover]
pub proof fn lemma_section_answers(p: PacketV)
    requires
        spec_encode_packet(p) is Ok,
    ensures
        forall|i: int|
            0 <= i < p.answers.len() && !(p.answers[i] is UNKNOWN) ==> (
            #[trigger] spec_record_bytes(p.answers[i])) is Ok,
        spec_write_records(
            spec_write_questions(Ok(spec_header_bytes(spec_counted_header(p))), p.questions),
            p.answers,
        ) == Ok::<Seq<u8>, DnsError>(
            spec_header_bytes(spec_counted_header(p)) + bytes_of_questions(p.questions)
                + bytes_of_records(p.answers),
        ),
        spec_header_bytes(spec_counted_header(p)).len() + bytes_of_questions(p.questions).len()
            + bytes_of_records(p.answers).len() <= 512,
{
    lemma_encode_states_ok(p);
    lemma_section_questions(p);
    let hb = spec_header_bytes(spec_counted_header(p));
    let qb = bytes_of_questions(p.questions);
    lemma_fold_r_flat(hb + qb, p.answers);
}

/// After the authorities, the state has grown by that section's
/// octets.
#[verifier::rlimit(100)]
#[verifier::spinoff_prover]
pub proof fn lemma_section_authorities(p: PacketV)
    requires
        spec_encode_packet(p) is Ok,
    ensures
        forall|i: int|
            0 <= i < p.authorities.len() && !(p.authorities[i] is UNKNOWN) ==> (
            #[trigger] spec_record_bytes(p.authorities[i])) is Ok,
        spec_write_records(
            spec_write_records(
                spec_write_questions(Ok(spec_header_bytes(spec_counted_header(p))), p.questions),
                p.answers,
            ),
            p.authorities,
        ) == Ok::<Seq<u8>, DnsError>(
            spec_header_bytes(spec_counted_header(p)) + bytes_of_questions(p.questions)
                + bytes_of_records(p.answers) + bytes_of_records(p.authorities),
        ),
        spec_header_bytes(spec_counted_header(p)).len() + bytes_of_questions(p.questions).len()
            + bytes_of_records(p.answers).len() + bytes_of_records(p.authorities).len() <= 512,
{
    lemma_encode_states_ok(p);
    lemma_section_answers(p);
    let hb = spec_header_bytes(spec_counted_header(p));
    let qb = bytes_of_questions(p.questions);
    let ab = bytes_of_records(p.answers);
    lemma_fold_r_flat(hb + qb + ab, p.authorities);
}

/// After the additional records, the state holds the whole message.
#[verifier::rlimit(100)]
#[verifier::spinoff_prover]
pub proof fn lemma_section_resources(p: PacketV)
    requires
        spec_encode_packet(p) is Ok,
    ensures
        forall|i: int|
            0 <= i < p.resources.len() && !(p.resources[i] is UNKNOWN) ==> (
            #[trigger] spec_record_bytes(p.resources[i])) is Ok,
        spec_encode_packet(p)->Ok_0 == spec_header_bytes(spec_counted_header(p))
            + bytes_of_questions(p.questions) + bytes_of_records(p.answers) + bytes_of_records(
            p.authorities,
        ) + bytes_of_records(p.resources),
        spec_encode_packet(p)->Ok_0.len() <= 512,
{
    lemma_encode_states_ok(p);
    lemma_section_authorities(p);
    let hb = spec_header_bytes(spec_counted_header(p));
    let qb = bytes_of_questions(p.questions);
    let ab = bytes_of_records(p.answers);
    let nb2 = bytes_of_records(p.authorities);
    lemma_fold_r_flat(hb + qb + ab + nb2, p.resources);
}

/// A buffer laid out as a header and four well-formed sections
/// decodes to exactly those sections under that header.
#[verifier::rlimit(100)]
#[verifier::spinoff_prover]
pub proof fn lemma_decode_sections(
    bytes: Seq<u8>,
    h: DnsHeader,
    qs: Seq<QuestionV>,
    answers: Seq<RecordV>,
    authorities: Seq<RecordV>,
    resources: Seq<RecordV>,
)
    requires
        h.opcode < 16,
        forall|i: int|
            0 <= i < qs.len() ==> qtype_from_num(qtype_num(#[trigger] qs[i].qtype)) == qs[i].qtype,
        forall|i: int| 0 <= i < qs.len() ==> (#[trigger] spec_question_bytes(qs[i])) is Ok,
        forall|i: int|
            0 <= i < answers.len() && !(answers[i] is UNKNOWN) ==> (#[trigger] spec_record_bytes(
                answers[i],
            )) is Ok,
        forall|i: int|
            0 <= i < authorities.len() && !(authorities[i] is UNKNOWN) ==> (
            #[trigger] spec_record_bytes(authorities[i])) is Ok,
        forall|i: int|
            0 <= i < resources.len() && !(resources[i] is UNKNOWN) ==> (
            #[trigger] spec_record_bytes(resources[i])) is Ok,
        bytes == spec_header_bytes(h) + bytes_of_questions(qs) + bytes_of_records(answers)
            + bytes_of_records(authorities) + bytes_of_records(resources),
        bytes.len() <= 512,
        h.questions as int == qs.len(),
        h.answers as int == known_records(answers).len(),
        h.authoritative_entries as int == known_records(authorities).len(),
        h.resource_entries as int == known_records(resources).len(),
    ensures
        spec_packet(bytes) == Some(
            PacketV {
                header: h,
                questions: qs,
                answers: known_records(answers),
                authorities: known_records(authorities),
                resources: known_records(resources),
            },
        ),
{
    let hb = spec_header_bytes(h);
    let qb = bytes_of_questions(qs);
    let ab = bytes_of_records(answers);
    let nb2 = bytes_of_records(authorities);
    let rb2 = bytes_of_records(resources);
    assert(hb.len() == 12);
    assert(bytes =~= hb + (qb + (ab + (nb2 + rb2))));
    assert(bytes.subrange(0, bytes.len() as int) =~= bytes);
    lemma_concat_embedded(bytes, 0, hb, qb + (ab + (nb2 + rb2)));
    lemma_concat_embedded(bytes, 12, qb, ab + (nb2 + rb2));
    lemma_concat_embedded(bytes, 12 + qb.len() as int, ab, nb2 + rb2);
    lemma_concat_embedded(bytes, 12 + qb.len() as int + ab.len() as int, nb2, rb2);
    lemma_header_roundtrip(bytes, 0, h);
    lemma_questions_at_of_bytes(bytes, 12, qs);
    lemma_records_at_of_bytes(bytes, 12 + qb.len() as int, answers);
    lemma_records_at_of_bytes(bytes, 12 + qb.len() as int + ab.len() as int, authorities);
    lemma_records_at_of_bytes(
        bytes,
        12 + qb.len() as int + ab.len() as int + nb2.len() as int,
        resources,
    );
}

/// The round-trip law: decoding an encoded message gives the message
/// back, up to the QCLASS the wire normalizes, the counts the encoder
/// sets from its sections, and the unknown records it drops.  The
/// header's opcode must fit its four wire bits, and each question's
/// query type must denote its own wire value.
#[verifier::rlimit(100)]
#[verifier::spinoff_prover]
pub proof fn lemma_round_trip(p: PacketV)
    requires
        spec_encode_packet(p) is Ok,
        p.header.opcode < 16,
        forall|i: int|
            0 <= i < p.questions.len() ==> qtype_from_num(
                qtype_num(#[trigger] p.questions[i].qtype),
            ) == p.questions[i].qtype,
    ensures
        spec_packet(spec_encode_packet(p)->Ok_0) == Some(spec_normalized(p)),
{
    let h = spec_counted_header(p);
    let bytes = spec_encode_packet(p)->Ok_0;
    lemma_encode_states_ok(p);
    lemma_section_questions(p);
    lemma_section_answers(p);
    lemma_section_authorities(p);
    lemma_section_resources(p);
    lemma_known_records_len(p.answers);
    lemma_known_records_len(p.authorities);
    lemma_known_records_len(p.resources);
    lemma_count_known_nonneg(p.answers);
    lemma_count_known_nonneg(p.authorities);
    lemma_count_known_nonneg(p.resources);
    assert(h.questions as int == p.questions.len());
    assert(h.answers as int == known_records(p.answers).len());
    assert(h.authoritative_entries as int == known_records(p.authorities).len());
    assert(h.resource_entries as int == known_records(p.resources).len());
    lemma_decode_sections(bytes, h, p.questions, p.answers, p.authorities, p.resources);
}

/// The compression-tolerance law: what a wire buffer decodes to
/// depends only on the logical message it denotes.  Two encodings of
/// one message, whatever pointers each uses, decode alike.
pub proof fn lemma_compression_tolerance(b1: Seq<u8>, b2: Seq<u8>)
    requires
        spec_packet(b1) is Some,
        spec_packet(b1) == spec_packet(b2),
    ensures
        spec_packet(b2) is Some,
        spec_packet(b1)->0 == spec_packet(b2)->0,
{
}

/// The count-consistency law: after a decode, each section holds
/// exactly as many entries as the header's count for it.
pub proof fn lemma_count_consistency(buf: Seq<u8>)
    requires
        spec_packet(buf) is Some,
    ensures
        ({
            let p = spec_packet(buf)->0;
            &&& p.questions.len() == p.header.questions
            &&& p.answers.len() == p.header.answers
            &&& p.authorities.len() == p.header.authoritative_entries
            &&& p.resources.len() == p.header.resource_entries
        }),
{
    let (h, p0) = spec_header_at(buf, 0)->0;
    crate::parser::lemma_questions_len(buf, p0, h.questions as int);
    let p1 = (spec_questions_at(buf, p0, h.questions as int)->0).1;
    crate::parser::lemma_records_len(buf, p1, h.answers as int);
    let p2 = (spec_records_at(buf, p1, h.answers as int)->0).1;
    crate::parser::lemma_records_len(buf, p2, h.authoritative_entries as int);
    let p3 = (spec_records_at(buf, p2, h.authoritative_entries as int)->0).1;
    crate::parser::lemma_records_len(buf, p3, h.resource_entries as int);
}

/// The name-bounds law, encode side: a name with a label of more than
/// 63 octets, or whose whole encoding passes 255 octets, is rejected;
/// an accepted name's encoding keeps both bounds.
pub proof fn lemma_name_bounds_encode(s: Seq<char>)
    ensures
        spec_name_bytes(s) is Ok ==> spec_name_bytes(s)->Ok_0.len() <= 255,
        s.len() > 0 && (exists|i: int|
            0 <= i < split_dots(s).len() && encode_utf8(#[trigger] split_dots(s)[i]).len() > 63)
            ==> spec_name_bytes(s) is Err,
{
    if s.len() > 0 && (exists|i: int|
        0 <= i < split_dots(s).len() && encode_utf8(#[trigger] split_dots(s)[i]).len() > 63) {
        let i = choose|i: int|
            0 <= i < split_dots(s).len() && encode_utf8(#[trigger] split_dots(s)[i]).len() > 63;
        lemma_encode_parts_bad_label(split_dots(s), i);
    }
}

/// A part list holding an oversized label does not encode.
pub proof fn lemma_encode_parts_bad_label(parts: Seq<Seq<char>>, i: int)
    requires
        0 <= i < parts.len(),
        encode_utf8(parts[i]).len() > 63,
    ensures
        spec_encode_parts(parts) is Err,
    decreases parts.len(),
{
    let lb = encode_utf8(parts[0]);
    if lb.len() == 0 || lb.len() > 63 {
    } else {
        lemma_encode_parts_bad_label(parts.drop_first(), i - 1);
    }
}

/// The name-bounds law, decode side: a wire name whose uncompressed
/// expansion would pass 255 octets is rejected.
pub proof fn lemma_name_bounds_decode(buf: Seq<u8>, pos: int, end: int)
    ensures
        spec_name_at(buf, pos, end) is Some ==> labels_wire_len(
            (spec_labels_at(buf, pos, end, buf.len() as nat)->0).0,
        ) <= 255,
{
}

/// A name whose first item is a pointer aimed at itself never
/// terminates: its labels cannot be read, whatever fuel the reader
/// holds.
pub proof fn lemma_pointer_loop_labels(buf: Seq<u8>, p: int, end: int, fuel: nat)
    requires
        0 <= p,
        p + 2 <= buf.len(),
        buf[p] >= 0xc0,
        (buf[p] as int - 0xc0) * 256 + buf[p + 1] as int == p,
    ensures
        spec_labels_at(buf, p, end, fuel) is None,
    decreases fuel,
{
    if fuel > 0 && 0 <= p < end && end <= buf.len() && p + 2 <= end {
        lemma_pointer_loop_labels(buf, p, buf.len() as int, (fuel - 1) as nat);
    }
}

/// The pointer-loop law: a name whose first item is a pointer aimed
/// at itself is rejected.
pub proof fn lemma_pointer_loop_rejected(buf: Seq<u8>, p: int, end: int)
    requires
        0 <= p,
        p + 2 <= buf.len(),
        buf[p] >= 0xc0,
        (buf[p] as int - 0xc0) * 256 + buf[p + 1] as int == p,
    ensures
        spec_name_at(buf, p, end) is None,
{
    lemma_pointer_loop_labels(buf, p, end, buf.len() as nat);
}

} // verus!
