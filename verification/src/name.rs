//! The wire model of domain names.
//!
//! On the wire a name is a sequence of items of two kinds: an inline
//! label (a length octet 1..=63 followed by that many octets) and a
//! pointer (two octets whose high two bits are set, whose remaining 14
//! bits give the absolute offset where decoding continues).  A zero
//! octet terminates the sequence.  In memory a name is the dotted form
//! of its labels, each label decoded as UTF-8 with replacement.

use vstd::prelude::*;
#[allow(unused_imports)]
use vstd::utf8::*;

use crate::types::DnsError;

verus! {

/// What `String::from_utf8_lossy` returns on bytes that are not valid
/// UTF-8: a function of the bytes alone.
pub uninterp spec fn lossy_chars(bytes: Seq<u8>) -> Seq<char>;

/// The characters a label's octets stand for: valid UTF-8 is read
/// verbatim, anything else through the replacement decoding.
pub open spec fn label_chars(bytes: Seq<u8>) -> Seq<char> {
    if valid_utf8(bytes) {
        decode_utf8(bytes)
    } else {
        lossy_chars(bytes)
    }
}

/// Relies on `String::from_utf8_lossy`: valid UTF-8 converts verbatim,
/// and on other input the result, with replacement characters, depends
/// on the bytes alone.
#[verifier::external_body]
fn utf8_lossy(bytes: &[u8]) -> (r: String)
    ensures
        valid_utf8(bytes@) ==> r@ == decode_utf8(bytes@),
        !valid_utf8(bytes@) ==> r@ == lossy_chars(bytes@),
{
    String::from_utf8_lossy(bytes).into_owned()
}

/// The label sequence denoted by the wire name at `pos`, together with
/// the position just past the name as it appears at `pos`, or `None`
/// where the name is malformed or its chain of items outruns `fuel`.
///
/// Inline items may not reach past `end`; a pointer target is read
/// against the whole message again.
pub open spec fn spec_labels_at(buf: Seq<u8>, pos: int, end: int, fuel: nat) -> Option<
    (Seq<Seq<u8>>, int),
>
    decreases fuel,
{
    if fuel == 0 {
        None
    } else if !(0 <= pos < end && end <= buf.len()) {
        None
    } else {
        let b = buf[pos];
        if b == 0 {
            Some((Seq::empty(), pos + 1))
        } else if b >= 0xc0 {
            if pos + 2 <= end {
                let off = (b as int - 0xc0) * 256 + buf[pos + 1] as int;
                match spec_labels_at(buf, off, buf.len() as int, (fuel - 1) as nat) {
                    Some((labels, _)) => Some((labels, pos + 2)),
                    None => None,
                }
            } else {
                None
            }
        } else if b <= 63 {
            if pos + 1 + b <= end {
                match spec_labels_at(buf, pos + 1 + b, end, (fuel - 1) as nat) {
                    Some((labels, e)) => Some(
                        (seq![buf.subrange(pos + 1, pos + 1 + b)] + labels, e),
                    ),
                    None => None,
                }
            } else {
                None
            }
        } else {
            None
        }
    }
}

/// The byte sequences held by a vector of labels.
pub open spec fn labels_view(labels: Seq<Vec<u8>>) -> Seq<Seq<u8>> {
    Seq::new(labels.len(), |i: int| labels[i]@)
}

/// The octets an uncompressed encoding of these labels occupies: one
/// length octet per label plus the terminator.
pub open spec fn labels_wire_len(labels: Seq<Seq<u8>>) -> int
    decreases labels.len(),
{
    if labels.len() == 0 {
        1
    } else {
        1 + labels[0].len() + labels_wire_len(labels.drop_first())
    }
}

/// Parts joined by single dots.
pub open spec fn spec_join_parts(parts: Seq<Seq<char>>) -> Seq<char>
    decreases parts.len(),
{
    if parts.len() == 0 {
        Seq::empty()
    } else if parts.len() == 1 {
        parts[0]
    } else {
        parts[0] + seq!['.'] + spec_join_parts(parts.drop_first())
    }
}

/// The dotted in-memory form of a label sequence.
pub open spec fn spec_name_of_labels(labels: Seq<Seq<u8>>) -> Seq<char> {
    spec_join_parts(Seq::new(labels.len(), |i: int| label_chars(labels[i])))
}

/// The decoded name at `pos`: its dotted form and the position just
/// past it, or `None` where the wire name is malformed, loops, or
/// expands past the 255-octet name bound.
pub open spec fn spec_name_at(buf: Seq<u8>, pos: int, end: int) -> Option<(Seq<char>, int)> {
    match spec_labels_at(buf, pos, end, buf.len() as nat) {
        Some((labels, e)) => if labels_wire_len(labels) <= 255 {
            Some((spec_name_of_labels(labels), e))
        } else {
            None
        },
        None => None,
    }
}

/// A label sequence occupies at least its terminating octet.
pub proof fn lemma_wire_len_at_least_one(labels: Seq<Seq<u8>>)
    ensures
        labels_wire_len(labels) >= 1,
    decreases labels.len(),
{
    if labels.len() > 0 {
        lemma_wire_len_at_least_one(labels.drop_first());
    }
}

/// The wire length of a label sequence splits at any index, the two
/// halves sharing one terminator.
pub proof fn lemma_wire_len_split(labels: Seq<Seq<u8>>, i: int)
    requires
        0 <= i <= labels.len(),
    ensures
        labels_wire_len(labels) == labels_wire_len(labels.take(i)) - 1 + labels_wire_len(
            labels.skip(i),
        ),
    decreases i,
{
    if i == 0 {
        assert(labels.take(0) =~= Seq::<Seq<u8>>::empty());
        assert(labels.skip(0) =~= labels);
    } else {
        assert(labels.take(i).drop_first() =~= labels.drop_first().take(i - 1));
        assert(labels.skip(i) =~= labels.drop_first().skip(i - 1));
        assert(labels.take(i)[0] == labels[0]);
        assert(labels.take(i).len() == i);
        lemma_wire_len_split(labels.drop_first(), i - 1);
    }
}

/// Reads the label sequence of the wire name at `pos`, following
/// pointers, burning one unit of fuel per item so that a pointer loop
/// is rejected rather than followed forever.
fn read_labels(buf: &[u8], pos: usize, end: usize, fuel: usize) -> (r: Result<
    (Vec<Vec<u8>>, usize),
    DnsError,
>)
    requires
        end <= buf@.len(),
    ensures
        ({
            let s = spec_labels_at(buf@, pos as int, end as int, fuel as nat);
            &&& (r is Ok <==> s is Some)
            &&& (r is Ok ==> labels_view(r->Ok_0.0@) == s->Some_0.0)
            &&& (r is Ok ==> r->Ok_0.1 == s->Some_0.1)
            &&& (r is Err ==> r->Err_0 == DnsError::FormatError)
        }),
    decreases fuel,
{
    if fuel == 0 {
        return Err(DnsError::FormatError);
    }
    if pos >= end {
        return Err(DnsError::FormatError);
    }
    let b = buf[pos];
    if b == 0 {
        let labels: Vec<Vec<u8>> = Vec::new();
        assert(labels_view(labels@) =~= Seq::<Seq<u8>>::empty());
        Ok((labels, pos + 1))
    } else if b >= 0xc0 {
        if end - pos >= 2 {
            let off: usize = (b as usize - 0xc0) * 256 + buf[pos + 1] as usize;
            match read_labels(buf, off, buf.len(), fuel - 1) {
                Ok((labels, _)) => Ok((labels, pos + 2)),
                Err(e) => Err(e),
            }
        } else {
            Err(DnsError::FormatError)
        }
    } else if b <= 63 {
        let blen: usize = b as usize;
        if end - (pos + 1) >= blen {
            let mut label: Vec<u8> = Vec::new();
            let mut i: usize = 0;
            while i < blen
                invariant
                    pos + 1 + blen <= end <= buf@.len(),
                    i <= blen,
                    label@ =~= buf@.subrange(pos + 1, pos + 1 + i),
                decreases blen - i,
            {
                label.push(buf[pos + 1 + i]);
                i = i + 1;
            }
            assert(label@ =~= buf@.subrange(pos + 1, pos + 1 + b));
            match read_labels(buf, pos + 1 + blen, end, fuel - 1) {
                Ok((tail, e)) => {
                    let mut labels = tail;
                    labels.insert(0, label);
                    proof {
                        let s = spec_labels_at(
                            buf@,
                            pos + 1 + blen,
                            end as int,
                            (fuel - 1) as nat,
                        );
                        assert(labels_view(labels@) =~= seq![label@] + s->Some_0.0);
                    }
                    Ok((labels, e))
                },
                Err(e) => Err(e),
            }
        } else {
            Err(DnsError::FormatError)
        }
    } else {
        Err(DnsError::FormatError)
    }
}

/// Decodes the domain name at `pos`, expanding pointers against the
/// whole buffer.  On success the returned position is just past the
/// name as it appears at `pos`; pointers followed during expansion do
/// not move it.
pub fn domain_name(buf: &[u8], pos: usize) -> (r: Result<(String, usize), DnsError>)
    ensures
        ({
            let s = spec_name_at(buf@, pos as int, buf@.len() as int);
            &&& (r is Ok <==> s is Some)
            &&& (r is Ok ==> r->Ok_0.0@ == s->Some_0.0)
            &&& (r is Ok ==> r->Ok_0.1 == s->Some_0.1)
            &&& (r is Err ==> r->Err_0 == DnsError::FormatError)
        }),
{
    read_name(buf, pos, buf.len())
}

/// Decodes the name at `pos` whose inline items must lie before `end`;
/// pointer targets may still lead anywhere in the buffer.
#[verifier::loop_isolation(false)]
pub(crate) fn read_name(buf: &[u8], pos: usize, end: usize) -> (r: Result<
    (String, usize),
    DnsError,
>)
    requires
        end <= buf@.len(),
    ensures
        ({
            let s = spec_name_at(buf@, pos as int, end as int);
            &&& (r is Ok <==> s is Some)
            &&& (r is Ok ==> r->Ok_0.0@ == s->Some_0.0)
            &&& (r is Ok ==> r->Ok_0.1 == s->Some_0.1)
            &&& (r is Err ==> r->Err_0 == DnsError::FormatError)
        }),
{
    let (labels, endpos) = match read_labels(buf, pos, end, buf.len()) {
        Ok(x) => x,
        Err(e) => {
            return Err(e);
        },
    };
    let ghost lv = labels_view(labels@);
    // Reject a name whose uncompressed form would exceed 255 octets.
    let mut total: usize = 1;
    let mut i: usize = 0;
    while i < labels.len()
        invariant
            i <= labels@.len(),
            lv == labels_view(labels@),
            total == labels_wire_len(lv.take(i as int)),
            total <= 255,
        decreases labels@.len() - i,
    {
        let llen: usize = labels[i].len();
        proof {
            lemma_wire_len_split(lv, i as int);
            assert(lv.skip(i as int)[0] == lv[i as int]);
            assert(lv.skip(i as int).drop_first() =~= lv.skip(i + 1));
            lemma_wire_len_at_least_one(lv.skip(i + 1));
            lemma_wire_len_at_least_one(lv.take(i as int));
        }
        if llen >= 256 || total + 1 + llen > 255 {
            proof {
                lemma_wire_len_split(lv, i + 1);
                lemma_wire_len_push(lv.take(i as int), lv[i as int]);
                assert(lv.take(i + 1) =~= lv.take(i as int).push(lv[i as int]));
            }
            return Err(DnsError::FormatError);
        }
        total = total + 1 + llen;
        proof {
            lemma_wire_len_push(lv.take(i as int), lv[i as int]);
            assert(lv.take(i + 1) =~= lv.take(i as int).push(lv[i as int]));
        }
        i = i + 1;
    }
    proof {
        assert(lv.take(labels@.len() as int) =~= lv);
    }
    // Expand each label and join with dots.
    let mut parts: Vec<String> = Vec::new();
    let mut j: usize = 0;
    while j < labels.len()
        invariant
            j <= labels@.len(),
            lv == labels_view(labels@),
            parts@.len() == j,
            forall|k: int| 0 <= k < j ==> parts@[k]@ == label_chars(lv[k]),
        decreases labels@.len() - j,
    {
        let part = utf8_lossy(labels[j].as_slice());
        parts.push(part);
        j = j + 1;
    }
    let ghost pv = parts@;
    let name = crate::utils::isperse(parts);
    proof {
        assert(Seq::new(pv.len(), |k: int| pv[k]@) =~= Seq::new(lv.len(), |k: int| label_chars(lv[k])));
    }
    Ok((name, endpos))
}

/// One more label than a sequence costs its length and a length octet.
pub proof fn lemma_wire_len_push(labels: Seq<Seq<u8>>, label: Seq<u8>)
    ensures
        labels_wire_len(labels.push(label)) == labels_wire_len(labels) + 1 + label.len(),
    decreases labels.len(),
{
    if labels.len() == 0 {
        assert(labels.push(label).drop_first() =~= Seq::<Seq<u8>>::empty());
        assert(labels_wire_len(Seq::<Seq<u8>>::empty()) == 1);
        assert(labels.push(label)[0] == label);
    } else {
        assert(labels.push(label).drop_first() =~= labels.drop_first().push(label));
        assert(labels.push(label)[0] == labels[0]);
        lemma_wire_len_push(labels.drop_first(), label);
    }
}

/// The dot-separated parts of a name: splitting at every dot, so that
/// an empty name has one empty part and a trailing dot ends with one.
pub open spec fn split_dots(s: Seq<char>) -> Seq<Seq<char>>
    decreases s.len(),
{
    if s.len() == 0 {
        seq![Seq::<char>::empty()]
    } else {
        let rest = split_dots(s.drop_first());
        if s[0] == '.' {
            seq![Seq::<char>::empty()] + rest
        } else {
            seq![seq![s[0]] + rest[0]] + rest.drop_first()
        }
    }
}

/// A split has at least one part.
pub proof fn lemma_split_nonempty(s: Seq<char>)
    ensures
        split_dots(s).len() >= 1,
    decreases s.len(),
{
    if s.len() > 0 {
        lemma_split_nonempty(s.drop_first());
    }
}

/// Splitting inverts joining: the parts of a name, joined with dots,
/// give the name back.
pub proof fn lemma_join_split(s: Seq<char>)
    ensures
        spec_join_parts(split_dots(s)) == s,
    decreases s.len(),
{
    if s.len() == 0 {
        assert(s =~= Seq::<char>::empty());
    } else {
        lemma_join_split(s.drop_first());
        lemma_split_nonempty(s.drop_first());
        let rest = split_dots(s.drop_first());
        if s[0] == '.' {
            assert((seq![Seq::<char>::empty()] + rest).drop_first() =~= rest);
            assert((seq![Seq::<char>::empty()] + rest)[0] == Seq::<char>::empty());
            assert(Seq::<char>::empty() + seq!['.'] + s.drop_first() =~= s);
        } else {
            assert((seq![seq![s[0]] + rest[0]] + rest.drop_first()).drop_first()
                =~= rest.drop_first());
            assert((seq![seq![s[0]] + rest[0]] + rest.drop_first())[0] == seq![s[0]] + rest[0]);
            if rest.len() == 1 {
                assert(spec_join_parts(rest) == rest[0]);
                assert(seq![s[0]] + rest[0] =~= s);
            } else {
                assert(spec_join_parts(rest) == rest[0] + seq!['.'] + spec_join_parts(
                    rest.drop_first(),
                ));
                assert(seq![s[0]] + rest[0] + seq!['.'] + spec_join_parts(rest.drop_first())
                    =~= seq![s[0]] + (rest[0] + seq!['.'] + spec_join_parts(rest.drop_first())));
                assert(seq![s[0]] + s.drop_first() =~= s);
            }
        }
    }
}

/// Peeling the first part off a split: up to the first dot (or the
/// end) the name is one dot-free part, and the rest splits on its own.
pub proof fn lemma_split_peel(s: Seq<char>, j: int)
    requires
        0 <= j <= s.len(),
        forall|k: int| 0 <= k < j ==> s[k] != '.',
        j == s.len() || s[j] == '.',
    ensures
        j == s.len() ==> split_dots(s) == seq![s],
        j < s.len() ==> split_dots(s) == seq![s.take(j)] + split_dots(s.skip(j + 1)),
    decreases s.len(),
{
    if s.len() == 0 {
        assert(s =~= Seq::<char>::empty());
        assert(seq![s] =~= seq![Seq::<char>::empty()]);
    } else if j == 0 {
        assert(s[0] == '.');
        assert(s.take(0) =~= Seq::<char>::empty());
        assert(s.skip(1) =~= s.drop_first());
        assert(split_dots(s) == seq![s.take(0)] + split_dots(s.skip(1)));
    } else {
        let df = s.drop_first();
        assert(forall|k: int| 0 <= k < j - 1 ==> df[k] == s[k + 1] && df[k] != '.');
        lemma_split_peel(df, j - 1);
        let rest = split_dots(df);
        lemma_split_nonempty(df);
        if j == s.len() {
            assert(rest == seq![df]);
            assert(seq![s[0]] + df =~= s);
            assert(rest.drop_first() =~= Seq::<Seq<char>>::empty());
            assert(split_dots(s) =~= seq![s]);
        } else {
            assert(rest == seq![df.take(j - 1)] + split_dots(df.skip(j)));
            assert(rest[0] == df.take(j - 1));
            assert(seq![s[0]] + df.take(j - 1) =~= s.take(j));
            assert(df.skip(j) =~= s.skip(j + 1));
            assert(rest.drop_first() =~= split_dots(df.skip(j)));
            assert(split_dots(s) =~= seq![s.take(j)] + split_dots(s.skip(j + 1)));
        }
    }
}

/// The uncompressed wire encoding of a list of parts: each part as its
/// UTF-8 octets behind a length octet, then the terminator.  A part of
/// no octets or of more than 63 is rejected.
pub open spec fn spec_encode_parts(parts: Seq<Seq<char>>) -> Result<Seq<u8>, DnsError>
    decreases parts.len(),
{
    if parts.len() == 0 {
        Ok(seq![0u8])
    } else {
        let lb = encode_utf8(parts[0]);
        if lb.len() == 0 {
            Err(DnsError::FormatError)
        } else if lb.len() > 63 {
            Err(DnsError::BufferOverflow)
        } else {
            match spec_encode_parts(parts.drop_first()) {
                Ok(tail) => Ok(seq![lb.len() as u8] + lb + tail),
                Err(e) => Err(e),
            }
        }
    }
}

/// The wire encoding of a whole name: the root is a bare terminator,
/// any other name is its dot-separated parts encoded in turn, and an
/// encoding past 255 octets is rejected.
pub open spec fn spec_name_bytes(s: Seq<char>) -> Result<Seq<u8>, DnsError> {
    if s.len() == 0 {
        Ok(seq![0u8])
    } else {
        match spec_encode_parts(split_dots(s)) {
            Ok(nb) => if nb.len() <= 255 {
                Ok(nb)
            } else {
                Err(DnsError::BufferOverflow)
            },
            Err(e) => Err(e),
        }
    }
}

/// Bytes prefixed onto the outcome of encoding the remaining parts.
pub open spec fn spec_prepend_bytes(b: Seq<u8>, r: Result<Seq<u8>, DnsError>) -> Result<
    Seq<u8>,
    DnsError,
> {
    match r {
        Ok(t) => Ok(b + t),
        Err(e) => Err(e),
    }
}

/// Encodes a name into its uncompressed wire form: length-prefixed
/// labels and a terminator, with no pointers emitted.
#[verifier::loop_isolation(false)]
pub fn name_wire_bytes(name: &str) -> (r: Result<Vec<u8>, DnsError>)
    ensures
        ({
            let s = spec_name_bytes(name@);
            &&& (r is Ok <==> s is Ok)
            &&& (r is Ok ==> r->Ok_0@ == s->Ok_0)
            &&& (r is Err ==> r->Err_0 == s->Err_0)
        }),
{
    let n = name.unicode_len();
    if n == 0 {
        let mut v: Vec<u8> = Vec::new();
        v.push(0u8);
        assert(v@ =~= seq![0u8]);
        return Ok(v);
    }
    let mut out: Vec<u8> = Vec::new();
    let mut start: usize = 0;
    proof {
        assert(name@.skip(0) =~= name@);
        if spec_encode_parts(split_dots(name@)) is Ok {
            assert(Seq::<u8>::empty() + spec_encode_parts(split_dots(name@))->Ok_0
                =~= spec_encode_parts(split_dots(name@))->Ok_0);
        }
    }
    let mut done: bool = false;
    while !done
        invariant
            start <= n,
            !done ==> spec_encode_parts(split_dots(name@)) == spec_prepend_bytes(
                out@,
                spec_encode_parts(split_dots(name@.skip(start as int))),
            ),
            done ==> spec_encode_parts(split_dots(name@)) == Ok::<Seq<u8>, DnsError>(
                out@ + seq![0u8],
            ),
        decreases (if done {
            0int
        } else {
            1int
        }), n - start,
    {
        let mut j: usize = start;
        while j < n && name.get_char(j) != '.'
            invariant
                start <= j <= n,
                forall|k: int| start <= k < j ==> name@[k] != '.',
            decreases n - j,
        {
            j = j + 1;
        }
        let label = name.substring_char(start, j);
        let lb = label.as_bytes_vec();
        let ghost remaining = name@.skip(start as int);
        proof {
            assert(forall|k: int| 0 <= k < remaining.len() ==> remaining[k] == name@[k + start]);
            lemma_split_peel(remaining, j - start);
            assert(remaining.take(j - start) =~= name@.subrange(start as int, j as int));
            assert(label@ == remaining.take(j - start));
            if j < n {
                assert(remaining.skip(j - start + 1) =~= name@.skip(j + 1));
                assert(split_dots(remaining) == seq![label@] + split_dots(name@.skip(j + 1)));
                assert(split_dots(remaining)[0] == label@);
                assert(split_dots(remaining).drop_first() =~= split_dots(name@.skip(j + 1)));
            } else {
                assert(split_dots(remaining) =~= seq![label@]);
                assert(split_dots(remaining)[0] == label@);
                assert(split_dots(remaining).drop_first() =~= Seq::<Seq<char>>::empty());
                assert(spec_encode_parts(Seq::<Seq<char>>::empty()) == Ok::<Seq<u8>, DnsError>(
                    seq![0u8],
                ));
            }
            assert(lb@ == encode_utf8(label@));
        }
        if lb.len() == 0 {
            return Err(DnsError::FormatError);
        }
        if lb.len() > 63 {
            return Err(DnsError::BufferOverflow);
        }
        let ghost out0 = out@;
        out.push(lb.len() as u8);
        let mut lbm = lb;
        out.append(&mut lbm);
        proof {
            assert(out@ =~= out0 + seq![encode_utf8(label@).len() as u8] + encode_utf8(label@));
            if j < n {
                if spec_encode_parts(split_dots(name@.skip(j + 1))) is Ok {
                    let tail = spec_encode_parts(split_dots(name@.skip(j + 1)))->Ok_0;
                    assert(out0 + (seq![encode_utf8(label@).len() as u8] + encode_utf8(label@)
                        + tail) =~= out@ + tail);
                }
            } else {
                assert(out0 + (seq![encode_utf8(label@).len() as u8] + encode_utf8(label@)
                    + seq![0u8]) =~= out@ + seq![0u8]);
            }
        }
        if j < n {
            start = j + 1;
        } else {
            done = true;
        }
    }
    let ghost outf = out@;
    out.push(0u8);
    proof {
        assert(out@ =~= outf + seq![0u8]);
    }
    if out.len() > 255 {
        return Err(DnsError::BufferOverflow);
    }
    Ok(out)
}

/// The single length-prefixed label at `pos`, read without pointer
/// interpretation, and the position just past it.
pub open spec fn spec_fragment_at(buf: Seq<u8>, pos: int) -> Option<(Seq<char>, int)> {
    if 0 <= pos < buf.len() && pos + 1 + buf[pos] <= buf.len() {
        Some((label_chars(buf.subrange(pos + 1, pos + 1 + buf[pos])), pos + 1 + buf[pos]))
    } else {
        None
    }
}

/// Reads one length-prefixed label at `pos` as characters, without
/// interpreting pointers or label bounds.
#[verifier::loop_isolation(false)]
pub fn domain_fragment(buf: &[u8], pos: usize) -> (r: Result<(String, usize), DnsError>)
    ensures
        ({
            let s = spec_fragment_at(buf@, pos as int);
            &&& (r is Ok <==> s is Some)
            &&& (r is Ok ==> r->Ok_0.0@ == s->Some_0.0)
            &&& (r is Ok ==> r->Ok_0.1 == s->Some_0.1)
            &&& (r is Err ==> r->Err_0 == DnsError::FormatError)
        }),
{
    if pos >= buf.len() {
        return Err(DnsError::FormatError);
    }
    let blen: usize = buf[pos] as usize;
    if buf.len() - (pos + 1) < blen {
        return Err(DnsError::FormatError);
    }
    let mut label: Vec<u8> = Vec::new();
    let mut i: usize = 0;
    while i < blen
        invariant
            pos + 1 + blen <= buf@.len(),
            i <= blen,
            label@ =~= buf@.subrange(pos + 1, pos + 1 + i),
        decreases blen - i,
    {
        label.push(buf[pos + 1 + i]);
        i = i + 1;
    }
    assert(label@ =~= buf@.subrange(pos + 1, pos + 1 + buf@[pos as int]));
    let s = utf8_lossy(label.as_slice());
    Ok((s, pos + 1 + blen))
}

} // verus!
