//! The message codec: decoding an inbound datagram into a [`Question`] and
//! encoding the outbound reply, answer or refusal, from it.

use vstd::prelude::*;
use vstd::slice::{slice_index_get, slice_subrange, slice_to_vec};
use vstd::arithmetic::power2::{pow2, lemma2_to64};
use crate::bits::{be_bytes, lemma_be_bytes_len, push_u16_be, push_u32_be, BitWriter};

verus! {

/// One parsed question: the opaque two-byte transaction id, echoed verbatim
/// in the reply, and the requested name as its labels in wire order.
pub struct Question {
    pub id: [u8; 2],
    pub domain_name: Vec<Vec<u8>>,
}

/// The labels of a name as a mathematical sequence of byte sequences.
pub open spec fn labels_view(v: Seq<Vec<u8>>) -> Seq<Seq<u8>> {
    v.map_values(|l: Vec<u8>| l@)
}

impl Question {
    /// The labels as a mathematical sequence of byte sequences.
    pub open spec fn labels(&self) -> Seq<Seq<u8>> {
        labels_view(self.domain_name@)
    }

    /// Every label's byte count is representable in a single length byte.
    pub open spec fn wf(&self) -> bool {
        forall|i: int| 0 <= i < self.labels().len() ==> #[trigger] self.labels()[i].len() <= 255
    }
}

/// Reads a length-prefixed label sequence off the front of `s`, up to and
/// including the zero length byte that terminates it. Yields the labels and
/// whatever follows the terminator, or nothing if a length byte asks for more
/// bytes than remain (a missing terminator included).
pub open spec fn parse_labels(s: Seq<u8>) -> Option<(Seq<Seq<u8>>, Seq<u8>)>
    decreases s.len(),
{
    if s.len() == 0 {
        None
    } else if s[0] == 0 {
        Some((Seq::empty(), s.skip(1)))
    } else if 1 + s[0] > s.len() {
        None
    } else {
        match parse_labels(s.skip(1 + s[0] as int)) {
            None => None,
            Some(p) => Some((seq![s.subrange(1, 1 + s[0] as int)] + p.0, p.1)),
        }
    }
}

/// What the decoder yields on a buffer: the first two bytes as the
/// transaction id and the labels that start after the ten skipped header
/// bytes, provided the buffer holds the full fixed header, a complete label
/// sequence, and the four skipped type and class bytes after it.
pub open spec fn decode_spec(s: Seq<u8>) -> Option<(Seq<u8>, Seq<Seq<u8>>)> {
    if s.len() < 12 {
        None
    } else {
        match parse_labels(s.skip(12)) {
            None => None,
            Some(p) => if p.1.len() >= 4 {
                Some((s.take(2), p.0))
            } else {
                None
            },
        }
    }
}

/// Takes the first `n` bytes off the front of `data`, leaving the rest.
pub fn split_off<'a>(data: &mut &'a [u8], n: usize) -> (r: &'a [u8])
    requires
        n <= old(data)@.len(),
    ensures
        r@ == old(data)@.take(n as int),
        final(data)@ == old(data)@.skip(n as int),
{
    let whole: &'a [u8] = *data;
    let r = slice_subrange(whole, 0, n);
    *data = slice_subrange(whole, n, whole.len());
    r
}

/// `split_off` with the count fixed at compile time.
pub fn split_off_const<'a, const N: usize>(data: &mut &'a [u8]) -> (r: &'a [u8])
    requires
        N <= old(data)@.len(),
    ensures
        r@ == old(data)@.take(N as int),
        final(data)@ == old(data)@.skip(N as int),
        r@.len() == N,
{
    split_off(data, N)
}

/// Decodes one inbound datagram: the two-byte transaction id, ten header
/// bytes skipped unread, the length-prefixed labels of the single expected
/// question, and four trailing type and class bytes skipped unread. Fails,
/// rather than read out of bounds, on a buffer that ends before any of that.
pub fn parse(request: &[u8]) -> (r: Option<Question>)
    ensures
        match r {
            Some(q) => decode_spec(request@) == Some((q.id@, q.labels())) && q.wf(),
            None => decode_spec(request@) is None,
        },
{
    let mut rest: &[u8] = request;
    if rest.len() < 12 {
        return None;
    }
    let id_bytes = split_off_const::<2>(&mut rest);
    let id: [u8; 2] = [*slice_index_get(id_bytes, 0), *slice_index_get(id_bytes, 1)];
    // The ten skipped bytes: the flag and opcode octet pair and the four
    // 16-bit section counts, none of them interpreted.
    let _header = split_off_const::<10>(&mut rest);
    proof {
        assert(id@ =~= request@.take(2));
        assert(rest@ =~= request@.skip(12));
    }

    let mut domain_name: Vec<Vec<u8>> = Vec::new();
    let ghost tail = request@.skip(12);
    proof {
        assert(labels_view(domain_name@) =~= Seq::<Seq<u8>>::empty());
        match parse_labels(tail) {
            None => {},
            Some(p) => {
                assert(Seq::<Seq<u8>>::empty() + p.0 =~= p.0);
            },
        }
    }
    loop
        invariant_except_break
            request@.len() >= 12,
            tail == request@.skip(12),
            forall|i: int| 0 <= i < labels_view(domain_name@).len()
                ==> #[trigger] labels_view(domain_name@)[i].len() <= 255,
            parse_labels(tail) == (match parse_labels(rest@) {
                None => None::<(Seq<Seq<u8>>, Seq<u8>)>,
                Some(p) => Some((labels_view(domain_name@) + p.0, p.1)),
            }),
        ensures
            parse_labels(tail) == Some((labels_view(domain_name@), rest@)),
            forall|i: int| 0 <= i < labels_view(domain_name@).len()
                ==> #[trigger] labels_view(domain_name@)[i].len() <= 255,
        decreases rest@.len(),
    {
        if rest.len() == 0 {
            return None;
        }
        let ghost before = rest@;
        let len_byte = split_off_const::<1>(&mut rest);
        let n = *slice_index_get(len_byte, 0);
        proof {
            assert(n == before[0]);
            assert(rest@ =~= before.skip(1));
        }
        if n == 0 {
            proof {
                assert(parse_labels(before) == Some((Seq::<Seq<u8>>::empty(), before.skip(1))));
                assert(labels_view(domain_name@) + Seq::<Seq<u8>>::empty()
                    =~= labels_view(domain_name@));
            }
            break;
        }
        if (n as usize) > rest.len() {
            proof {
                assert(parse_labels(before) is None);
            }
            return None;
        }
        let label_slice = split_off(&mut rest, n as usize);
        let label = slice_to_vec(label_slice);
        let ghost dn_before = domain_name@;
        domain_name.push(label);
        proof {
            assert(label@ =~= before.subrange(1, 1 + before[0] as int));
            assert(rest@ =~= before.skip(1 + before[0] as int));
            lemma_labels_view_push(dn_before, label);
            match parse_labels(rest@) {
                None => {},
                Some(p2) => {
                    assert(labels_view(dn_before) + (seq![label@] + p2.0)
                        =~= labels_view(dn_before).push(label@) + p2.0);
                },
            }
        }
    }

    // The four skipped bytes: the question's type and class, assumed to ask
    // for an address record in the Internet class, not checked.
    if rest.len() < 4 {
        return None;
    }
    let _type_class = split_off_const::<4>(&mut rest);
    let q = Question { id, domain_name };
    Some(q)
}

/// Appending one label extends the label view by that label's bytes.
pub proof fn lemma_labels_view_push(v: Seq<Vec<u8>>, x: Vec<u8>)
    ensures
        labels_view(v.push(x)) == labels_view(v).push(x@),
{
    assert(labels_view(v.push(x)) =~= labels_view(v).push(x@));
}

/// The bytes of the one accepted name: the single label "my-server", ASCII.
pub open spec fn accepted_name() -> Seq<u8> {
    seq![109u8, 121u8, 45u8, 115u8, 101u8, 114u8, 118u8, 101u8, 114u8]
}

/// Whether the requested labels name the one host this responder answers for.
pub open spec fn accepted(labels: Seq<Seq<u8>>) -> bool {
    labels.len() == 1 && labels[0] == accepted_name()
}

/// The lookup policy's verdict on a question: answer it or refuse it.
pub enum Lookup {
    Answer,
    Refuse,
}

/// Compares the requested name against the single statically known accepted
/// name; the encoder itself carries no knowledge of which names are served.
pub fn lookup(q: &Question) -> (r: Lookup)
    ensures
        (r is Answer) <==> accepted(q.labels()),
{
    if q.domain_name.len() != 1 {
        return Lookup::Refuse;
    }
    let l: &Vec<u8> = &q.domain_name[0];
    proof {
        assert(q.labels()[0] == l@);
    }
    if l.len() != 9 {
        return Lookup::Refuse;
    }
    // The bytes of "my-server", compared one by one.
    let m = *l.get(0).unwrap() == 109 && *l.get(1).unwrap() == 121 && *l.get(2).unwrap() == 45
        && *l.get(3).unwrap() == 115 && *l.get(4).unwrap() == 101 && *l.get(5).unwrap() == 114
        && *l.get(6).unwrap() == 118 && *l.get(7).unwrap() == 101 && *l.get(8).unwrap() == 114;
    if m {
        proof {
            assert(l@ =~= accepted_name());
        }
        Lookup::Answer
    } else {
        proof {
            assert(l@ != accepted_name());
        }
        Lookup::Refuse
    }
}

/// The value of the two flag bytes of every reply, field by field, each
/// field shifted in most significant first.
pub open spec fn flags_val(rcode: nat) -> nat {
    (((((((0nat
        * pow2(1) + 1)  // it is a response
        * pow2(4) + 0)  // opcode: the request was a standard query
        * pow2(1) + 1)  // the answer is authoritative
        * pow2(1) + 0)  // the reply is not truncated
        * pow2(1) + 1)  // recursion was desired
        * pow2(1) + 0)  // recursion is not available
        * pow2(3) + 0)  // the reserved field
        * pow2(4) + rcode  // the response code
}

/// The ten header bytes that follow the echoed transaction id of a reply:
/// the flag byte pair, then the question, answer, authority and additional
/// counts, 16 bits each, big-endian.
pub open spec fn header_bytes(rcode: nat, ancount: nat) -> Seq<u8> {
    be_bytes(flags_val(rcode), 2) + be_bytes(0, 2) + be_bytes(ancount, 2) + be_bytes(0, 2)
        + be_bytes(0, 2)
}

/// The four octets of the fixed address this responder serves.
pub open spec fn addr_bytes() -> Seq<u8> {
    seq![172u8, 16u8, 0u8, 4u8]
}

/// The fourteen bytes of the one answer record: type 1 (a host address),
/// class 1 (the Internet), time-to-live 0, data length 4, then the address.
pub open spec fn record_bytes() -> Seq<u8> {
    be_bytes(1, 2) + be_bytes(1, 2) + be_bytes(0, 4) + be_bytes(4, 2) + addr_bytes()
}

/// Each label as its length byte followed by its bytes, in order.
pub open spec fn labels_bytes(labels: Seq<Seq<u8>>) -> Seq<u8>
    decreases labels.len(),
{
    if labels.len() == 0 {
        Seq::empty()
    } else {
        seq![labels[0].len() as u8] + labels[0] + labels_bytes(labels.drop_first())
    }
}

/// A name on the wire: its labels, then the terminating zero length byte.
pub open spec fn name_bytes(labels: Seq<Seq<u8>>) -> Seq<u8> {
    labels_bytes(labels) + seq![0u8]
}

/// The whole reply to a question: the echoed transaction id, then for the
/// accepted name an answer header, the echoed name and the address record,
/// and for any other name a refusal header (response code 5) alone.
pub open spec fn reply_spec(id: Seq<u8>, labels: Seq<Seq<u8>>) -> Seq<u8> {
    if accepted(labels) {
        id + header_bytes(0, 1) + name_bytes(labels) + record_bytes()
    } else {
        id + header_bytes(5, 0)
    }
}

/// Appending one label appends its length byte and its bytes.
pub proof fn lemma_labels_bytes_push(s: Seq<Seq<u8>>, l: Seq<u8>)
    ensures
        labels_bytes(s.push(l)) == labels_bytes(s) + seq![l.len() as u8] + l,
    decreases s.len(),
{
    if s.len() == 0 {
        assert(s.push(l).drop_first() =~= Seq::<Seq<u8>>::empty());
        assert(labels_bytes(Seq::<Seq<u8>>::empty()) =~= Seq::<u8>::empty());
        assert(labels_bytes(s.push(l)) =~= labels_bytes(s) + seq![l.len() as u8] + l);
    } else {
        assert(s.push(l).drop_first() =~= s.drop_first().push(l));
        lemma_labels_bytes_push(s.drop_first(), l);
        assert(labels_bytes(s.push(l)) =~= labels_bytes(s) + seq![l.len() as u8] + l);
    }
}

/// Writes the ten header bytes, field by field.
fn encode_header(rcode: u8, ancount: u16) -> (r: Vec<u8>)
    requires
        rcode < 16,
    ensures
        r@ == header_bytes(rcode as nat, ancount as nat),
{
    proof {
        lemma2_to64();
    }
    let mut w = BitWriter::new();
    w.push_bits(1, 1);  // it is a response
    w.push_bits(0, 4);  // opcode: the request was a standard query
    w.push_bits(1, 1);  // the answer is authoritative
    w.push_bits(0, 1);  // the reply is not truncated
    w.push_bits(1, 1);  // recursion was desired
    w.push_bits(0, 1);  // recursion is not available
    w.push_bits(0, 3);  // the reserved field
    w.push_bits(rcode as u64, 4);  // the response code
    proof {
        assert(w.val() == flags_val(rcode as nat));
        assert(w.width() == 16);
    }
    let mut out = w.into_vec();
    push_u16_be(&mut out, 0);  // no questions are echoed
    push_u16_be(&mut out, ancount);  // the answer count
    push_u16_be(&mut out, 0);  // no authority records
    push_u16_be(&mut out, 0);  // no additional records
    proof {
        assert(out@ =~= header_bytes(rcode as nat, ancount as nat));
    }
    out
}

/// Writes the fourteen bytes of the one answer record.
fn encode_record() -> (r: Vec<u8>)
    ensures
        r@ == record_bytes(),
{
    let mut out: Vec<u8> = Vec::new();
    push_u16_be(&mut out, 1);  // type: a host address
    push_u16_be(&mut out, 1);  // class: the Internet
    push_u32_be(&mut out, 0);  // time to live
    push_u16_be(&mut out, 4);  // the address has four octets
    out.push(172);  // the fixed address
    out.push(16);
    out.push(0);
    out.push(4);
    proof {
        assert(out@ =~= record_bytes());
    }
    out
}

/// Encodes the one outbound datagram that answers `q`: the echoed
/// transaction id, the header, and, when the requested name is the accepted
/// one, the echoed name and the address record.
pub fn reply(q: &Question) -> (r: Vec<u8>)
    requires
        q.wf(),
    ensures
        r@ == reply_spec(q.id@, q.labels()),
{
    let mut out: Vec<u8> = Vec::new();
    out.push(q.id[0]);
    out.push(q.id[1]);
    proof {
        assert(out@ =~= q.id@);
    }
    match lookup(q) {
        Lookup::Answer => {
            let mut hdr = encode_header(0, 1);
            out.append(&mut hdr);
            let ghost base = out@;
            let mut i: usize = 0;
            while i < q.domain_name.len()
                invariant
                    q.wf(),
                    i <= q.domain_name@.len(),
                    base == q.id@ + header_bytes(0, 1),
                    out@ == base + labels_bytes(q.labels().take(i as int)),
                decreases q.domain_name@.len() - i,
            {
                let lab: &Vec<u8> = &q.domain_name[i];
                proof {
                    assert(q.labels()[i as int] == lab@);
                }
                out.push(lab.len() as u8);
                let ghost mid = out@;
                let mut j: usize = 0;
                while j < lab.len()
                    invariant
                        j <= lab@.len(),
                        out@ == mid + lab@.take(j as int),
                    decreases lab@.len() - j,
                {
                    let b = *lab.get(j).unwrap();
                    out.push(b);
                    proof {
                        assert(mid + lab@.take(j as int) + seq![lab@[j as int]]
                            =~= mid + lab@.take(j as int + 1));
                    }
                    j = j + 1;
                }
                proof {
                    assert(lab@.take(lab@.len() as int) =~= lab@);
                    lemma_labels_bytes_push(q.labels().take(i as int), lab@);
                    assert(q.labels().take(i as int).push(lab@)
                        =~= q.labels().take(i as int + 1));
                    assert(base + labels_bytes(q.labels().take(i as int))
                        + seq![lab@.len() as u8] + lab@
                        =~= base + labels_bytes(q.labels().take(i as int + 1)));
                }
                i = i + 1;
            }
            out.push(0);
            let mut rec = encode_record();
            out.append(&mut rec);
            proof {
                assert(q.labels().take(q.domain_name@.len() as int) =~= q.labels());
                assert(out@ =~= q.id@ + header_bytes(0, 1) + name_bytes(q.labels())
                    + record_bytes());
            }
        },
        Lookup::Refuse => {
            let mut hdr = encode_header(5, 0);
            out.append(&mut hdr);
            proof {
                assert(out@ =~= q.id@ + header_bytes(5, 0));
            }
        },
    }
    out
}

/// Parsing an encoded name off the front of a buffer recovers exactly its
/// labels and leaves exactly the bytes that follow the terminator.
pub proof fn lemma_parse_name_round_trip(labels: Seq<Seq<u8>>, rest: Seq<u8>)
    requires
        forall|i: int| 0 <= i < labels.len() ==> 1 <= #[trigger] labels[i].len() <= 255,
    ensures
        parse_labels(name_bytes(labels) + rest) == Some((labels, rest)),
    decreases labels.len(),
{
    let s = name_bytes(labels) + rest;
    if labels.len() == 0 {
        assert(labels_bytes(labels) =~= Seq::<u8>::empty());
        assert(s[0] == 0);
        assert(s.skip(1) =~= rest);
        assert(Seq::<Seq<u8>>::empty() =~= labels);
    } else {
        let l0 = labels[0];
        let lrest = labels.drop_first();
        lemma_parse_name_round_trip(lrest, rest);
        assert(s =~= seq![l0.len() as u8] + l0 + (name_bytes(lrest) + rest));
        assert(s[0] == l0.len() as u8);
        assert(1 + s[0] <= s.len());
        assert(s.skip(1 + s[0] as int) =~= name_bytes(lrest) + rest);
        assert(s.subrange(1, 1 + s[0] as int) =~= l0);
        assert(seq![l0] + lrest =~= labels);
    }
}

/// Decoding any buffer laid out as one question for the accepted name — any
/// transaction id, any ten skipped header bytes, the encoded name, and at
/// least the four skipped type and class bytes — yields exactly the original
/// transaction id and label sequence.
pub proof fn lemma_decode_question(id: Seq<u8>, header: Seq<u8>, labels: Seq<Seq<u8>>, tail: Seq<u8>)
    requires
        id.len() == 2,
        header.len() == 10,
        tail.len() >= 4,
        accepted(labels),
    ensures
        decode_spec(id + header + name_bytes(labels) + tail) == Some((id, labels)),
{
    let s = id + header + name_bytes(labels) + tail;
    assert(accepted_name().len() == 9);
    lemma_parse_name_round_trip(labels, tail);
    assert(s.skip(12) =~= name_bytes(labels) + tail);
    assert(s.take(2) =~= id);
}

/// A buffer shorter than the twelve-byte fixed header is rejected.
pub proof fn lemma_short_buffer_rejected(s: Seq<u8>)
    requires
        s.len() < 12,
    ensures
        decode_spec(s) is None,
{
}

/// A name whose next length byte asks for more bytes than the buffer still
/// holds cannot be parsed, wherever among complete labels it happens.
pub proof fn lemma_parse_overrun(labels: Seq<Seq<u8>>, n: u8, short: Seq<u8>)
    requires
        forall|i: int| 0 <= i < labels.len() ==> 1 <= #[trigger] labels[i].len() <= 255,
        n as int > short.len(),
    ensures
        parse_labels(labels_bytes(labels) + seq![n] + short) is None,
    decreases labels.len(),
{
    let s = labels_bytes(labels) + seq![n] + short;
    if labels.len() == 0 {
        assert(labels_bytes(labels) =~= Seq::<u8>::empty());
        assert(s[0] == n);
        assert(n != 0);
        assert(1 + s[0] > s.len());
    } else {
        let l0 = labels[0];
        let lrest = labels.drop_first();
        lemma_parse_overrun(lrest, n, short);
        assert(s =~= seq![l0.len() as u8] + l0 + (labels_bytes(lrest) + seq![n] + short));
        assert(s[0] == l0.len() as u8);
        if 1 + s[0] <= s.len() {
            assert(s.skip(1 + s[0] as int) =~= labels_bytes(lrest) + seq![n] + short);
        }
    }
}

/// A buffer whose label region overruns — after any run of complete labels,
/// a length byte that asks for more bytes than remain — is rejected.
pub proof fn lemma_label_overrun_rejected(
    id: Seq<u8>,
    header: Seq<u8>,
    labels: Seq<Seq<u8>>,
    n: u8,
    short: Seq<u8>,
)
    requires
        id.len() == 2,
        header.len() == 10,
        forall|i: int| 0 <= i < labels.len() ==> 1 <= #[trigger] labels[i].len() <= 255,
        n as int > short.len(),
    ensures
        decode_spec(id + header + labels_bytes(labels) + seq![n] + short) is None,
{
    let s = id + header + labels_bytes(labels) + seq![n] + short;
    lemma_parse_overrun(labels, n, short);
    assert(s.skip(12) =~= labels_bytes(labels) + seq![n] + short);
}

/// Encoding is a pure function of the question: two questions carrying the
/// same transaction id and the same labels are answered with byte-identical
/// replies, since [`reply`] returns exactly `reply_spec` of those two values.
pub proof fn lemma_reply_deterministic(q1: Question, q2: Question)
    requires
        q1.id@ == q2.id@,
        q1.labels() == q2.labels(),
    ensures
        reply_spec(q1.id@, q1.labels()) == reply_spec(q2.id@, q2.labels()),
{
}

/// Round trip: the reply to the accepted name echoes the name in the exact
/// wire layout the decoder reads, so decoding the reply recovers the
/// transaction id and the labels unchanged.
pub proof fn lemma_reply_round_trip(id: Seq<u8>, labels: Seq<Seq<u8>>)
    requires
        id.len() == 2,
        accepted(labels),
    ensures
        decode_spec(reply_spec(id, labels)) == Some((id, labels)),
{
    lemma_be_bytes_len(flags_val(0), 2);
    lemma_be_bytes_len(0, 2);
    lemma_be_bytes_len(1, 2);
    lemma_be_bytes_len(0, 4);
    lemma_be_bytes_len(4, 2);
    assert(header_bytes(0, 1).len() == 10);
    assert(record_bytes().len() == 14);
    lemma_decode_question(id, header_bytes(0, 1), labels, record_bytes());
}

} // verus!

