use nameserver::codec::{lookup, parse, reply, Lookup, Question};

fn accepted_request(id0: u8, id1: u8) -> Vec<u8> {
    let mut buf = vec![id0, id1];
    buf.extend_from_slice(&[0u8; 10]);
    buf.push(9);
    buf.extend_from_slice(b"my-server");
    buf.push(0);
    buf.extend_from_slice(&[0u8; 4]);
    buf
}

fn question(id: [u8; 2], labels: &[&[u8]]) -> Question {
    Question { id, domain_name: labels.iter().map(|l| l.to_vec()).collect() }
}

#[test]
fn decode_accepted_name() {
    let buf = accepted_request(0xAB, 0xCD);
    let q = parse(&buf).expect("a well-formed question must decode");
    assert_eq!(q.id, [0xAB, 0xCD]);
    assert_eq!(q.domain_name.len(), 1);
    assert_eq!(q.domain_name[0], b"my-server".to_vec());
}

#[test]
fn decode_echoes_id_bytes_verbatim() {
    let mut buf = accepted_request(0x00, 0xFF);
    buf[0] = 0x12;
    buf[1] = 0x34;
    let q = parse(&buf).expect("must decode");
    assert_eq!(q.id, [0x12, 0x34]);
}

#[test]
fn decode_multi_label_name() {
    let mut buf = vec![1, 2];
    buf.extend_from_slice(&[0u8; 10]);
    buf.push(2);
    buf.extend_from_slice(b"my");
    buf.push(6);
    buf.extend_from_slice(b"server");
    buf.push(0);
    buf.extend_from_slice(&[0u8; 4]);
    let q = parse(&buf).expect("must decode");
    assert_eq!(q.domain_name, vec![b"my".to_vec(), b"server".to_vec()]);
}

#[test]
fn decode_root_name() {
    let mut buf = vec![9, 9];
    buf.extend_from_slice(&[0u8; 10]);
    buf.push(0);
    buf.extend_from_slice(&[0u8; 4]);
    let q = parse(&buf).expect("must decode");
    assert!(q.domain_name.is_empty());
}

#[test]
fn decode_ignores_trailing_bytes() {
    let mut buf = accepted_request(1, 1);
    buf.extend_from_slice(&[0xDE, 0xAD, 0xBE, 0xEF]);
    let q = parse(&buf).expect("trailing bytes are ignored");
    assert_eq!(q.domain_name[0], b"my-server".to_vec());
}

#[test]
fn decode_rejects_short_buffers() {
    assert!(parse(&[]).is_none());
    assert!(parse(&[1]).is_none());
    assert!(parse(&[0; 5]).is_none());
    assert!(parse(&[0; 11]).is_none());
}

#[test]
fn decode_rejects_label_overrun() {
    // The length byte asks for 5 bytes where only 2 remain.
    let mut buf = vec![1, 2];
    buf.extend_from_slice(&[0u8; 10]);
    buf.push(5);
    buf.extend_from_slice(b"ab");
    assert!(parse(&buf).is_none());
}

#[test]
fn decode_rejects_overrun_after_complete_label() {
    let mut buf = vec![1, 2];
    buf.extend_from_slice(&[0u8; 10]);
    buf.push(2);
    buf.extend_from_slice(b"my");
    buf.push(200);
    buf.extend_from_slice(b"xyz");
    assert!(parse(&buf).is_none());
}

#[test]
fn decode_rejects_missing_terminator() {
    let mut buf = vec![1, 2];
    buf.extend_from_slice(&[0u8; 10]);
    buf.push(2);
    buf.extend_from_slice(b"my");
    assert!(parse(&buf).is_none());
}

#[test]
fn decode_rejects_missing_type_class() {
    // A complete name but only three of the four type and class bytes.
    let mut buf = vec![1, 2];
    buf.extend_from_slice(&[0u8; 10]);
    buf.push(0);
    buf.extend_from_slice(&[0u8; 3]);
    assert!(parse(&buf).is_none());
}

#[test]
fn lookup_accepts_only_the_one_name() {
    let q = question([0, 0], &[b"my-server"]);
    assert!(matches!(lookup(&q), Lookup::Answer));
    let q = question([0, 0], &[b"other"]);
    assert!(matches!(lookup(&q), Lookup::Refuse));
    let q = question([0, 0], &[b"my-server", b"example"]);
    assert!(matches!(lookup(&q), Lookup::Refuse));
    let q = question([0, 0], &[]);
    assert!(matches!(lookup(&q), Lookup::Refuse));
    let q = question([0, 0], &[b"my-serve"]);
    assert!(matches!(lookup(&q), Lookup::Refuse));
    let q = question([0, 0], &[b"my-serverx"]);
    assert!(matches!(lookup(&q), Lookup::Refuse));
}

#[test]
fn answer_reply_layout() {
    let buf = accepted_request(0x13, 0x37);
    let q = parse(&buf).expect("must decode");
    let r = reply(&q);
    // The echoed transaction id.
    assert_eq!(&r[0..2], &[0x13, 0x37]);
    // Flags: response, authoritative, recursion desired; no error.
    assert_eq!(r[2], 0b1000_0101);
    assert_eq!(r[3], 0b0000_0000);
    // Counts: zero questions, one answer, zero authority, zero additional.
    assert_eq!(&r[4..12], &[0, 0, 0, 1, 0, 0, 0, 0]);
    // The echoed name.
    assert_eq!(r[12], 9);
    assert_eq!(&r[13..22], b"my-server");
    assert_eq!(r[22], 0);
    // The answer record: type 1, class 1, time-to-live 0, four data bytes,
    // then the fixed address.
    assert_eq!(&r[23..37], &[0, 1, 0, 1, 0, 0, 0, 0, 0, 4, 172, 16, 0, 4]);
    assert_eq!(r.len(), 37);
    // The record ends in the fixed address octets.
    assert_eq!(&r[r.len() - 4..], &[172, 16, 0, 4]);
}

#[test]
fn refusal_reply_layout() {
    let q = question([0xAA, 0x55], &[b"other"]);
    let r = reply(&q);
    // The echoed transaction id, then the ten header bytes and nothing else.
    assert_eq!(r.len(), 12);
    assert_eq!(&r[0..2], &[0xAA, 0x55]);
    assert_eq!(r[2], 0b1000_0101);
    // Response code 5: refused.
    assert_eq!(r[3], 0b0000_0101);
    // All four section counts are zero.
    assert_eq!(&r[4..12], &[0, 0, 0, 0, 0, 0, 0, 0]);
}

#[test]
fn reply_round_trips_through_the_decoder() {
    let buf = accepted_request(0xC0, 0x01);
    let q = parse(&buf).expect("must decode");
    let r = reply(&q);
    // The reply places the echoed name where the decoder reads a question's
    // name, so decoding the reply recovers id and labels unchanged.
    let q2 = parse(&r).expect("the answer reply must decode");
    assert_eq!(q2.id, [0xC0, 0x01]);
    assert_eq!(q2.domain_name, vec![b"my-server".to_vec()]);
}

#[test]
fn encoding_is_deterministic() {
    let q1 = question([1, 2], &[b"my-server"]);
    let q2 = question([1, 2], &[b"my-server"]);
    assert_eq!(reply(&q1), reply(&q1));
    assert_eq!(reply(&q1), reply(&q2));
    let q3 = question([3, 4], &[b"other"]);
    assert_eq!(reply(&q3), reply(&q3));
}

#[test]
fn long_label_decodes() {
    let mut buf = vec![0, 0];
    buf.extend_from_slice(&[0u8; 10]);
    buf.push(255);
    buf.extend_from_slice(&[b'a'; 255]);
    buf.push(0);
    buf.extend_from_slice(&[0u8; 4]);
    let q = parse(&buf).expect("a 255-byte label is representable");
    assert_eq!(q.domain_name[0].len(), 255);
    // And such a question still gets a well-formed refusal.
    let r = reply(&q);
    assert_eq!(r.len(), 12);
    assert_eq!(r[3], 5);
}
