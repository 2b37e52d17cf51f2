use hermes_dns::dns::{
    answer_min_ttl, tcp_frame, tcp_frame_len, DecodeError, Message, MessageHeader, Question, RCode, RecordType,
    ResourceRecord,
};

fn label(s: &str) -> Vec<u8> {
    s.as_bytes().to_vec()
}

fn name(parts: &[&str]) -> Vec<Vec<u8>> {
    parts.iter().map(|p| label(p)).collect()
}

fn header(id: u16, qd: u16, an: u16) -> MessageHeader {
    MessageHeader {
        id,
        qr: 0,
        opcode: 0,
        aa: 0,
        tc: 0,
        rd: 1,
        ra: 0,
        z: 0,
        rcode: RCode::NOERROR,
        qdcount: qd,
        ancount: an,
        nscount: 0,
        arcount: 0,
    }
}

fn query(id: u16, parts: &[&str]) -> Message {
    Message {
        header: header(id, 1, 0),
        compress: false,
        question: vec![Question { qname: name(parts), qtype: 1, qclass: 1 }],
        answer: Vec::new(),
        authority: Vec::new(),
        extra: Vec::new(),
    }
}

fn a_record(parts: &[&str], ttl: u32, addr: [u8; 4]) -> ResourceRecord {
    ResourceRecord {
        name: name(parts),
        rtype: RecordType::A,
        rclass: 1,
        ttl,
        rdlength: 4,
        rdata: addr.to_vec(),
    }
}

#[test]
fn header_flag_bits_decode() {
    let bytes = [0x12u8, 0x34, 0x01, 0x00, 0, 0, 0, 0, 0, 0, 0, 0];
    let h = MessageHeader::deserialize(&bytes).unwrap();
    assert_eq!(h.id, 0x1234);
    assert_eq!(h.qr, 0);
    assert_eq!(h.opcode, 0);
    assert_eq!(h.rd, 1);
    assert_eq!(h.aa, 0);
    assert_eq!(h.tc, 0);
    assert_eq!(h.ra, 0);
    assert_eq!(h.z, 0);
    assert_eq!(h.rcode, RCode::NOERROR);
    assert_eq!(h.qdcount, 0);
}

#[test]
fn header_serialize_packs_bits() {
    let mut h = header(0xBEEF, 2, 3);
    h.qr = 1;
    h.opcode = 2;
    h.aa = 1;
    h.ra = 1;
    h.rcode = RCode::NXDOMAIN;
    let mut out = Vec::new();
    h.serialize(&mut out);
    assert_eq!(out, vec![0xBE, 0xEF, 0x80 | 0x10 | 0x04 | 0x01, 0x83, 0, 2, 0, 3, 0, 0, 0, 0]);
}

#[test]
fn not_found_response_echoes_question() {
    let req = query(0xABCD, &["www", "example", "com"]);
    let req_bytes = req.serialize();
    let resp = Message::new_not_found_response(&req);
    assert_eq!(resp.header.id, 0xABCD);
    assert_eq!(resp.header.qr, 1);
    assert_eq!(resp.header.rcode, RCode::NXDOMAIN);
    assert_eq!(resp.header.rcode.to_u8(), 3);
    assert_eq!(resp.header.ancount, 0);
    assert_eq!(resp.header.qdcount, 1);
    assert!(resp.answer.is_empty());
    let out = resp.serialize();
    assert_eq!(out[12..], req_bytes[12..]);
    assert_eq!(out[3] & 0x0F, 3);
}

#[test]
fn response_copies_id_opcode_and_rd() {
    let mut req = query(7, &["a", "b"]);
    req.header.opcode = 2;
    let resp = Message::new(&req);
    assert_eq!(resp.header.id, 7);
    assert_eq!(resp.header.opcode, 2);
    assert_eq!(resp.header.rd, 1);
    assert_eq!(resp.header.qr, 1);
    assert_eq!(resp.header.aa, 0);
    assert_eq!(resp.header.ancount, 0);
    assert_eq!(resp.question_count(), 1);
}

#[test]
fn round_trip_keeps_every_field() {
    let mut m = query(99, &["mail", "Example", "org"]);
    m.header.qr = 1;
    m.header.ra = 1;
    m.header.ancount = 2;
    m.header.arcount = 1;
    m.answer.push(a_record(&["mail", "example", "org"], 300, [10, 0, 0, 1]));
    m.answer.push(ResourceRecord {
        name: name(&["mail", "example", "org"]),
        rtype: RecordType::Other(99),
        rclass: 1,
        ttl: 70000,
        rdlength: 3,
        rdata: vec![1, 2, 3],
    });
    m.extra.push(a_record(&["ns"], 1, [1, 1, 1, 1]));
    let bytes = m.serialize();
    let d = Message::deserialize(&bytes).unwrap();
    assert_eq!(d.header, m.header);
    assert!(!d.compress);
    assert_eq!(d.question.len(), 1);
    assert_eq!(d.question[0].qname, m.question[0].qname);
    assert_eq!(d.answer.len(), 2);
    assert_eq!(d.answer[0].ttl, 300);
    assert_eq!(d.answer[0].rdata, vec![10, 0, 0, 1]);
    assert_eq!(d.answer[1].rtype, RecordType::Other(99));
    assert_eq!(d.answer[1].ttl, 70000);
    assert_eq!(d.extra[0].name, name(&["ns"]));
    assert_eq!(d.serialize(), bytes);
}

#[test]
fn every_prefix_of_an_encoding_is_refused() {
    let mut m = query(5, &["example", "com"]);
    m.header.ancount = 1;
    m.answer.push(a_record(&["example", "com"], 60, [9, 9, 9, 9]));
    let bytes = m.serialize();
    for k in 0..bytes.len() {
        assert_eq!(Message::deserialize(&bytes[..k]).err(), Some(DecodeError::Truncated), "prefix {}", k);
    }
    assert!(Message::deserialize(&bytes).is_ok());
}

#[test]
fn short_inputs_are_truncated() {
    for k in 0..12 {
        let junk: Vec<u8> = (0..k).map(|i| (i * 37 + 11) as u8).collect();
        assert_eq!(Message::deserialize(&junk).err(), Some(DecodeError::Truncated));
    }
}

#[test]
fn self_pointer_is_a_loop() {
    let mut bytes = vec![0u8, 1, 0, 0, 0, 1, 0, 0, 0, 0, 0, 0];
    bytes.extend_from_slice(&[0xC0, 12, 0, 1, 0, 1]);
    assert_eq!(Message::deserialize(&bytes).err(), Some(DecodeError::PointerLoop));
}

#[test]
fn pointer_cycle_is_a_loop() {
    // 12: label "a", then a pointer to 17; 17: a pointer back to 12.
    let mut bytes = vec![0u8, 1, 0, 0, 0, 1, 0, 0, 0, 0, 0, 0];
    bytes.extend_from_slice(&[1, b'a', 0xC0, 17, 0, 0xC0, 12, 0, 1, 0, 1]);
    assert_eq!(Message::deserialize(&bytes).err(), Some(DecodeError::PointerLoop));
}

#[test]
fn backward_pointer_is_followed() {
    // Two questions; the second is "www" followed by a pointer to the first name.
    let mut bytes = vec![0u8, 1, 0, 0, 0, 2, 0, 0, 0, 0, 0, 0];
    bytes.extend_from_slice(&[7, b'e', b'x', b'a', b'm', b'p', b'l', b'e', 3, b'c', b'o', b'm', 0, 0, 1, 0, 1]);
    bytes.extend_from_slice(&[3, b'w', b'w', b'w', 0xC0, 12, 0, 28, 0, 1]);
    let m = Message::deserialize(&bytes).unwrap();
    assert_eq!(m.question[0].qname, name(&["example", "com"]));
    assert_eq!(m.question[1].qname, name(&["www", "example", "com"]));
    assert_eq!(m.question[1].qtype, 28);
}

#[test]
fn unassigned_rcode_is_refused() {
    assert!(RCode::from_u8(8).is_none());
    assert!(RCode::from_u8(11).is_none());
    assert_eq!(RCode::from_u8(10), Some(RCode::NOTZONE));
    assert_eq!(RCode::NOTAUTH.to_u8(), 9);
    let bytes = [0u8, 1, 0, 8, 0, 0, 0, 0, 0, 0, 0, 0];
    assert_eq!(Message::deserialize(&bytes).err(), Some(DecodeError::InvalidRCode));
}

#[test]
fn reserved_label_length_is_refused() {
    let mut bytes = vec![0u8, 1, 0, 0, 0, 1, 0, 0, 0, 0, 0, 0];
    bytes.extend_from_slice(&[0x40, 0, 0, 0, 0]);
    assert_eq!(Message::deserialize(&bytes).err(), Some(DecodeError::InvalidLabelLength));
}

#[test]
fn overlong_name_is_refused() {
    let mut bytes = vec![0u8, 1, 0, 0, 0, 1, 0, 0, 0, 0, 0, 0];
    for _ in 0..5 {
        bytes.push(63);
        bytes.extend(std::iter::repeat(b'x').take(63));
    }
    bytes.extend_from_slice(&[0, 0, 1, 0, 1]);
    assert_eq!(Message::deserialize(&bytes).err(), Some(DecodeError::NameTooLong));
}

#[test]
fn record_with_short_rdata_is_truncated() {
    let mut bytes = vec![0u8, 1, 0x80, 0, 0, 0, 0, 1, 0, 0, 0, 0];
    bytes.extend_from_slice(&[1, b'a', 0, 0, 1, 0, 1, 0, 0, 0, 10, 0, 4, 1, 2]);
    assert_eq!(Message::deserialize(&bytes).err(), Some(DecodeError::Truncated));
}

#[test]
fn qname_text_joins_labels() {
    let m = query(1, &["www", "example", "com"]);
    assert_eq!(m.qname_to_string(), "www.example.com");
    let mut empty = query(1, &[]);
    empty.question.clear();
    assert_eq!(empty.qname_to_string(), "default_value");
}

#[test]
fn record_type_values() {
    assert_eq!(RecordType::AAAA.to_u16(), 28);
    assert_eq!(RecordType::from_u16(33), RecordType::SRV);
    assert_eq!(RecordType::from_u16(250), RecordType::Other(250));
}

#[test]
fn question_parse_reports_end() {
    let q = Question { qname: name(&["ab", "c"]), qtype: 15, qclass: 1 };
    let mut out = vec![9u8, 9];
    q.serialize(&mut out);
    assert_eq!(out, vec![9, 9, 2, b'a', b'b', 1, b'c', 0, 0, 15, 0, 1]);
    let (p, end) = Question::deserialize(&out, 2).unwrap();
    assert_eq!(end, out.len());
    assert_eq!(p.qname, q.qname);
    assert_eq!(p.qtype, 15);
}

#[test]
fn tcp_frame_prefixes_length() {
    assert_eq!(tcp_frame(&vec![1, 2, 3]).unwrap(), vec![0, 3, 1, 2, 3]);
    assert_eq!(tcp_frame_len(&[1, 2]), 258);
    assert_eq!(tcp_frame(&vec![7u8; 300]).unwrap()[..2], [1, 44]);
    assert!(tcp_frame(&vec![0u8; 65536]).is_none());
}

#[test]
fn smallest_answer_ttl() {
    let mut m = query(1, &["a"]);
    assert_eq!(answer_min_ttl(&m), None);
    m.answer.push(a_record(&["a"], 300, [1, 2, 3, 4]));
    m.answer.push(a_record(&["a"], 20, [1, 2, 3, 4]));
    m.answer.push(a_record(&["a"], 90, [1, 2, 3, 4]));
    assert_eq!(answer_min_ttl(&m), Some(20));
}

#[test]
fn serialize_counts_the_sections() {
    let mut m = query(1, &["a"]);
    m.header.qdcount = 5;
    m.header.ancount = 7;
    m.answer.push(a_record(&["a"], 1, [1, 1, 1, 1]));
    let bytes = m.serialize();
    assert_eq!(bytes[4..12], [0, 1, 0, 1, 0, 0, 0, 0]);
    let d = Message::deserialize(&bytes).unwrap();
    assert_eq!(d.question.len(), 1);
    assert_eq!(d.answer.len(), 1);
}

#[test]
fn pointer_back_into_the_same_name_is_followed() {
    // One label of three octets "a", 0, "c" at 12; the pointer at 16 points to
    // the zero octet at 14, inside the name itself, which ends it.
    let mut bytes = vec![0u8, 1, 0, 0, 0, 1, 0, 0, 0, 0, 0, 0];
    bytes.extend_from_slice(&[3, b'a', 0, b'c', 0xC0, 14, 0, 1, 0, 1]);
    let m = Message::deserialize(&bytes).unwrap();
    assert_eq!(m.question[0].qname, vec![vec![b'a', 0, b'c']]);
    assert_eq!(m.question[0].qtype, 1);
}

#[test]
fn backward_pointer_cycle_is_refused() {
    // Label "a" at 12, then a pointer at 14 back to 12: the chase goes round
    // until the bound on pointers stops it.
    let mut bytes = vec![0u8, 1, 0, 0, 0, 1, 0, 0, 0, 0, 0, 0];
    bytes.extend_from_slice(&[1, b'a', 0xC0, 12, 0, 1, 0, 1]);
    assert_eq!(Message::deserialize(&bytes).err(), Some(DecodeError::PointerLoop));
}
