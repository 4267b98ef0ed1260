use dns_resolver::error::DnsError;
use dns_resolver::message::Header;
use dns_resolver::message::Question;
use dns_resolver::message::RData;
use dns_resolver::message::ResourceRecord;
use dns_resolver::response::parse_response;

fn header_bytes(id: u16, flags: u16, counts: [u16; 4]) -> Vec<u8> {
    let mut bytes = Vec::new();
    bytes.extend_from_slice(&id.to_be_bytes());
    bytes.extend_from_slice(&flags.to_be_bytes());
    for count in counts {
        bytes.extend_from_slice(&count.to_be_bytes());
    }
    bytes
}

fn question_bytes() -> Vec<u8> {
    b"\x07example\x03com\x00\x00\x01\x00\x01".to_vec()
}

fn record_bytes(name: &[u8], rtype: u16, class: u16, ttl: u32, rdata: &[u8]) -> Vec<u8> {
    let mut bytes = name.to_vec();
    bytes.extend_from_slice(&rtype.to_be_bytes());
    bytes.extend_from_slice(&class.to_be_bytes());
    bytes.extend_from_slice(&ttl.to_be_bytes());
    bytes.extend_from_slice(&(rdata.len() as u16).to_be_bytes());
    bytes.extend_from_slice(rdata);
    bytes
}

fn example_response() -> Vec<u8> {
    let mut bytes = header_bytes(0x1234, 0x8180, [1, 1, 0, 0]);
    bytes.extend_from_slice(&question_bytes());
    bytes.extend_from_slice(&record_bytes(&[0xC0, 0x0C], 1, 1, 300, &[93, 184, 216, 34]));
    bytes
}

#[test]
fn parses_one_address_record_for_example_com() {
    let bytes = example_response();
    assert_eq!(bytes.len(), 45);
    let message = parse_response(&bytes).unwrap();
    assert_eq!(message.answers.len(), 1);
    assert_eq!(message.answers[0].ttl, 300);
    assert_eq!(message.answers[0].rdata, RData::Ipv4([93, 184, 216, 34]));
    assert_eq!(
        message.answers[0],
        ResourceRecord {
            name: b"example.com".to_vec(),
            rtype: 1,
            class: 1,
            ttl: 300,
            rdata: RData::Ipv4([93, 184, 216, 34]),
        }
    );
    assert_eq!(
        message.header,
        Header {
            id: 0x1234,
            flags: 0x8180,
            question_count: 1,
            answer_count: 1,
            authority_count: 0,
            additional_count: 0,
        }
    );
    assert_eq!(
        message.questions,
        vec![Question { name: b"example.com".to_vec(), qtype: 1, qclass: 1 }]
    );
    assert_eq!(message.addresses(), vec![[93, 184, 216, 34]]);
}

#[test]
fn parses_an_uncompressed_answer_name() {
    let mut bytes = header_bytes(1, 0x8180, [1, 1, 0, 0]);
    bytes.extend_from_slice(&question_bytes());
    bytes.extend_from_slice(&record_bytes(b"\x07example\x03com\x00", 1, 1, 60, &[10, 0, 0, 1]));
    let message = parse_response(&bytes).unwrap();
    assert_eq!(message.answers[0].name, b"example.com".to_vec());
    assert_eq!(message.answers[0].rdata, RData::Ipv4([10, 0, 0, 1]));
}

#[test]
fn shorter_than_a_header_is_truncated() {
    assert_eq!(parse_response(&[]), Err(DnsError::Truncated));
    assert_eq!(parse_response(&[0; 11]), Err(DnsError::Truncated));
    assert!(parse_response(&[0; 12]).is_ok());
}

#[test]
fn empty_message_parses_to_its_header() {
    let bytes = header_bytes(0xFFFF, 0x8000, [0, 0, 0, 0]);
    let message = parse_response(&bytes).unwrap();
    assert_eq!(message.header.id, 0xFFFF);
    assert_eq!(message.header.flags, 0x8000);
    assert!(message.questions.is_empty());
    assert!(message.answers.is_empty());
    assert!(message.addresses().is_empty());
}

#[test]
fn every_cut_of_a_message_is_truncated() {
    let bytes = example_response();
    assert!(parse_response(&bytes).is_ok());
    for cut in 0..bytes.len() {
        assert_eq!(parse_response(&bytes[..cut]), Err(DnsError::Truncated), "cut at {}", cut);
    }
}

#[test]
fn every_cut_of_a_message_with_all_sections_is_truncated() {
    let mut bytes = header_bytes(9, 0x8183, [1, 2, 1, 1]);
    bytes.extend_from_slice(&question_bytes());
    bytes.extend_from_slice(&record_bytes(&[0xC0, 0x0C], 5, 1, 30, b"\x03www\xC0\x0C"));
    bytes.extend_from_slice(&record_bytes(&[0xC0, 0x0C], 1, 1, 30, &[1, 2, 3, 4]));
    bytes.extend_from_slice(&record_bytes(&[0xC0, 0x14], 2, 1, 30, b"\x02ns\xC0\x0C"));
    bytes.extend_from_slice(&record_bytes(&[0], 41, 4096, 0, &[]));
    assert!(parse_response(&bytes).is_ok());
    for cut in 0..bytes.len() {
        assert_eq!(parse_response(&bytes[..cut]), Err(DnsError::Truncated), "cut at {}", cut);
    }
}

#[test]
fn address_record_of_another_length_is_malformed() {
    for rdata in [&[1u8, 2, 3][..], &[1, 2, 3, 4, 5][..], &[][..]] {
        let mut bytes = header_bytes(1, 0x8180, [1, 1, 0, 0]);
        bytes.extend_from_slice(&question_bytes());
        bytes.extend_from_slice(&record_bytes(&[0xC0, 0x0C], 1, 1, 300, rdata));
        assert_eq!(parse_response(&bytes), Err(DnsError::MalformedRecord));
    }
}

#[test]
fn malformed_length_is_found_before_missing_data() {
    // type A, declared length 6, and only two bytes of data in the buffer
    let mut bytes = header_bytes(1, 0x8180, [0, 1, 0, 0]);
    bytes.extend_from_slice(&[0, 0, 1, 0, 1, 0, 0, 0, 0, 0, 6, 1, 2]);
    assert_eq!(parse_response(&bytes), Err(DnsError::MalformedRecord));
}

#[test]
fn data_that_is_missing_is_truncated() {
    // type TXT, declared length 6, and only two bytes of data in the buffer
    let mut bytes = header_bytes(1, 0x8180, [0, 1, 0, 0]);
    bytes.extend_from_slice(&[0, 0, 16, 0, 1, 0, 0, 0, 0, 0, 6, 1, 2]);
    assert_eq!(parse_response(&bytes), Err(DnsError::Truncated));
}

#[test]
fn bytes_behind_the_last_record_are_a_count_mismatch() {
    let mut bytes = example_response();
    bytes.push(0);
    assert_eq!(parse_response(&bytes), Err(DnsError::CountMismatch));
    let mut header_only = header_bytes(1, 0, [0, 0, 0, 0]);
    header_only.push(7);
    assert_eq!(parse_response(&header_only), Err(DnsError::CountMismatch));
}

#[test]
fn record_that_the_header_does_not_declare_is_a_count_mismatch() {
    let mut bytes = header_bytes(1, 0x8180, [1, 1, 0, 0]);
    bytes.extend_from_slice(&question_bytes());
    bytes.extend_from_slice(&record_bytes(&[0xC0, 0x0C], 1, 1, 300, &[1, 1, 1, 1]));
    bytes.extend_from_slice(&record_bytes(&[0xC0, 0x0C], 1, 1, 300, &[2, 2, 2, 2]));
    assert_eq!(parse_response(&bytes), Err(DnsError::CountMismatch));
}

#[test]
fn record_that_the_header_declares_and_is_missing_is_truncated() {
    let mut bytes = header_bytes(1, 0x8180, [1, 2, 0, 0]);
    bytes.extend_from_slice(&question_bytes());
    bytes.extend_from_slice(&record_bytes(&[0xC0, 0x0C], 1, 1, 300, &[1, 1, 1, 1]));
    assert_eq!(parse_response(&bytes), Err(DnsError::Truncated));
    let no_question = header_bytes(1, 0x8180, [1, 0, 0, 0]);
    assert_eq!(parse_response(&no_question), Err(DnsError::Truncated));
}

#[test]
fn question_without_type_and_class_is_truncated() {
    let mut bytes = header_bytes(1, 0, [1, 0, 0, 0]);
    bytes.extend_from_slice(b"\x01a\x00\x00\x01\x00");
    assert_eq!(parse_response(&bytes), Err(DnsError::Truncated));
}

#[test]
fn malformed_name_in_a_question_is_reported() {
    let mut bytes = header_bytes(1, 0, [1, 0, 0, 0]);
    bytes.extend_from_slice(&[0x41, b'a', 0, 0, 1, 0, 1]);
    assert_eq!(parse_response(&bytes), Err(DnsError::MalformedName));
    let mut looped = header_bytes(1, 0, [1, 0, 0, 0]);
    looped.extend_from_slice(&[0xC0, 0x0C, 0, 1, 0, 1]);
    assert_eq!(parse_response(&looped), Err(DnsError::MalformedName));
}

#[test]
fn malformed_name_in_an_answer_is_reported() {
    let mut bytes = header_bytes(1, 0x8180, [1, 1, 0, 0]);
    bytes.extend_from_slice(&question_bytes());
    // pointer forward to its own second half
    bytes.extend_from_slice(&record_bytes(&[0xC0, 0x1E], 1, 1, 300, &[1, 1, 1, 1]));
    assert_eq!(parse_response(&bytes), Err(DnsError::MalformedName));
}

#[test]
fn other_types_keep_their_data_as_bytes() {
    let mut bytes = header_bytes(1, 0x8180, [1, 2, 0, 0]);
    bytes.extend_from_slice(&question_bytes());
    bytes.extend_from_slice(&record_bytes(&[0xC0, 0x0C], 5, 1, 3600, b"\x03www\xC0\x0C"));
    bytes.extend_from_slice(&record_bytes(&[0xC0, 0x0C], 28, 1, 7, &[0x20; 16]));
    let message = parse_response(&bytes).unwrap();
    assert_eq!(
        message.answers[0],
        ResourceRecord {
            name: b"example.com".to_vec(),
            rtype: 5,
            class: 1,
            ttl: 3600,
            rdata: RData::Opaque(b"\x03www\xC0\x0C".to_vec()),
        }
    );
    assert_eq!(message.answers[1].rtype, 28);
    assert_eq!(message.answers[1].rdata, RData::Opaque(vec![0x20; 16]));
    assert!(message.addresses().is_empty());
}

#[test]
fn four_bytes_of_another_type_are_no_address() {
    let mut bytes = header_bytes(1, 0x8180, [0, 1, 0, 0]);
    bytes.extend_from_slice(&record_bytes(&[0], 16, 1, 1, &[3, b'a', b'b', b'c']));
    let message = parse_response(&bytes).unwrap();
    assert_eq!(message.answers[0].rdata, RData::Opaque(vec![3, b'a', b'b', b'c']));
    assert!(message.addresses().is_empty());
}

#[test]
fn record_without_data_is_kept() {
    let mut bytes = header_bytes(1, 0x8180, [0, 1, 0, 0]);
    bytes.extend_from_slice(&record_bytes(&[0], 10, 1, 1, &[]));
    let message = parse_response(&bytes).unwrap();
    assert_eq!(message.answers[0].name, Vec::<u8>::new());
    assert_eq!(message.answers[0].rdata, RData::Opaque(Vec::new()));
}

#[test]
fn class_is_kept_and_not_judged() {
    let mut bytes = header_bytes(1, 0x8180, [0, 1, 0, 0]);
    bytes.extend_from_slice(&record_bytes(&[0], 1, 3, 1, &[9, 9, 9, 9]));
    let message = parse_response(&bytes).unwrap();
    assert_eq!(message.answers[0].class, 3);
    assert_eq!(message.addresses(), vec![[9, 9, 9, 9]]);
}

#[test]
fn time_to_live_uses_all_32_bits() {
    let mut bytes = header_bytes(1, 0x8180, [0, 2, 0, 0]);
    bytes.extend_from_slice(&record_bytes(&[0], 1, 1, 0xFFFF_FFFF, &[1, 2, 3, 4]));
    bytes.extend_from_slice(&record_bytes(&[0], 1, 1, 0x0102_0304, &[1, 2, 3, 4]));
    let message = parse_response(&bytes).unwrap();
    assert_eq!(message.answers[0].ttl, 4_294_967_295);
    assert_eq!(message.answers[1].ttl, 16_909_060);
}

#[test]
fn authority_and_additional_records_are_read_and_not_kept() {
    let mut bytes = header_bytes(7, 0x8180, [1, 1, 1, 2]);
    bytes.extend_from_slice(&question_bytes());
    bytes.extend_from_slice(&record_bytes(&[0xC0, 0x0C], 1, 1, 300, &[93, 184, 216, 34]));
    bytes.extend_from_slice(&record_bytes(&[0xC0, 0x0C], 2, 1, 100, b"\x02ns\xC0\x0C"));
    bytes.extend_from_slice(&record_bytes(b"\x02ns\xC0\x0C", 1, 1, 100, &[192, 0, 2, 1]));
    bytes.extend_from_slice(&record_bytes(&[0], 41, 4096, 0, &[]));
    let message = parse_response(&bytes).unwrap();
    assert_eq!(message.header.authority_count, 1);
    assert_eq!(message.header.additional_count, 2);
    assert_eq!(message.answers.len(), 1);
    assert_eq!(message.addresses(), vec![[93, 184, 216, 34]]);
}

#[test]
fn flaw_in_a_record_that_is_not_kept_fails_the_message() {
    let mut bytes = header_bytes(7, 0x8180, [1, 1, 0, 1]);
    bytes.extend_from_slice(&question_bytes());
    bytes.extend_from_slice(&record_bytes(&[0xC0, 0x0C], 1, 1, 300, &[93, 184, 216, 34]));
    bytes.extend_from_slice(&record_bytes(&[0xC0, 0x0C], 1, 1, 100, &[192, 0, 2]));
    assert_eq!(parse_response(&bytes), Err(DnsError::MalformedRecord));
}

#[test]
fn several_questions_are_walked_in_order() {
    let mut bytes = header_bytes(7, 0x8180, [2, 1, 0, 0]);
    bytes.extend_from_slice(&question_bytes());
    bytes.extend_from_slice(b"\x03www\xC0\x0C\x00\x1C\x00\x01");
    bytes.extend_from_slice(&record_bytes(&[0xC0, 0x1D], 1, 1, 5, &[8, 8, 4, 4]));
    let message = parse_response(&bytes).unwrap();
    assert_eq!(
        message.questions,
        vec![
            Question { name: b"example.com".to_vec(), qtype: 1, qclass: 1 },
            Question { name: b"www.example.com".to_vec(), qtype: 28, qclass: 1 },
        ]
    );
    assert_eq!(message.answers[0].name, b"www.example.com".to_vec());
}

#[test]
fn message_with_an_error_code_still_parses() {
    let mut bytes = header_bytes(7, 0x8183, [1, 0, 0, 0]);
    bytes.extend_from_slice(&question_bytes());
    let message = parse_response(&bytes).unwrap();
    assert_eq!(message.header.rcode(), 3);
    assert!(message.answers.is_empty());
}

#[test]
fn answers_come_in_the_order_of_the_wire() {
    let mut bytes = header_bytes(7, 0x8180, [1, 3, 0, 0]);
    bytes.extend_from_slice(&question_bytes());
    bytes.extend_from_slice(&record_bytes(&[0xC0, 0x0C], 1, 1, 1, &[1, 1, 1, 1]));
    bytes.extend_from_slice(&record_bytes(&[0xC0, 0x0C], 16, 1, 2, b"\x02hi"));
    bytes.extend_from_slice(&record_bytes(&[0xC0, 0x0C], 1, 1, 3, &[3, 3, 3, 3]));
    let message = parse_response(&bytes).unwrap();
    let ttls: Vec<u32> = message.answers.iter().map(|record| record.ttl).collect();
    assert_eq!(ttls, vec![1, 2, 3]);
    assert_eq!(message.addresses(), vec![[1, 1, 1, 1], [3, 3, 3, 3]]);
}

#[test]
fn flags_are_taken_apart_bit_by_bit() {
    let header = |flags: u16| Header {
        id: 0,
        flags,
        question_count: 0,
        answer_count: 0,
        authority_count: 0,
        additional_count: 0,
    };
    let none = header(0x0000);
    assert!(!none.is_response());
    assert_eq!(none.opcode(), 0);
    assert!(!none.is_authoritative());
    assert!(!none.is_truncated());
    assert!(!none.recursion_desired());
    assert!(!none.recursion_available());
    assert_eq!(none.reserved(), 0);
    assert_eq!(none.rcode(), 0);

    let all = header(0xFFFF);
    assert!(all.is_response());
    assert_eq!(all.opcode(), 15);
    assert!(all.is_authoritative());
    assert!(all.is_truncated());
    assert!(all.recursion_desired());
    assert!(all.recursion_available());
    assert_eq!(all.reserved(), 7);
    assert_eq!(all.rcode(), 15);

    assert!(header(0x8000).is_response());
    assert_eq!(header(0x7800).opcode(), 15);
    assert_eq!(header(0x2800).opcode(), 5);
    assert!(header(0x0400).is_authoritative());
    assert!(header(0x0200).is_truncated());
    assert!(header(0x0100).recursion_desired());
    assert!(header(0x0080).recursion_available());
    assert_eq!(header(0x0070).reserved(), 7);
    assert_eq!(header(0x0020).reserved(), 2);
    assert_eq!(header(0x000F).rcode(), 15);
    assert_eq!(header(0x8183).rcode(), 3);

    let only_rd = header(0x0100);
    assert!(!only_rd.is_response());
    assert_eq!(only_rd.opcode(), 0);
    assert!(!only_rd.is_authoritative());
    assert!(!only_rd.is_truncated());
    assert!(!only_rd.recursion_available());
    assert_eq!(only_rd.reserved(), 0);
    assert_eq!(only_rd.rcode(), 0);
}
