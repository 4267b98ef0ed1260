use dns_resolver::error::DnsError;
use dns_resolver::message::Header;
use dns_resolver::message::Question;
use dns_resolver::query::build_query;
use dns_resolver::response::parse_response;

#[test]
fn builds_the_query_for_example_com() {
    let bytes = build_query("example.com", 0x1234, true).unwrap();
    let expected: Vec<u8> = vec![
        0x12, 0x34, 0x01, 0x00, 0x00, 0x01, 0x00, 0x00, 0x00, 0x00, 0x00, 0x00, 0x07, 0x65, 0x78,
        0x61, 0x6D, 0x70, 0x6C, 0x65, 0x03, 0x63, 0x6F, 0x6D, 0x00, 0x00, 0x01, 0x00, 0x01,
    ];
    assert_eq!(bytes, expected);
}

#[test]
fn query_without_recursion_has_no_flag_set() {
    let bytes = build_query("example.com", 0x1234, false).unwrap();
    assert_eq!(&bytes[2..4], &[0x00, 0x00]);
    let with = build_query("example.com", 0x1234, true).unwrap();
    assert_eq!(&with[2..4], &[0x01, 0x00]);
    assert_eq!(&bytes[..2], &with[..2]);
    assert_eq!(&bytes[4..], &with[4..]);
}

#[test]
fn transaction_id_is_written_high_byte_first() {
    assert_eq!(&build_query("a", 0xABCD, true).unwrap()[..2], &[0xAB, 0xCD]);
    assert_eq!(&build_query("a", 0x00FF, true).unwrap()[..2], &[0x00, 0xFF]);
    assert_eq!(&build_query("a", 0xFF00, true).unwrap()[..2], &[0xFF, 0x00]);
    assert_eq!(&build_query("a", 0, true).unwrap()[..2], &[0x00, 0x00]);
    assert_eq!(&build_query("a", 0xFFFF, true).unwrap()[..2], &[0xFF, 0xFF]);
}

#[test]
fn query_has_one_question_and_nothing_else() {
    let bytes = build_query("a.b", 7, true).unwrap();
    assert_eq!(&bytes[4..12], &[0, 1, 0, 0, 0, 0, 0, 0]);
    assert_eq!(&bytes[12..], &[1, b'a', 1, b'b', 0, 0, 1, 0, 1]);
    assert_eq!(bytes.len(), 12 + 5 + 4);
}

#[test]
fn refuses_the_empty_domain() {
    assert_eq!(build_query("", 1, true), Err(DnsError::InvalidName));
}

#[test]
fn refuses_a_label_that_is_too_long() {
    let label = "a".repeat(64);
    assert_eq!(build_query(&label, 1, true), Err(DnsError::InvalidName));
    let domain = format!("{}.com", label);
    assert_eq!(build_query(&domain, 1, false), Err(DnsError::InvalidName));
    assert!(build_query(&"a".repeat(63), 1, true).is_ok());
}

#[test]
fn refuses_a_domain_with_an_empty_label() {
    assert_eq!(build_query("example..com", 1, true), Err(DnsError::InvalidName));
    assert_eq!(build_query("example.com.", 1, true), Err(DnsError::InvalidName));
    assert_eq!(build_query(".example.com", 1, true), Err(DnsError::InvalidName));
}

#[test]
fn longest_domain_makes_a_query_past_the_first_capacity() {
    let label = "a".repeat(63);
    let domain = format!("{0}.{0}.{0}.{0}", label);
    assert_eq!(domain.len(), 255);
    let bytes = build_query(&domain, 1, true).unwrap();
    assert_eq!(bytes.len(), 12 + 257 + 4);
    assert_eq!(build_query(&format!("{}b", domain), 1, true), Err(DnsError::InvalidName));
}

#[test]
fn query_parses_back_as_what_was_asked() {
    let bytes = build_query("www.example.com", 0xBEEF, true).unwrap();
    let message = parse_response(&bytes).unwrap();
    assert_eq!(
        message.header,
        Header {
            id: 0xBEEF,
            flags: 0x0100,
            question_count: 1,
            answer_count: 0,
            authority_count: 0,
            additional_count: 0,
        }
    );
    assert_eq!(
        message.questions,
        vec![Question { name: b"www.example.com".to_vec(), qtype: 1, qclass: 1 }]
    );
    assert!(message.answers.is_empty());
}
