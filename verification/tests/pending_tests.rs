use dns_resolver::error::DnsError;
use dns_resolver::pending::PendingTable;
use dns_resolver::resolver::ResolverState;
use dns_resolver::response::parse_response;

fn answer_under(id: u16, flags: u16) -> Vec<u8> {
    let mut bytes = Vec::new();
    bytes.extend_from_slice(&id.to_be_bytes());
    bytes.extend_from_slice(&flags.to_be_bytes());
    bytes.extend_from_slice(&[0, 1, 0, 1, 0, 0, 0, 0]);
    bytes.extend_from_slice(b"\x07example\x03com\x00\x00\x01\x00\x01");
    bytes.extend_from_slice(&[0xC0, 0x0C, 0, 1, 0, 1, 0, 0, 0, 60, 0, 4, 192, 0, 2, 7]);
    bytes
}

#[test]
fn new_table_has_nothing_pending() {
    let table = PendingTable::new();
    assert!(!table.is_pending(0));
    assert!(!table.is_pending(0x1234));
    assert!(!table.is_pending(0xFFFF));
}

#[test]
fn registered_id_is_pending_until_cancelled() {
    let mut table = PendingTable::new();
    assert!(table.register(7));
    assert!(table.is_pending(7));
    assert!(!table.is_pending(8));
    assert!(table.cancel(7));
    assert!(!table.is_pending(7));
    assert!(!table.cancel(7));
}

#[test]
fn id_is_registered_once() {
    let mut table = PendingTable::new();
    assert!(table.register(7));
    assert!(!table.register(7));
    assert!(table.is_pending(7));
    assert!(table.cancel(7));
    assert!(!table.is_pending(7));
    assert!(table.register(7));
}

#[test]
fn cancelling_one_id_leaves_the_others() {
    let mut table = PendingTable::new();
    for id in [1, 2, 3, 0xFFFF] {
        assert!(table.register(id));
    }
    assert!(table.cancel(2));
    assert!(table.is_pending(1));
    assert!(!table.is_pending(2));
    assert!(table.is_pending(3));
    assert!(table.is_pending(0xFFFF));
    assert!(!table.cancel(4));
}

#[test]
fn datagram_is_delivered_to_the_lookup_it_answers() {
    let mut table = PendingTable::new();
    table.register(0x0101);
    table.register(0x0202);
    let datagram = answer_under(0x0202, 0x8180);
    let delivery = table.dispatch(&datagram);
    assert_eq!(
        delivery,
        Some((0x0202, ResolverState::Matched(parse_response(&datagram).unwrap())))
    );
    assert!(!table.is_pending(0x0202));
    assert!(table.is_pending(0x0101));
}

#[test]
fn datagram_is_delivered_once() {
    let mut table = PendingTable::new();
    table.register(5);
    let datagram = answer_under(5, 0x8180);
    assert!(table.dispatch(&datagram).is_some());
    assert_eq!(table.dispatch(&datagram), None);
}

#[test]
fn datagram_under_an_unknown_id_is_dropped() {
    let mut table = PendingTable::new();
    table.register(5);
    assert_eq!(table.dispatch(&answer_under(6, 0x8180)), None);
    assert!(table.is_pending(5));
    assert_eq!(PendingTable::new().dispatch(&answer_under(6, 0x8180)), None);
}

#[test]
fn datagram_for_a_cancelled_lookup_is_dropped() {
    let mut table = PendingTable::new();
    table.register(5);
    table.cancel(5);
    assert_eq!(table.dispatch(&answer_under(5, 0x8180)), None);
}

#[test]
fn datagram_without_an_id_is_dropped() {
    let mut table = PendingTable::new();
    table.register(0);
    assert_eq!(table.dispatch(&[]), None);
    assert_eq!(table.dispatch(&[0]), None);
    assert!(table.is_pending(0));
}

#[test]
fn datagram_that_does_not_parse_ends_its_lookup_as_a_protocol_error() {
    let mut table = PendingTable::new();
    table.register(0x0305);
    assert_eq!(
        table.dispatch(&[0x03, 0x05]),
        Some((0x0305, ResolverState::ProtocolError(DnsError::Truncated)))
    );
    assert!(!table.is_pending(0x0305));
}

#[test]
fn datagram_with_an_error_code_ends_its_lookup_as_a_server_error() {
    let mut table = PendingTable::new();
    table.register(9);
    assert_eq!(table.dispatch(&answer_under(9, 0x8182)), Some((9, ResolverState::ServerError(2))));
}
