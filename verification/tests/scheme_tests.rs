use dns_resolver::query::build_query;
use dns_resolver::scheme::strip_scheme;

#[test]
fn https_scheme_is_taken_off() {
    assert_eq!(strip_scheme("https://example.com"), "example.com");
}

#[test]
fn http_scheme_is_kept() {
    assert_eq!(strip_scheme("http://example.com"), "http://example.com");
}

#[test]
fn plain_domain_is_kept() {
    assert_eq!(strip_scheme("example.com"), "example.com");
    assert_eq!(strip_scheme(""), "");
    assert_eq!(strip_scheme("https:/"), "https:/");
    assert_eq!(strip_scheme("https:/x.example.com"), "https:/x.example.com");
    assert_eq!(strip_scheme("HTTPS://example.com"), "HTTPS://example.com");
    assert_eq!(strip_scheme(" https://example.com"), " https://example.com");
}

#[test]
fn scheme_alone_leaves_nothing() {
    assert_eq!(strip_scheme("https://"), "");
}

#[test]
fn scheme_is_taken_off_once() {
    assert_eq!(strip_scheme("https://https://example.com"), "https://example.com");
}

#[test]
fn text_behind_the_scheme_is_untouched() {
    assert_eq!(strip_scheme("https://bücher.example/straße"), "bücher.example/straße");
    assert_eq!(strip_scheme("https://é"), "é");
}

#[test]
fn https_input_resolves_the_bare_domain() {
    let stripped = build_query(strip_scheme("https://example.com"), 0x1234, true).unwrap();
    let bare = build_query("example.com", 0x1234, true).unwrap();
    assert_eq!(stripped, bare);
}

#[test]
fn http_input_is_looked_up_literally() {
    let query = build_query(strip_scheme("http://example.com"), 0x1234, true).unwrap();
    let mut expected: Vec<u8> =
        vec![0x12, 0x34, 0x01, 0x00, 0x00, 0x01, 0x00, 0x00, 0x00, 0x00, 0x00, 0x00];
    expected.push(14);
    expected.extend_from_slice(b"http://example");
    expected.push(3);
    expected.extend_from_slice(b"com");
    expected.extend_from_slice(&[0, 0, 1, 0, 1]);
    assert_eq!(query, expected);
}
