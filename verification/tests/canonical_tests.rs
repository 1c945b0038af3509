use log_producer::canonical::{canonical_headers, canonical_query, canonical_resource, Header};
use log_producer::error::Error;

fn b(s: &str) -> Vec<u8> {
    s.as_bytes().to_vec()
}

fn h(name: &str, value: &str) -> Header {
    Header { name: b(name), value: b(value) }
}

#[test]
fn query_pairs_sorted_by_full_entry() {
    let r = canonical_resource(&b("/logstores"), &Some(b("b=2&a=1"))).unwrap();
    assert_eq!(r, b("/logstores?a=1&b=2"));
}

#[test]
fn resource_without_query_is_the_path() {
    let r = canonical_resource(&b("/logstores/x/shards/lb"), &None).unwrap();
    assert_eq!(r, b("/logstores/x/shards/lb"));
}

#[test]
fn query_percent_and_plus_decoding() {
    let r = canonical_query(&b("a=%41%2c+b")).unwrap();
    assert_eq!(r, b("a=A, b"));
}

#[test]
fn query_empty_pieces_dropped_and_bare_key_kept() {
    let r = canonical_query(&b("b=2&&foo&a=1&")).unwrap();
    assert_eq!(r, b("a=1&b=2&foo="));
}

#[test]
fn query_sorts_by_entry_not_by_key_alone() {
    // "x1=1" < "x=2" by the full entry string ('1' sorts before '='),
    // though sorting by key alone would put "x" before "x1".
    let r = canonical_query(&b("x=2&x1=1")).unwrap();
    assert_eq!(r, b("x1=1&x=2"));
}

#[test]
fn malformed_percent_encoding_is_rejected() {
    assert!(canonical_query(&b("a=%zz")).is_none());
    assert!(canonical_query(&b("a=%4")).is_none());
    let err = canonical_resource(&b("/p"), &Some(b("a=%"))).unwrap_err();
    assert_eq!(err, Error::BadUrl);
}

#[test]
fn header_block_selects_sorts_and_lowercases() {
    let headers = vec![
        h("X-Log-Signaturemethod", "hmac-sha1"),
        h("content-type", "application/x-protobuf"),
        h("x-acs-security-token", "tok"),
        h("x-log-apiversion", "0.6.0"),
        h("Date", "today"),
    ];
    let block = canonical_headers(&headers);
    assert_eq!(
        block,
        b("x-acs-security-token:tok\nx-log-apiversion:0.6.0\nx-log-signaturemethod:hmac-sha1\n")
    );
}

#[test]
fn header_block_is_order_independent() {
    let one = vec![h("x-log-b", "2"), h("x-acs-a", "1"), h("x-log-a", "0")];
    let two = vec![h("x-log-a", "0"), h("x-log-b", "2"), h("x-acs-a", "1")];
    let three = vec![h("x-acs-a", "1"), h("x-log-a", "0"), h("x-log-b", "2")];
    let block = canonical_headers(&one);
    assert_eq!(block, canonical_headers(&two));
    assert_eq!(block, canonical_headers(&three));
    assert_eq!(block, b("x-acs-a:1\nx-log-a:0\nx-log-b:2\n"));
}

#[test]
fn header_block_empty_when_nothing_matches() {
    let headers = vec![h("content-md5", "X"), h("date", "D")];
    assert_eq!(canonical_headers(&headers), Vec::<u8>::new());
}

#[test]
fn header_selection_is_idempotent() {
    let original = vec![h("X-Log-B", "2"), h("x-acs-a", "1"), h("other", "z")];
    let block = canonical_headers(&original);
    // The canonical selection of `original`, already lower-cased and sorted,
    // canonicalizes to the identical block.
    let selected = vec![h("x-acs-a", "1"), h("x-log-b", "2")];
    assert_eq!(canonical_headers(&selected), block);
}
