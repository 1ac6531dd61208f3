use sipx_transport::addr::{IpAddress, SocketAddress};
use sipx_transport::nat_traversal::{apply_received_and_rport, first_hop_end, param_span};
use sipx_transport::sip::{Host, ViaHop};

fn source() -> SocketAddress {
    SocketAddress::new(IpAddress::V4([203, 0, 113, 9]), 41234)
}

fn hop(host: [u8; 4], port: u16, rport: Option<Option<Vec<u8>>>) -> ViaHop {
    ViaHop {
        host: Host::Ip(IpAddress::V4(host)),
        port: Some(port),
        maddr: None,
        received: None,
        rport,
    }
}

/// Apply to a single-hop value, returning the value as it goes back out.
fn apply(value: &str, via: &ViaHop) -> (bool, String) {
    let bytes = value.as_bytes();
    match apply_received_and_rport(bytes, via, source()) {
        Some(v) => (true, String::from_utf8(v).expect("ascii")),
        None => (false, value.to_owned()),
    }
}

#[test]
fn received_is_added_when_the_source_differs_from_the_sent_by() {
    let (changed, via) = apply(
        "SIP/2.0/UDP 10.0.0.5:5060;branch=z9hG4bKx",
        &hop([10, 0, 0, 5], 5060, None),
    );
    assert!(changed);
    assert_eq!(via, "SIP/2.0/UDP 10.0.0.5:5060;received=203.0.113.9;branch=z9hG4bKx");
}

#[test]
fn received_is_not_added_when_the_sent_by_is_already_right() {
    let (changed, via) = apply(
        "SIP/2.0/UDP 203.0.113.9:41234;branch=z9hG4bKx",
        &hop([203, 0, 113, 9], 41234, None),
    );
    assert!(!changed);
    assert!(!via.contains("received"));
}

#[test]
fn an_empty_rport_is_replaced_not_duplicated() {
    let (changed, via) = apply(
        "SIP/2.0/UDP 10.0.0.5:5060;rport;branch=z9hG4bKx",
        &hop([10, 0, 0, 5], 5060, Some(None)),
    );
    assert!(changed);
    assert_eq!(via.matches("rport").count(), 1, "exactly one rport: {via}");
    assert!(via.contains(";rport=41234"));
    assert!(via.ends_with(";branch=z9hG4bKx"), "the branch must survive the surgery");
}

#[test]
fn rport_brings_received_with_it_even_when_the_sent_by_matches() {
    let (changed, via) = apply(
        "SIP/2.0/UDP 203.0.113.9:41234;rport;branch=z9hG4bKx",
        &hop([203, 0, 113, 9], 41234, Some(None)),
    );
    assert!(changed);
    assert_eq!(
        via,
        "SIP/2.0/UDP 203.0.113.9:41234;rport=41234;received=203.0.113.9;branch=z9hG4bKx"
    );
}

#[test]
fn an_absent_rport_is_not_invented() {
    let (_, via) = apply(
        "SIP/2.0/UDP 10.0.0.5:5060;branch=z9hG4bKx",
        &hop([10, 0, 0, 5], 5060, None),
    );
    assert!(!via.contains("rport"));
}

#[test]
fn an_rport_that_already_has_a_value_is_left_alone() {
    let (changed, via) = apply(
        "SIP/2.0/UDP 203.0.113.9:5060;rport=9999;branch=z9hG4bKx",
        &hop([203, 0, 113, 9], 5060, Some(Some(b"9999".to_vec()))),
    );
    assert!(!changed);
    assert!(via.contains(";rport=9999;"));
}

#[test]
fn only_the_topmost_hop_is_touched() {
    let value = "SIP/2.0/UDP 10.0.0.5:5060;rport;branch=z9hG4bK1, SIP/2.0/UDP 192.0.2.7:5060;branch=z9hG4bK2";
    let out = apply_received_and_rport(
        value.as_bytes(),
        &hop([10, 0, 0, 5], 5060, Some(None)),
        source(),
    )
    .expect("changed");
    let via = String::from_utf8(out).expect("ascii");
    assert!(
        via.ends_with("SIP/2.0/UDP 192.0.2.7:5060;branch=z9hG4bK2"),
        "the second hop is untouched: {via}"
    );
    assert_eq!(via.matches("received").count(), 1);
    assert!(via.starts_with("SIP/2.0/UDP 10.0.0.5:5060;rport=41234;"), "the top hop got the answer");
}

#[test]
fn a_hostname_sent_by_always_counts_as_differing() {
    let via = ViaHop {
        host: Host::Name("client.example".to_owned()),
        port: None,
        maddr: None,
        received: None,
        rport: None,
    };
    let (changed, out) = apply("SIP/2.0/UDP client.example;branch=z9hG4bKx", &via);
    assert!(changed);
    assert_eq!(out, "SIP/2.0/UDP client.example;received=203.0.113.9;branch=z9hG4bKx");
}

#[test]
fn received_goes_at_the_end_when_there_is_no_branch() {
    let (changed, out) = apply("SIP/2.0/UDP 10.0.0.5", &hop([10, 0, 0, 5], 5060, None));
    assert!(changed);
    assert_eq!(out, "SIP/2.0/UDP 10.0.0.5;received=203.0.113.9");
}

#[test]
fn parameter_spans_are_found_regardless_of_position_and_quoting() {
    let hop = br#"SIP/2.0/UDP h;a=1;rport;note="x;y";branch=z"#;
    let (start, end) = param_span(hop, b"rport").expect("rport is there");
    assert_eq!(&hop[start..end], b";rport");
    let (start, end) = param_span(hop, b"branch").expect("branch is there");
    assert_eq!(&hop[start..end], b";branch=z");
    let (start, end) = param_span(hop, b"note").expect("note is there");
    assert_eq!(&hop[start..end], br#";note="x;y""#);
    assert!(param_span(hop, b"absent").is_none());
}

#[test]
fn parameter_names_compare_without_case() {
    let hop = b"SIP/2.0/UDP h;RPort;Branch=z";
    let (start, end) = param_span(hop, b"rport").expect("found");
    assert_eq!(&hop[start..end], b";RPort");
    assert!(param_span(b"SIP/2.0/UDP h;x=\"open", b"y").is_none(), "unterminated quote");
}

#[test]
fn the_topmost_hop_ends_at_the_first_comma_outside_quotes() {
    let value = b"SIP/2.0/UDP a.example;x=\"p,q\";branch=z9hG4bK1, SIP/2.0/TCP b.example";
    let end = first_hop_end(value);
    assert_eq!(&value[..end], &b"SIP/2.0/UDP a.example;x=\"p,q\";branch=z9hG4bK1"[..]);
    assert_eq!(first_hop_end(b"SIP/2.0/UDP a.example;branch=z9hG4bK1"), 37);
    assert_eq!(first_hop_end(b"SIP/2.0/UDP a.example;x=\"open, SIP/2.0/UDP b"), 44);
}

#[test]
fn a_quoted_comma_keeps_the_second_hop_out_of_the_rewrite() {
    let value = "SIP/2.0/UDP 10.0.0.5:5060;x=\"a,b\";branch=z9hG4bK1,SIP/2.0/UDP 192.0.2.7;branch=z9hG4bK2";
    let out = apply_received_and_rport(value.as_bytes(), &hop([10, 0, 0, 5], 5060, None), source())
        .expect("changed");
    assert_eq!(
        String::from_utf8(out).expect("ascii"),
        "SIP/2.0/UDP 10.0.0.5:5060;x=\"a,b\";received=203.0.113.9;branch=z9hG4bK1,SIP/2.0/UDP 192.0.2.7;branch=z9hG4bK2"
    );
}
