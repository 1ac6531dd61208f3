use sipx_transport::addr::{IpAddress, SocketAddress};
use sipx_transport::counters::Meters;
use sipx_transport::dns::{ResolutionError, ResolutionLimits, ResolutionPolicy};
use sipx_transport::endpoint::{transmit_plan, tries_existing, Plan};
use sipx_transport::error::Error;
use sipx_transport::resolution::{Question, Reply, Resolution, Step};
use sipx_transport::resolve::{select, SeededRng, Srv};
use sipx_transport::sip::{Host, SipUri};
use sipx_transport::target::{Target, TransportKind};

fn policy(max_lookups: usize) -> ResolutionPolicy {
    ResolutionPolicy::new(ResolutionLimits {
        max_lookups,
        max_naptr_records: 4,
        max_srv_records: 4,
        max_addresses: 4,
    })
}

fn name_uri(name: &str) -> SipUri {
    SipUri::new(false, Host::Name(name.to_owned()))
}

#[test]
fn a_zero_timeout_is_refused_by_name_before_any_question() {
    let mut p = policy(16);
    p.lookup_timeout_nanos = 0;
    p.resolution_timeout_nanos = 0;
    let (state, step) = Resolution::start(&name_uri("example.com"), p, 0);
    assert_eq!(step, Step::Fail(ResolutionError::InvalidTimeout { field: "lookup_timeout" }));
    assert_eq!(state.lookups, 0);
    assert_eq!(p.validate(), Err(ResolutionError::InvalidTimeout { field: "lookup_timeout" }));

    let mut p = policy(16);
    p.resolution_timeout_nanos = 0;
    let (state, step) = Resolution::start(&name_uri("example.com"), p, 0);
    assert_eq!(step, Step::Fail(ResolutionError::InvalidTimeout { field: "resolution_timeout" }));
    assert_eq!(state.lookups, 0);
    assert_eq!(p.validate(), Err(ResolutionError::InvalidTimeout { field: "resolution_timeout" }));
}

#[test]
fn a_resolution_walks_naptr_srv_and_addresses_then_selects() {
    let uri = name_uri("example.com");
    let (mut state, step) = Resolution::start(&uri, policy(16), 0);
    assert_eq!(step, Step::Ask(Question::Naptr("example.com".to_owned())));
    let mut step = state.step(1, Reply::Naptr(Vec::new()));
    let mut asked = Vec::new();
    while let Step::Ask(question) = step {
        asked.push(question.clone());
        let reply = match &question {
            Question::Srv(name) if name == "_sip._udp.example.com" => Reply::Srv(vec![Srv {
                priority: 1,
                weight: 0,
                port: 5070,
                target: "a.example.com".to_owned(),
            }]),
            Question::Srv(_) => Reply::Srv(Vec::new()),
            Question::Addresses(host) if host == "a.example.com" => {
                Reply::Addresses(vec![IpAddress::V4([192, 0, 2, 1])])
            }
            Question::Addresses(_) => Reply::Addresses(Vec::new()),
            Question::Naptr(_) => Reply::Unavailable,
        };
        step = state.step(2, reply);
    }
    assert_eq!(step, Step::Done);
    assert_eq!(
        asked,
        vec![
            Question::Srv("_sip._tcp.example.com".to_owned()),
            Question::Srv("_sip._udp.example.com".to_owned()),
            Question::Srv("_sips._tcp.example.com".to_owned()),
            Question::Addresses("a.example.com".to_owned()),
            Question::Addresses("example.com".to_owned()),
        ],
        "SRV names, then hosts, each in sorted order"
    );
    assert_eq!(state.lookups, 1 + 3 + 2 * 2);
    let targets = select(&uri, &state.answers, &mut SeededRng::new(1));
    assert_eq!(targets.len(), 1);
    assert_eq!(targets[0].addr, SocketAddress::new(IpAddress::V4([192, 0, 2, 1]), 5070));
}

#[test]
fn the_lookup_limit_stops_the_walk() {
    let (mut state, step) = Resolution::start(&name_uri("example.com"), policy(2), 0);
    assert!(matches!(step, Step::Ask(Question::Naptr(_))));
    let step = state.step(1, Reply::Naptr(Vec::new()));
    assert!(matches!(step, Step::Ask(Question::Srv(_))));
    let step = state.step(1, Reply::Srv(Vec::new()));
    assert_eq!(
        step,
        Step::Fail(ResolutionError::LimitExceeded { limit: "lookups", maximum: 2, observed: 3 })
    );
}

#[test]
fn past_the_deadline_nothing_more_is_asked() {
    let p = policy(16);
    let (mut state, _) = Resolution::start(&name_uri("example.com"), p, 100);
    assert_eq!(state.wait_for(100), p.lookup_timeout_nanos);
    assert_eq!(state.wait_for(100 + p.resolution_timeout_nanos - 5), 5);
    let step = state.step(100 + p.resolution_timeout_nanos, Reply::Naptr(Vec::new()));
    assert_eq!(step, Step::Fail(ResolutionError::ResolutionTimeout));
}

#[test]
fn a_failed_question_is_named() {
    let (mut state, _) = Resolution::start(&name_uri("example.com"), policy(16), 0);
    assert_eq!(
        state.step(1, Reply::TimedOut),
        Step::Fail(ResolutionError::LookupTimeout { query: "example.com".to_owned() })
    );
    let mut uri = name_uri("example.com");
    uri.port = Some(5060);
    let (mut state, step) = Resolution::start(&uri, policy(16), 0);
    assert_eq!(step, Step::Ask(Question::Addresses("example.com".to_owned())));
    assert_eq!(
        state.step(1, Reply::Unavailable),
        Step::Fail(ResolutionError::LookupUnavailable { query: "A/AAAA example.com".to_owned() })
    );
    let (mut state, _) = Resolution::start(&uri, policy(16), 0);
    let many = vec![IpAddress::V4([192, 0, 2, 1]); 5];
    assert_eq!(
        state.step(1, Reply::Addresses(many)),
        Step::Fail(ResolutionError::LimitExceeded { limit: "addresses", maximum: 4, observed: 5 })
    );
}

fn target(transport: TransportKind, name: Option<&str>) -> Target {
    Target {
        addr: SocketAddress::new(IpAddress::V4([192, 0, 2, 7]), 5061),
        transport,
        verify_as: name.map(str::to_owned),
    }
}

#[test]
fn only_a_udp_request_over_the_mtu_is_refused() {
    let udp = target(TransportKind::Udp, None);
    assert!(matches!(
        transmit_plan(&udp, false, 1500, 1300, None, None, false),
        Err(Error::TooLarge { size: 1500, mtu: 1300 })
    ));
    assert!(matches!(
        transmit_plan(&udp, true, 1500, 1300, None, None, false),
        Ok(Plan::Datagram(a)) if a == udp.addr
    ));
}

#[test]
fn a_response_prefers_its_connection_then_the_advertised_address() {
    let tcp = target(TransportKind::Tcp, None);
    assert!(tries_existing(TransportKind::Tcp, true));
    assert!(!tries_existing(TransportKind::Tcp, false));
    assert!(matches!(
        transmit_plan(&tcp, true, 10, 1300, Some(4), None, false),
        Ok(Plan::Existing { generation: 4, .. })
    ));
    let advertised = Target {
        addr: SocketAddress::new(IpAddress::V4([192, 0, 2, 8]), 5060),
        transport: TransportKind::Tcp,
        verify_as: None,
    };
    match transmit_plan(&tcp, true, 10, 1300, None, Some(&advertised), false) {
        Ok(Plan::Open { key, name }) => {
            assert_eq!(key, advertised.connection());
            assert!(name.is_none());
        }
        _ => panic!("a response whose connection is gone goes to the advertised address"),
    }
}

#[test]
fn a_new_tls_connection_needs_a_client_and_verifies_the_name() {
    let tls = target(TransportKind::Tls, Some("sip.example.com"));
    assert!(matches!(
        transmit_plan(&tls, false, 10, 1300, None, None, false),
        Err(Error::UnsupportedTransport(_))
    ));
    match transmit_plan(&tls, false, 10, 1300, None, None, true) {
        Ok(Plan::Open { key, name }) => {
            assert_eq!(key, tls.connection());
            assert_eq!(name.as_deref(), Some("sip.example.com"));
        }
        _ => panic!("a TLS client opens a verified connection"),
    }
    assert!(matches!(
        transmit_plan(&tls, true, 10, 1300, Some(9), None, false),
        Ok(Plan::Existing { generation: 9, .. })
    ));
}

#[test]
fn each_arrival_is_counted_once_against_its_own_transport() {
    let mut meters = Meters::new();
    for _ in 0..7 {
        meters.message_in(TransportKind::Tcp, false);
    }
    meters.message_out(TransportKind::Tcp, true);
    meters.parse_failure(TransportKind::Udp);
    let c = meters.snapshot();
    assert_eq!(c.transport(TransportKind::Tcp).requests_in, 7);
    assert_eq!(c.transport(TransportKind::Tcp).responses_out, 1);
    assert_eq!(c.transport(TransportKind::Udp).requests_in, 0);
    assert_eq!(c.transport(TransportKind::Udp).parse_failures, 1);
    assert_eq!(c.messages_in(), 7);
    assert_eq!(c.parse_failures(), 1);
}

use sipx_transport::addr_text::ip_text;
use sipx_transport::destination::route_candidates;
use sipx_transport::dns::Prefetched;

fn text(ip: IpAddress) -> String {
    String::from_utf8(ip_text(&ip)).expect("ascii")
}

fn v6(groups: [u16; 8]) -> IpAddress {
    let mut o = [0u8; 16];
    for (i, g) in groups.iter().enumerate() {
        o[2 * i] = (g >> 8) as u8;
        o[2 * i + 1] = (g & 0xff) as u8;
    }
    IpAddress::V6(o)
}

#[test]
fn addresses_are_written_as_the_standard_text() {
    assert_eq!(text(IpAddress::V4([203, 0, 113, 9])), "203.0.113.9");
    assert_eq!(text(IpAddress::V4([0, 0, 0, 0])), "0.0.0.0");
    assert_eq!(text(v6([0x2001, 0xdb8, 0, 0, 0, 0, 0, 1])), "2001:db8::1");
    assert_eq!(text(v6([0; 8])), "::");
    assert_eq!(text(v6([0, 0, 0, 0, 0, 0, 0, 1])), "::1");
    assert_eq!(text(v6([1, 0, 0, 0, 0, 0, 0, 0])), "1::");
    assert_eq!(text(v6([1, 0, 2, 3, 4, 5, 6, 7])), "1:0:2:3:4:5:6:7", "a lone zero is kept");
    assert_eq!(text(v6([1, 0, 0, 2, 0, 0, 3, 4])), "1::2:0:0:3:4", "the first of two equal runs");
    assert_eq!(text(v6([1, 0, 0, 2, 0, 0, 0, 4])), "1:0:0:2::4", "the longest run");
    assert_eq!(text(v6([0, 0, 0, 0, 0, 0xffff, 0xc000, 0x0280])), "::ffff:192.0.2.128");
    assert_eq!(text(v6([0xfe80, 0, 0, 0, 0xabc, 0xdef, 0x12, 0x3456])), "fe80::abc:def:12:3456");
}

#[test]
fn the_identity_is_the_uri_host_even_through_a_next_hop() {
    let mut answers = Prefetched::new();
    answers
        .addresses
        .push(("proxy.example.net".to_owned(), vec![IpAddress::V4([192, 0, 2, 40])]));
    let uri = SipUri::new(true, Host::Name("bob.example.com".to_owned()));
    let targets = route_candidates(
        &uri,
        Some((Host::Name("proxy.example.net".to_owned()), Some(5061))),
        None,
        &answers,
        &mut SeededRng::new(1),
    )
    .expect("no transport was required");
    assert_eq!(targets.len(), 1);
    assert_eq!(targets[0].addr, SocketAddress::new(IpAddress::V4([192, 0, 2, 40]), 5061));
    assert_eq!(targets[0].transport, TransportKind::Tls);
    assert_eq!(targets[0].verify_as.as_deref(), Some("bob.example.com"));
}

#[test]
fn a_required_transport_restricts_discovery_to_it() {
    let mut answers = Prefetched::new();
    answers.srv.push((
        "_sip._tcp.example.com".to_owned(),
        vec![Srv { priority: 1, weight: 0, port: 5070, target: "t.example.com".to_owned() }],
    ));
    answers.addresses.push(("t.example.com".to_owned(), vec![IpAddress::V4([192, 0, 2, 60])]));
    let uri = name_uri("example.com");
    let targets = route_candidates(&uri, None, Some(TransportKind::Tcp), &answers, &mut SeededRng::new(1))
        .expect("nothing contradicts it");
    assert_eq!(targets.len(), 1);
    assert_eq!(targets[0].transport, TransportKind::Tcp);
    assert_eq!(targets[0].addr, SocketAddress::new(IpAddress::V4([192, 0, 2, 60]), 5070));

    let mut udp = name_uri("example.com");
    udp.transport = Some(b"udp".to_vec());
    assert!(route_candidates(&udp, None, Some(TransportKind::Tcp), &answers, &mut SeededRng::new(1)).is_err());
    let mut tcp = name_uri("example.com");
    tcp.transport = Some(b"TCP".to_vec());
    assert!(route_candidates(&tcp, None, Some(TransportKind::Tcp), &answers, &mut SeededRng::new(1)).is_ok());
}
