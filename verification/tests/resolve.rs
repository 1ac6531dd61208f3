use std::collections::HashMap;

use sipx_transport::addr::{IpAddress, SocketAddress};
use sipx_transport::resolve::{
    choose_index, resolve, weighted_shuffle, Naptr, Resolver, Rng, SeededRng, Srv,
};
use sipx_transport::sip::{Host, SipUri};
use sipx_transport::target::TransportKind;

#[derive(Debug, Default)]
struct Fixture {
    naptr: HashMap<String, Vec<Naptr>>,
    srv: HashMap<String, Vec<Srv>>,
    addresses: HashMap<String, Vec<IpAddress>>,
}

impl Fixture {
    fn with_address(mut self, host: &str, addr: [u8; 4]) -> Self {
        self.addresses
            .entry(host.to_owned())
            .or_default()
            .push(IpAddress::V4(addr));
        self
    }

    fn with_srv(mut self, name: &str, records: Vec<Srv>) -> Self {
        self.srv.insert(name.to_owned(), records);
        self
    }

    fn with_naptr(mut self, domain: &str, records: Vec<Naptr>) -> Self {
        self.naptr.insert(domain.to_owned(), records);
        self
    }
}

impl Resolver for Fixture {
    fn naptr(&self, domain: &str) -> Vec<Naptr> {
        self.naptr.get(domain).cloned().unwrap_or_default()
    }
    fn srv(&self, name: &str) -> Vec<Srv> {
        self.srv.get(name).cloned().unwrap_or_default()
    }
    fn addresses(&self, host: &str) -> Vec<IpAddress> {
        self.addresses.get(host).cloned().unwrap_or_default()
    }
}

fn name_uri(secure: bool, name: &str) -> SipUri {
    SipUri::new(secure, Host::Name(name.to_owned()))
}

fn srv(priority: u16, weight: u16, port: u16, target: &str) -> Srv {
    Srv {
        priority,
        weight,
        port,
        target: target.to_owned(),
    }
}

fn naptr(order: u16, service: &str, replacement: &str) -> Naptr {
    Naptr {
        order,
        preference: 10,
        service: service.to_owned(),
        replacement: replacement.to_owned(),
    }
}

fn v4(a: [u8; 4], port: u16) -> SocketAddress {
    SocketAddress::new(IpAddress::V4(a), port)
}

#[test]
fn an_ip_literal_short_circuits_resolution() {
    let mut uri = SipUri::new(false, Host::Ip(IpAddress::V4([192, 0, 2, 10])));
    uri.port = Some(5080);
    let targets = resolve(&uri, &Fixture::default(), &mut SeededRng::new(1));
    assert_eq!(targets.len(), 1);
    assert_eq!(targets[0].addr, v4([192, 0, 2, 10], 5080));
    assert_eq!(targets[0].transport, TransportKind::Udp);
}

#[test]
fn an_ip_literal_without_a_port_uses_the_transport_default() {
    let uri = SipUri::new(true, Host::Ip(IpAddress::V4([192, 0, 2, 10])));
    let targets = resolve(&uri, &Fixture::default(), &mut SeededRng::new(1));
    assert_eq!(targets[0].addr.port, 5061);
    assert_eq!(targets[0].transport, TransportKind::Tls);
}

#[test]
fn an_explicit_port_skips_srv_but_not_the_address_lookup() {
    let fixture = Fixture::default()
        .with_address("example.com", [192, 0, 2, 20])
        .with_srv("_sip._udp.example.com", vec![srv(1, 1, 9999, "wrong.com")]);
    let mut uri = name_uri(false, "example.com");
    uri.port = Some(5080);
    let targets = resolve(&uri, &fixture, &mut SeededRng::new(1));
    assert_eq!(targets.len(), 1);
    assert_eq!(
        targets[0].addr,
        v4([192, 0, 2, 20], 5080),
        "the SRV port must not override an explicit one"
    );
}

#[test]
fn naptr_chooses_the_transport_and_srv_the_port() {
    let fixture = Fixture::default()
        .with_naptr(
            "example.com",
            vec![
                naptr(20, "SIP+D2U", "_sip._udp.example.com"),
                naptr(10, "SIP+D2T", "_sip._tcp.example.com"),
            ],
        )
        .with_srv("_sip._tcp.example.com", vec![srv(1, 0, 5060, "tcp.example.com")])
        .with_srv("_sip._udp.example.com", vec![srv(1, 0, 5060, "udp.example.com")])
        .with_address("tcp.example.com", [192, 0, 2, 30])
        .with_address("udp.example.com", [192, 0, 2, 31]);

    let targets = resolve(&name_uri(false, "example.com"), &fixture, &mut SeededRng::new(1));
    assert_eq!(
        targets[0].transport,
        TransportKind::Tcp,
        "order 10 is preferred over order 20"
    );
    assert_eq!(targets[0].addr, v4([192, 0, 2, 30], 5060));
    assert_eq!(targets[1].transport, TransportKind::Udp);
}

#[test]
fn sips_never_yields_a_cleartext_candidate() {
    let fixture = Fixture::default()
        .with_naptr(
            "secure.example",
            vec![
                naptr(10, "SIP+D2U", "_sip._udp.secure.example"),
                naptr(20, "SIPS+D2T", "_sips._tcp.secure.example"),
            ],
        )
        .with_srv("_sip._udp.secure.example", vec![srv(1, 0, 5060, "plain.secure.example")])
        .with_srv("_sips._tcp.secure.example", vec![srv(1, 0, 5061, "tls.secure.example")])
        .with_address("plain.secure.example", [192, 0, 2, 40])
        .with_address("tls.secure.example", [192, 0, 2, 41]);

    let targets = resolve(&name_uri(true, "secure.example"), &fixture, &mut SeededRng::new(1));
    assert!(!targets.is_empty(), "TLS is available and must be found");
    for target in &targets {
        assert!(
            matches!(target.transport, TransportKind::Tls | TransportKind::Wss),
            "sips must not yield {:?}",
            target.transport
        );
    }
}

#[test]
fn sips_with_no_tls_available_yields_nothing_rather_than_downgrading() {
    let fixture = Fixture::default()
        .with_naptr("plain.example", vec![naptr(10, "SIP+D2U", "_sip._udp.plain.example")])
        .with_srv("_sip._udp.plain.example", vec![srv(1, 0, 5060, "host.plain.example")]);
    let targets = resolve(&name_uri(true, "plain.example"), &fixture, &mut SeededRng::new(1));
    assert!(targets.is_empty());
}

#[test]
fn an_explicit_transport_parameter_skips_naptr() {
    let fixture = Fixture::default()
        .with_naptr("example.com", vec![naptr(10, "SIP+D2U", "_sip._udp.example.com")])
        .with_srv("_sip._tcp.example.com", vec![srv(1, 0, 5060, "t.example.com")])
        .with_address("t.example.com", [192, 0, 2, 50]);
    let mut uri = name_uri(false, "example.com");
    uri.transport = Some(b"tcp".to_vec());
    let targets = resolve(&uri, &fixture, &mut SeededRng::new(1));
    assert_eq!(targets.len(), 1);
    assert_eq!(targets[0].transport, TransportKind::Tcp);
}

#[test]
fn priority_is_absolute_and_weight_only_orders_within_it() {
    let fixture = Fixture::default()
        .with_srv(
            "_sip._udp.example.com",
            vec![srv(20, 100, 5060, "low.example.com"), srv(10, 1, 5060, "high.example.com")],
        )
        .with_address("low.example.com", [192, 0, 2, 60])
        .with_address("high.example.com", [192, 0, 2, 61]);

    for seed in 0..20 {
        let targets = resolve(&name_uri(false, "example.com"), &fixture, &mut SeededRng::new(seed));
        assert_eq!(
            targets[0].addr.ip,
            IpAddress::V4([192, 0, 2, 61]),
            "priority 10 always precedes priority 20, whatever the weights"
        );
    }
}

#[test]
fn srv_weighted_selection_matches_rfc2782_distribution() {
    let records = vec![srv(1, 10, 5060, "light.example"), srv(1, 90, 5060, "heavy.example")];

    let mut light_first: i32 = 0;
    let draws: i32 = 4000;
    for seed in 0..u64::try_from(draws).unwrap_or(0) {
        let mut rng = SeededRng::new(seed);
        let ordered = weighted_shuffle(records.clone(), &mut rng);
        if ordered.first().map(|r| r.target.as_str()) == Some("light.example") {
            light_first += 1;
        }
    }

    let share = f64::from(light_first) / f64::from(draws);
    assert!(
        (0.05..0.16).contains(&share),
        "a weight of 10 against 90 should win about a tenth of the time, got {share}"
    );
}

#[test]
fn a_zero_weight_record_is_still_reachable() {
    let records = vec![srv(1, 0, 5060, "spare.example"), srv(1, 100, 5060, "main.example")];
    let ordered = weighted_shuffle(records, &mut SeededRng::new(7));
    assert_eq!(ordered.len(), 2, "every record appears exactly once");
    assert!(ordered.iter().any(|r| r.target == "spare.example"));
}

#[test]
fn the_shuffle_is_a_permutation() {
    let records = vec![
        srv(1, 1, 5060, "a"),
        srv(1, 2, 5060, "b"),
        srv(1, 3, 5060, "c"),
        srv(1, 0, 5060, "d"),
    ];
    for seed in 0..50 {
        let ordered = weighted_shuffle(records.clone(), &mut SeededRng::new(seed));
        let mut names: Vec<&str> = ordered.iter().map(|r| r.target.as_str()).collect();
        names.sort_unstable();
        assert_eq!(names, vec!["a", "b", "c", "d"]);
    }
}

#[test]
fn a_bare_a_record_is_the_last_resort() {
    let fixture = Fixture::default().with_address("simple.example", [192, 0, 2, 70]);
    let targets = resolve(&name_uri(false, "simple.example"), &fixture, &mut SeededRng::new(1));
    assert_eq!(targets.len(), 1);
    assert_eq!(targets[0].addr, v4([192, 0, 2, 70], 5060));
    assert_eq!(targets[0].transport, TransportKind::Udp);
}

#[test]
fn a_name_that_resolves_to_nothing_yields_no_candidates() {
    let targets = resolve(
        &name_uri(false, "nowhere.example"),
        &Fixture::default(),
        &mut SeededRng::new(1),
    );
    assert!(targets.is_empty());
}

#[test]
fn every_address_of_a_target_becomes_a_candidate() {
    let fixture = Fixture::default()
        .with_srv("_sip._udp.example.com", vec![srv(1, 0, 5060, "multi.example.com")])
        .with_address("multi.example.com", [192, 0, 2, 80])
        .with_address("multi.example.com", [192, 0, 2, 81]);
    let targets = resolve(&name_uri(false, "example.com"), &fixture, &mut SeededRng::new(1));
    assert_eq!(targets.len(), 2);
}

#[test]
fn a_uri_without_a_host_has_no_candidates() {
    let uri = SipUri {
        secure: false,
        host: None,
        port: None,
        transport: None,
    };
    assert!(resolve(&uri, &Fixture::default(), &mut SeededRng::new(1)).is_empty());
}

#[test]
fn the_draw_picks_the_first_record_whose_running_weight_reaches_it() {
    let group = vec![srv(1, 10, 1, "a"), srv(1, 20, 1, "b"), srv(1, 0, 1, "c")];
    assert_eq!(choose_index(&group, 0), 0);
    assert_eq!(choose_index(&group, 10), 0);
    assert_eq!(choose_index(&group, 11), 1);
    assert_eq!(choose_index(&group, 30), 1);
    assert_eq!(choose_index(&group, 31), 2);
}

#[test]
fn the_seeded_generator_stays_in_range() {
    let mut rng = SeededRng::new(42);
    for max in [0u32, 1, 2, 7, 1000] {
        let v = rng.below(max);
        assert!(v <= max);
        if max > 0 {
            assert!(v >= 1);
        }
    }
}

use sipx_transport::dns::Prefetched;
use sipx_transport::resolve::select;

#[test]
fn selection_over_answers_in_hand_follows_priority_then_the_last_resort() {
    let mut answers = Prefetched::new();
    answers.srv.push((
        "_sip._udp.example.com".to_owned(),
        vec![srv(2, 0, 5070, "b.example.com"), srv(1, 0, 5080, "a.example.com")],
    ));
    answers.addresses.push(("a.example.com".to_owned(), vec![IpAddress::V4([192, 0, 2, 1])]));
    answers.addresses.push(("b.example.com".to_owned(), vec![IpAddress::V4([192, 0, 2, 2])]));
    let uri = name_uri(false, "example.com");
    let targets = select(&uri, &answers, &mut SeededRng::new(3));
    assert_eq!(targets.len(), 2);
    assert_eq!(targets[0].addr, v4([192, 0, 2, 1], 5080), "priority 1 first, at its own port");
    assert_eq!(targets[1].addr, v4([192, 0, 2, 2], 5070));

    let mut bare = Prefetched::new();
    bare.addresses.push(("example.com".to_owned(), vec![IpAddress::V4([192, 0, 2, 9])]));
    let targets = select(&name_uri(true, "example.com"), &bare, &mut SeededRng::new(3));
    assert_eq!(targets.len(), 1);
    assert_eq!(targets[0].addr, v4([192, 0, 2, 9], 5061), "the last resort, at the TLS default");
    assert_eq!(targets[0].transport, TransportKind::Tls);
}

/// A generator that always draws the lowest or the highest value it may.
struct Extreme {
    high: bool,
}

impl Rng for Extreme {
    fn below(&mut self, max: u32) -> u32 {
        if self.high {
            max
        } else {
            0
        }
    }
}

#[test]
fn the_draws_decide_the_order_within_a_priority() {
    let group = vec![srv(1, 0, 5060, "spare"), srv(1, 30, 5060, "main"), srv(1, 10, 5060, "side")];
    let low = weighted_shuffle(group.clone(), &mut Extreme { high: false });
    let names: Vec<&str> = low.iter().map(|r| r.target.as_str()).collect();
    assert_eq!(names, vec!["spare", "main", "side"], "a draw of 0 takes the first record left");
    let high = weighted_shuffle(group, &mut Extreme { high: true });
    let names: Vec<&str> = high.iter().map(|r| r.target.as_str()).collect();
    assert_eq!(names, vec!["side", "main", "spare"], "the top draw takes the last weighted record");
}

#[test]
fn a_sips_uri_naming_a_cleartext_transport_resolves_to_nothing() {
    let mut literal = SipUri::new(true, Host::Ip(IpAddress::V4([192, 0, 2, 10])));
    literal.transport = Some(b"udp".to_vec());
    assert!(resolve(&literal, &Fixture::default(), &mut SeededRng::new(1)).is_empty());
    assert!(select(&literal, &Prefetched::new(), &mut SeededRng::new(1)).is_empty());

    let fixture = Fixture::default()
        .with_srv("_sip._tcp.example.com", vec![srv(1, 0, 5060, "t.example.com")])
        .with_address("t.example.com", [192, 0, 2, 50])
        .with_address("example.com", [192, 0, 2, 51]);
    let mut named = name_uri(true, "example.com");
    named.transport = Some(b"tcp".to_vec());
    assert!(resolve(&named, &fixture, &mut SeededRng::new(1)).is_empty());

    let mut secure = SipUri::new(true, Host::Ip(IpAddress::V4([192, 0, 2, 10])));
    secure.transport = Some(b"tls".to_vec());
    let targets = resolve(&secure, &Fixture::default(), &mut SeededRng::new(1));
    assert_eq!(targets.len(), 1);
    assert_eq!(targets[0].transport, TransportKind::Tls);
}
