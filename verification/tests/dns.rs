use sipx_transport::addr::IpAddress;
use sipx_transport::dns::{
    check_record_count, claim_lookups, shortest_ttl, strip_root, Answer, CachedRecords, DnsCache,
    LookupFailure, RecordType, ResolutionError, ResolutionLimits, ResolutionPolicy,
};
use sipx_transport::resolve::Srv;

#[test]
fn the_root_dot_is_stripped_from_dns_names() {
    assert_eq!(strip_root("_sip._udp.example.com."), "_sip._udp.example.com");
    assert_eq!(strip_root("example.com"), "example.com");
    assert_eq!(strip_root(""), "");
}

#[test]
fn the_shortest_ttl_governs_the_set() {
    let max = 3600;
    assert_eq!(shortest_ttl(&[300u32, 60, 900], max), 60);
    assert_eq!(shortest_ttl(&[7200u32], max), max, "a generous TTL is still capped");
    assert_eq!(shortest_ttl(&[], max), max, "no records means the cap");
}

#[test]
fn an_unavailable_server_is_not_an_empty_answer() {
    let empty: Answer<Srv> = Answer::Records(Vec::new());
    let down: Answer<Srv> = Answer::Unavailable;
    assert_ne!(empty, down);
    assert!(down.or_empty().is_empty(), "collapsing is possible, but named");
}

#[test]
fn a_reply_without_soa_or_negative_ttl_is_unavailable() {
    let unreachable = LookupFailure {
        no_records: true,
        soa: false,
        negative_ttl: None,
    };
    assert!(!unreachable.answered());
    assert_eq!(unreachable.classify::<Srv>(), Answer::Unavailable);

    let genuine = LookupFailure {
        no_records: true,
        soa: true,
        negative_ttl: Some(120),
    };
    assert!(genuine.answered());
    assert_eq!(genuine.classify::<Srv>(), Answer::Records(Vec::new()));
    assert_eq!(genuine.negative_ttl(3600), 120);
    assert_eq!(genuine.negative_ttl(60), 60, "capped");

    let soa_only = LookupFailure {
        no_records: true,
        soa: true,
        negative_ttl: None,
    };
    assert_eq!(soa_only.negative_ttl(3600), 30, "thirty seconds without a zone TTL");
}

fn addresses(a: [u8; 4]) -> CachedRecords {
    CachedRecords::Addresses(vec![IpAddress::V4(a)])
}

#[test]
fn a_fresh_entry_is_served_from_cache() {
    let mut cache = DnsCache::new(4);
    cache.store("host.example".to_owned(), RecordType::A, addresses([192, 0, 2, 1]), 1000, 0);
    assert_eq!(
        cache.lookup("host.example", RecordType::A, 999),
        Some(addresses([192, 0, 2, 1]))
    );
    assert_eq!(cache.lookup("host.example", RecordType::Aaaa, 10), None, "another type");
    assert_eq!(cache.lookup("other.example", RecordType::A, 10), None, "another name");
}

#[test]
fn an_expired_entry_is_not_returned() {
    let mut cache = DnsCache::new(4);
    cache.store("host.example".to_owned(), RecordType::A, addresses([192, 0, 2, 1]), 1000, 0);
    assert_eq!(cache.lookup("host.example", RecordType::A, 1000), None);
    assert_eq!(cache.lookup("host.example", RecordType::A, 10), None, "and it is gone");
}

#[test]
fn a_second_store_replaces_the_first() {
    let mut cache = DnsCache::new(4);
    cache.store("h".to_owned(), RecordType::A, addresses([192, 0, 2, 1]), 1000, 0);
    cache.store("h".to_owned(), RecordType::A, addresses([192, 0, 2, 2]), 1000, 5);
    assert_eq!(cache.lookup("h", RecordType::A, 6), Some(addresses([192, 0, 2, 2])));
}

#[test]
fn a_full_cache_evicts_the_least_recently_used() {
    let mut cache = DnsCache::new(2);
    cache.store("a".to_owned(), RecordType::A, addresses([192, 0, 2, 1]), 1000, 0);
    cache.store("b".to_owned(), RecordType::A, addresses([192, 0, 2, 2]), 1000, 0);
    assert!(cache.lookup("a", RecordType::A, 1).is_some(), "a is now the most recent");
    cache.store("c".to_owned(), RecordType::A, addresses([192, 0, 2, 3]), 1000, 2);
    assert!(cache.lookup("b", RecordType::A, 3).is_none(), "b was the least recently used");
    assert!(cache.lookup("a", RecordType::A, 3).is_some());
    assert!(cache.lookup("c", RecordType::A, 3).is_some());
}

#[test]
fn a_cache_of_capacity_zero_holds_nothing() {
    let mut cache = DnsCache::new(0);
    cache.store("a".to_owned(), RecordType::A, addresses([192, 0, 2, 1]), 1000, 0);
    assert!(cache.lookup("a", RecordType::A, 1).is_none());
}

#[test]
fn a_negative_answer_is_cached_as_no_records() {
    let mut cache = DnsCache::new(2);
    cache.store("gone".to_owned(), RecordType::Srv, CachedRecords::Srv(Vec::new()), 30_000, 0);
    assert_eq!(
        cache.lookup("gone", RecordType::Srv, 1),
        Some(CachedRecords::Srv(Vec::new()))
    );
}

#[test]
fn the_lookup_budget_is_enforced() {
    let policy = ResolutionPolicy::new(ResolutionLimits {
        max_lookups: 3,
        max_naptr_records: 10,
        max_srv_records: 10,
        max_addresses: 10,
    });
    assert_eq!(policy.validate(), Ok(()));
    let limits = policy.limits;
    let mut used = 0usize;
    assert_eq!(claim_lookups(&mut used, 2, limits), Ok(()));
    assert_eq!(used, 2);
    assert!(matches!(
        claim_lookups(&mut used, 2, limits),
        Err(ResolutionError::LimitExceeded { .. })
    ));
    assert_eq!(check_record_count("records", 10, 10), Ok(()));
    assert!(check_record_count("records", 11, 10).is_err());
}

#[test]
fn a_zero_deadline_is_refused_by_name() {
    let limits = ResolutionLimits {
        max_lookups: 1,
        max_naptr_records: 1,
        max_srv_records: 1,
        max_addresses: 1,
    };
    let mut policy = ResolutionPolicy::new(limits);
    policy.lookup_timeout_nanos = 0;
    assert_eq!(
        policy.validate(),
        Err(ResolutionError::InvalidTimeout { field: "lookup_timeout" })
    );
    let mut policy = ResolutionPolicy::new(limits);
    policy.resolution_timeout_nanos = 0;
    assert_eq!(
        policy.validate(),
        Err(ResolutionError::InvalidTimeout { field: "resolution_timeout" })
    );
}

use sipx_transport::dns::{combine_addresses, hosts_to_resolve, settle, srv_queries, Prefetched};
use sipx_transport::resolve::{resolve, Naptr, Resolver, SeededRng};
use sipx_transport::sip::{Host, SipUri};
use sipx_transport::target::TransportKind;

fn v4(a: [u8; 4]) -> IpAddress {
    IpAddress::V4(a)
}

#[test]
fn both_address_families_make_one_answer_ipv4_first() {
    let mut six = [0u8; 16];
    six[15] = 1;
    assert_eq!(
        combine_addresses(
            Answer::Records(vec![IpAddress::V6(six)]),
            Answer::Records(vec![v4([192, 0, 2, 1])])
        ),
        Answer::Records(vec![v4([192, 0, 2, 1]), IpAddress::V6(six)])
    );
    assert_eq!(
        combine_addresses(Answer::Unavailable, Answer::Records(vec![v4([192, 0, 2, 1])])),
        Answer::Records(vec![v4([192, 0, 2, 1])]),
        "one family answering is enough"
    );
    assert_eq!(
        combine_addresses(Answer::Unavailable, Answer::Records(vec![])),
        Answer::Unavailable,
        "no addresses and a family that could not be asked is not an empty answer"
    );
    assert_eq!(
        combine_addresses(Answer::Records(vec![]), Answer::Records(vec![])),
        Answer::Records(vec![])
    );
}

#[test]
fn a_failure_to_ask_is_never_remembered() {
    let (answer, hold) = settle::<Srv>(
        Err(LookupFailure {
            no_records: true,
            soa: false,
            negative_ttl: None,
        }),
        3600,
    );
    assert_eq!(answer, Answer::Unavailable);
    assert_eq!(hold, None);

    let (answer, hold) = settle::<Srv>(
        Err(LookupFailure {
            no_records: true,
            soa: true,
            negative_ttl: Some(600),
        }),
        300,
    );
    assert_eq!(answer, Answer::Records(vec![]));
    assert_eq!(hold, Some(300), "a negative answer is capped like a positive one");

    let (answer, hold) = settle(Ok((vec![v4([192, 0, 2, 1])], vec![300, 60])), 3600);
    assert_eq!(answer, Answer::Records(vec![v4([192, 0, 2, 1])]));
    assert_eq!(hold, Some(60));
}

#[test]
fn every_srv_name_is_asked_once() {
    let naptr = vec![Naptr {
        order: 10,
        preference: 10,
        service: "SIP+D2T".to_owned(),
        replacement: "_sip._tcp.example.com".to_owned(),
    }];
    let names = srv_queries(&naptr, "example.com");
    let mut sorted = names.clone();
    sorted.sort();
    assert_eq!(
        sorted,
        vec![
            "_sip._tcp.example.com",
            "_sip._udp.example.com",
            "_sip._ws.example.com",
            "_sips._tcp.example.com",
            "_sips._wss.example.com",
        ],
        "the NAPTR replacement duplicates a conventional name and is asked once"
    );
}

#[test]
fn every_srv_target_and_the_domain_are_resolved_once() {
    let srv = vec![
        (
            "_sip._udp.example.com".to_owned(),
            vec![Srv {
                priority: 1,
                weight: 0,
                port: 5060,
                target: "a.example.com".to_owned(),
            }],
        ),
        (
            "_sip._tcp.example.com".to_owned(),
            vec![
                Srv {
                    priority: 1,
                    weight: 0,
                    port: 5060,
                    target: "a.example.com".to_owned(),
                },
                Srv {
                    priority: 2,
                    weight: 0,
                    port: 5060,
                    target: "b.example.com".to_owned(),
                },
            ],
        ),
    ];
    let mut hosts = hosts_to_resolve("example.com", &srv);
    hosts.sort();
    assert_eq!(hosts, vec!["a.example.com", "b.example.com", "example.com"]);
}

#[test]
fn prefetched_answers_drive_selection() {
    let mut prefetched = Prefetched::new();
    prefetched.srv.push((
        "_sip._udp.example.com".to_owned(),
        vec![Srv {
            priority: 1,
            weight: 0,
            port: 5070,
            target: "a.example.com".to_owned(),
        }],
    ));
    prefetched
        .addresses
        .push(("a.example.com".to_owned(), vec![v4([192, 0, 2, 7])]));
    assert!(prefetched.srv("_sip._tcp.example.com").is_empty());
    let uri = SipUri::new(false, Host::Name("example.com".to_owned()));
    let targets = resolve(&uri, &prefetched, &mut SeededRng::new(1));
    assert_eq!(targets.len(), 1);
    assert_eq!(targets[0].addr.port, 5070);
    assert_eq!(targets[0].transport, TransportKind::Udp);
}
