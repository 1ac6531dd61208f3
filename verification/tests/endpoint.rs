use sipx_transport::addr::{IpAddress, SocketAddress};
use sipx_transport::destination::{first, narrowed, route_uri, with_identity, Error as DestinationError, Kind};
use sipx_transport::dns::{ResolutionError, ResolutionLimits, ResolutionPolicy};
use sipx_transport::endpoint::{advertised_port, branch_for, new_branch, Config, SentBy};
use sipx_transport::error::Error;
use sipx_transport::overload::{
    advertisement_bytes, feedback_offered, feedback_parameters_bytes, rewrite_top_via,
    OverloadAlgorithm, OverloadConfig, OverloadFeedback,
};
use sipx_transport::policy::{SourceAdmission, SourcePrefix};
use sipx_transport::quic::{declared_content_length, take_response, FramingError, LengthError, QuicError};
use sipx_transport::sip::{Host, SipUri};
use sipx_transport::target::{Target, TransportKind};
use sipx_transport::tcp::{reusable, Origin, PoolConfig};
use sipx_transport::ws::{invented_sent_by, invented_sent_by_for, offers_sip};

fn v4(a: [u8; 4]) -> IpAddress {
    IpAddress::V4(a)
}

const LOCALHOST: [u8; 4] = [127, 0, 0, 1];
const UNSPECIFIED: [u8; 4] = [0, 0, 0, 0];

#[test]
fn prefixes_match_only_their_network_and_family() {
    let prefix = SourcePrefix::new(v4([192, 0, 2, 0]), 24).unwrap();
    assert!(prefix.contains(v4([192, 0, 2, 42])));
    assert!(!prefix.contains(v4([192, 0, 3, 1])));
    let mut loopback6 = [0u8; 16];
    loopback6[15] = 1;
    assert!(!prefix.contains(IpAddress::V6(loopback6)));
    assert!(SourcePrefix::new(v4([192, 0, 2, 0]), 33).is_none(), "longer than the address");
}

#[test]
fn replacement_publishes_complete_generations() {
    let mut admission = SourceAdmission::default();
    assert_eq!(admission.decide(v4(LOCALHOST)), Some(0));
    let one = admission.replace(vec![SourcePrefix::address(v4(LOCALHOST))]).unwrap();
    assert_eq!(admission.decide(v4(LOCALHOST)), Some(one));
    assert_eq!(admission.decide(v4(UNSPECIFIED)), None);
    let two = admission.clear();
    assert!(two > one);
    assert_eq!(admission.decide(v4(UNSPECIFIED)), Some(two));
}

#[test]
fn oversized_replacement_preserves_the_old_generation() {
    let mut admission = SourceAdmission::new(1);
    let first = admission.replace(vec![SourcePrefix::address(v4(LOCALHOST))]).unwrap();
    let error = admission
        .replace(vec![SourcePrefix::address(v4(LOCALHOST)), SourcePrefix::address(v4(UNSPECIFIED))])
        .unwrap_err();
    assert!(matches!(error, Error::SourceAdmissionCapacity { max: 1, attempted: 2 }));
    assert_eq!(admission.decide(v4(LOCALHOST)), Some(first));
    assert_eq!(admission.decide(v4(UNSPECIFIED)), None);
}

#[test]
fn a_next_hop_does_not_replace_the_request_scheme_or_transport() {
    let mut uri = SipUri::new(true, Host::Name("example.test".to_owned()));
    uri.transport = Some(b"tcp".to_vec());
    let route = route_uri(&uri, Host::Name("proxy.test".to_owned()), Some(7443));
    assert!(route.secure);
    assert_eq!(route.host, Some(Host::Name("proxy.test".to_owned())));
    assert_eq!(route.port, Some(7443));
    assert_eq!(route.transport, Some(b"tcp".to_vec()));
}

#[test]
fn a_next_hop_without_a_port_retains_the_uri_port() {
    let mut uri = SipUri::new(false, Host::Name("example.test".to_owned()));
    uri.port = Some(5090);
    let route = route_uri(&uri, Host::Name("proxy.test".to_owned()), None);
    assert_eq!(route.port, Some(5090));
}

#[test]
fn a_next_hop_does_not_become_the_verification_identity() {
    let candidates = vec![
        Target::new(SocketAddress::new(v4([192, 0, 2, 8]), 5061), TransportKind::Tls),
        Target::new(SocketAddress::new(v4([192, 0, 2, 8]), 5060), TransportKind::Udp),
    ];
    let out = with_identity(candidates, "pbx.example");
    assert_eq!(out[0].verify_as.as_deref(), Some("pbx.example"));
    assert_eq!(out[0].addr, SocketAddress::new(v4([192, 0, 2, 8]), 5061));
    assert_eq!(out[1].verify_as, None, "nothing is verified in cleartext");
    assert_eq!(first(&out).unwrap().transport, TransportKind::Tls);
    assert!(matches!(first(&[]), Err(DestinationError::Input { .. })));
}

fn limits() -> ResolutionLimits {
    ResolutionLimits {
        max_lookups: 16,
        max_naptr_records: 16,
        max_srv_records: 16,
        max_addresses: 16,
    }
}

#[test]
fn a_budget_is_a_ceiling_over_both_resolution_deadlines() {
    let default = ResolutionPolicy::new(limits());

    let generous = narrowed(default, Some(60_000_000_000));
    assert_eq!(generous.resolution_timeout_nanos, default.resolution_timeout_nanos);
    assert_eq!(generous.lookup_timeout_nanos, default.lookup_timeout_nanos);

    let tight = narrowed(default, Some(500_000_000));
    assert_eq!(tight.resolution_timeout_nanos, 500_000_000);
    assert_eq!(tight.lookup_timeout_nanos, 500_000_000);

    let stated_none = narrowed(default, None);
    assert_eq!(stated_none, default);

    let tiny = narrowed(default, Some(1));
    assert_eq!(tiny.resolution_timeout_nanos, 1_000_000, "never below a millisecond");
}

#[test]
fn resolution_deadlines_and_failures_are_classified_apart() {
    assert_eq!(DestinationError::Resolution(ResolutionError::ResolutionTimeout).kind(), Kind::Timeout);
    assert_eq!(
        DestinationError::Resolution(ResolutionError::LookupTimeout {
            query: "A/AAAA example.test".to_owned()
        })
        .kind(),
        Kind::Timeout
    );
    assert_eq!(
        DestinationError::Resolution(ResolutionError::LookupUnavailable {
            query: "A/AAAA example.test".to_owned()
        })
        .kind(),
        Kind::Resolution
    );
    assert_eq!(
        DestinationError::Input {
            message: "bad target".to_owned()
        }
        .kind(),
        Kind::Input
    );
    assert_eq!(
        DestinationError::Setup {
            message: "no nameservers".to_owned()
        }
        .kind(),
        Kind::Setup
    );
}

#[test]
fn via_branch_keeps_the_cookie_and_sixty_four_bits_of_hex() {
    for _ in 0..64 {
        let branch = new_branch();
        let random = branch.strip_prefix("z9hG4bK").expect("the RFC 3261 magic cookie");
        assert_eq!(random.len(), 16, "exactly 64 bits in hexadecimal");
        assert!(random.bytes().all(|b| b.is_ascii_hexdigit() && !b.is_ascii_uppercase()));
    }
    assert_ne!(new_branch(), new_branch());
    assert_eq!(branch_for(0xdead_beef), "z9hG4bK00000000deadbeef");
    assert_eq!(branch_for(u64::MAX), "z9hG4bKffffffffffffffff");
}

#[test]
fn the_default_configuration_is_valid_and_each_limit_is_named() {
    let bind = SocketAddress::new(v4(LOCALHOST), 5060);
    let config = Config::new(bind);
    assert!(config.validate().is_ok());
    assert_eq!(config.sent_by, "127.0.0.1");
    assert_eq!(advertised_port(config.sent_by_port, 40123), 40123);
    assert_eq!(advertised_port(Some(0), 40123), 40123, "port 0 asks for any port");
    assert_eq!(advertised_port(Some(5080), 40123), 5080);

    let mut zero = config.clone();
    zero.capacity = 0;
    assert!(matches!(
        zero.validate(),
        Err(Error::InvalidConfig { field: "capacity", .. })
    ));

    let mut loss = config.clone();
    loss.overload.feedback = OverloadFeedback::Loss(101);
    assert!(matches!(
        loss.validate(),
        Err(Error::InvalidConfig { field: "overload.feedback", .. })
    ));

    let mut tolerance = config.clone();
    tolerance.overload.rate_priority_tolerance_intervals = tolerance.overload.rate_tolerance_intervals;
    assert!(matches!(
        tolerance.validate(),
        Err(Error::InvalidConfig { field: "overload.rate_priority_tolerance_intervals", .. })
    ));

    let mut validity = config;
    validity.overload.validity_nanos = 999_999;
    assert!(matches!(
        validity.validate(),
        Err(Error::InvalidConfig { reason: "must be at least one millisecond", .. })
    ));
}

#[test]
fn the_sent_by_depends_on_the_transport() {
    let sent_by = SentBy {
        host: "host.example".to_owned(),
        port: 5060,
        tls_port: Some(5061),
        listens_for_ws: false,
        ws_sent_by: "abc.invalid".to_owned(),
    };
    assert_eq!(sent_by.sent_by_for(TransportKind::Udp), "host.example:5060");
    assert_eq!(sent_by.sent_by_for(TransportKind::Tls), "host.example:5061");
    assert_eq!(sent_by.sent_by_for(TransportKind::Ws), "abc.invalid");
}

#[test]
fn the_subprotocol_is_found_however_it_is_offered() {
    assert!(offers_sip(&vec![b"sip".to_vec()]));
    assert!(
        offers_sip(&vec![b"chat, SIP, echo".to_vec()]),
        "comma-separated, and case is not part of it"
    );
    assert!(offers_sip(&vec![b"chat".to_vec(), b"sip".to_vec()]), "repeated headers are one list");
    assert!(!offers_sip(&vec![b"chat, sipx".to_vec()]), "a longer token is a different token");
    assert!(!offers_sip(&vec![]), "offering none is not offering sip");
}

#[test]
fn an_invented_sent_by_is_unresolvable_and_unique() {
    let one = invented_sent_by();
    assert!(one.ends_with(".invalid"), "{one}");
    assert_ne!(one, invented_sent_by());
    assert_eq!(invented_sent_by_for(255), "00000000000000ff.invalid");
}

#[test]
fn client_and_server_generate_only_the_parameters_their_role_owns() {
    assert_eq!(advertisement_bytes(), b";oc;oc-algo=\"loss,rate\"".to_vec());
    assert_eq!(
        feedback_parameters_bytes(OverloadFeedback::Rate(150), 1_000_000_000, b"2.0"),
        b";oc=150;oc-algo=\"rate\";oc-validity=1000;oc-seq=2.0".to_vec()
    );
    let via = b"SIP/2.0/UDP client.example;branch=z9hG4bKx;oc=9;oc-algo=loss;oc-validity=1;oc-seq=1.0";
    let rewritten = rewrite_top_via(via, via.len(), b";oc");
    assert_eq!(rewritten, b"SIP/2.0/UDP client.example;branch=z9hG4bKx;oc".to_vec());
}

#[test]
fn feedback_is_sent_only_with_an_offered_algorithm() {
    let offered = [OverloadAlgorithm::Loss, OverloadAlgorithm::Rate];
    assert!(feedback_offered(true, &offered, OverloadFeedback::Loss(50)));
    assert!(!feedback_offered(false, &offered, OverloadFeedback::Loss(50)));
    assert!(!feedback_offered(true, &[OverloadAlgorithm::Loss], OverloadFeedback::Rate(10)));
    assert_eq!(OverloadConfig::default().feedback, OverloadFeedback::Loss(100));
}

#[test]
fn a_response_is_framed_by_its_content_length() {
    let one = b"SIP/2.0 180 Ringing\r\nContent-Length: 3\r\n\r\nabcSIP/2.0 200";
    assert_eq!(take_response(one, false, 1024), Ok(Some(45)));
    let open = b"SIP/2.0 200 OK\r\n\r\nbody";
    assert_eq!(take_response(open, false, 1024), Ok(None), "the end of the stream delimits it");
    assert_eq!(take_response(open, true, 1024), Ok(Some(open.len())));
    assert_eq!(take_response(b"", true, 1024), Ok(None));
    assert_eq!(take_response(b"garbage", true, 1024), Err(FramingError::NoHeader));
    let short = b"SIP/2.0 200 OK\r\nl: 10\r\n\r\nab";
    assert_eq!(take_response(short, true, 1024), Err(FramingError::Truncated));
    assert_eq!(take_response(one, false, 10), Err(FramingError::TooLarge));
}

#[test]
fn a_content_length_is_read_once_and_strictly() {
    assert_eq!(declared_content_length(b"SIP/2.0 200 OK\r\nContent-Length: 12"), Ok(Some(12)));
    assert_eq!(declared_content_length(b"SIP/2.0 200 OK\r\nl:7"), Ok(Some(7)));
    assert_eq!(declared_content_length(b"SIP/2.0 200 OK"), Ok(None));
    assert_eq!(
        declared_content_length(b"SIP/2.0 200 OK\r\nl: 1\r\nContent-Length: 1"),
        Err(LengthError::Repeated)
    );
    assert_eq!(
        declared_content_length(b"SIP/2.0 200 OK\r\nContent-Length: x"),
        Err(LengthError::Invalid)
    );
}

#[test]
fn a_handshake_failure_is_classified_by_its_detail() {
    let e = QuicError::handshake("p".to_owned(), "certificate NotValidForName".to_owned());
    assert!(matches!(e, QuicError::WrongHost { .. }));
    let e = QuicError::handshake("p".to_owned(), "invalid peer certificate: UnknownIssuer".to_owned());
    assert!(matches!(e, QuicError::UnknownIssuer { .. }));
    let e = QuicError::handshake("p".to_owned(), "peer doesn't support any known protocol".to_owned());
    assert!(matches!(e, QuicError::WrongAlpn { .. }));
    let e = QuicError::handshake("p".to_owned(), "timed out".to_owned());
    assert!(matches!(e, QuicError::Handshake { .. }));
}

#[test]
fn an_inbound_connection_is_not_reused_for_outbound_requests_by_default() {
    let config = PoolConfig::default();
    assert!(reusable(Origin::Outbound, true, &config));
    assert!(!reusable(Origin::Inbound, true, &config));
    assert!(!reusable(Origin::Outbound, false, &config));
    let config = PoolConfig {
        reuse_inbound_for_outbound: true,
        ..config
    };
    assert!(reusable(Origin::Inbound, true, &config));
}

use sipx_transport::tls::{verification_name, TlsError};

#[test]
fn a_hostname_is_a_usable_verification_name() {
    assert!(verification_name("sip.example.com").is_ok());
    assert!(verification_name("example.com").is_ok());
    assert_eq!(verification_name("example.com").unwrap(), "example.com");
}

#[test]
fn an_address_is_accepted_as_a_name() {
    assert!(verification_name("192.0.2.1").is_ok());
}

#[test]
fn something_that_is_not_a_name_is_refused_by_name() {
    let error = verification_name("not a hostname!").expect_err("refused");
    assert_eq!(error, TlsError::UnusableName("not a hostname!".to_owned()));
}

use sipx_transport::ws::{frame_kind, FrameKind};

#[test]
fn a_sip_message_travels_as_text() {
    let options = b"OPTIONS sip:a@b.com SIP/2.0\r\nContent-Length: 0\r\n\r\n";
    assert_eq!(frame_kind(options), FrameKind::Text);
}

#[test]
fn a_binary_body_travels_as_binary() {
    assert_eq!(frame_kind(b"MESSAGE sip:a SIP/2.0\r\n\r\n\xff\xfe"), FrameKind::Binary);
}

use sipx_transport::ws::upgrade_target;

#[test]
fn the_upgrade_asks_for_the_resource_it_was_given() {
    let target = upgrade_target("127.0.0.1:8088", "/ws", false);
    assert_eq!(target, "ws://127.0.0.1:8088/ws");
    let uri: tokio_tungstenite::tungstenite::http::Uri = target.parse().expect("a URI");
    assert_eq!(uri.path(), "/ws");
    assert_eq!(uri.authority().map(|a| a.as_str()), Some("127.0.0.1:8088"));
}

#[test]
fn the_root_is_still_what_a_caller_naming_nothing_asks_for() {
    assert_eq!(upgrade_target("127.0.0.1:5060", "/", false), "ws://127.0.0.1:5060/");
}

#[test]
fn a_secure_upgrade_keeps_the_resource() {
    assert_eq!(upgrade_target("sipx.test:443", "/ws", true), "wss://sipx.test:443/ws");
}

#[test]
fn a_query_string_survives_the_handshake() {
    let target = upgrade_target("127.0.0.1:8088", "/ws?token=abc", false);
    let uri: tokio_tungstenite::tungstenite::http::Uri = target.parse().expect("a URI");
    assert_eq!(uri.path(), "/ws");
    assert_eq!(uri.query(), Some("token=abc"));
}

use sipx_transport::policy::{connection_event, ConnectionState};
use sipx_transport::target::ConnectionKey;

#[test]
fn a_connection_transition_names_its_incarnation() {
    let key = ConnectionKey::new(SocketAddress::new(v4([192, 0, 2, 1]), 5060), TransportKind::Tcp);
    let event = connection_event(key.clone(), 7, Some(3), ConnectionState::Opened);
    assert_eq!(event.connection.key, key);
    assert_eq!(event.connection.generation, 7);
    assert_eq!(event.connection.admission_generation, Some(3));
    assert_eq!(event.state, ConnectionState::Opened);
}

const IDENTIFIER_SAMPLE_SIZE: u64 = 4096;

fn bit_counts(values: impl IntoIterator<Item = u64>) -> [usize; 64] {
    let mut counts = [0; 64];
    for value in values {
        for (bit, count) in counts.iter_mut().enumerate() {
            *count += usize::from(value & (1_u64 << bit) != 0);
        }
    }
    counts
}

fn assert_full_width(counts: &[usize; 64], subject: &str) {
    for (bit, ones) in counts.iter().copied().enumerate() {
        assert!(
            (1664..=2432).contains(&ones),
            "{subject} bit {bit} had {ones} ones in {IDENTIFIER_SAMPLE_SIZE} samples"
        );
    }
}

/// The sixteen hexadecimal digits after the magic cookie are 64 random bits: every bit's
/// balance over a sample catches a truncated value and a counter whose high bits never change.
#[test]
fn via_branch_keeps_the_cookie_and_all_sixty_four_random_bits() {
    let values = (0..IDENTIFIER_SAMPLE_SIZE).map(|_| {
        let branch = new_branch();
        let random = branch
            .strip_prefix("z9hG4bK")
            .expect("the RFC 3261 magic cookie");
        assert_eq!(random.len(), 16, "exactly 64 bits in hexadecimal");
        assert!(
            random
                .bytes()
                .all(|byte| byte.is_ascii_hexdigit() && !byte.is_ascii_uppercase()),
            "the random portion is canonical lowercase hexadecimal: {random}"
        );
        u64::from_str_radix(random, 16).expect("the generator wrote hexadecimal")
    });
    assert_full_width(&bit_counts(values), "Via branch");
}

/// The balance check detects the cheaper counter substitution.
#[test]
fn the_width_guard_rejects_a_counter() {
    let counts = bit_counts(0..IDENTIFIER_SAMPLE_SIZE);
    assert!(
        counts.iter().any(|ones| !(1664..=2432).contains(ones)),
        "a 12-bit counter must not look like a 64-bit generator"
    );
}

#[test]
fn only_well_formed_utf8_travels_as_text() {
    assert_eq!(frame_kind("na\u{ef}ve \u{2713} \u{1d11e}".as_bytes()), FrameKind::Text);
    assert_eq!(frame_kind(&[0xc0, 0xaf]), FrameKind::Binary, "an overlong form");
    assert_eq!(frame_kind(&[0xed, 0xa0, 0x80]), FrameKind::Binary, "a surrogate");
    assert_eq!(frame_kind(&[0xf4, 0x90, 0x80, 0x80]), FrameKind::Binary, "past U+10FFFF");
    assert_eq!(frame_kind(&[0xe2, 0x9c]), FrameKind::Binary, "a truncated sequence");
}
