use sipx_transport::addr::{IpAddress, SocketAddress};
use sipx_transport::sip::{Host, ViaHop};
use sipx_transport::target::{response_destination, ConnectionKey, Reliability, Target, TransportKind};

fn source() -> SocketAddress {
    SocketAddress::new(IpAddress::V4([203, 0, 113, 9]), 41234)
}

fn ip(a: [u8; 4]) -> Host {
    Host::Ip(IpAddress::V4(a))
}

fn via(host: Host, port: Option<u16>) -> ViaHop {
    ViaHop {
        host,
        port,
        maddr: None,
        received: None,
        rport: None,
    }
}

fn addr(a: [u8; 4], port: u16) -> SocketAddress {
    SocketAddress::new(IpAddress::V4(a), port)
}

#[test]
fn a_plain_via_goes_to_its_sent_by() {
    let target = response_destination(
        &via(ip([192, 0, 2, 1]), Some(5060)),
        source(),
        TransportKind::Udp,
    );
    assert_eq!(target.addr, addr([192, 0, 2, 1], 5060));
}

#[test]
fn a_sent_by_without_a_port_uses_the_transport_default() {
    assert_eq!(
        response_destination(&via(ip([192, 0, 2, 1]), None), source(), TransportKind::Udp)
            .addr
            .port,
        5060
    );
    assert_eq!(
        response_destination(&via(ip([192, 0, 2, 1]), None), source(), TransportKind::Tls)
            .addr
            .port,
        5061
    );
}

#[test]
fn an_observed_rport_is_used_even_without_a_received() {
    let mut v = via(ip([203, 0, 113, 9]), Some(5060));
    v.rport = Some(Some(b"41234".to_vec()));
    let target = response_destination(&v, source(), TransportKind::Udp);
    assert_eq!(target.addr, addr([203, 0, 113, 9], 41234));
}

#[test]
fn received_and_rport_override_the_sent_by() {
    let mut v = via(ip([10, 0, 0, 5]), Some(5060));
    v.received = Some(ip([203, 0, 113, 9]));
    v.rport = Some(Some(b"41234".to_vec()));
    let target = response_destination(&v, source(), TransportKind::Udp);
    assert_eq!(target.addr, addr([203, 0, 113, 9], 41234));
}

#[test]
fn received_without_rport_uses_the_sent_by_port() {
    let mut v = via(ip([10, 0, 0, 5]), Some(5070));
    v.received = Some(ip([203, 0, 113, 9]));
    let target = response_destination(&v, source(), TransportKind::Udp);
    assert_eq!(target.addr, addr([203, 0, 113, 9], 5070));
}

#[test]
fn maddr_wins_over_everything() {
    let mut v = via(ip([10, 0, 0, 5]), Some(5060));
    v.maddr = Some(ip([192, 0, 2, 99]));
    v.received = Some(ip([203, 0, 113, 9]));
    let target = response_destination(&v, source(), TransportKind::Udp);
    assert_eq!(target.addr.ip, IpAddress::V4([192, 0, 2, 99]));
}

#[test]
fn a_hostname_sent_by_falls_back_to_the_source() {
    let target = response_destination(
        &via(Host::Name("client.example.com".to_owned()), None),
        source(),
        TransportKind::Udp,
    );
    assert_eq!(target.addr, source());
}

#[test]
fn an_unreadable_rport_falls_back_to_the_claimed_port() {
    let mut v = via(ip([10, 0, 0, 5]), Some(5070));
    v.rport = Some(Some(b"99999".to_vec()));
    let target = response_destination(&v, source(), TransportKind::Udp);
    assert_eq!(target.addr, addr([10, 0, 0, 5], 5070));
}

#[test]
fn transports_have_their_rfc_default_ports() {
    assert_eq!(TransportKind::Udp.default_port(), 5060);
    assert_eq!(TransportKind::Tcp.default_port(), 5060);
    assert_eq!(TransportKind::Tls.default_port(), 5061);
    assert_eq!(TransportKind::Ws.default_port(), 80);
    assert_eq!(TransportKind::Wss.default_port(), 443);
}

#[test]
fn only_udp_is_unreliable() {
    assert_eq!(TransportKind::Udp.reliability(), Reliability::Unreliable);
    for t in [TransportKind::Tcp, TransportKind::Tls, TransportKind::Ws, TransportKind::Wss] {
        assert_eq!(t.reliability(), Reliability::Reliable);
    }
}

#[test]
fn transport_tokens_read_back_without_case() {
    for t in [
        TransportKind::Udp,
        TransportKind::Tcp,
        TransportKind::Tls,
        TransportKind::Ws,
        TransportKind::Wss,
    ] {
        assert_eq!(TransportKind::parse(&t.token()), Some(t));
        assert_eq!(TransportKind::parse(t.as_str().as_bytes()), Some(t));
    }
    assert_eq!(TransportKind::Udp.as_str(), "UDP");
    assert_eq!(TransportKind::parse(b"tcp"), Some(TransportKind::Tcp));
    assert_eq!(TransportKind::parse(b"sctp"), None);
    assert!(TransportKind::Tls.is_secure());
    assert!(TransportKind::Wss.is_secure());
    assert!(!TransportKind::Ws.is_secure());
}

#[test]
fn a_target_names_its_connection() {
    let t = Target::new(addr([192, 0, 2, 1], 5061), TransportKind::Tls).verifying("example.com");
    assert_eq!(t.verify_as.as_deref(), Some("example.com"));
    let key = t.connection();
    assert_eq!(key.identity.as_deref(), Some("example.com"));
    let mut plain = ConnectionKey::new(addr([192, 0, 2, 1], 5061), TransportKind::Tls);
    assert_ne!(key, plain, "a verified connection is not an unverified one");
    plain.identity = Some("example.com".to_owned());
    assert_eq!(key, plain);
    assert_eq!(Target::udp(addr([192, 0, 2, 1], 5060)).transport, TransportKind::Udp);
}
