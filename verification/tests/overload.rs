use sipx_transport::addr::{IpAddress, SocketAddress};
use sipx_transport::overload::{Applied, Control, PeerTable};

const MS: u64 = 1_000_000;

fn peer() -> SocketAddress {
    SocketAddress::new(IpAddress::V4([192, 0, 2, 10]), 5060)
}

fn peer_at(port: u16) -> SocketAddress {
    SocketAddress::new(IpAddress::V4([192, 0, 2, 10]), port)
}

#[test]
fn stale_reports_and_expired_reports_do_not_control_the_client() {
    let mut table = PeerTable::new(1024);
    assert!(matches!(
        table.apply(peer(), 2, Some(10_000 * MS), 0, true),
        Applied::Taken { controlling: true, .. }
    ));
    assert_eq!(table.apply(peer(), 1, Some(10_000 * MS), 0, true), Applied::Stale);
    assert_eq!(table.offer(peer(), 0), Control::Controlled, "the older report changed nothing");

    assert!(matches!(
        table.apply(peer(), 3, Some(0), 0, true),
        Applied::Taken { controlling: false, .. }
    ));
    assert_eq!(table.offer(peer(), 0), Control::Uncontrolled, "zero validity disables control");

    assert_eq!(table.apply(peer(), 2, Some(10_000 * MS), 0, true), Applied::Stale);
    assert_eq!(table.offer(peer(), 0), Control::Uncontrolled, "a replayed report is stale");

    table.apply(peer(), 4, Some(10 * MS), 0, true);
    assert_eq!(table.offer(peer(), 10 * MS), Control::Released, "expired at its validity");
    assert_eq!(table.offer(peer(), 10 * MS), Control::Uncontrolled, "and released once");
}

#[test]
fn absent_validity_means_five_hundred_milliseconds_and_a_newer_report_restarts_control() {
    let mut table = PeerTable::new(1024);
    table.apply(peer(), 1, None, 0, true);
    assert_eq!(table.offer(peer(), 499 * MS), Control::Controlled);
    assert_eq!(table.offer(peer(), 500 * MS), Control::Released);
    table.apply(peer(), 2, Some(10_000 * MS), 501 * MS, true);
    assert_eq!(table.offer(peer(), 501 * MS), Control::Controlled);
}

#[test]
fn an_unusable_report_is_remembered_but_controls_nothing() {
    let mut table = PeerTable::new(4);
    assert!(matches!(
        table.apply(peer(), 1, Some(10_000 * MS), 0, false),
        Applied::Taken { controlling: false, .. }
    ));
    assert_eq!(table.offer(peer(), 1), Control::Uncontrolled);
    assert_eq!(table.apply(peer(), 1, Some(10_000 * MS), 0, true), Applied::Stale);
}

#[test]
fn feedback_from_many_peers_never_exceeds_the_configured_state_bound() {
    let mut table = PeerTable::new(4);
    for port in 5000..5100u16 {
        table.apply(peer_at(port), u64::from(port), Some(100 * MS), u64::from(port) * MS, true);
        assert!(table.len() <= 4, "peer state exceeded its configured bound");
    }
    assert_eq!(table.len(), 4);
}

#[test]
fn room_is_made_from_a_server_no_report_controls() {
    let mut table = PeerTable::new(2);
    table.apply(peer_at(1), 1, Some(0), 0, true);
    table.apply(peer_at(2), 1, Some(10_000 * MS), 1, true);
    let applied = table.apply(peer_at(3), 1, Some(10_000 * MS), 2, true);
    assert_eq!(
        applied,
        Applied::Taken {
            evicted: Some(peer_at(1)),
            controlling: true
        },
        "the uncontrolled server goes first, though it is not the oldest report still controlling"
    );
    assert_eq!(table.offer(peer_at(2), 3), Control::Controlled);
}

use sipx_transport::overload::{next_report_sequence, server_feedback, OverloadFeedback};

#[test]
fn an_overloaded_server_reports_the_time_that_remains() {
    assert_eq!(
        server_feedback(Some(2_500 * MS), 1_000 * MS, OverloadFeedback::Loss(50)),
        (OverloadFeedback::Loss(50), 1_500, true)
    );
    assert_eq!(
        server_feedback(Some(1_000 * MS + 10), 1_000 * MS, OverloadFeedback::Rate(20)),
        (OverloadFeedback::Rate(20), 1, true),
        "never less than a millisecond while overloaded"
    );
    assert_eq!(
        server_feedback(Some(1_000 * MS), 1_000 * MS, OverloadFeedback::Rate(20)),
        (OverloadFeedback::Rate(0), 0, false),
        "an overload that has ended says so with nothing to shed"
    );
    assert_eq!(
        server_feedback(None, 0, OverloadFeedback::Loss(100)),
        (OverloadFeedback::Loss(0), 0, false)
    );
}

#[test]
fn the_report_sequence_wraps_before_it_outgrows_its_field() {
    assert_eq!(next_report_sequence(0), 1);
    assert_eq!(next_report_sequence(41), 42);
    assert_eq!(next_report_sequence(999_999_999_999), 1);
    assert_eq!(next_report_sequence(u64::MAX), 1);
}
