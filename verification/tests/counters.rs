use sipx_transport::counters::{CaptureCounts, Counters, Meters, Timer, TransportCounts};
use sipx_transport::target::TransportKind;

#[test]
fn a_message_is_counted_against_its_own_transport_only() {
    let mut meters = Meters::default();
    meters.message_in(TransportKind::Tcp, false);
    meters.message_out(TransportKind::Tcp, true);

    let counters = meters.snapshot();
    assert_eq!(counters.transport(TransportKind::Tcp).requests_in, 1);
    assert_eq!(counters.transport(TransportKind::Tcp).responses_out, 1);
    assert_eq!(
        counters.transport(TransportKind::Udp),
        TransportCounts::default(),
        "a TCP message must not appear in UDP's counts"
    );
    assert_eq!(counters.messages_in(), 1);
    assert_eq!(counters.messages_out(), 1);
}

#[test]
fn a_parse_failure_is_not_counted_as_a_message() {
    let mut meters = Meters::default();
    meters.parse_failure(TransportKind::Udp);

    let counters = meters.snapshot();
    assert_eq!(counters.parse_failures(), 1);
    assert_eq!(
        counters.messages_in(),
        0,
        "which it would have been is exactly what could not be determined"
    );
}

#[test]
fn only_the_retransmission_timers_count_as_retransmissions() {
    let mut meters = Meters::default();
    for timer in [Timer::A, Timer::E, Timer::G] {
        meters.on_timer(timer);
    }
    for timer in [
        Timer::D,
        Timer::I,
        Timer::J,
        Timer::K,
        Timer::L,
        Timer::M,
        Timer::Trying100,
    ] {
        meters.on_timer(timer);
    }

    let counters = meters.snapshot();
    assert_eq!(counters.retransmissions_sent, 3);
    assert_eq!(
        counters.timeouts.total(),
        0,
        "an absorption window closing is not a transaction timing out"
    );
}

#[test]
fn each_deadline_timer_is_counted_apart() {
    let mut meters = Meters::default();
    meters.on_timer(Timer::B);
    meters.on_timer(Timer::H);
    meters.on_timer(Timer::H);

    let counters = meters.snapshot();
    assert_eq!(counters.timeouts.b, 1);
    assert_eq!(counters.timeouts.f, 0);
    assert_eq!(counters.timeouts.h, 2);
    assert_eq!(counters.timeouts.total(), 3);
}

#[test]
fn any_loss_covers_discards_and_not_arrivals() {
    let mut meters = Meters::default();
    assert!(!meters.snapshot().any_loss());

    meters.parse_failure(TransportKind::Udp);
    meters.on_timer(Timer::B);
    assert!(
        !meters.snapshot().any_loss(),
        "a stranger's malformed datagram is not this endpoint losing something"
    );

    meters.discard_transaction_event();
    assert!(meters.snapshot().any_loss());
}

#[test]
fn a_fresh_endpoint_reports_zero_everywhere() {
    let counters = Meters::default().snapshot();
    assert_eq!(counters, Counters::default());
    assert!(!counters.any_loss());
    assert_eq!(counters.capture, CaptureCounts::default());
}

#[test]
fn every_transport_is_counted_in_a_slot_of_its_own() {
    let kinds = [
        TransportKind::Udp,
        TransportKind::Tcp,
        TransportKind::Tls,
        TransportKind::Ws,
        TransportKind::Wss,
    ];
    let mut meters = Meters::new();
    for (i, kind) in kinds.iter().enumerate() {
        for _ in 0..=i {
            meters.message_in(*kind, false);
        }
    }
    let counters = meters.snapshot();
    for (i, kind) in kinds.iter().enumerate() {
        assert_eq!(counters.transport(*kind).requests_in, (i + 1) as u64);
    }
    assert_eq!(counters.messages_in(), 15);
}

#[test]
fn shedding_and_capture_are_counted_by_kind() {
    let mut meters = Meters::new();
    meters.shed_request();
    meters.shed_ack();
    meters.shed_ack();
    meters.shed_unmatched();
    meters.capture_record();
    meters.capture_drop();
    meters.capture_error();
    meters.unmatched_response();
    let c = meters.snapshot();
    assert_eq!(c.shed.requests, 1);
    assert_eq!(c.shed.acks, 2);
    assert_eq!(c.shed.unmatched, 1);
    assert_eq!(c.shed.total(), 4);
    assert!(c.shed.any());
    assert_eq!(c.capture.records, 1);
    assert_eq!(c.capture.dropped, 1);
    assert_eq!(c.capture.errors, 1);
    assert_eq!(c.unmatched_responses, 1);
    assert!(c.any_loss());
}

#[test]
fn every_discard_kind_is_a_loss() {
    let mut meters = Meters::new();
    meters.discard_unanswered();
    meters.discard_no_destination();
    meters.discard_send_failure();
    meters.discard_stun_unmatched();
    let c = meters.snapshot();
    assert_eq!(c.discards.total(), 4);
    assert!(c.any_loss());
}
