use balancebeam::handler::{error_status, forwarded_for, Action, Connection, Event, Phase, RequestRead};
use balancebeam::health::{is_healthy, ProbeOutcome, ProbeTimer};
use balancebeam::rank_queue::RankQueue;
use balancebeam::rate_limit::RateLimiter;
use balancebeam::routing::RoutingTable;

fn table(n: usize) -> RoutingTable {
    let addrs: Vec<String> = (0..n).map(|i| format!("127.0.0.1:{}", 9000 + i)).collect();
    RoutingTable::new(addrs)
}

/// Runs selection with every connection attempt succeeding.
fn select_ok(t: &mut RoutingTable) -> Option<usize> {
    let c = t.next_candidate()?;
    t.record_connect(c, true);
    Some(c)
}

#[test]
fn new_table_has_everything_in_rotation() {
    let t = table(3);
    assert_eq!(t.len(), 3);
    assert_eq!(t.address(2), "127.0.0.1:9002");
    for i in 0..3 {
        assert!(t.is_available(i));
        assert_eq!(t.load_rank(i), 0);
        assert!(t.is_queued((0, i)));
    }
}

#[test]
fn least_used_upstream_is_preferred() {
    let mut t = table(3);
    assert_eq!(select_ok(&mut t), Some(0));
    assert_eq!(t.load_rank(0), 1);
    assert!(t.is_queued((1, 0)));
    assert!(!t.is_queued((0, 0)));
    assert_eq!(select_ok(&mut t), Some(1));
    assert_eq!(select_ok(&mut t), Some(2));
    assert_eq!(select_ok(&mut t), Some(0));
    assert_eq!(t.load_rank(0), 2);
}

#[test]
fn all_unavailable_means_no_upstream() {
    let mut t = table(3);
    for i in 0..3 {
        t.mark_unavailable(i);
    }
    assert_eq!(t.next_candidate(), None);
    for i in 0..3 {
        assert!(!t.is_queued((0, i)));
    }
    let mut c = Connection::new().0;
    assert_eq!(c.step(Event::Admission(true)), Action::SelectUpstream);
    assert_eq!(c.step(Event::UpstreamSelected(false)), Action::RespondAndClose(502));
    assert!(c.is_closed());
}

#[test]
fn availability_edge_reinserts_once() {
    let mut t = table(2);
    assert_eq!(select_ok(&mut t), Some(0));
    t.mark_unavailable(0);
    assert!(t.is_queued((1, 0)));
    assert!(t.mark_available(0));
    assert!(t.is_queued((0, 0)));
    assert!(!t.is_queued((1, 0)));
    assert_eq!(t.load_rank(0), 0);
    assert!(!t.mark_available(0));
    assert!(!t.mark_available(0));
    assert!(t.is_queued((0, 0)));
    assert_eq!(select_ok(&mut t), Some(0));
    assert_eq!(select_ok(&mut t), Some(1));
}

#[test]
fn unhealthy_upstream_is_skipped_until_it_recovers() {
    let mut t = table(3);
    assert!(!t.apply_probe(0, ProbeOutcome::Status(500)));
    assert!(!t.apply_probe(1, ProbeOutcome::Status(200)));
    assert!(!t.apply_probe(2, ProbeOutcome::Status(200)));
    for _ in 0..6 {
        let c = select_ok(&mut t).unwrap();
        assert_ne!(c, 0);
    }
    assert!(!t.is_available(0));
    assert!(t.apply_probe(0, ProbeOutcome::Status(200)));
    assert_eq!(select_ok(&mut t), Some(0));
}

#[test]
fn probe_failures_mark_unavailable() {
    for o in [ProbeOutcome::ConnectFailed, ProbeOutcome::SendFailed, ProbeOutcome::ReadFailed] {
        let mut t = table(1);
        assert!(!is_healthy(o));
        assert!(!t.apply_probe(0, o));
        assert!(!t.is_available(0));
        assert_eq!(t.next_candidate(), None);
    }
    assert!(is_healthy(ProbeOutcome::Status(200)));
    assert!(!is_healthy(ProbeOutcome::Status(204)));
}

#[test]
fn failed_connect_to_only_upstream_gives_bad_gateway() {
    let mut t = table(1);
    assert_eq!(t.next_candidate(), Some(0));
    t.record_connect(0, false);
    assert!(!t.is_available(0));
    assert_eq!(t.next_candidate(), None);
    let (mut c, first) = Connection::new();
    assert_eq!(first, Action::CheckAdmission);
    assert_eq!(c.step(Event::Admission(true)), Action::SelectUpstream);
    assert_eq!(c.step(Event::UpstreamSelected(false)), Action::RespondAndClose(502));
    assert_eq!(c.phase(), Phase::Closed);
    assert_eq!(c.step(Event::RequestRead(RequestRead::Parsed)), Action::Close);
}

#[test]
fn failed_connect_falls_through_to_next_upstream() {
    let mut t = table(2);
    assert_eq!(t.next_candidate(), Some(0));
    t.record_connect(0, false);
    assert_eq!(select_ok(&mut t), Some(1));
    assert!(t.mark_available(0));
    assert_eq!(select_ok(&mut t), Some(0));
}

#[test]
fn rate_limit_two_per_minute() {
    let mut l = RateLimiter::new(2);
    let ip: u128 = 0xffff_7f00_0001;
    let mut verdicts = vec![];
    for now in [0u64, 400, 999] {
        verdicts.push(l.try_admit(ip, now));
    }
    assert_eq!(verdicts, vec![true, true, false]);
    let mut c = Connection::new().0;
    assert_eq!(c.step(Event::Admission(false)), Action::RespondAndClose(429));
    assert!(c.is_closed());
}

#[test]
fn limit_admits_exactly_limit_then_resets() {
    let limit: usize = 3;
    let mut l = RateLimiter::new(limit);
    let ip: u128 = 42;
    let other: u128 = 7;
    for k in 0..limit as u64 {
        assert!(l.try_admit(ip, 1_000 + k * 10_000));
    }
    assert!(l.try_admit(other, 40_000));
    assert!(!l.try_admit(ip, 61_000));
    assert_eq!(l.count(ip), 3);
    assert_eq!(l.count(other), 1);
    assert!(l.try_admit(ip, 61_001));
    assert_eq!(l.count(ip), 3);
    assert!(l.try_admit(ip, 200_000));
    assert_eq!(l.count(ip), 1);
    assert_eq!(l.count(other), 0);
    assert_eq!(l.latest(), Some(200_000));
}

#[test]
fn entry_exactly_at_cutoff_still_counts() {
    let mut l = RateLimiter::new(1);
    assert!(l.try_admit(1, 0));
    assert!(!l.try_admit(1, 60_000));
    assert!(l.try_admit(1, 60_001));
}

#[test]
fn zero_limit_is_unlimited() {
    let mut l = RateLimiter::new(0);
    for k in 0..1000u64 {
        assert!(l.try_admit(5, k));
    }
    assert_eq!(l.count(5), 0);
    assert_eq!(l.latest(), None);
    assert_eq!(l.limit(), 0);
}

#[test]
fn malformed_request_keeps_connection_open() {
    let mut c = Connection::new().0;
    c.step(Event::Admission(true));
    assert_eq!(c.step(Event::UpstreamSelected(true)), Action::ReadRequest);
    assert_eq!(c.step(Event::RequestRead(RequestRead::Malformed)), Action::Respond(400));
    assert_eq!(c.phase(), Phase::ReportingError(400));
    assert_eq!(c.step(Event::ErrorSent), Action::ReadRequest);
    assert_eq!(c.phase(), Phase::ReadingRequest);
    assert_eq!(c.step(Event::RequestRead(RequestRead::Parsed)), Action::ForwardRequest);
    assert_eq!(c.step(Event::RequestForwarded(true)), Action::ReadResponse);
    assert_eq!(c.step(Event::ResponseRead(true)), Action::RelayResponse);
    assert_eq!(c.step(Event::ResponseSent(true)), Action::ReadRequest);
    assert_eq!(c.step(Event::RequestRead(RequestRead::Incomplete(0))), Action::Close);
    assert!(c.is_closed());
}

#[test]
fn upstream_failures_close_with_bad_gateway() {
    let mut c = Connection::new().0;
    c.step(Event::Admission(true));
    c.step(Event::UpstreamSelected(true));
    c.step(Event::RequestRead(RequestRead::Parsed));
    assert_eq!(c.step(Event::RequestForwarded(false)), Action::RespondAndClose(502));
    let mut c = Connection::new().0;
    c.step(Event::Admission(true));
    c.step(Event::UpstreamSelected(true));
    c.step(Event::RequestRead(RequestRead::Parsed));
    c.step(Event::RequestForwarded(true));
    assert_eq!(c.step(Event::ResponseRead(false)), Action::RespondAndClose(502));
    let mut c = Connection::new().0;
    c.step(Event::Admission(true));
    c.step(Event::UpstreamSelected(true));
    c.step(Event::RequestRead(RequestRead::Parsed));
    c.step(Event::RequestForwarded(true));
    c.step(Event::ResponseRead(true));
    assert_eq!(c.step(Event::ResponseSent(false)), Action::Close);
    assert!(c.is_closed());
}

#[test]
fn out_of_turn_event_repeats_pending_action() {
    let mut c = Connection::new().0;
    assert_eq!(c.step(Event::ResponseSent(true)), Action::CheckAdmission);
    assert_eq!(c.phase(), Phase::Admitting);
}

#[test]
fn request_error_statuses() {
    assert_eq!(error_status(RequestRead::Incomplete(0)), None);
    assert_eq!(error_status(RequestRead::Incomplete(12)), Some(400));
    assert_eq!(error_status(RequestRead::Malformed), Some(400));
    assert_eq!(error_status(RequestRead::InvalidContentLength), Some(400));
    assert_eq!(error_status(RequestRead::ContentLengthMismatch), Some(400));
    assert_eq!(error_status(RequestRead::BodyTooLarge), Some(413));
    assert_eq!(error_status(RequestRead::ConnectionError), None);
    assert_eq!(error_status(RequestRead::Parsed), None);
    let mut c = Connection::new().0;
    c.step(Event::Admission(true));
    c.step(Event::UpstreamSelected(true));
    assert_eq!(c.step(Event::RequestRead(RequestRead::BodyTooLarge)), Action::Respond(413));
    assert_eq!(c.step(Event::ErrorSent), Action::ReadRequest);
    assert_eq!(c.step(Event::RequestRead(RequestRead::ConnectionError)), Action::Close);
}

#[test]
fn forwarded_for_header_value() {
    assert_eq!(forwarded_for(None, b"10.0.0.1"), b"10.0.0.1".to_vec());
    assert_eq!(
        forwarded_for(Some(b"1.2.3.4"), b"10.0.0.1"),
        b"1.2.3.4, 10.0.0.1".to_vec()
    );
}

#[test]
fn probe_timer_skips_first_tick() {
    let mut t = ProbeTimer::new();
    assert!(!t.on_tick());
    assert!(t.on_tick());
    assert!(t.on_tick());
}

#[test]
fn rank_queue_orders_by_rank_then_index() {
    let mut q = RankQueue::new();
    assert!(q.is_empty());
    assert!(q.insert((2, 0)));
    assert!(q.insert((1, 5)));
    assert!(q.insert((1, 3)));
    assert!(!q.insert((1, 3)));
    assert!(q.contains((2, 0)));
    assert_eq!(q.first(), Some((1, 3)));
    assert!(q.remove((1, 3)));
    assert!(!q.remove((1, 3)));
    assert_eq!(q.pop_first(), Some((1, 5)));
    assert_eq!(q.pop_first(), Some((2, 0)));
    assert_eq!(q.pop_first(), None);
}
