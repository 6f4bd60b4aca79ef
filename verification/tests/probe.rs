use locallink::probe::Attempt;
use locallink::probe::ProbeOutcome;
use locallink::probe::PROBE_TIMEOUT_MS;

fn failures() -> Vec<Attempt> {
    vec![
        Attempt::Refused,
        Attempt::Reset,
        Attempt::Unreachable,
        Attempt::TimedOut,
        Attempt::Failed,
    ]
}

#[test]
fn an_attempt_may_take_200_milliseconds() {
    assert_eq!(PROBE_TIMEOUT_MS, 200);
}

#[test]
fn only_a_connection_counts_as_established() {
    assert!(Attempt::Connected.established());
    for failure in failures() {
        assert!(!failure.established());
    }
}

#[test]
fn a_listener_on_ipv4_alone_is_found() {
    for failure in failures() {
        let outcome = ProbeOutcome::from_attempts(8080, Attempt::Connected, failure);
        assert_eq!(outcome, ProbeOutcome { port: 8080, listening: true });
    }
}

#[test]
fn a_listener_on_ipv6_alone_is_found() {
    for failure in failures() {
        let outcome = ProbeOutcome::from_attempts(5173, failure, Attempt::Connected);
        assert_eq!(outcome, ProbeOutcome { port: 5173, listening: true });
    }
}

#[test]
fn a_listener_on_both_addresses_is_found() {
    let outcome = ProbeOutcome::from_attempts(3000, Attempt::Connected, Attempt::Connected);
    assert_eq!(outcome, ProbeOutcome { port: 3000, listening: true });
}

#[test]
fn no_kind_of_failure_is_a_listener() {
    for ipv4 in failures() {
        for ipv6 in failures() {
            let outcome = ProbeOutcome::from_attempts(59998, ipv4, ipv6);
            assert_eq!(outcome, ProbeOutcome { port: 59998, listening: false });
        }
    }
}

#[test]
fn the_outcome_carries_the_port_that_was_probed() {
    assert_eq!(ProbeOutcome::from_attempts(1, Attempt::Refused, Attempt::Refused).port, 1);
    assert_eq!(ProbeOutcome::from_attempts(65535, Attempt::Connected, Attempt::Refused).port, 65535);
}
