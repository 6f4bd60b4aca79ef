use locallink::ports::default_ports;
use locallink::ports::PortSet;
use locallink::probe::Attempt;
use locallink::probe::ProbeOutcome;
use locallink::report::active_ports;
use locallink::report::LocalInfo;
use locallink::scan::Completion;
use locallink::scan::Scan;

fn outcome(port: u16, listening: bool) -> ProbeOutcome {
    ProbeOutcome { port, listening }
}

/// One whole discovery on a host where exactly the ports in `listeners`
/// accept connections on the IPv4 loopback address, the probes ending in the
/// order of the port set or in the reverse of it.
fn discover(
    extra_ports: &[u16],
    listeners: &[u16],
    lookup: Result<&str, &str>,
    reversed: bool,
) -> LocalInfo {
    let set = PortSet::with_extras(&extra_ports.to_vec());
    let mut scan = Scan::start(&set);
    let mut order = scan.ports().clone();
    if reversed {
        order.reverse();
    }
    for port in order {
        let ipv4 = if listeners.contains(&port) { Attempt::Connected } else { Attempt::Refused };
        let found = ProbeOutcome::from_attempts(port, ipv4, Attempt::Refused);
        scan.on_completion(Completion::Finished(found));
    }
    let outcomes = match scan.finish() {
        Some(outcomes) => outcomes,
        None => panic!("every probe has ended"),
    };
    LocalInfo::assemble(lookup.map(String::from), &outcomes)
}

#[test]
fn active_ports_come_out_ascending() {
    let outcomes =
        vec![outcome(9090, true), outcome(3000, true), outcome(59999, true), outcome(4200, true)];
    assert_eq!(active_ports(&outcomes), vec![3000, 4200, 9090, 59999]);
}

#[test]
fn ports_that_do_not_listen_are_left_out() {
    let outcomes =
        vec![outcome(9090, false), outcome(3000, true), outcome(8080, false), outcome(80, true)];
    assert_eq!(active_ports(&outcomes), vec![80, 3000]);
}

#[test]
fn a_port_that_is_reported_twice_is_listed_once() {
    let outcomes = vec![
        outcome(8080, true),
        outcome(3000, true),
        outcome(8080, true),
        outcome(3000, false),
        outcome(3000, true),
    ];
    assert_eq!(active_ports(&outcomes), vec![3000, 8080]);
}

#[test]
fn the_smallest_and_the_greatest_port_take_the_ends() {
    let outcomes = vec![outcome(65535, true), outcome(400, true), outcome(0, true)];
    assert_eq!(active_ports(&outcomes), vec![0, 400, 65535]);
}

#[test]
fn no_outcomes_give_no_active_ports() {
    assert_eq!(active_ports(&Vec::new()), Vec::<u16>::new());
}

#[test]
fn the_report_holds_the_address_and_the_active_ports() {
    let outcomes = vec![outcome(8080, true), outcome(3000, true), outcome(5173, false)];
    let lookup: Result<String, String> = Ok(String::from("192.168.1.20"));
    let info = LocalInfo::assemble(lookup, &outcomes);
    assert_eq!(
        info,
        LocalInfo { ip: Some(String::from("192.168.1.20")), active_ports: vec![3000, 8080] }
    );
    assert!(info.is_well_formed());
}

#[test]
fn a_lookup_that_failed_leaves_the_address_absent() {
    let lookup: Result<String, String> = Err(String::from("no interface is up"));
    let info = LocalInfo::assemble(lookup, &vec![outcome(8000, true)]);
    assert_eq!(info, LocalInfo { ip: None, active_ports: vec![8000] });
}

#[test]
fn the_kind_of_lookup_failure_makes_no_difference() {
    let by_text: Result<String, &str> = Err("192.168.1.20");
    let by_code: Result<String, i32> = Err(13);
    let outcomes = vec![outcome(3000, true)];
    let first = LocalInfo::assemble(by_text, &outcomes);
    let second = LocalInfo::assemble(by_code, &outcomes);
    assert_eq!(first, second);
    assert_eq!(first, LocalInfo { ip: None, active_ports: vec![3000] });
}

#[test]
fn well_formed_means_strictly_ascending() {
    let ports = |active_ports: Vec<u16>| LocalInfo { ip: None, active_ports };
    assert!(ports(vec![]).is_well_formed());
    assert!(ports(vec![8080]).is_well_formed());
    assert!(ports(vec![3000, 8080, 9090]).is_well_formed());
    assert!(!ports(vec![3000, 3000]).is_well_formed());
    assert!(!ports(vec![8080, 3000]).is_well_formed());
    assert!(!ports(vec![3000, 8080, 8080]).is_well_formed());
    assert!(!ports(vec![3000, 9090, 8080]).is_well_formed());
}

#[test]
fn a_listener_on_an_extra_port_is_reported() {
    let info = discover(&[59999], &[59999], Ok("10.0.0.7"), false);
    assert_eq!(info.active_ports, vec![59999]);
    assert!(info.active_ports.contains(&59999));
    assert!(!info.active_ports.contains(&59998));
    assert_eq!(info.ip, Some(String::from("10.0.0.7")));
}

#[test]
fn a_listener_beside_running_dev_servers_is_sorted_in() {
    let info = discover(&[59999, 80], &[59999, 80, 5173, 3000], Err("lookup failed"), true);
    assert_eq!(info.active_ports, vec![80, 3000, 5173, 59999]);
}

#[test]
fn a_host_without_dev_servers_has_no_active_ports() {
    let with_address = discover(&[], &[], Ok("192.168.0.2"), false);
    assert_eq!(
        with_address,
        LocalInfo { ip: Some(String::from("192.168.0.2")), active_ports: Vec::new() }
    );
    let without_address = discover(&[], &[], Err("no reachable interface"), false);
    assert_eq!(without_address, LocalInfo { ip: None, active_ports: Vec::new() });
}

#[test]
fn a_listener_that_was_not_asked_for_is_not_reported() {
    let info = discover(&[59999], &[59998, 1420, 5000, 8888], Err("lookup failed"), false);
    assert_eq!(info.active_ports, vec![8888]);
}

#[test]
fn every_active_port_is_a_default_or_an_extra() {
    let extras = [59999, 22, 3000, 22];
    let everything: Vec<u16> = (0..=u16::MAX).step_by(7).collect();
    let info = discover(&extras, &everything, Err("lookup failed"), true);
    let defaults = default_ports();
    assert!(!info.active_ports.is_empty());
    for port in &info.active_ports {
        assert!(defaults.contains(port) || extras.contains(port));
    }
    assert!(info.is_well_formed());
}

#[test]
fn two_discoveries_of_the_same_host_agree() {
    let first = discover(&[59999, 7000], &[7000, 3001, 9000], Ok("10.1.2.3"), false);
    let second = discover(&[59999, 7000], &[7000, 3001, 9000], Ok("10.1.2.3"), false);
    let backwards = discover(&[59999, 7000], &[7000, 3001, 9000], Ok("10.1.2.3"), true);
    assert_eq!(first, second);
    assert_eq!(first, backwards);
    assert_eq!(first.active_ports, vec![3001, 7000, 9000]);
}

#[test]
fn a_probe_that_broke_off_does_not_fail_the_report() {
    let set = PortSet::with_extras(&vec![59999]);
    let mut scan = Scan::start(&set);
    for port in scan.ports().clone() {
        let completion = if port == 8080 {
            Completion::Faulted
        } else {
            Completion::Finished(outcome(port, port == 59999 || port == 3000))
        };
        scan.on_completion(completion);
    }
    let outcomes = match scan.finish() {
        Some(outcomes) => outcomes,
        None => panic!("every probe has ended"),
    };
    assert_eq!(outcomes.len(), 11);
    let lookup: Result<String, String> = Err(String::from("lookup failed"));
    let info = LocalInfo::assemble(lookup, &outcomes);
    assert_eq!(info.active_ports, vec![3000, 59999]);
    assert_eq!(info.ip, None);
}
