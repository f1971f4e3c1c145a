use sessionhub::port::{acquire, greeting, parse_greeting, LeaseOutcome, Occupant, PortError, PortLease};

#[test]
fn free_preferred_port_is_taken() {
    let r = acquire(4020, &vec![Occupant::Free, Occupant::Free]);
    assert_eq!(r, Ok(PortLease { port: 4020, outcome: LeaseOutcome::Free }));
}

#[test]
fn stale_instance_is_reclaimed() {
    let r = acquire(4020, &vec![Occupant::StaleInstance, Occupant::Free]);
    assert_eq!(r, Ok(PortLease { port: 4020, outcome: LeaseOutcome::ReclaimedFromStale }));
}

#[test]
fn occupied_preferred_port_moves_to_first_free_alternate() {
    let probes = vec![
        Occupant::Other,
        Occupant::Other,
        Occupant::StaleInstance,
        Occupant::Free,
        Occupant::Free,
    ];
    let r = acquire(4020, &probes);
    assert_eq!(r, Ok(PortLease { port: 4023, outcome: LeaseOutcome::Alternate }));
}

#[test]
fn no_free_port_in_range_is_exhaustion() {
    let r = acquire(4020, &vec![Occupant::Other, Occupant::Other, Occupant::StaleInstance]);
    assert_eq!(r, Err(PortError::PortExhausted));
    assert_eq!(acquire(4020, &Vec::new()), Err(PortError::PortExhausted));
}

#[test]
fn probing_stops_at_the_end_of_the_port_space() {
    let r = acquire(65535, &vec![Occupant::Other, Occupant::Free]);
    assert_eq!(r, Err(PortError::PortExhausted));
    let r = acquire(65534, &vec![Occupant::Other, Occupant::Free]);
    assert_eq!(r, Ok(PortLease { port: 65535, outcome: LeaseOutcome::Alternate }));
}

#[test]
fn greeting_names_the_stale_instance() {
    assert_eq!(parse_greeting(&[b'S', b'H', b'U', b'B', 0, 0, 1, 2]), Some(258));
    assert_eq!(greeting(258), vec![b'S', b'H', b'U', b'B', 0, 0, 1, 2]);
    assert_eq!(parse_greeting(&greeting(u32::MAX)), Some(u32::MAX));
    assert_eq!(parse_greeting(b"HTTP/1.1"), None);
    assert_eq!(parse_greeting(&[b'S', b'H', b'U', b'B', 0, 0, 1]), None);
}
