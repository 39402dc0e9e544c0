use moth_fans_runtimes::servers::server_by_port;

#[test]
fn known_ports_resolve_to_their_servers() {
    assert_eq!(server_by_port(2337).unwrap().name, "basil");
    assert_eq!(server_by_port(1337).unwrap().name, "sybil");
    assert_eq!(server_by_port(3336).unwrap().name, "terry");
    assert_eq!(server_by_port(1447).unwrap().name, "manuel");
    assert_eq!(server_by_port(6337).unwrap().name, "campbell");
    assert_eq!(server_by_port(4447).unwrap().name, "event-hall-us");
    assert_eq!(server_by_port(4447).unwrap().port, 4447);
}

#[test]
fn unknown_port_has_no_server() {
    assert!(server_by_port(0).is_none());
    assert!(server_by_port(2338).is_none());
}
