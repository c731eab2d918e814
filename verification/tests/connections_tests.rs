use layer0::connections::{get_my_ip, readable_address, Connection, ConnectionError, Node, CONNECTIONS_LEN};

fn keys(n: &Node) -> Vec<(String, i64)> {
    n.get_connections().into_iter().map(|c| (c.ip, c.port)).collect()
}

#[test]
fn new_node_defaults() {
    let n = Node::new();
    assert_eq!(n.get_connections_len(), 0);
    assert!(!n.is_connections_full());
    assert_eq!(n.get_my_port(), 8080);
    assert!(!n.is_hardcode());
    assert!(n.get_hardcoded_servers().is_empty());
    assert_eq!(get_my_ip(), "127.0.0.1");
}

#[test]
fn add_connection_and_errors() {
    let mut n = Node::new();
    assert_eq!(n.add_connection("10.0.0.1", 80), Ok(()));
    assert_eq!(n.add_connection("10.0.0.1", 80), Err(ConnectionError::AlreadyExists));
    assert_eq!(n.add_connection("10.0.0.1", 81), Ok(()));
    assert_eq!(keys(&n), vec![("10.0.0.1".to_string(), 80), ("10.0.0.1".to_string(), 81)]);
    assert_eq!(ConnectionError::AlreadyExists.message(), "Connection already exists!");
    assert_eq!(ConnectionError::Full.message(), "Connections are full!");
}

#[test]
fn connections_are_capped() {
    let mut n = Node::new();
    for p in 0..CONNECTIONS_LEN as i64 {
        assert_eq!(n.add_connection("h", p), Ok(()));
    }
    assert!(n.is_connections_full());
    assert_eq!(n.get_connections_len(), 8);
    assert_eq!(n.add_connection("h", 99), Err(ConnectionError::Full));
    assert_eq!(n.add_connection("h", 3), Err(ConnectionError::AlreadyExists));
    assert_eq!(n.get_connections_len(), 8);
}

#[test]
fn add_then_remove_restores() {
    let mut n = Node::new();
    n.add_connection("a", 1).unwrap();
    n.add_connection("b", -2).unwrap();
    n.remove_connection("b", -2);
    assert_eq!(keys(&n), vec![("a".to_string(), 1)]);
    n.remove_connection("zzz", 5);
    assert_eq!(keys(&n), vec![("a".to_string(), 1)]);
}

#[test]
fn get_connections_ids_and_nth() {
    let mut n = Node::new();
    n.add_connection("1.1.1.1", 10).unwrap();
    n.add_connection("2.2.2.2", -20).unwrap();
    let cons = n.get_connections();
    assert_eq!(cons[1].id, 1);
    assert_eq!(cons[1].ip, "2.2.2.2");
    assert_eq!(cons[1].port, -20);
    let c = n.get_nth_connection(0);
    assert_eq!((c.id, c.ip.as_str(), c.port), (0, "1.1.1.1", 10));
}

#[test]
fn ip_with_colon_reads_back_by_fields() {
    let mut n = Node::new();
    n.add_connection("1:2", 3).unwrap();
    let c = n.get_nth_connection(0);
    assert_eq!((c.ip.as_str(), c.port), ("1", 2));
}

#[test]
fn from_string_parses_fields() {
    let c = Connection::from_string("127.0.0.1:8081".to_string());
    assert_eq!((c.id, c.ip.as_str(), c.port), (0, "127.0.0.1", 8081));
    let d = Connection::from_string("x:+7:junk".to_string());
    assert_eq!((d.ip.as_str(), d.port), ("x", 7));
    let e = Connection::from_string("y:-9223372036854775808".to_string());
    assert_eq!(e.port, i64::MIN);
}

#[test]
fn connection_with_add_lookup() {
    let mut n = Node::new();
    n.add_connection("a", 1).unwrap();
    n.add_connection("b", 2).unwrap();
    let c = n.get_connection_with_add("b", 2);
    assert_eq!((c.id, c.ip.as_str(), c.port), (1, "b", 2));
    let d = n.get_connection_with_add("b", 3);
    assert_eq!(d.id, -1);
}

#[test]
fn ping_state_changes() {
    let mut n = Node::new();
    let c = Connection { id: 0, ip: "p".to_string(), port: 1 };
    assert_eq!(n.get_state(&c), "Pong");
    assert!(n.change_state(&c, "ping"));
    assert_eq!(n.get_state(&c), "Ping");
    assert!(!n.change_state(&c, "ping"));
    assert!(!n.change_state(&c, "Ping"));
    assert_eq!(n.get_state(&c), "Ping");
    assert!(n.change_state(&c, "pong"));
    assert_eq!(n.get_state(&c), "Pong");
    assert!(n.change_state(&c, "pong"));
    assert!(!n.change_state(&c, "Pong"));
}

fn outcomes(n: &Node, ok: &[bool]) -> Vec<(Connection, bool)> {
    n.get_connections().into_iter().zip(ok.iter().copied()).collect()
}

#[test]
fn check_connections_drops_unreachable() {
    let mut n = Node::new();
    n.add_connection("a", 1).unwrap();
    n.add_connection("b", 2).unwrap();
    n.add_connection("c", 3).unwrap();
    let o = outcomes(&n, &[true, false, true]);
    n.check_connections(&o);
    assert_eq!(keys(&n), vec![("a".to_string(), 1), ("c".to_string(), 3)]);
    let o = outcomes(&n, &[true, true]);
    n.check_connections(&o);
    assert_eq!(keys(&n), vec![("a".to_string(), 1), ("c".to_string(), 3)]);
    let o = outcomes(&n, &[false, false]);
    n.check_connections(&o);
    assert!(keys(&n).is_empty());
}

#[test]
fn check_uses_address_and_port() {
    let mut n = Node::new();
    n.add_connection("x:1", 2).unwrap();
    n.add_connection("x", 1).unwrap();
    let o = outcomes(&n, &[false, true]);
    n.check_connections(&o);
    assert_eq!(n.get_connections_len(), 1);
    assert_eq!(keys(&n), vec![("x".to_string(), 1)]);
    assert_eq!(n.add_connection("x:1", 2), Err(ConnectionError::AlreadyExists));
}

#[test]
fn readability_checks() {
    assert!(readable_address("a:1"));
    assert!(!readable_address("a"));
    assert!(!readable_address("a:b"));
    let mut n = Node::new();
    n.add_connection("ok", 1).unwrap();
    assert!(n.connections_readable());
    n.add_hardcoded_servers(vec!["bad".to_string()]);
    assert!(!n.hardcoded_readable());
}

#[test]
fn request_targets_fall_back_to_hardcoded() {
    let mut n = Node::new();
    n.add_hardcoded_servers(vec!["h1:1".to_string(), "h2:2".to_string()]);
    assert_eq!(n.get_hardcoded_servers(), vec!["h1:1", "h2:2"]);
    let t = n.connection_request_targets();
    assert_eq!(t.len(), 2);
    assert_eq!((t[1].id, t[1].ip.as_str(), t[1].port), (0, "h2", 2));
    n.add_connection("peer", 5).unwrap();
    let t = n.connection_request_targets();
    assert_eq!(t.len(), 1);
    assert_eq!((t[0].ip.as_str(), t[0].port), ("peer", 5));
}

#[test]
fn needs_more_connections_rule() {
    let mut n = Node::new();
    assert!(n.needs_more_connections());
    n.set_hardcode(true);
    assert!(!n.needs_more_connections());
    n.set_hardcode(false);
    for p in 0..8 {
        n.add_connection("h", p).unwrap();
    }
    assert!(!n.needs_more_connections());
}

#[test]
fn port_setting() {
    let mut n = Node::new();
    n.set_port(9000);
    assert_eq!(n.get_my_port(), 9000);
}

#[test]
fn message_hashes() {
    let mut n = Node::new();
    assert!(!n.does_hash_exist("h1"));
    n.add_msg_hash("h1", 100);
    assert!(n.does_hash_exist("h1"));
    n.add_msg_hash("h1", 5);
    n.add_msg_hash("h2", 200);
    n.remove_hashes(150);
    assert!(!n.does_hash_exist("h1"));
    assert!(n.does_hash_exist("h2"));
    n.remove_hashes(200);
    assert!(n.does_hash_exist("h2"));
    n.remove_hashes(201);
    assert!(!n.does_hash_exist("h2"));
}

#[test]
fn first_time_seen_is_kept() {
    let mut n = Node::new();
    n.add_msg_hash("h", 10);
    n.add_msg_hash("h", 1000);
    n.remove_hashes(11);
    assert!(!n.does_hash_exist("h"));
}

#[test]
fn address_key_reads_back() {
    use_address("10.0.0.1", 80);
    use_address("host", -1);
    use_address("", i64::MAX);
}

fn use_address(ip: &str, port: i64) {
    let c = Connection::from_string(layer0::text::address_key(ip, port));
    assert_eq!((c.id, c.ip.as_str(), c.port), (0, ip, port));
}
