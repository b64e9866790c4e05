use lan_mesh::dns::{
    build_a_response, find_question_end, handle_query, parse_question, resolve, DnsEntry, QueryOutcome,
    QCLASS_IN, QTYPE_A,
};
use lan_mesh::net::Ipv4Addr;

fn build_query(name: &str, qtype: u16) -> Vec<u8> {
    let mut q = vec![0x12, 0x34, 0x01, 0x00, 0x00, 0x01, 0x00, 0x00, 0x00, 0x00, 0x00, 0x00];
    for label in name.split('.') {
        q.push(label.len() as u8);
        q.extend_from_slice(label.as_bytes());
    }
    q.push(0);
    q.extend_from_slice(&qtype.to_be_bytes());
    q.extend_from_slice(&QCLASS_IN.to_be_bytes());
    q
}

fn peer_root(hostname: &str, ip: Ipv4Addr) -> DnsEntry {
    DnsEntry { hostname: hostname.to_string(), virtual_ip: ip, is_peer_root: true }
}

fn service_entry(hostname: &str, ip: Ipv4Addr) -> DnsEntry {
    DnsEntry { hostname: hostname.to_string(), virtual_ip: ip, is_peer_root: false }
}

#[test]
fn parses_simple_question() {
    let q = build_query("alice.mesh", QTYPE_A);
    let (name, qtype, qclass) = parse_question(&q).unwrap();
    assert_eq!(name, "alice.mesh");
    assert_eq!(qtype, QTYPE_A);
    assert_eq!(qclass, QCLASS_IN);
}

#[test]
fn answers_known_mesh_name() {
    let table = vec![peer_root("alice.mesh", Ipv4Addr::new(10, 66, 0, 2))];
    let q = build_query("alice.mesh", QTYPE_A);
    match handle_query(&q, &table) {
        QueryOutcome::Answered(resp) => {
            assert_eq!(&resp[0..2], &q[0..2]); // ID echoed
            assert_eq!(&resp[resp.len() - 4..], &[10, 66, 0, 2]);
        }
        _ => panic!("expected an answer"),
    }
}

#[test]
fn forwards_unknown_names() {
    let table = vec![peer_root("alice.mesh", Ipv4Addr::new(10, 66, 0, 2))];
    let q = build_query("example.com", QTYPE_A);
    assert!(matches!(handle_query(&q, &table), QueryOutcome::Forward));
}

#[test]
fn forwards_non_a_queries_even_for_known_names() {
    let table = vec![peer_root("alice.mesh", Ipv4Addr::new(10, 66, 0, 2))];
    let qtype_aaaa: u16 = 28;
    let q = build_query("alice.mesh", qtype_aaaa);
    assert!(matches!(handle_query(&q, &table), QueryOutcome::Forward));
}

#[test]
fn case_insensitive_match() {
    let table = vec![peer_root("alice.mesh", Ipv4Addr::new(10, 66, 0, 2))];
    let q = build_query("ALICE.MESH", QTYPE_A);
    assert!(matches!(handle_query(&q, &table), QueryOutcome::Answered(_)));
}

#[test]
fn wildcard_subdomain_of_peer_root_resolves() {
    let table = vec![peer_root("alice.mesh", Ipv4Addr::new(10, 66, 0, 2))];
    let q = build_query("whatever.alice.mesh", QTYPE_A);
    match handle_query(&q, &table) {
        QueryOutcome::Answered(resp) => assert_eq!(&resp[resp.len() - 4..], &[10, 66, 0, 2]),
        _ => panic!("expected wildcard match to resolve"),
    }
    let q2 = build_query("deep.sub.alice.mesh", QTYPE_A);
    assert!(matches!(handle_query(&q2, &table), QueryOutcome::Answered(_)));
}

#[test]
fn registered_service_wins_over_wildcard() {
    let table = vec![
        peer_root("alice.mesh", Ipv4Addr::new(10, 66, 0, 2)),
        service_entry("game.alice.mesh", Ipv4Addr::new(10, 66, 0, 2)),
    ];
    let q = build_query("game.alice.mesh", QTYPE_A);
    assert!(matches!(handle_query(&q, &table), QueryOutcome::Answered(_)));
}

#[test]
fn deep_subdomain_of_a_service_still_resolves_via_peer_wildcard() {
    let table = vec![
        peer_root("alice.mesh", Ipv4Addr::new(10, 66, 0, 2)),
        service_entry("game.alice.mesh", Ipv4Addr::new(10, 66, 0, 2)),
    ];
    let q = build_query("sub.game.alice.mesh", QTYPE_A);
    match handle_query(&q, &table) {
        QueryOutcome::Answered(resp) => assert_eq!(&resp[resp.len() - 4..], &[10, 66, 0, 2]),
        _ => panic!("expected deep subdomain of peer root to resolve"),
    }
}

#[test]
fn subdomain_of_a_different_peers_service_name_does_not_leak() {
    let table = vec![
        peer_root("alice.mesh", Ipv4Addr::new(10, 66, 0, 2)),
        peer_root("bob.mesh", Ipv4Addr::new(10, 66, 0, 3)),
        service_entry("game.bob.mesh", Ipv4Addr::new(10, 66, 0, 3)),
    ];
    let q = build_query("game-bob-mesh.example.com", QTYPE_A);
    assert!(matches!(handle_query(&q, &table), QueryOutcome::Forward));
}

#[test]
fn unrelated_suffix_does_not_falsely_match() {
    let table = vec![peer_root("alice.mesh", Ipv4Addr::new(10, 66, 0, 2))];
    let q = build_query("evilalice.mesh", QTYPE_A);
    assert!(matches!(handle_query(&q, &table), QueryOutcome::Forward));
}

#[test]
fn malformed_queries_are_reported() {
    let table = vec![peer_root("alice.mesh", Ipv4Addr::new(10, 66, 0, 2))];
    assert!(matches!(handle_query(&[0x12, 0x34], &table), QueryOutcome::Malformed));
    let mut q = build_query("alice.mesh", QTYPE_A);
    q.truncate(q.len() - 3);
    assert!(parse_question(&q).is_none());
    assert!(matches!(handle_query(&q, &table), QueryOutcome::Malformed));
}

#[test]
fn question_end_and_response_layout() {
    let q = build_query("alice.mesh", QTYPE_A);
    // header 12 + 1+5 + 1+4 + 1 (root) + 4 (type, class)
    assert_eq!(find_question_end(&q), Some(28));
    let resp = build_a_response(&q, Ipv4Addr::new(10, 66, 0, 9));
    assert_eq!(resp.len(), 28 + 16);
    assert_eq!(&resp[0..2], &[0x12, 0x34]);
    assert_eq!(&resp[2..4], &[0x81, 0x80]);
    assert_eq!(&resp[6..8], &[0, 1]);
    assert_eq!(&resp[28..30], &[0xC0, 0x0C]);
    assert_eq!(&resp[resp.len() - 4..], &[10, 66, 0, 9]);
}

#[test]
fn resolve_prefers_exact_names() {
    let table = vec![
        peer_root("alice.mesh", Ipv4Addr::new(10, 66, 0, 2)),
        service_entry("game.alice.mesh", Ipv4Addr::new(10, 66, 0, 5)),
    ];
    assert_eq!(resolve("game.alice.mesh", &table), Some(Ipv4Addr::new(10, 66, 0, 5)));
    assert_eq!(resolve("x.alice.mesh", &table), Some(Ipv4Addr::new(10, 66, 0, 2)));
    assert_eq!(resolve("alice.mesh.", &table), None);
}
