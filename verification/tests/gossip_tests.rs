use lan_mesh::gossip::{
    build_payloads, build_single_payload, parse_payload, GossipEntry, MAX_ENTRIES_PER_PACKET,
    MAX_NAME_LEN, MAX_SERVICE_NAME_LEN,
};
use lan_mesh::net::{parse_socket_addr_str, Ipv4Addr, SocketAddr};

fn addr(s: &str) -> SocketAddr {
    parse_socket_addr_str(s).unwrap()
}

#[test]
fn roundtrip_single_entry() {
    let entries = vec![GossipEntry::peer(Ipv4Addr::new(10, 66, 0, 3), "carol", addr("203.0.113.9:54321"), 1_700_000_000)];
    let payloads = build_payloads(&entries);
    assert_eq!(payloads.len(), 1);
    let parsed = parse_payload(&payloads[0]);
    assert_eq!(parsed, entries);
}

#[test]
fn roundtrip_many_entries_splits_packets() {
    let entries: Vec<GossipEntry> = (0..40)
        .map(|i| {
            GossipEntry::peer(
                Ipv4Addr::new(10, 66, 0, i as u8),
                &format!("peer{i}"),
                SocketAddr::new(Ipv4Addr::new(203, 0, 113, i as u8), 40000 + i as u16),
                1_700_000_000 + i as u32,
            )
        })
        .collect();
    let payloads = build_payloads(&entries);
    assert_eq!(payloads.len(), 3); // 40 entries / 16 per packet -> 3 packets
    let mut all_parsed = Vec::new();
    for p in &payloads {
        all_parsed.extend(parse_payload(p));
    }
    assert_eq!(all_parsed, entries);
}

#[test]
fn handles_empty_and_garbage_gracefully() {
    assert!(parse_payload(&[]).is_empty());
    assert!(parse_payload(&[5]).is_empty()); // claims 5 entries, has none
    assert!(parse_payload(&[1, 1, 2, 3]).is_empty()); // truncated entry
}

#[test]
fn long_name_is_truncated_not_rejected() {
    let entries = vec![GossipEntry::peer(Ipv4Addr::new(10, 66, 0, 9), &"a".repeat(100), addr("203.0.113.9:1234"), 42)];
    let payloads = build_payloads(&entries);
    let parsed = parse_payload(&payloads[0]);
    assert_eq!(parsed[0].name.len(), MAX_NAME_LEN);
}

#[test]
fn roundtrip_service_entry() {
    let entries = vec![GossipEntry::service(
        Ipv4Addr::new(10, 66, 0, 3),
        "carol",
        addr("203.0.113.9:54321"),
        1_700_000_000,
        "game",
        25565,
    )];
    let payloads = build_payloads(&entries);
    let parsed = parse_payload(&payloads[0]);
    assert_eq!(parsed, entries);
    assert!(parsed[0].is_service());
    assert_eq!(parsed[0].service_name, "game");
    assert_eq!(parsed[0].service_port, 25565);
}

#[test]
fn mixed_peer_and_service_entries_roundtrip() {
    let entries = vec![
        GossipEntry::peer(Ipv4Addr::new(10, 66, 0, 3), "carol", addr("203.0.113.9:54321"), 100),
        GossipEntry::service(Ipv4Addr::new(10, 66, 0, 3), "carol", addr("203.0.113.9:54321"), 100, "voice", 7777),
    ];
    let payloads = build_payloads(&entries);
    let parsed = parse_payload(&payloads[0]);
    assert_eq!(parsed, entries);
}

#[test]
fn roundtrip_with_lan_candidate() {
    let entries = vec![GossipEntry::peer_with_lan(
        Ipv4Addr::new(10, 66, 0, 10),
        "server",
        addr("203.0.113.7:1024"),
        1_700_000_000,
        Some(addr("192.168.1.20:54321")),
    )];
    let payloads = build_payloads(&entries);
    let parsed = parse_payload(&payloads[0]);
    assert_eq!(parsed, entries);
    assert_eq!(parsed[0].lan_addr, Some(addr("192.168.1.20:54321")));
}

#[test]
fn no_lan_candidate_roundtrips_as_none() {
    let entries = vec![GossipEntry::peer(Ipv4Addr::new(10, 66, 0, 3), "carol", addr("203.0.113.9:54321"), 100)];
    let payloads = build_payloads(&entries);
    let parsed = parse_payload(&payloads[0]);
    assert_eq!(parsed[0].lan_addr, None);
}

#[test]
fn truncated_packet_missing_lan_flag_byte_still_parses_other_fields() {
    let entries = vec![GossipEntry::peer(Ipv4Addr::new(10, 66, 0, 3), "carol", addr("203.0.113.9:54321"), 100)];
    let mut payload = build_single_payload(&entries);
    payload.pop();
    let parsed = parse_payload(&payload);
    assert_eq!(parsed.len(), 1);
    assert_eq!(parsed[0].virtual_ip, Ipv4Addr::new(10, 66, 0, 3));
    assert_eq!(parsed[0].lan_addr, None);
}

#[test]
fn long_service_name_is_truncated_not_rejected() {
    let entries = vec![GossipEntry::service(
        Ipv4Addr::new(10, 66, 0, 9),
        "bob",
        addr("203.0.113.9:1234"),
        42,
        &"s".repeat(100),
        80,
    )];
    let payloads = build_payloads(&entries);
    let parsed = parse_payload(&payloads[0]);
    assert_eq!(parsed[0].service_name.len(), MAX_SERVICE_NAME_LEN);
}

#[test]
fn empty_entry_list_builds_no_payload() {
    assert!(build_payloads(&[]).is_empty());
    assert_eq!(build_single_payload(&[]), vec![0u8]);
}

#[test]
fn exactly_one_full_packet() {
    let entries: Vec<GossipEntry> = (0..MAX_ENTRIES_PER_PACKET)
        .map(|i| GossipEntry::peer(Ipv4Addr::new(10, 66, 1, i as u8), "x", addr("203.0.113.1:1"), i as u32))
        .collect();
    let payloads = build_payloads(&entries);
    assert_eq!(payloads.len(), 1);
    assert_eq!(payloads[0][0] as usize, MAX_ENTRIES_PER_PACKET);
    assert_eq!(parse_payload(&payloads[0]), entries);
}

#[test]
fn single_entry_wire_layout() {
    let e = GossipEntry::peer(Ipv4Addr::new(10, 66, 0, 3), "ab", addr("203.0.113.9:258"), 0x01020304);
    let p = build_single_payload(&[e]);
    assert_eq!(
        p,
        vec![1, 10, 66, 0, 3, 2, b'a', b'b', 203, 0, 113, 9, 1, 2, 1, 2, 3, 4, 0, 0, 0, 0]
    );
}
