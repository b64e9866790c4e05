use lan_mesh::config::{Config, MeConfig, PeerConfig};
use lan_mesh::gossip::parse_payload;
use lan_mesh::mesh::{GossipOutcome, MeshState};
use lan_mesh::net::{parse_ipv4_str, parse_socket_addr_str, Ipv4Addr, SocketAddr};
use lan_mesh::proto::{build, parse, Header, TYPE_DATA, TYPE_GOSSIP, TYPE_PING, TYPE_PONG};

fn ip(s: &str) -> Ipv4Addr {
    parse_ipv4_str(s).unwrap()
}

fn addr(s: &str) -> SocketAddr {
    parse_socket_addr_str(s).unwrap()
}

fn peer(name: &str, vip: &str, host: &str, port: u16) -> PeerConfig {
    PeerConfig { name: name.to_string(), virtual_ip: ip(vip), public_ip: host.to_string(), public_port: port }
}

fn mesh() -> MeshState {
    let cfg = Config {
        me: MeConfig {
            name: "me".to_string(),
            virtual_ip: ip("10.0.0.1"),
            prefix: 24,
            listen_port: 12345,
            psk: String::new(),
            mtu: 1400,
            domain_suffix: "mesh".to_string(),
            sync_hosts_file: false,
            dns_server: false,
            dns_port: 53,
            dns_auto_configure: false,
            manual_public_ip: None,
            manual_public_port: None,
            warp_compat: true,
            cache_public_addr: false,
            cached_public_ip: None,
            cached_public_port: None,
        },
        peers: vec![
            peer("bob", "10.0.0.2", "203.0.113.2", 4000),
            peer("carol", "10.0.0.3", "203.0.113.3", 5000),
            peer("dave", "10.0.0.4", "dave.example.org", 6000),
        ],
        services: Vec::new(),
    };
    MeshState::new(cfg, None)
}

fn ipv4_packet(dst: [u8; 4]) -> Vec<u8> {
    let mut p = vec![0u8; 28];
    p[0] = 0x45;
    p[12..16].copy_from_slice(&[10, 0, 0, 1]);
    p[16..20].copy_from_slice(&dst);
    p
}

#[test]
fn broadcast_goes_to_every_reachable_peer_and_unicast_to_one() {
    let m = mesh();
    let packet = ipv4_packet([10, 0, 0, 255]);
    let (frame, targets) = m.route_outbound(&packet).unwrap();
    assert_eq!(frame, build(TYPE_DATA, ip("10.0.0.1"), &packet));
    assert_eq!(targets, vec![addr("203.0.113.2:4000"), addr("203.0.113.3:5000")]);

    let (_, multicast) = m.route_outbound(&ipv4_packet([239, 255, 255, 250])).unwrap();
    assert_eq!(multicast.len(), 2);

    let (_, unicast) = m.route_outbound(&ipv4_packet([10, 0, 0, 3])).unwrap();
    assert_eq!(unicast, vec![addr("203.0.113.3:5000")]);

    let (_, unresolved) = m.route_outbound(&ipv4_packet([10, 0, 0, 4])).unwrap();
    assert!(unresolved.is_empty());

    let (_, unknown) = m.route_outbound(&ipv4_packet([10, 0, 0, 9])).unwrap();
    assert!(unknown.is_empty());

    let mut v6 = ipv4_packet([10, 0, 0, 2]);
    v6[0] = 0x60;
    assert!(m.route_outbound(&v6).is_none());
    assert!(m.route_outbound(&[0x45, 0, 0]).is_none());
}

#[test]
fn keepalive_pings_every_address() {
    let mut m = mesh();
    let (frame, targets) = m.keepalive_round(7);
    assert_eq!(frame, build(TYPE_PING, ip("10.0.0.1"), &7u64.to_be_bytes()));
    assert_eq!(targets, vec![addr("203.0.113.2:4000"), addr("203.0.113.3:5000")]);
}

#[test]
fn gossip_round_describes_known_peers() {
    let m = mesh();
    let (frames, targets) = m.gossip_frames();
    assert_eq!(targets, vec![addr("203.0.113.2:4000"), addr("203.0.113.3:5000")]);
    assert!(!frames.is_empty());
    let mut named = Vec::new();
    for f in &frames {
        let (h, payload) = parse(f).unwrap();
        assert_eq!(h.packet_type, TYPE_GOSSIP);
        assert_eq!(h.sender_virtual_ip, ip("10.0.0.1"));
        for e in parse_payload(payload) {
            named.push((e.name.clone(), e.virtual_ip, e.addr));
        }
    }
    assert!(named.contains(&("bob".to_string(), ip("10.0.0.2"), addr("203.0.113.2:4000"))));
    assert!(named.contains(&("carol".to_string(), ip("10.0.0.3"), addr("203.0.113.3:5000"))));
}

#[test]
fn received_packets_are_handled_by_type() {
    let mut m = mesh();
    let stranger = ip("10.0.0.50");
    let from = addr("198.51.100.5:7000");

    let data = m.on_packet_at(Header { packet_type: TYPE_DATA, sender_virtual_ip: stranger }, &[1, 2, 3], from, 1000);
    assert!(!data.accepted);
    assert!(data.deliver.is_none());

    let nonce = 42u64.to_be_bytes();
    let ping = m.on_packet_at(Header { packet_type: TYPE_PING, sender_virtual_ip: stranger }, &nonce, from, 1001);
    assert!(ping.accepted);
    assert!(matches!(ping.learned, Some(GossipOutcome::NewPeer { .. })));
    assert_eq!(ping.reply, Some(build(TYPE_PONG, ip("10.0.0.1"), &nonce)));
    assert!(m.get_peer(stranger).is_some());

    let bob = ip("10.0.0.2");
    let bob_addr = addr("203.0.113.2:4000");
    let first = m.on_packet_at(Header { packet_type: TYPE_DATA, sender_virtual_ip: bob }, &[9, 9], bob_addr, 1002);
    assert!(first.accepted);
    assert!(first.first_contact);
    assert_eq!(first.deliver, Some(vec![9, 9]));
    let again = m.on_packet_at(Header { packet_type: TYPE_DATA, sender_virtual_ip: bob }, &[8], bob_addr, 1003);
    assert!(!again.first_contact);

    let empty = m.on_packet_at(Header { packet_type: TYPE_DATA, sender_virtual_ip: bob }, &[], bob_addr, 1004);
    assert!(empty.accepted);
    assert!(empty.deliver.is_none());
}

#[test]
fn public_address_ticks() {
    let mut m = mesh();
    assert_eq!(m.public_addr_seed(), None);
    assert_eq!(m.apply_manual_override_at(100), None);
    let found = addr("198.51.100.1:12345");
    assert_eq!(m.apply_stun_result_at(found, 100), (true, false));
    assert_eq!(m.my_public_addr(), Some(found));
    assert_eq!(m.apply_stun_result_at(found, 130), (false, false));
    let moved = addr("198.51.100.1:23456");
    assert_eq!(m.apply_stun_result_at(moved, 160), (true, false));

    m.set_manual_public_addr_at(ip("192.0.2.7"), 4000, 200);
    assert_eq!(m.my_public_addr(), Some(addr("192.0.2.7:4000")));
    assert_eq!(m.apply_manual_override_at(230), Some(false));
    m.clear_manual_public_addr();
    assert_eq!(m.my_public_addr(), None);
    assert_eq!(m.apply_manual_override_at(260), None);
}

#[test]
fn discovered_address_is_cached_when_caching_is_on() {
    let mut m = mesh();
    let mut cfg = m.config().clone();
    cfg.me.cache_public_addr = true;
    let mut m2 = MeshState::new(cfg, None);
    let found = addr("198.51.100.1:12345");
    assert_eq!(m2.apply_stun_result_at(found, 100), (true, true));
    assert_eq!(m2.config().cached_public_addr(), Some(found));
    assert_eq!(m2.apply_stun_result_at(found, 130), (false, false));
    assert_eq!(m2.public_addr_seed(), Some(found));
    m2.reset_public_addr();
    assert_eq!(m2.my_public_addr(), None);
    assert_eq!(m2.config().cached_public_addr(), None);
    let _ = m.keepalive_round(0);
}

#[test]
fn live_edits_change_the_table_and_the_configuration() {
    let mut m = mesh();
    assert!(m.add_peer_live_at(peer("erin", "10.0.0.5", "203.0.113.5", 7000), 500));
    assert_eq!(m.get_peer(ip("10.0.0.5")).unwrap().current_send_addr(), Some(addr("203.0.113.5:7000")));
    assert!(m.config().peers.iter().any(|p| p.virtual_ip == ip("10.0.0.5")));
    assert!(!m.add_peer_live_at(peer("fay", "10.0.0.6", "fay.example.org", 7000), 500));
    assert!(m.get_peer(ip("10.0.0.6")).is_none());

    assert!(m.add_service_live("  Web ", 8080));
    assert!(!m.add_service_live("   ", 8080));
    assert_eq!(m.config().services.len(), 1);
    assert!(m.add_service_live("WEB", 9090));
    assert_eq!(m.config().services.len(), 1);
    assert_eq!(m.config().services[0].port, 9090);
    assert!(m.remove_service_live("web"));
    assert!(!m.remove_service_live("web"));
    assert!(m.config().services.is_empty());
}

#[test]
fn snapshot_lists_peers_by_address() {
    let mut m = mesh();
    let bob = ip("10.0.0.2");
    let _ = m.on_packet_at(Header { packet_type: TYPE_DATA, sender_virtual_ip: bob }, &[1], addr("203.0.113.2:4000"), 1000);
    let snap = m.snapshot_at(1010);
    assert_eq!(snap.my_virtual_ip, ip("10.0.0.1"));
    assert_eq!(snap.listen_port, 12345);
    let ips: Vec<Ipv4Addr> = snap.peers.iter().map(|p| p.virtual_ip).collect();
    assert_eq!(ips, vec![ip("10.0.0.2"), ip("10.0.0.3"), ip("10.0.0.4")]);
    assert_eq!(snap.peers[0].seconds_since_seen, Some(10));
    assert_eq!(snap.peers[1].seconds_since_seen, None);
    assert_eq!(snap.peers[2].addr, None);
}

#[test]
fn live_domain_names_cover_every_peer() {
    let mut m = mesh();
    assert!(m.add_service_live("web", 80));
    let names: Vec<(String, Ipv4Addr)> =
        m.domain_snapshot().iter().map(|e| (e.hostname.clone(), e.virtual_ip)).collect();
    for (n, a) in [("me.mesh", "10.0.0.1"), ("web.me.mesh", "10.0.0.1"), ("bob.mesh", "10.0.0.2"), ("dave.mesh", "10.0.0.4")] {
        assert!(names.contains(&(n.to_string(), ip(a))), "{n}");
    }
    let table = lan_mesh::mesh::dns_entries(&m.domain_entries());
    assert_eq!(table.len(), names.len());
    assert!(table.iter().any(|e| e.hostname == "bob.mesh" && e.is_peer_root));
    assert!(table.iter().any(|e| e.hostname == "web.me.mesh" && !e.is_peer_root));
}

#[test]
fn address_text_conversions() {
    let a = ip("192.168.1.20");
    assert_eq!(a.to_text(), "192.168.1.20");
    assert_eq!(a.to_u32(), 0xC0A80114);
    assert_eq!(Ipv4Addr::from_u32(0xC0A80114), a);
    assert_eq!(a.octets(), [192, 168, 1, 20]);
    assert_eq!(Ipv4Addr::broadcast().to_text(), "255.255.255.255");
    assert_eq!(SocketAddr::new(a, 80).to_text(), "192.168.1.20:80");
    assert_eq!(lan_mesh::net::format_decimal(1234567), "1234567");
    assert_eq!(lan_mesh::mesh::be64_bytes(0x0102030405060708), vec![1, 2, 3, 4, 5, 6, 7, 8]);
    assert_eq!(lan_mesh::mesh::be64_read(&[1, 2, 3, 4, 5, 6, 7, 8]), 0x0102030405060708);
}
