use lan_mesh::config::{Config, MeConfig, PeerConfig};
use lan_mesh::gossip::GossipEntry;
use lan_mesh::mesh::{pick_real_interface, GossipOutcome, InterfaceCandidate, MeshState};
use lan_mesh::net::{parse_ipv4_str, parse_socket_addr_str, Ipv4Addr, SocketAddr};
use lan_mesh::peer::{now_secs, Peer};

fn ip(s: &str) -> Ipv4Addr {
    parse_ipv4_str(s).unwrap()
}

fn addr(s: &str) -> SocketAddr {
    parse_socket_addr_str(s).unwrap()
}

fn test_config() -> Config {
    Config {
        me: MeConfig {
            name: "me".to_string(),
            virtual_ip: ip("10.0.0.1"),
            prefix: 24,
            listen_port: 12345,
            psk: String::new(),
            mtu: 1400,
            domain_suffix: "mesh".to_string(),
            sync_hosts_file: false,
            dns_server: false,
            dns_port: 53,
            dns_auto_configure: false,
            manual_public_ip: None,
            manual_public_port: None,
            warp_compat: true,
            cache_public_addr: false,
            cached_public_ip: None,
            cached_public_port: None,
        },
        peers: Vec::new(),
        services: Vec::new(),
    }
}

fn test_state() -> MeshState {
    MeshState::new(test_config(), None)
}

#[test]
fn learn_peer_from_ping_then_gossip_name_only_update_is_reported() {
    let mut state = test_state();
    let peer_ip = ip("10.0.0.2");
    let a = addr("203.0.113.5:4000");

    let outcome = state.learn_peer_from_ping(peer_ip, a);
    assert!(matches!(outcome, Some(GossipOutcome::NewPeer { .. })));
    assert_eq!(state.get_peer(peer_ip).unwrap().name(), "peer-10.0.0.2");

    let entry = GossipEntry::peer(peer_ip, "alice", a, now_secs() as u32);
    let entry = GossipEntry { epoch_secs: state.get_peer(peer_ip).unwrap().confirmed_epoch(), ..entry };
    let outcome = state.apply_gossip_entry(&entry);
    match outcome {
        Some(GossipOutcome::NameUpdated { virtual_ip, name }) => {
            assert_eq!(virtual_ip, peer_ip);
            assert_eq!(name, "alice");
        }
        other => panic!("expected NameUpdated, got {other:?}"),
    }
    assert_eq!(state.get_peer(peer_ip).unwrap().name(), "alice");
}

#[test]
fn gossip_with_fresher_address_reports_address_updated_not_name_updated() {
    let mut state = test_state();
    let peer_ip = ip("10.0.0.3");
    let old_addr = addr("203.0.113.5:4000");
    state.learn_peer_from_ping(peer_ip, old_addr);

    let new_addr = addr("203.0.113.5:5000");
    let fresher_epoch = state.get_peer(peer_ip).unwrap().confirmed_epoch() + 10;
    let entry = GossipEntry::peer(peer_ip, "bob", new_addr, fresher_epoch);
    match state.apply_gossip_entry(&entry) {
        Some(GossipOutcome::AddressUpdated { virtual_ip, name, addr }) => {
            assert_eq!(virtual_ip, peer_ip);
            assert_eq!(name, "bob");
            assert_eq!(addr, new_addr);
        }
        other => panic!("expected AddressUpdated, got {other:?}"),
    }
}

#[test]
fn new_peer_learned_via_gossip_stores_its_lan_candidate() {
    let mut state = test_state();
    let peer_ip = ip("10.0.0.20");
    let public_addr = addr("203.0.113.7:1024");
    let lan_addr = addr("192.168.1.20:54321");
    let entry = GossipEntry::peer_with_lan(peer_ip, "server", public_addr, 1000, Some(lan_addr));
    state.apply_gossip_entry(&entry);
    assert_eq!(state.get_peer(peer_ip).unwrap().lan_candidate(), Some(lan_addr));
}

#[test]
fn existing_peer_gains_a_lan_candidate_from_a_later_gossip_entry() {
    let mut state = test_state();
    let peer_ip = ip("10.0.0.21");
    let public_addr = addr("203.0.113.7:1024");
    state.learn_peer_from_ping(peer_ip, public_addr);
    assert_eq!(state.get_peer(peer_ip).unwrap().lan_candidate(), None);

    let lan_addr = addr("192.168.1.20:54321");
    let entry = GossipEntry::peer_with_lan(peer_ip, "server", public_addr, 2000, Some(lan_addr));
    state.apply_gossip_entry(&entry);
    assert_eq!(state.get_peer(peer_ip).unwrap().lan_candidate(), Some(lan_addr));
}

#[test]
fn gossip_entry_without_a_lan_candidate_does_not_erase_a_previously_learned_one() {
    let mut state = test_state();
    let peer_ip = ip("10.0.0.22");
    let public_addr = addr("203.0.113.7:1024");
    let lan_addr = addr("192.168.1.20:54321");
    state.apply_gossip_entry(&GossipEntry::peer_with_lan(peer_ip, "server", public_addr, 1000, Some(lan_addr)));
    assert_eq!(state.get_peer(peer_ip).unwrap().lan_candidate(), Some(lan_addr));

    state.apply_gossip_entry(&GossipEntry::peer(peer_ip, "server", public_addr, 2000));
    assert_eq!(state.get_peer(peer_ip).unwrap().lan_candidate(), Some(lan_addr));
}

#[test]
fn same_router_scenario_lan_candidate_recovers_when_public_path_is_unreachable() {
    // The public path leads nowhere; the LAN candidate answers. Probing
    // both is the keepalive round's job (see `keepalive_targets`); here
    // the peer's side of it: the first reply heard promotes the LAN
    // address to the confirmed one.
    let lan_addr = addr("127.0.0.1:40001");
    let dead_addr = addr("127.0.0.1:40002");

    let mut peer = Peer::from_gossip(ip("10.0.0.30"), "server", dead_addr, 1000);
    peer.set_lan_candidate(Some(lan_addr));
    assert_eq!(peer.current_send_addr(), Some(dead_addr));
    assert_eq!(peer.lan_candidate(), Some(lan_addr));

    assert!(peer.observe(lan_addr));
    assert_eq!(peer.current_send_addr(), Some(lan_addr));
}

#[test]
fn gossip_with_unchanged_name_and_stale_address_is_a_true_noop() {
    let mut state = test_state();
    let peer_ip = ip("10.0.0.4");
    let a = addr("203.0.113.5:4000");
    state.learn_peer_from_ping(peer_ip, a);
    let epoch = state.get_peer(peer_ip).unwrap().confirmed_epoch();
    state.apply_gossip_entry(&GossipEntry::peer(peer_ip, "carol", a, epoch));
    assert_eq!(state.get_peer(peer_ip).unwrap().name(), "carol");

    let outcome = state.apply_gossip_entry(&GossipEntry::peer(peer_ip, "carol", a, epoch));
    assert!(outcome.is_none());
}

#[test]
fn apply_gossip_service_creates_unknown_peer_and_reports_announcement() {
    let mut state = test_state();
    let peer_ip = ip("10.0.0.5");
    let a = addr("203.0.113.9:9000");
    let entry = GossipEntry::service(peer_ip, "dave", a, now_secs() as u32, "game", 25565);
    match state.apply_gossip_service(&entry) {
        Some(GossipOutcome::ServiceAnnounced { virtual_ip, peer_name, service_name, port }) => {
            assert_eq!(virtual_ip, peer_ip);
            assert_eq!(peer_name, "dave");
            assert_eq!(service_name, "game");
            assert_eq!(port, 25565);
        }
        other => panic!("expected ServiceAnnounced, got {other:?}"),
    }
    assert_eq!(state.get_peer(peer_ip).unwrap().services(), vec![("game".to_string(), 25565)]);
}

#[test]
fn apply_gossip_service_is_noop_when_unchanged() {
    let mut state = test_state();
    let peer_ip = ip("10.0.0.6");
    let a = addr("203.0.113.9:9000");
    let entry = GossipEntry::service(peer_ip, "eve", a, now_secs() as u32, "web", 8080);
    assert!(state.apply_gossip_service(&entry).is_some());
    assert!(state.apply_gossip_service(&entry).is_none());
}

#[test]
fn refresh_domain_names_includes_peer_root_and_service_subdomains() {
    let mut state = test_state();
    let peer_ip = ip("10.0.0.7");
    let a = addr("203.0.113.9:9000");
    state.learn_peer_from_ping(peer_ip, a);
    let epoch = state.get_peer(peer_ip).unwrap().confirmed_epoch();
    state.apply_gossip_entry(&GossipEntry::peer(peer_ip, "frank", a, epoch));
    state.apply_gossip_service(&GossipEntry::service(peer_ip, "frank", a, epoch, "game", 25565));

    let infos = state.build_domain_infos();
    let frank = infos.iter().find(|i| i.virtual_ip == peer_ip).unwrap();
    assert_eq!(frank.name, "frank");
    assert_eq!(frank.services, vec![("game".to_string(), 25565)]);
}

fn candidate(index: u32, name: &str, description: &str, ipv4_addrs: &[&str]) -> InterfaceCandidate {
    InterfaceCandidate {
        index,
        name: name.to_string(),
        description: description.to_string(),
        ipv4_addrs: ipv4_addrs.iter().map(|s| ip(s)).collect(),
    }
}

#[test]
fn picks_the_only_real_adapter() {
    let candidates = vec![candidate(5, "Ethernet", "Realtek PCIe GbE Family Controller", &["192.168.1.10"])];
    let picked = pick_real_interface(&candidates, Some(ip("10.66.0.1")));
    assert_eq!(picked, Some((5, "Ethernet".to_string())));
}

#[test]
fn excludes_own_tun_adapter_by_address_even_with_a_misleading_name_and_description() {
    let candidates = vec![
        candidate(9, "Ethernet 3", "meowmesh0", &["10.66.0.1"]),
        candidate(3, "Wi-Fi", "Intel(R) Wi-Fi 6 AX201 160MHz", &["192.168.1.11"]),
    ];
    let picked = pick_real_interface(&candidates, Some(ip("10.66.0.1")));
    assert_eq!(picked, Some((3, "Wi-Fi".to_string())));
}

#[test]
fn falls_back_to_name_heuristic_when_virtual_ip_unknown() {
    let candidates = vec![
        candidate(9, "meowmesh0", "meowmesh0", &["10.66.0.1"]),
        candidate(3, "Wi-Fi", "Intel(R) Wi-Fi 6 AX201 160MHz", &["192.168.1.11"]),
    ];
    let picked = pick_real_interface(&candidates, None);
    assert_eq!(picked, Some((3, "Wi-Fi".to_string())));
}

#[test]
fn excludes_cloudflare_warp_by_description() {
    let candidates = vec![
        candidate(9, "Ethernet 5", "Cloudflare WARP Interface Tunnel", &["100.96.0.5"]),
        candidate(3, "Ethernet", "Realtek PCIe GbE Family Controller", &["192.168.1.10"]),
    ];
    let picked = pick_real_interface(&candidates, Some(ip("10.66.0.1")));
    assert_eq!(picked, Some((3, "Ethernet".to_string())));
}

#[test]
fn excludes_adapters_with_no_ipv4_address() {
    let candidates = vec![
        candidate(9, "Disabled NIC", "Some Adapter", &[]),
        candidate(3, "Ethernet", "Realtek PCIe GbE Family Controller", &["192.168.1.10"]),
    ];
    let picked = pick_real_interface(&candidates, Some(ip("10.66.0.1")));
    assert_eq!(picked, Some((3, "Ethernet".to_string())));
}

#[test]
fn returns_none_when_only_our_own_adapter_and_vpns_are_present() {
    let candidates = vec![
        candidate(9, "meowmesh0", "meowmesh0", &["10.66.0.1"]),
        candidate(4, "Ethernet 5", "Cloudflare WARP Interface Tunnel", &["100.96.0.5"]),
    ];
    let picked = pick_real_interface(&candidates, Some(ip("10.66.0.1")));
    assert_eq!(picked, None);
}

#[test]
fn first_non_excluded_candidate_wins_when_multiple_real_nics_present() {
    let candidates = vec![
        candidate(2, "Ethernet", "Realtek PCIe GbE Family Controller", &["192.168.1.10"]),
        candidate(3, "Wi-Fi", "Intel(R) Wi-Fi 6 AX201 160MHz", &["192.168.1.11"]),
    ];
    let picked = pick_real_interface(&candidates, Some(ip("10.66.0.1")));
    assert_eq!(picked, Some((2, "Ethernet".to_string())));
}

#[test]
fn set_manual_public_addr_updates_config_and_live_state() {
    let mut state = test_state();
    assert_eq!(state.my_public_addr(), None);

    state.set_manual_public_addr(ip("203.0.113.5"), 4000);

    assert_eq!(state.my_public_addr(), Some(addr("203.0.113.5:4000")));
    let cfg = state.config();
    assert_eq!(cfg.me.manual_public_ip.as_deref(), Some("203.0.113.5"));
    assert_eq!(cfg.me.manual_public_port, Some(4000));
}

#[test]
fn clear_manual_public_addr_clears_config_and_live_state_immediately() {
    let mut state = test_state();
    state.set_manual_public_addr(ip("203.0.113.5"), 4000);
    assert!(state.my_public_addr().is_some());

    state.clear_manual_public_addr();

    assert_eq!(state.my_public_addr(), None);
    let cfg = state.config();
    assert_eq!(cfg.me.manual_public_ip, None);
    assert_eq!(cfg.me.manual_public_port, None);
}

#[test]
fn reset_public_addr_clears_cache_and_live_value_but_not_manual_override() {
    let mut cfg = test_config();
    cfg.me.cache_public_addr = true;
    cfg.set_cached_public_addr(addr("203.0.113.9:9000"));
    cfg.me.manual_public_ip = Some("198.51.100.1".to_string());
    cfg.me.manual_public_port = Some(1234);
    let mut state = MeshState::new(cfg, None);
    state.adopt_public_addr_at(addr("203.0.113.9:9000"), 1);

    state.reset_public_addr();

    assert_eq!(state.my_public_addr(), None);
    let cfg = state.config();
    assert_eq!(cfg.me.cached_public_ip, None);
    assert_eq!(cfg.me.cached_public_port, None);
    assert_eq!(cfg.me.manual_public_ip.as_deref(), Some("198.51.100.1"));
    assert_eq!(cfg.me.manual_public_port, Some(1234));
}

#[test]
fn never_learns_itself_from_a_ping() {
    let mut state = test_state();
    assert!(state.learn_peer_from_ping(ip("10.0.0.1"), addr("203.0.113.5:4000")).is_none());
    assert_eq!(state.peer_count(), 0);
}

#[test]
fn configured_peers_are_in_the_table_at_start() {
    let mut cfg = test_config();
    cfg.peers.push(PeerConfig {
        name: "alice".to_string(),
        virtual_ip: ip("10.0.0.2"),
        public_ip: "203.0.113.5".to_string(),
        public_port: 4000,
    });
    let state = MeshState::new(cfg, None);
    assert_eq!(state.peer_count(), 1);
    let p = state.get_peer(ip("10.0.0.2")).unwrap();
    assert_eq!(p.name(), "alice");
    assert_eq!(p.current_send_addr(), Some(addr("203.0.113.5:4000")));
    assert!(!p.discovered_via_gossip());
}

#[test]
fn snapshot_orders_peers_by_address() {
    let mut state = test_state();
    state.learn_peer_from_ping(ip("10.0.0.9"), addr("203.0.113.9:9"));
    state.learn_peer_from_ping(ip("10.0.0.3"), addr("203.0.113.3:3"));
    state.learn_peer_from_ping(ip("10.0.0.5"), addr("203.0.113.5:5"));
    let snap = state.snapshot();
    let ips: Vec<Ipv4Addr> = snap.peers.iter().map(|p| p.virtual_ip).collect();
    assert_eq!(ips, vec![ip("10.0.0.3"), ip("10.0.0.5"), ip("10.0.0.9")]);
    assert_eq!(snap.my_virtual_ip, ip("10.0.0.1"));
}
