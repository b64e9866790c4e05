use lan_mesh::config::{Config, ImportOutcome, MeConfig, PeerConfig, ServiceConfig};
use lan_mesh::net::{parse_ipv4_str, parse_socket_addr_str, Ipv4Addr, SocketAddr};

fn base_config() -> Config {
    Config {
        me: MeConfig {
            name: "me".to_string(),
            virtual_ip: parse_ipv4_str("10.66.0.1").unwrap(),
            prefix: 24,
            listen_port: 12345,
            psk: String::new(),
            mtu: 1400,
            domain_suffix: "mesh".to_string(),
            sync_hosts_file: true,
            dns_server: false,
            dns_port: 53,
            dns_auto_configure: false,
            manual_public_ip: None,
            manual_public_port: None,
            warp_compat: true,
            cache_public_addr: false,
            cached_public_ip: None,
            cached_public_port: None,
        },
        peers: Vec::new(),
        services: Vec::new(),
    }
}

fn addr(s: &str) -> SocketAddr {
    parse_socket_addr_str(s).unwrap()
}

#[test]
fn manual_public_addr_is_none_when_unset() {
    let cfg = base_config();
    assert_eq!(cfg.manual_public_addr(), None);
}

#[test]
fn manual_public_addr_requires_both_fields() {
    let mut cfg = base_config();
    cfg.me.manual_public_ip = Some("203.0.113.5".to_string());
    // port still missing -- should not resolve to anything.
    assert_eq!(cfg.manual_public_addr(), None);

    cfg.me.manual_public_port = Some(4000);
    assert_eq!(cfg.manual_public_addr(), Some(addr("203.0.113.5:4000")));
}

#[test]
fn manual_public_addr_rejects_garbage_ip() {
    let mut cfg = base_config();
    cfg.me.manual_public_ip = Some("not-an-ip".to_string());
    cfg.me.manual_public_port = Some(4000);
    assert_eq!(cfg.manual_public_addr(), None);
}

#[test]
fn cached_public_addr_disabled_by_default_even_with_values_present() {
    let mut cfg = base_config();
    cfg.me.cached_public_ip = Some("203.0.113.9".to_string());
    cfg.me.cached_public_port = Some(9000);
    // cache_public_addr is false -- cached values should be ignored.
    assert_eq!(cfg.cached_public_addr(), None);
}

#[test]
fn cached_public_addr_resolves_when_enabled() {
    let mut cfg = base_config();
    cfg.me.cache_public_addr = true;
    cfg.me.cached_public_ip = Some("203.0.113.9".to_string());
    cfg.me.cached_public_port = Some(9000);
    assert_eq!(cfg.cached_public_addr(), Some(addr("203.0.113.9:9000")));
}

#[test]
fn set_cached_public_addr_is_a_noop_when_caching_disabled() {
    let mut cfg = base_config();
    cfg.set_cached_public_addr(addr("203.0.113.9:9000"));
    assert_eq!(cfg.me.cached_public_ip, None);
    assert_eq!(cfg.me.cached_public_port, None);
}

#[test]
fn set_and_clear_cached_public_addr_roundtrip() {
    let mut cfg = base_config();
    cfg.me.cache_public_addr = true;
    cfg.set_cached_public_addr(addr("203.0.113.9:9000"));
    assert_eq!(cfg.cached_public_addr(), Some(addr("203.0.113.9:9000")));

    cfg.clear_cached_public_addr();
    assert_eq!(cfg.cached_public_addr(), None);
    assert_eq!(cfg.me.cached_public_ip, None);
    assert_eq!(cfg.me.cached_public_port, None);
}

#[test]
fn manual_override_and_cache_are_independent() {
    let mut cfg = base_config();
    cfg.me.cache_public_addr = true;
    cfg.set_cached_public_addr(addr("203.0.113.9:9000"));
    cfg.me.manual_public_ip = Some("198.51.100.1".to_string());
    cfg.me.manual_public_port = Some(1234);

    assert_eq!(cfg.manual_public_addr(), Some(addr("198.51.100.1:1234")));
    assert_eq!(cfg.cached_public_addr(), Some(addr("203.0.113.9:9000")));
}

#[test]
fn set_manual_public_addr_reads_back() {
    let mut cfg = base_config();
    cfg.set_manual_public_addr(Ipv4Addr::new(198, 51, 100, 7), 4242);
    assert_eq!(cfg.me.manual_public_ip.as_deref(), Some("198.51.100.7"));
    assert_eq!(cfg.manual_public_addr(), Some(addr("198.51.100.7:4242")));
    assert!(cfg.clear_manual_public_addr());
    assert_eq!(cfg.manual_public_addr(), None);
    assert!(!cfg.clear_manual_public_addr());
}

#[test]
fn cached_address_written_as_dotted_text() {
    let mut cfg = base_config();
    cfg.me.cache_public_addr = true;
    cfg.set_cached_public_addr(addr("203.0.113.9:9000"));
    assert_eq!(cfg.me.cached_public_ip.as_deref(), Some("203.0.113.9"));
    assert_eq!(cfg.me.cached_public_port, Some(9000));
}

#[test]
fn broadcast_address_of_the_subnet() {
    let mut cfg = base_config();
    cfg.me.virtual_ip = Ipv4Addr::new(10, 66, 0, 2);
    assert_eq!(cfg.broadcast_addr(), Ipv4Addr::new(10, 66, 0, 255));
    cfg.me.prefix = 16;
    assert_eq!(cfg.broadcast_addr(), Ipv4Addr::new(10, 66, 255, 255));
    cfg.me.prefix = 32;
    assert_eq!(cfg.broadcast_addr(), Ipv4Addr::new(10, 66, 0, 2));
    cfg.me.prefix = 0;
    assert_eq!(cfg.broadcast_addr(), Ipv4Addr::new(255, 255, 255, 255));
}

#[test]
fn import_peer_replaces_adds_and_refuses_self() {
    let mut cfg = base_config();
    let bob = PeerConfig {
        name: "bob".to_string(),
        virtual_ip: Ipv4Addr::new(10, 66, 0, 3),
        public_ip: "203.0.113.3".to_string(),
        public_port: 1000,
    };
    assert_eq!(cfg.import_peer(bob.clone()), ImportOutcome::Added);
    let mut bob2 = bob.clone();
    bob2.public_port = 2000;
    assert_eq!(cfg.import_peer(bob2), ImportOutcome::Updated);
    assert_eq!(cfg.peers.len(), 1);
    assert_eq!(cfg.peers[0].public_port, 2000);
    let me = PeerConfig { virtual_ip: Ipv4Addr::new(10, 66, 0, 1), ..bob };
    assert_eq!(cfg.import_peer(me), ImportOutcome::OwnAddress);
    assert_eq!(cfg.peers.len(), 1);
}

#[test]
fn add_and_remove_services_ignore_case() {
    let mut cfg = base_config();
    assert!(cfg.add_service("  game ", 25565));
    assert!(cfg.add_service("GAME", 25566));
    assert_eq!(cfg.services, vec![ServiceConfig { name: "game".to_string(), port: 25566 }]);
    assert!(!cfg.add_service("   ", 80));
    assert!(cfg.add_service("web", 8080));
    assert!(cfg.remove_service("Game"));
    assert!(!cfg.remove_service("game"));
    assert_eq!(cfg.services.len(), 1);
    assert_eq!(cfg.services[0].name, "web");
}

#[test]
fn upsert_peer_addr_keeps_name_when_empty() {
    let mut cfg = base_config();
    let ip = Ipv4Addr::new(10, 66, 0, 9);
    cfg.upsert_peer_addr(ip, "zed", addr("203.0.113.1:5000"));
    cfg.upsert_peer_addr(ip, "", addr("203.0.113.2:6000"));
    assert_eq!(cfg.peers.len(), 1);
    assert_eq!(cfg.peers[0].name, "zed");
    assert_eq!(cfg.peers[0].public_ip, "203.0.113.2");
    assert_eq!(cfg.peers[0].public_port, 6000);
}
