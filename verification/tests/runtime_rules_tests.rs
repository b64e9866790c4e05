use lan_mesh::autostart::{desktop_file, DESKTOP_FILE_NAME};
use lan_mesh::config::{Config, MeConfig, PeerConfig, ServiceConfig};
use lan_mesh::dns::{resolv_conf_update, LOCAL_NAMESERVER_LINE};
use lan_mesh::gui::read_service_form;
use lan_mesh::logsink::{log_line, set_sink, LogSink};
use lan_mesh::mesh::{offline_domain_snapshot, MeshState};
use lan_mesh::net::{parse_ipv4_str, parse_socket_addr_str, Ipv4Addr, SocketAddr};
use lan_mesh::peer::Peer;
use lan_mesh::updater::parse_version;
use std::cell::RefCell;

fn ip(s: &str) -> Ipv4Addr {
    parse_ipv4_str(s).unwrap()
}

fn addr(s: &str) -> SocketAddr {
    parse_socket_addr_str(s).unwrap()
}

fn config_with(peers: Vec<PeerConfig>, services: Vec<ServiceConfig>) -> Config {
    Config {
        me: MeConfig {
            name: "Me".to_string(),
            virtual_ip: ip("10.0.0.1"),
            prefix: 24,
            listen_port: 12345,
            psk: String::new(),
            mtu: 1400,
            domain_suffix: "mesh".to_string(),
            sync_hosts_file: false,
            dns_server: false,
            dns_port: 53,
            dns_auto_configure: false,
            manual_public_ip: None,
            manual_public_port: None,
            warp_compat: true,
            cache_public_addr: false,
            cached_public_ip: None,
            cached_public_port: None,
        },
        peers,
        services,
    }
}

fn peer_config(name: &str, vip: &str, host: &str, port: u16) -> PeerConfig {
    PeerConfig { name: name.to_string(), virtual_ip: ip(vip), public_ip: host.to_string(), public_port: port }
}

#[test]
fn resolv_conf_gets_the_local_nameserver_first() {
    let before = "nameserver 1.1.1.1\nsearch lan\n";
    let after = resolv_conf_update(before, 53).unwrap().unwrap();
    assert_eq!(after, format!("{}\n{}", LOCAL_NAMESERVER_LINE, before));
    assert_eq!(resolv_conf_update("  nameserver 127.0.0.1  \nnameserver 8.8.8.8\n", 53), Ok(None));
    assert!(resolv_conf_update(before, 5353).is_err());
    assert_eq!(resolv_conf_update("", 53).unwrap().unwrap(), format!("{}\n", LOCAL_NAMESERVER_LINE));
}

#[test]
fn host_names_are_resolved_only_when_needed() {
    let mut named = Peer::new(&peer_config("bob", "10.0.0.2", "bob.example.org", 4000));
    assert!(named.needs_resolving());
    assert_eq!(named.current_send_addr(), None);
    named.set_resolved_addr(Some(addr("198.51.100.7:4000")));
    assert_eq!(named.current_send_addr(), Some(addr("198.51.100.7:4000")));
    assert!(named.needs_resolving());

    let literal = Peer::new(&peer_config("carol", "10.0.0.3", "203.0.113.9", 5000));
    assert!(!literal.needs_resolving());
    assert_eq!(literal.current_send_addr(), Some(addr("203.0.113.9:5000")));
}

#[test]
fn mesh_records_a_resolved_address() {
    let cfg = config_with(vec![peer_config("bob", "10.0.0.2", "bob.example.org", 4000)], Vec::new());
    let mut mesh = MeshState::new(cfg, None);
    mesh.set_resolved_addr(ip("10.0.0.2"), Some(addr("198.51.100.7:4000")));
    assert_eq!(mesh.get_peer(ip("10.0.0.2")).unwrap().current_send_addr(), Some(addr("198.51.100.7:4000")));
    mesh.set_resolved_addr(ip("10.0.0.9"), Some(addr("198.51.100.8:4000")));
    assert!(mesh.get_peer(ip("10.0.0.9")).is_none());
}

#[test]
fn offline_snapshot_names_me_and_my_peers() {
    let cfg = config_with(
        vec![peer_config("Bob", "10.0.0.2", "203.0.113.2", 4000)],
        vec![ServiceConfig { name: "Web".to_string(), port: 8080 }],
    );
    let entries = offline_domain_snapshot(&cfg);
    let names: Vec<(String, Ipv4Addr, bool, Option<u16>)> =
        entries.iter().map(|e| (e.hostname.clone(), e.virtual_ip, e.is_peer_root, e.port)).collect();
    assert!(names.contains(&("me.mesh".to_string(), ip("10.0.0.1"), true, None)));
    assert!(names.contains(&("web.me.mesh".to_string(), ip("10.0.0.1"), false, Some(8080))));
    assert!(names.contains(&("bob.mesh".to_string(), ip("10.0.0.2"), true, None)));
}

#[test]
fn service_form_is_read() {
    assert_eq!(read_service_form("  web ", " 8080 "), Ok(("web".to_string(), 8080)));
    assert_eq!(read_service_form("   ", "80"), Err("Service name can't be empty.".to_string()));
    assert_eq!(read_service_form("web", "http"), Err("Invalid port.".to_string()));
    assert_eq!(read_service_form("web", "70000"), Err("Invalid port.".to_string()));
}

#[test]
fn release_tags_read_back_as_versions() {
    for (a, b, c) in [(0u64, 31u64, 0u64), (1, 2, 3), (10, 0, 7)] {
        let tag = format!("v{}.{}.{}", a, b, c);
        assert_eq!(parse_version(&tag), Some((a, b, c)));
    }
}

#[test]
fn log_lines_go_to_the_sink_once_installed() {
    assert_eq!(log_line("12:34:56", "hello"), "[12:34:56] hello");
    let seen: RefCell<Vec<String>> = RefCell::new(Vec::new());
    let mut log = LogSink::new();
    assert_eq!(log.emit("00:00:01", "before"), Some("[00:00:01] before".to_string()));
    set_sink(&mut log, |l: &str| seen.borrow_mut().push(l.to_string()));
    assert_eq!(log.emit("00:00:02", "after"), None);
    assert_eq!(seen.borrow().clone(), vec!["[00:00:02] after".to_string()]);
}

#[test]
fn autostart_file_location() {
    assert_eq!(
        desktop_file(Some("/cfg"), None),
        Some(format!("/cfg/autostart/{}", DESKTOP_FILE_NAME))
    );
    assert_eq!(
        desktop_file(None, Some("/home/u")),
        Some(format!("/home/u/.config/autostart/{}", DESKTOP_FILE_NAME))
    );
    assert_eq!(desktop_file(Some(""), None), None);
}
