use lan_mesh::net::Ipv4Addr;
use lan_mesh::registry::{check_size, public_ipv4, validate, Directory, Entry, MAX_BYTES};

fn entry() -> Entry {
    Entry {
        name: "alice".to_string(),
        virtual_ip: Ipv4Addr::new(10, 66, 0, 2),
        public_ip: Ipv4Addr::new(8, 8, 8, 8),
        public_port: 54321,
        owner: "alice".to_string(),
        updated_at: 100,
        expires_at: 200,
    }
}

fn dir(peers: Vec<Entry>) -> Directory {
    Directory { schema_version: 1, peers }
}

#[test]
fn validates_and_expires_entries() {
    assert_eq!(validate(dir(vec![entry()]), 150).unwrap().len(), 1);
    assert!(validate(dir(vec![entry()]), 200).unwrap().is_empty());
    assert!(validate(dir(vec![]), 150).unwrap().is_empty());
}

#[test]
fn rejects_private_endpoints_unknown_fields_and_duplicates() {
    for ip in [
        Ipv4Addr::new(127, 0, 0, 1),
        Ipv4Addr::new(192, 168, 1, 2),
        Ipv4Addr::new(100, 64, 0, 1),
        Ipv4Addr::new(0, 0, 0, 0),
        Ipv4Addr::new(224, 0, 0, 1),
        Ipv4Addr::new(203, 0, 113, 1),
    ] {
        assert!(validate(dir(vec![Entry { public_ip: ip, ..entry() }]), 150).is_err());
    }
    assert!(validate(dir(vec![entry(), entry()]), 150).is_err());
    assert!(check_size(MAX_BYTES + 1).is_err());
    assert!(validate(dir(vec![Entry { public_port: 0, ..entry() }]), 150).is_err());
}

#[test]
fn directory_errors_and_peers() {
    assert_eq!(
        validate(Directory { schema_version: 2, peers: vec![] }, 0).unwrap_err(),
        "Unsupported or oversized peer directory"
    );
    assert_eq!(
        validate(dir(vec![Entry { name: "-bad".to_string(), ..entry() }]), 150).unwrap_err(),
        "Invalid or duplicate peer directory entry"
    );
    assert!(validate(dir(vec![Entry { updated_at: 300, expires_at: 400, ..entry() }]), 150).is_err());
    assert!(validate(dir(vec![Entry { expires_at: 100 + 604800 + 1, ..entry() }]), 150).is_err());
    let peers = validate(dir(vec![entry()]), 150).unwrap();
    assert_eq!(peers[0].name, "alice");
    assert_eq!(peers[0].public_ip, "8.8.8.8");
    assert_eq!(peers[0].public_port, 54321);
    assert_eq!(check_size(MAX_BYTES), Ok(()));
    assert_eq!(check_size(MAX_BYTES + 1), Err("Peer directory exceeds size limit".to_string()));
    assert!(public_ipv4(Ipv4Addr::new(1, 1, 1, 1)));
    assert!(!public_ipv4(Ipv4Addr::new(172, 20, 0, 1)));
}
