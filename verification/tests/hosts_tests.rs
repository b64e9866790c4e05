use lan_mesh::hosts::{
    build_entries, build_entries_with_services, hosts_file_path, remove_block, sanitize_label,
    splice_hosts_block, PeerDomainInfo, BEGIN_MARKER, BLOCK_NOTE, END_MARKER,
};
use lan_mesh::net::Ipv4Addr;

#[test]
fn sanitizes_labels() {
    assert_eq!(sanitize_label("Alice"), "alice");
    assert_eq!(sanitize_label("Bob's PC!!"), "bobs-pc");
    assert_eq!(sanitize_label("  weird__--name.. "), "weird-name");
    assert_eq!(sanitize_label("???"), "peer");
    assert_eq!(sanitize_label(""), "peer");
}

#[test]
fn disambiguates_duplicate_names() {
    let peers = vec![
        ("alice".to_string(), Ipv4Addr::new(10, 66, 0, 2)),
        ("alice".to_string(), Ipv4Addr::new(10, 66, 0, 12)),
    ];
    let entries = build_entries("mesh", &peers);
    assert_eq!(entries[0].hostname, "alice.mesh");
    assert_eq!(entries[1].hostname, "alice-12.mesh");
}

#[test]
fn empty_suffix_omits_dot() {
    let peers = vec![("alice".to_string(), Ipv4Addr::new(10, 66, 0, 2))];
    let entries = build_entries("", &peers);
    assert_eq!(entries[0].hostname, "alice");
}

#[test]
fn sync_writes_and_replaces_managed_block_only() {
    let existing = "127.0.0.1 localhost\nsome.other.entry 1.2.3.4\n";
    let entries = build_entries("mesh", &[("alice".to_string(), Ipv4Addr::new(10, 66, 0, 2))]);
    let result = splice_hosts_block(existing, &entries);
    assert!(result.contains("localhost"));
    assert!(result.contains("some.other.entry"));
    assert!(result.contains("10.66.0.2\talice.mesh"));
}

#[test]
fn new_block_is_appended_after_a_blank_line() {
    let existing = "127.0.0.1 localhost\n";
    let entries = build_entries("mesh", &[("alice".to_string(), Ipv4Addr::new(10, 66, 0, 2))]);
    let result = splice_hosts_block(existing, &entries);
    let expected = format!(
        "127.0.0.1 localhost\n\n{BEGIN_MARKER}\n{BLOCK_NOTE}\n10.66.0.2\talice.mesh\n{END_MARKER}\n"
    );
    assert_eq!(result, expected);
}

#[test]
fn existing_block_is_replaced_in_place() {
    let existing = format!(
        "a 1\n{BEGIN_MARKER}\n{BLOCK_NOTE}\n10.66.0.9\told.mesh\n{END_MARKER}\nb 2\n"
    );
    let entries = build_entries("mesh", &[("bob".to_string(), Ipv4Addr::new(10, 66, 0, 3))]);
    let result = splice_hosts_block(&existing, &entries);
    let expected = format!("a 1\n{BEGIN_MARKER}\n{BLOCK_NOTE}\n10.66.0.3\tbob.mesh\n{END_MARKER}\nb 2\n");
    assert_eq!(result, expected);
    // Syncing again gives the same text.
    assert_eq!(splice_hosts_block(&result, &entries), result);
}

#[test]
fn removing_the_block_drops_it_entirely() {
    let existing = format!("a 1\n{BEGIN_MARKER}\n{BLOCK_NOTE}\n10.66.0.9\told.mesh\n{END_MARKER}\nb 2\n");
    assert_eq!(remove_block(&existing), "a 1\nb 2\n");
    let only = format!("{BEGIN_MARKER}\n{BLOCK_NOTE}\n{END_MARKER}\n");
    assert_eq!(remove_block(&only), "");
    // A file without a block is left exactly as it was.
    assert_eq!(remove_block("a 1\r\nb 2"), "a 1\r\nb 2");
    assert_eq!(remove_block(""), "");
    // Syncing and then removing leaves the other lines.
    let entries = build_entries("mesh", &[("bob".to_string(), Ipv4Addr::new(10, 66, 0, 3))]);
    let synced = splice_hosts_block("127.0.0.1 localhost\n", &entries);
    assert_eq!(remove_block(&synced), "127.0.0.1 localhost\n\n");
}

#[test]
fn services_become_subdomains_of_their_peer() {
    let infos = vec![
        PeerDomainInfo {
            name: "Alice".to_string(),
            virtual_ip: Ipv4Addr::new(10, 66, 0, 2),
            services: vec![("Game Server".to_string(), 25565)],
        },
        PeerDomainInfo { name: "bob".to_string(), virtual_ip: Ipv4Addr::new(10, 66, 0, 3), services: vec![] },
    ];
    let entries = build_entries_with_services("mesh", &infos);
    assert_eq!(entries.len(), 3);
    assert_eq!(entries[0].hostname, "alice.mesh");
    assert!(entries[0].is_peer_root);
    assert_eq!(entries[1].hostname, "game-server.alice.mesh");
    assert_eq!(entries[1].port, Some(25565));
    assert!(!entries[1].is_peer_root);
    assert_eq!(entries[2].hostname, "bob.mesh");
}

#[test]
fn hosts_file_location() {
    assert_eq!(hosts_file_path(), "/etc/hosts");
}
