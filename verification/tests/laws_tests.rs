use lan_mesh::gossip::{build_payloads, parse_payload, GossipEntry};
use lan_mesh::hosts::sanitize_label;
use lan_mesh::net::{Ipv4Addr, SocketAddr};
use lan_mesh::peer::secs_or_zero;
use lan_mesh::config::PeerConfig;
use lan_mesh::probe::ProbeRound;

fn peer(name: &str, ip: Ipv4Addr) -> PeerConfig {
    PeerConfig { name: name.to_string(), virtual_ip: ip, public_ip: "203.0.113.1".to_string(), public_port: 4000 }
}

#[test]
fn an_answer_counts_once_per_probe_sent() {
    let bob = Ipv4Addr::new(10, 66, 0, 2);
    let carol = Ipv4Addr::new(10, 66, 0, 3);
    let mut round = ProbeRound::new(&[peer("bob", bob), peer("carol", carol)]);
    // Nothing counts before a round has started.
    assert!(!round.on_sent(0));
    assert!(round.start_round());
    assert!(round.on_sent(0));
    // Sent once per round only.
    assert!(!round.on_sent(0));
    assert!(round.on_reply(bob, 12));
    // A duplicated pong is not counted again.
    assert!(!round.on_reply(bob, 15));
    // Carol was not sent this probe, and a stranger is nobody.
    assert!(!round.on_reply(carol, 9));
    assert!(!round.on_reply(Ipv4Addr::new(10, 66, 0, 9), 9));
    assert!(round.start_round());
    assert!(round.on_sent(0));
    assert!(round.on_sent(1));
    assert!(round.on_reply(carol, 20));
    let t = round.tallies();
    assert_eq!((t[0].sent, t[0].received, t[0].rtts_ms.clone()), (2, 1, vec![12]));
    assert_eq!((t[1].sent, t[1].received, t[1].rtts_ms.clone()), (1, 1, vec![20]));
    assert_eq!(round.rounds(), 2);
    assert!(!round.on_sent(7));
}

#[test]
fn clock_readings_before_1970_read_as_zero() {
    assert_eq!(secs_or_zero(Some(1_700_000_000)), 1_700_000_000);
    assert_eq!(secs_or_zero(None), 0);
}

#[test]
fn sanitizing_twice_is_sanitizing_once() {
    for name in ["  Alice B_Smith. ", "Ünïcode--name", "", "--x--", "Game Server 2"] {
        let once = sanitize_label(name);
        assert_eq!(sanitize_label(&once), once);
    }
}

#[test]
fn all_payloads_read_back_as_the_whole_list() {
    let entries: Vec<GossipEntry> = (0..40u8)
        .map(|i| {
            GossipEntry::peer(
                Ipv4Addr::new(10, 66, 1, i),
                &format!("peer{i}"),
                SocketAddr::new(Ipv4Addr::new(203, 0, 113, i), 4000 + i as u16),
                1000 + i as u32,
            )
        })
        .collect();
    let payloads = build_payloads(&entries);
    assert_eq!(payloads.len(), 3);
    let back: Vec<GossipEntry> = payloads.iter().flat_map(|p| parse_payload(p)).collect();
    assert_eq!(back, entries);
}
