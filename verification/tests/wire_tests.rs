use lan_mesh::config::PeerConfig;
use lan_mesh::crypto::{Cipher, NONCE_LEN, TAG_LEN};
use lan_mesh::net::{parse_ipv4_str, Ipv4Addr};
use lan_mesh::peer::Peer;
use lan_mesh::probe::{probe_packet, probe_reply, ProbeTally};
use lan_mesh::proto::{build, ipv4_dst, ipv4_src, is_flood_target, parse, HEADER_LEN, TYPE_DATA, TYPE_PING, TYPE_PONG};
use lan_mesh::share::{decode, encode};
use lan_mesh::stun::{build_request, looks_like_stun_message, new_transaction, try_parse_response_for};

fn dummy_peer() -> Peer {
    Peer::new(&PeerConfig {
        name: "alice".to_string(),
        virtual_ip: parse_ipv4_str("10.66.0.2").unwrap(),
        public_ip: "203.0.113.1".to_string(),
        public_port: 12345,
    })
}

#[test]
fn observe_service_adds_new() {
    let mut p = dummy_peer();
    assert!(p.observe_service("game", 25565));
    assert_eq!(p.services(), vec![("game".to_string(), 25565)]);
}

#[test]
fn observe_service_noop_when_unchanged() {
    let mut p = dummy_peer();
    assert!(p.observe_service("game", 25565));
    assert!(!p.observe_service("game", 25565));
    assert_eq!(p.services().len(), 1);
}

#[test]
fn observe_service_updates_changed_port() {
    let mut p = dummy_peer();
    p.observe_service("game", 25565);
    assert!(p.observe_service("game", 25566));
    assert_eq!(p.services(), vec![("game".to_string(), 25566)]);
}

#[test]
fn observe_service_ignores_empty_name() {
    let mut p = dummy_peer();
    assert!(!p.observe_service("", 80));
    assert!(p.services().is_empty());
}

#[test]
fn observe_service_is_case_insensitive_for_dedup() {
    let mut p = dummy_peer();
    p.observe_service("Game", 1);
    assert!(!p.observe_service("game", 1));
    assert_eq!(p.services().len(), 1);
}

#[test]
fn ping_then_pong_gives_a_round_trip_time() {
    let mut p = dummy_peer();
    assert_eq!(p.last_rtt_ms(), None);
    p.record_ping_sent(7);
    assert!(p.record_pong_received(8).is_none());
    assert!(p.record_pong_received(7).is_some());
    assert!(p.last_rtt_ms().is_some());
    // A pong is matched only once.
    assert!(p.record_pong_received(7).is_none());
}

#[test]
fn header_roundtrip() {
    let ip = Ipv4Addr::new(10, 66, 0, 5);
    let payload = b"some ip packet bytes";
    let wire = build(TYPE_DATA, ip, payload);
    let (hdr, rest) = parse(&wire).unwrap();
    assert_eq!(hdr.packet_type, TYPE_DATA);
    assert_eq!(hdr.sender_virtual_ip, ip);
    assert_eq!(rest, payload);
}

#[test]
fn detects_flood_targets() {
    let bc = Ipv4Addr::new(10, 66, 0, 255);
    assert!(is_flood_target(bc, bc));
    assert!(is_flood_target(Ipv4Addr::new(255, 255, 255, 255), bc));
    assert!(is_flood_target(Ipv4Addr::new(239, 255, 255, 250), bc));
    assert!(!is_flood_target(Ipv4Addr::new(10, 66, 0, 5), bc));
}

#[test]
fn short_packets_do_not_parse() {
    assert!(parse(&[TYPE_PING, 10, 66, 0]).is_none());
    let wire = build(TYPE_PING, Ipv4Addr::new(10, 66, 0, 1), &[]);
    assert_eq!(wire.len(), HEADER_LEN);
    assert_eq!(wire, vec![TYPE_PING, 10, 66, 0, 1]);
}

#[test]
fn reads_ipv4_packet_addresses() {
    let mut pkt = vec![0x45u8; 20];
    pkt[12..16].copy_from_slice(&[10, 66, 0, 2]);
    pkt[16..20].copy_from_slice(&[10, 66, 0, 3]);
    assert_eq!(ipv4_src(&pkt), Some(Ipv4Addr::new(10, 66, 0, 2)));
    assert_eq!(ipv4_dst(&pkt), Some(Ipv4Addr::new(10, 66, 0, 3)));
    assert_eq!(ipv4_dst(&pkt[..10]), None);
    let mut v6 = pkt.clone();
    v6[0] = 0x60;
    assert_eq!(ipv4_dst(&v6), None);
}

#[test]
fn share_roundtrip() {
    let token = encode("Ivan|weird", Ipv4Addr::new(10, 66, 0, 3), "203.0.113.5", 54321);
    let peer = decode(&token).unwrap();
    assert_eq!(peer.name, "Ivan_weird");
    assert_eq!(peer.virtual_ip, Ipv4Addr::new(10, 66, 0, 3));
    assert_eq!(peer.public_ip, "203.0.113.5");
    assert_eq!(peer.public_port, 54321);
}

#[test]
fn rejects_garbage() {
    assert!(decode("not a token").is_err());
    assert!(decode("LMESH1:not-valid-base64!!!").is_err());
}

#[test]
fn card_errors_have_fixed_messages() {
    assert_eq!(
        decode("not a token").unwrap_err(),
        "Not a valid meow-meow peer card (expected it to start with 'LMESH1:')"
    );
    // "1|a|10.66.0.x|1.2.3.4|5" has a bad virtual IP.
    let bad_ip = format!("LMESH1:{}", "MXxhfDEwLjY2LjAueHwxLjIuMy40fDU");
    assert_eq!(decode(&bad_ip).unwrap_err(), "Peer card has an invalid virtual IP: 10.66.0.x");
    assert!(decode("LMESH1:***").unwrap_err().starts_with("Could not decode peer card: "));
    // The single byte 0xFF is no UTF-8 text.
    assert!(decode("LMESH1:_w").unwrap_err().starts_with("Peer card is not valid text: "));
    let token = encode("bob", Ipv4Addr::new(10, 66, 0, 4), "198.51.100.2", 7);
    assert!(token.starts_with("LMESH1:"));
    assert_eq!(decode(&format!("  {token}\n")).unwrap().name, "bob");
}

#[test]
fn crypto_roundtrip() {
    let psk = Cipher::generate_psk_b64();
    let c = Cipher::from_psk_b64(&psk).unwrap();
    let msg = b"hello lan mesh";
    let wire = c.seal(msg);
    let out = c.open(&wire).unwrap();
    assert_eq!(out, msg);
    assert_eq!(wire.len(), NONCE_LEN + msg.len() + TAG_LEN);
}

#[test]
fn rejects_tampered() {
    let psk = Cipher::generate_psk_b64();
    let c = Cipher::from_psk_b64(&psk).unwrap();
    let mut wire = c.seal(b"hello");
    let last = wire.len() - 1;
    wire[last] ^= 0xFF;
    assert!(c.open(&wire).is_none());
}

#[test]
fn rejects_wrong_key() {
    let c1 = Cipher::from_psk_b64(&Cipher::generate_psk_b64()).unwrap();
    let c2 = Cipher::from_psk_b64(&Cipher::generate_psk_b64()).unwrap();
    let wire = c1.seal(b"hello");
    assert!(c2.open(&wire).is_none());
}

#[test]
fn psk_must_be_32_bytes_of_base64() {
    assert_eq!(
        Cipher::from_psk_b64("AAAA").err().unwrap(),
        "PSK must decode to exactly 32 bytes, got 3 bytes"
    );
    assert!(Cipher::from_psk_b64("not base64 at all!")
        .err()
        .unwrap()
        .starts_with("PSK is not valid base64: "));
    let key = "AAAAAAAAAAAAAAAAAAAAAAAAAAAAAAAAAAAAAAAAAAA=";
    assert!(Cipher::from_psk_b64(key).is_ok());
    assert!(Cipher::from_psk_b64(&format!("  {key}  ")).is_ok());
    let c = Cipher::from_psk_b64(key).unwrap();
    assert!(c.open(&[1, 2, 3]).is_none());
}

#[test]
fn stun_request_layout() {
    let tx = [1u8, 2, 3, 4, 5, 6, 7, 8, 9, 10, 11, 12];
    let req = build_request(&tx);
    assert_eq!(&req[0..8], &[0x00, 0x01, 0x00, 0x00, 0x21, 0x12, 0xA4, 0x42]);
    assert_eq!(&req[8..], &tx);
    assert!(looks_like_stun_message(&req));
    assert!(!looks_like_stun_message(&req[..7]));
    let (tx2, req2) = new_transaction();
    assert_eq!(req2, build_request(&tx2));
}

#[test]
fn stun_xor_mapped_address_is_decoded() {
    let tx = [7u8; 12];
    // 203.0.113.5:4000 XORed with the magic cookie.
    let port = 4000u16 ^ 0x2112;
    let ip = [203u8 ^ 0x21, 0 ^ 0x12, 113 ^ 0xA4, 5 ^ 0x42];
    let mut resp = vec![0x01, 0x01, 0x00, 12, 0x21, 0x12, 0xA4, 0x42];
    resp.extend_from_slice(&tx);
    resp.extend_from_slice(&[0x00, 0x20, 0x00, 0x08, 0x00, 0x01]);
    resp.extend_from_slice(&port.to_be_bytes());
    resp.extend_from_slice(&ip);
    let got = try_parse_response_for(&resp, &tx).unwrap();
    assert_eq!(got.ip, Ipv4Addr::new(203, 0, 113, 5));
    assert_eq!(got.port, 4000);
    let other_tx = [8u8; 12];
    assert!(try_parse_response_for(&resp, &other_tx).is_none());
}

#[test]
fn probes_and_their_answers() {
    let c = Cipher::from_psk_b64(&Cipher::generate_psk_b64()).unwrap();
    let me = Ipv4Addr::new(10, 66, 0, 1);
    let peer = Ipv4Addr::new(10, 66, 0, 2);
    let probe = probe_packet(&c, me, 3);
    let plain = c.open(&probe).unwrap();
    assert_eq!(plain, build(TYPE_PING, me, &3u64.to_be_bytes()));
    let answer = c.seal(&build(TYPE_PONG, peer, &3u64.to_be_bytes()));
    assert_eq!(probe_reply(&c, &answer, 3), Some(peer));
    assert_eq!(probe_reply(&c, &answer, 4), None);
    assert_eq!(probe_reply(&c, &probe, 3), None);
    let short = c.seal(&build(TYPE_PONG, peer, &[0, 3]));
    assert_eq!(probe_reply(&c, &short, 3), None);

    let mut t = ProbeTally::new("bob".to_string());
    assert_eq!(t.rtt_summary(), None);
    t.record_sent();
    t.record_sent();
    t.record_answer(30);
    t.record_answer(10);
    assert_eq!((t.sent, t.received), (2, 2));
    assert_eq!(t.rtt_summary(), Some((10, 30, 40)));
}
