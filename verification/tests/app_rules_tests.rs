use lan_mesh::autostart::{autostart_dir, desktop_entry, run_command, UNSUPPORTED};
use lan_mesh::browser::{
    chrome_message, chrome_script, data_url_for, home_page, navigation_url, normalize_address,
    percent_encode, resolve_start_target, status_text, ChromeMsg, HOME_PAGE_HEAD, HOME_PAGE_TAIL,
    NO_NAMES_NOTE,
};
use lan_mesh::cli::{
    add_service_from_args, distinct_addrs, init_config, new_peer_from_answers, parse_public_addr,
    parse_switch, ping_count, prompt_answer, ServiceEdit,
};
use lan_mesh::config::Config;
use lan_mesh::gui::{
    build_config, new_log_buffer, own_card, push_log, read_manual_addr, read_pasted_card, short_label,
    AddPeerModal, GuiSettings, SetupForm, MAX_LOG_LINES, NO_PUBLIC_ADDR,
};
use lan_mesh::net::{Ipv4Addr, SocketAddr};
use lan_mesh::share::{decode, encode};
use std::collections::VecDeque;

fn base_config() -> Config {
    init_config(
        "me".to_string(),
        "10.66.0.1",
        "24",
        "54321",
        "AAAAAAAAAAAAAAAAAAAAAAAAAAAAAAAAAAAAAAAAAAA=".to_string(),
        "mesh".to_string(),
    )
}

#[test]
fn log_buffer_keeps_the_last_lines() {
    let buf = new_log_buffer();
    let mut guard = buf.lock().unwrap();
    assert!(guard.is_empty());
    for i in 0..(MAX_LOG_LINES + 3) {
        push_log(&mut guard, &format!("line {i}"));
    }
    assert_eq!(guard.len(), MAX_LOG_LINES);
    assert_eq!(guard.front().unwrap(), "line 3");
    assert_eq!(guard.back().unwrap(), &format!("line {}", MAX_LOG_LINES + 2));
    let mut small: VecDeque<String> = VecDeque::new();
    push_log(&mut small, "a");
    assert_eq!(small, VecDeque::from(vec!["a".to_string()]));
}

#[test]
fn form_defaults() {
    let f = SetupForm::default();
    assert_eq!(f.name, "player");
    assert_eq!(f.virtual_ip, "10.66.0.1");
    assert_eq!(f.prefix, "24");
    assert_eq!(f.listen_port, "54321");
    assert_eq!(f.domain_suffix, "mesh");
    assert!(f.psk_input.is_empty() && f.generated_psk.is_none() && f.error.is_none());
    let m = AddPeerModal::default();
    assert!(!m.open && m.paste_buffer.is_empty());
    let s = GuiSettings::default();
    assert!(s.close_to_tray && s.check_updates_on_start);
}

#[test]
fn setup_form_builds_a_configuration() {
    let mut f = SetupForm::default();
    f.name = "  ".to_string();
    f.domain_suffix = " lan ".to_string();
    let cfg = build_config(&f).unwrap();
    assert_eq!(cfg.me.name, "player");
    assert_eq!(cfg.me.domain_suffix, "lan");
    assert_eq!(cfg.me.virtual_ip, Ipv4Addr::new(10, 66, 0, 1));
    assert_eq!(cfg.me.prefix, 24);
    assert_eq!(cfg.me.listen_port, 54321);
    assert!(lan_mesh::crypto::Cipher::from_psk_b64(&cfg.me.psk).is_ok());
    assert!(cfg.peers.is_empty() && cfg.services.is_empty());

    f.psk_input = " AAAAAAAAAAAAAAAAAAAAAAAAAAAAAAAAAAAAAAAAAAA= ".to_string();
    assert_eq!(build_config(&f).unwrap().me.psk, "AAAAAAAAAAAAAAAAAAAAAAAAAAAAAAAAAAAAAAAAAAA=");
    f.psk_input = "AAAA".to_string();
    assert_eq!(
        build_config(&f).err().unwrap(),
        "Invalid pre-shared key: PSK must decode to exactly 32 bytes, got 3 bytes"
    );
    f.listen_port = "70000".to_string();
    assert_eq!(build_config(&f).err().unwrap(), "Invalid listen port");
    f.prefix = "x".to_string();
    assert_eq!(build_config(&f).err().unwrap(), "Invalid subnet prefix");
    f.virtual_ip = " 10.66.0.1".to_string();
    assert_eq!(build_config(&f).err().unwrap(), "Invalid virtual IP address");
}

#[test]
fn pasted_cards_and_own_card() {
    let me = Ipv4Addr::new(10, 66, 0, 1);
    assert_eq!(read_pasted_card("   ", me).unwrap_err(), "Paste a card first.");
    let mine = encode("me", me, "203.0.113.1", 1);
    assert_eq!(read_pasted_card(&mine, me).unwrap_err(), "That's your own card.");
    let theirs = encode("bob", Ipv4Addr::new(10, 66, 0, 2), "203.0.113.2", 2);
    let p = read_pasted_card(&format!(" {theirs} "), me).unwrap();
    assert_eq!(p.name, "bob");
    assert!(read_pasted_card("garbage", me).is_err());

    let a = SocketAddr::new(Ipv4Addr::new(203, 0, 113, 9), 9000);
    let card = own_card("me", me, Some(a)).unwrap();
    let back = decode(&card).unwrap();
    assert_eq!(back.public_ip, "203.0.113.9");
    assert_eq!(back.public_port, 9000);
    assert_eq!(own_card("me", me, None).unwrap_err(), NO_PUBLIC_ADDR);
}

#[test]
fn manual_address_form() {
    assert_eq!(
        read_manual_addr(" 198.51.100.1 ", " 1234 "),
        Ok(SocketAddr::new(Ipv4Addr::new(198, 51, 100, 1), 1234))
    );
    assert_eq!(read_manual_addr("x", "1").unwrap_err(), "Invalid IPv4 address.");
    assert_eq!(read_manual_addr("1.2.3.4", "65536").unwrap_err(), "Invalid port (must be 0-65535).");
    assert_eq!(short_label("alice"), "ALI");
    assert_eq!(short_label("bo"), "BO");
    assert_eq!(short_label("ßen"), "SSEN");
}

#[test]
fn command_line_answers() {
    assert_eq!(prompt_answer("  bob \n", "player"), "bob");
    assert_eq!(prompt_answer("  \n", "player"), "player");
    let cfg = init_config("a".to_string(), "nope", "x", "70000", "k".to_string(), "mesh".to_string());
    assert_eq!(cfg.me.virtual_ip, Ipv4Addr::new(10, 66, 0, 1));
    assert_eq!(cfg.me.prefix, 24);
    assert_eq!(cfg.me.listen_port, 54321);
    assert_eq!(cfg.me.mtu, 1400);
    assert!(cfg.me.sync_hosts_file && cfg.me.warp_compat && !cfg.me.dns_server);
    let cfg = init_config("a".to_string(), "10.66.0.7", "16", "4000", "k".to_string(), "lan".to_string());
    assert_eq!(cfg.me.virtual_ip, Ipv4Addr::new(10, 66, 0, 7));
    assert_eq!(cfg.me.prefix, 16);
    assert_eq!(cfg.me.listen_port, 4000);
    assert_eq!(parse_switch("on"), Some(true));
    assert_eq!(parse_switch("enable"), Some(true));
    assert_eq!(parse_switch("false"), Some(false));
    assert_eq!(parse_switch("maybe"), None);
    assert_eq!(ping_count(None), 5);
    assert_eq!(ping_count(Some("12")), 12);
    assert_eq!(ping_count(Some("-1")), 5);
}

#[test]
fn command_line_edits() {
    let mut cfg = base_config();
    assert_eq!(
        parse_public_addr("1.2.3.4", "80"),
        Ok(SocketAddr::new(Ipv4Addr::new(1, 2, 3, 4), 80))
    );
    assert_eq!(parse_public_addr("1.2.3", "80").unwrap_err(), "Invalid IP address '1.2.3'.");
    assert_eq!(parse_public_addr("1.2.3.4", "x").unwrap_err(), "Invalid port 'x'.");
    assert_eq!(add_service_from_args(&mut cfg, "game", "25565"), Ok(ServiceEdit::Added));
    assert_eq!(add_service_from_args(&mut cfg, " GAME ", "25566"), Ok(ServiceEdit::Updated));
    assert_eq!(cfg.services[0].port, 25566);
    assert_eq!(add_service_from_args(&mut cfg, "  ", "1").unwrap_err(), "Service name can't be empty.");
    assert_eq!(add_service_from_args(&mut cfg, "web", "http").unwrap_err(), "Invalid port 'http'.");
    assert_eq!(cfg.services.len(), 1);
    let p = new_peer_from_answers(&cfg, "bob".to_string(), "10.66.0.2", "203.0.113.2".to_string(), "4000").unwrap();
    assert_eq!(p.virtual_ip, Ipv4Addr::new(10, 66, 0, 2));
    assert_eq!(p.public_port, 4000);
    assert_eq!(
        new_peer_from_answers(&cfg, "x".to_string(), "10.66.0.1", String::new(), "1").unwrap_err(),
        "That's your own virtual IP -- peers need distinct addresses. Aborting."
    );
    assert_eq!(
        new_peer_from_answers(&cfg, "x".to_string(), "bad", String::new(), "1").unwrap_err(),
        "Invalid IP, aborting."
    );
    assert_eq!(
        new_peer_from_answers(&cfg, "x".to_string(), "10.66.0.3", String::new(), "p").unwrap_err(),
        "Invalid port, aborting."
    );
    let a = SocketAddr::new(Ipv4Addr::new(1, 1, 1, 1), 1);
    let b = SocketAddr::new(Ipv4Addr::new(2, 2, 2, 2), 2);
    assert_eq!(distinct_addrs(&[a, b, a, a, b]), vec![a, b]);
    assert!(distinct_addrs(&[]).is_empty());
}

#[test]
fn browser_addresses() {
    assert_eq!(resolve_start_target(None), "about:home");
    assert_eq!(resolve_start_target(Some(String::new())), "about:home");
    assert_eq!(resolve_start_target(Some("alice.mesh".to_string())), "http://alice.mesh");
    assert_eq!(normalize_address("  https://x.y/ "), "https://x.y/");
    assert_eq!(normalize_address(" about:home "), "about:home");
    assert_eq!(normalize_address("bob.mesh:8080"), "http://bob.mesh:8080");
    assert_eq!(percent_encode("a b-c_d.e~f/é"), "a%20b-c_d.e~f%2F%C3%A9");
    assert_eq!(data_url_for("<p>"), "data:text/html;charset=utf-8,%3Cp%3E");
    assert_eq!(navigation_url("alice.mesh", "<p>"), "http://alice.mesh");
    assert_eq!(navigation_url("about:home", "<p>"), "data:text/html;charset=utf-8,%3Cp%3E");
    assert_eq!(status_text("data:text/html,x"), "mesh home");
    assert_eq!(status_text("http://a/"), "http://a/");
    assert_eq!(
        chrome_script("__setUrl", "a\"b\\c"),
        "window.__setUrl && window.__setUrl(\"a\\\"b\\\\c\")"
    );
    assert_eq!(chrome_message("navigate", "x".to_string()), Some(ChromeMsg::Navigate("x".to_string())));
    assert_eq!(chrome_message("home", String::new()), Some(ChromeMsg::Home));
    assert_eq!(chrome_message("fly", String::new()), None);
}

#[test]
fn home_page_lists_names() {
    let empty = home_page(&[]);
    assert_eq!(empty, format!("{HOME_PAGE_HEAD}{NO_NAMES_NOTE}{HOME_PAGE_TAIL}"));
    let page = home_page(&[("alice.mesh".to_string(), "10.66.0.2".to_string())]);
    assert!(page.contains(
        "<div class=\"grid\"><a class=\"card\" href=\"http://alice.mesh/\"><div class=\"n\">alice.mesh</div><div class=\"i\">10.66.0.2</div></a></div>"
    ));
    assert!(page.starts_with("<!DOCTYPE html>"));
    assert!(page.ends_with("</body></html>"));
    let mut cfg = base_config();
    cfg.add_service("game", 25565);
    let entries = lan_mesh::browser::home_entries(&cfg);
    assert_eq!(
        entries,
        vec![
            ("me.mesh".to_string(), "10.66.0.1".to_string()),
            ("game.me.mesh".to_string(), "10.66.0.1".to_string())
        ]
    );
}

#[test]
fn autostart_entries() {
    assert_eq!(
        desktop_entry("/opt/a \"b\"\\c"),
        "[Desktop Entry]\nType=Application\nName=meow-meow\nComment=meow-meow virtual LAN\n\
Exec=\"/opt/a \\\"b\\\"\\\\c\" --minimized\nTerminal=false\nX-GNOME-Autostart-enabled=true\n"
    );
    assert_eq!(run_command("C:\\x.exe"), "\"C:\\x.exe\" --minimized");
    assert_eq!(autostart_dir(Some("/cfg"), Some("/home/u")), Some("/cfg/autostart".to_string()));
    assert_eq!(autostart_dir(Some(""), Some("/home/u/")), Some("/home/u/.config/autostart".to_string()));
    assert_eq!(autostart_dir(None, None), None);
    assert!(!lan_mesh::autostart::is_enabled());
    assert_eq!(lan_mesh::autostart::enable(), Err(UNSUPPORTED.to_string()));
    assert_eq!(lan_mesh::autostart::disable(), Ok(()));
}
