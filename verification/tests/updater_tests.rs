use lan_mesh::updater::{
    announced_checksum, apply_script, check_release, current_version, installable_names, is_gui_binary, parse_version,
    pick_assets, powershell_digest, ps_quote, sh_escape, sha256sum_digest, shared, tool_line_digest,
    verify_checksum, version_at_most, CheckOutcome, Release, ReleaseAsset, Replacement, UpdateStatus,
    UpdaterState, MALFORMED_CHECKSUM,
};

#[test]
fn version_parsing() {
    assert_eq!(parse_version("v0.31.0"), Some((0, 31, 0)));
    assert_eq!(parse_version("0.31.0"), Some((0, 31, 0)));
    assert_eq!(parse_version("0.3"), Some((0, 3, 0)));
    assert_eq!(parse_version("0.25"), Some((0, 25, 0)));
    assert_eq!(parse_version("1.2.3"), Some((1, 2, 3)));
    assert_eq!(parse_version("v1"), Some((1, 0, 0)));
    assert_eq!(parse_version("BETA"), None);
    assert_eq!(parse_version(""), None);
}

#[test]
fn version_comparison_semantics() {
    assert!(parse_version("0.3").unwrap() < parse_version("0.31.0").unwrap());
    assert!(parse_version("0.30.0").unwrap() == parse_version("0.30").unwrap());
    assert!(parse_version("1.0.0").unwrap() > parse_version("0.99.0").unwrap());
}

#[test]
fn version_parsing_edge_cases() {
    assert_eq!(parse_version("  V2.5-beta.7.9 "), Some((2, 5, 7)));
    assert_eq!(parse_version("vv3"), Some((3, 0, 0)));
    assert_eq!(parse_version("1..2"), Some((1, 0, 0)));
    assert_eq!(parse_version("4.x"), Some((4, 0, 0)));
    // A first field too large for u64 is skipped, the next one still counts.
    assert_eq!(parse_version("99999999999999999999.2"), Some((0, 2, 0)));
    assert_eq!(parse_version("99999999999999999999"), None);
    assert_eq!(current_version(), "0.1.0");
    assert_eq!(parse_version(current_version()), Some((0, 1, 0)));
}

#[test]
fn version_order_is_tuple_order() {
    assert!(version_at_most((0, 3, 0), (0, 31, 0)));
    assert!(version_at_most((1, 2, 3), (1, 2, 3)));
    assert!(!version_at_most((1, 0, 0), (0, 99, 0)));
    assert!(!version_at_most((0, 2, 1), (0, 2, 0)));
}

fn asset(name: &str, url: &str, size: Option<u64>) -> ReleaseAsset {
    ReleaseAsset { name: Some(name.to_string()), browser_download_url: Some(url.to_string()), size }
}

#[test]
fn picks_platform_package_and_checksum() {
    let assets = vec![
        asset("lan_mesh-v0.31.0-windows-x86_64.zip", "https://x/win.zip", Some(5)),
        asset("lan_mesh-v0.31.0-linux-x86_64.zip", "https://x/lin.zip", Some(6)),
        asset("lan_mesh-v0.31.0-linux-x86_64.tar.gz", "https://x/lin.tgz", Some(7)),
        asset("LAN_MESH-V0.31.0-LINUX-X86_64.TAR.GZ.SHA256", "https://x/lin.tgz.sha256", None),
    ];
    assert_eq!(
        pick_assets(&assets, false),
        Some(("https://x/lin.tgz".to_string(), 7, Some("https://x/lin.tgz.sha256".to_string())))
    );
    assert_eq!(pick_assets(&assets, true), Some(("https://x/win.zip".to_string(), 5, None)));
}

#[test]
fn legacy_flat_names_and_missing_fields() {
    let assets = vec![asset("LINUX.zip", "https://x/LINUX.zip", None)];
    assert_eq!(pick_assets(&assets, false), Some(("https://x/LINUX.zip".to_string(), 0, None)));
    assert_eq!(pick_assets(&assets, true), None);
    let no_url = vec![ReleaseAsset { name: Some("linux.tar.gz".to_string()), browser_download_url: None, size: Some(1) }];
    assert_eq!(pick_assets(&no_url, false), None);
    let no_name = vec![ReleaseAsset { name: None, browser_download_url: Some("u".to_string()), size: Some(1) }];
    assert_eq!(pick_assets(&no_name, false), None);
    assert_eq!(pick_assets(&[asset("linux-notes.txt", "u", None)], false), None);
}

fn release(tag: &str, assets: Option<Vec<ReleaseAsset>>) -> Release {
    Release { tag_name: tag.to_string(), body: "notes".to_string(), assets }
}

#[test]
fn release_check_outcomes() {
    let assets = vec![asset("lan_mesh-linux.tar.gz", "https://x/a.tgz", Some(10))];
    match check_release(&release(" v0.2.0 ", Some(assets.clone())), "0.1.0", false) {
        CheckOutcome::Available(info) => {
            assert_eq!(info.tag, "v0.2.0");
            assert_eq!(info.version, "0.2.0");
            assert_eq!(info.notes, "notes");
            assert_eq!(info.archive_url, "https://x/a.tgz");
            assert_eq!(info.archive_size, 10);
            assert_eq!(info.checksum_url, None);
        }
        other => panic!("expected an update, got {other:?}"),
    }
    assert!(matches!(
        check_release(&release("v0.1.0", Some(assets.clone())), "0.1.0", false),
        CheckOutcome::UpToDate(t) if t == "v0.1.0"
    ));
    assert!(matches!(check_release(&release("v0.0.9", Some(assets.clone())), "0.1.0", false), CheckOutcome::UpToDate(_)));
    assert!(matches!(check_release(&release("BETA", Some(assets.clone())), "0.1.0", false), CheckOutcome::NoUsableRelease));
    assert!(matches!(check_release(&release("v9.0.0", None), "0.1.0", false), CheckOutcome::NoUsableRelease));
    assert!(matches!(check_release(&release("v9.0.0", Some(assets)), "0.1.0", true), CheckOutcome::NoUsableRelease));
}

#[test]
fn release_notes_are_cut_to_two_thousand_characters() {
    let assets = vec![asset("linux.tar.gz", "u", None)];
    let r = Release { tag_name: "v1.0.0".to_string(), body: "é".repeat(2500), assets: Some(assets) };
    match check_release(&r, "0.1.0", false) {
        CheckOutcome::Available(info) => assert_eq!(info.notes.chars().count(), 2000),
        other => panic!("expected an update, got {other:?}"),
    }
}

#[test]
fn updater_state_records_outcomes() {
    let mut st = UpdaterState { status: UpdateStatus::Checking, info: None };
    st.record_check(Ok(CheckOutcome::UpToDate("v0.1.0".to_string())));
    assert_eq!(st.status, UpdateStatus::UpToDate { version: "v0.1.0".to_string() });
    st.record_check(Err("offline".to_string()));
    assert_eq!(st.status, UpdateStatus::Failed("offline".to_string()));
    st.record_check(Ok(CheckOutcome::NoUsableRelease));
    assert_eq!(st.status, UpdateStatus::NoRelease);
    assert!(st.record_install(Ok(())));
    assert_eq!(st.status, UpdateStatus::Applying);
    assert!(!st.record_install(Err("disk full".to_string())));
    assert_eq!(st.status, UpdateStatus::Failed("disk full".to_string()));
    let s = shared();
    let guard = s.lock().unwrap();
    assert_eq!(guard.status, UpdateStatus::Idle);
    assert!(guard.info.is_none());
}

const DIGEST: &str = "0123456789abcdef0123456789abcdef0123456789abcdef0123456789abcdef";

#[test]
fn checksum_file_is_checked() {
    let upper = DIGEST.to_uppercase();
    assert_eq!(verify_checksum(&format!("{upper}  lan_mesh.tar.gz\n"), DIGEST), Ok(()));
    assert_eq!(verify_checksum("nonsense", DIGEST), Err(MALFORMED_CHECKSUM.to_string()));
    assert_eq!(verify_checksum("", DIGEST), Err(MALFORMED_CHECKSUM.to_string()));
    assert_eq!(announced_checksum(&format!("  {upper}  lan_mesh.tar.gz\n")), Ok(DIGEST.to_string()));
    assert_eq!(announced_checksum("abc  file"), Err(MALFORMED_CHECKSUM.to_string()));
    let other = "f".repeat(64);
    assert_eq!(
        verify_checksum(DIGEST, &other),
        Err(format!(
            "checksum mismatch (expected {DIGEST}, got {other}) -- install aborted, nothing was changed"
        ))
    );
}

#[test]
fn hashing_tool_outputs_are_read() {
    assert_eq!(sha256sum_digest(format!("{}  file\n", DIGEST.to_uppercase()).as_bytes()), Some(DIGEST.to_string()));
    assert_eq!(sha256sum_digest(b"   \n"), None);
    let openssl = format!("SHA2-256(file)= {DIGEST}\n");
    assert_eq!(tool_line_digest(openssl.as_bytes(), true), Some(DIGEST.to_string()));
    assert_eq!(tool_line_digest(b"no digest here\n", true), None);
    let certutil = format!("SHA256 hash of file:\r\n{}\r\nCertUtil: done\r\n", DIGEST.to_uppercase());
    assert_eq!(tool_line_digest(certutil.as_bytes(), false), Some(DIGEST.to_string()));
    assert_eq!(powershell_digest(format!("{}\r\n", DIGEST.to_uppercase()).as_bytes()), Some(DIGEST.to_string()));
    assert_eq!(powershell_digest(b"error"), None);
}

#[test]
fn install_names_and_quoting() {
    assert_eq!(installable_names(false), vec!["lan_mesh_gui", "lan_mesh", "lan_mesh_browser"]);
    assert_eq!(
        installable_names(true),
        vec!["lan_mesh_gui.exe", "lan_mesh.exe", "lan_mesh_browser.exe", "wintun.dll"]
    );
    assert!(is_gui_binary("LAN_MESH_GUI.EXE"));
    assert!(is_gui_binary("lan_mesh_gui"));
    assert!(!is_gui_binary("lan_mesh"));
    assert_eq!(sh_escape("it's"), "it'\\''s");
    assert_eq!(ps_quote("it's"), "it''s");
}

#[test]
fn apply_scripts() {
    let reps = vec![
        Replacement { name: "lan_mesh".to_string(), from: "/tmp/x/lan_mesh".to_string(), to: "/opt/lan_mesh".to_string() },
        Replacement { name: "lan_mesh_gui".to_string(), from: "/tmp/x/lan_mesh_gui".to_string(), to: "/opt/it's/lan_mesh_gui".to_string() },
    ];
    let sh = apply_script(42, &reps, false);
    assert_eq!(
        sh,
        "#!/bin/bash\n# lan_mesh self-update\nwhile kill -0 42 2>/dev/null; do sleep 0.25; done\n\
cp -f '/tmp/x/lan_mesh' '/opt/lan_mesh' 2>/dev/null || true\n\
cp -f '/tmp/x/lan_mesh_gui' '/opt/it'\\''s/lan_mesh_gui' 2>/dev/null || true\n\
chmod +x '/opt/it'\\''s/lan_mesh_gui' 2>/dev/null || true\n\
nohup '/opt/it'\\''s/lan_mesh_gui' >/dev/null 2>&1 &\n"
    );
    let bat = apply_script(7, &reps[..1], true);
    assert_eq!(
        bat,
        "@echo off\r\nrem lan_mesh self-update\r\n:wait\r\nping -n 2 127.0.0.1 >nul\r\n\
tasklist /fi \"PID eq 7\" /nh 2>nul | findstr /c:\"7\" >nul\r\nif %errorlevel%==0 goto wait\r\n\
move /Y \"/tmp/x/lan_mesh\" \"/opt/lan_mesh\" >nul\r\n"
    );
}
