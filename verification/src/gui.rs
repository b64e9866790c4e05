//! The desktop app's own state, apart from drawing: the activity log it
//! keeps, its screens and forms with their starting values, its saved
//! preferences, the tray's commands, and turning the first-run setup form
//! into a configuration.

use vstd::prelude::*;
use std::collections::VecDeque;
use crate::config::{peer_config_view, Config, MeConfig, PeerConfig};
use crate::share::{card, card_error_text, decode, decode_spec, encode};
use crate::crypto::{b64std_decoded, Cipher, KEY_LEN};
use crate::net::{
    dec_text, ipv4_text, Ipv4Addr, parse_ipv4, parse_ipv4_str, parse_unsigned, parse_unsigned_chars,
    SocketAddr,
};
use crate::text::{
    chars_of, field_or, lemma_trim_idempotent, string_from_chars, to_uppercase, trim, trim_chars,
    trimmed_or, unicode_upper,
};
use crate::updater::new_mutex;

verus! {

// ---------------------------------------------------------------------
// Activity log
// ---------------------------------------------------------------------

/// The most lines the activity log keeps.
pub const MAX_LOG_LINES: usize = 500;

/// A fresh, empty activity log, shared between the mesh's threads (which
/// write to it) and the interface (which shows it).
pub fn new_log_buffer() -> std::sync::Arc<std::sync::Mutex<VecDeque<String>>> {
    std::sync::Arc::new(new_mutex(VecDeque::with_capacity(MAX_LOG_LINES)))
}

pub open spec fn log_views(lines: Seq<String>) -> Seq<Seq<char>> {
    Seq::new(lines.len(), |i: int| lines[i]@)
}

/// The log after one more line: appended, the oldest line dropped when
/// that makes one too many.
pub open spec fn log_after(lines: Seq<Seq<char>>, line: Seq<char>) -> Seq<Seq<char>> {
    let l = lines.push(line);
    if l.len() > MAX_LOG_LINES {
        l.drop_first()
    } else {
        l
    }
}

/// The log after a run of lines, one `push_log` each.
pub open spec fn log_after_all(lines: Seq<Seq<char>>, more: Seq<Seq<char>>) -> Seq<Seq<char>>
    decreases more.len(),
{
    if more.len() == 0 {
        lines
    } else {
        log_after(log_after_all(lines, more.drop_last()), more.last())
    }
}

/// The last `n` lines of `s` (all of them when there are fewer).
pub open spec fn last_lines(s: Seq<Seq<char>>, n: nat) -> Seq<Seq<char>> {
    if s.len() <= n {
        s
    } else {
        s.skip(s.len() - n)
    }
}

/// A log within the limit keeps, after any run of lines, exactly the last
/// `MAX_LOG_LINES` of everything written to it (all of it while there is
/// less), in the order written: the oldest lines are dropped first.
pub proof fn lemma_log_keeps_last_lines(lines: Seq<Seq<char>>, more: Seq<Seq<char>>)
    requires
        lines.len() <= MAX_LOG_LINES,
    ensures
        log_after_all(lines, more) == last_lines(lines + more, MAX_LOG_LINES as nat),
    decreases more.len(),
{
    if more.len() == 0 {
        assert(lines + more =~= lines);
    } else {
        let init = more.drop_last();
        let x = more.last();
        lemma_log_keeps_last_lines(lines, init);
        let prev = last_lines(lines + init, MAX_LOG_LINES as nat);
        let all = lines + more;
        assert(all =~= (lines + init).push(x));
        let l = prev.push(x);
        if (lines + init).len() <= MAX_LOG_LINES {
            assert(prev == lines + init);
            if l.len() > MAX_LOG_LINES {
                assert(l.drop_first() =~= all.skip(all.len() - MAX_LOG_LINES));
            } else {
                assert(l =~= all);
            }
        } else {
            assert(prev.len() == MAX_LOG_LINES);
            assert(l.drop_first() =~= all.skip(all.len() - MAX_LOG_LINES));
        }
    }
}

/// Appends a line to the activity log, dropping the oldest one when the
/// log would exceed `MAX_LOG_LINES`; a log within the limit stays within
/// it.
pub fn push_log(buffer: &mut VecDeque<String>, line: &str)
    ensures
        log_views(final(buffer)@) == log_after(log_views(old(buffer)@), line@),
        old(buffer)@.len() <= MAX_LOG_LINES ==> final(buffer)@.len() <= MAX_LOG_LINES,
{
    let ghost before = buffer@;
    buffer.push_back(line.to_string());
    assert(log_views(buffer@) =~= log_views(before).push(line@));
    if buffer.len() > MAX_LOG_LINES {
        let ghost full = buffer@;
        let _ = buffer.pop_front();
        assert(log_views(buffer@) =~= log_views(full).drop_first());
    }
}

// ---------------------------------------------------------------------
// Screens and forms
// ---------------------------------------------------------------------

/// The app's screens.
#[derive(PartialEq, Eq, Clone, Copy, Debug, Structural)]
pub enum Screen {
    Network,
    Peers,
    Domains,
    Log,
    Settings,
}

/// The steps of first-run setup.
#[derive(PartialEq, Eq, Clone, Copy, Debug, Structural)]
pub enum SetupStage {
    /// No configuration exists yet, or the user chose to redo the identity.
    Identity,
    /// Identity saved; offer to add a first peer or start alone.
    Bootstrap,
}

/// The "add a peer" dialog: the pasted card, its error, and this
/// machine's own card once made.
pub struct AddPeerModal {
    pub open: bool,
    pub paste_buffer: String,
    pub error: Option<String>,
    pub my_card: Option<String>,
    pub card_error: Option<String>,
}

impl Default for AddPeerModal {
    fn default() -> (m: AddPeerModal)
        ensures
            !m.open,
            m.paste_buffer@.len() == 0,
            m.error is None,
            m.my_card is None,
            m.card_error is None,
    {
        AddPeerModal {
            open: false,
            paste_buffer: String::new(),
            error: None,
            my_card: None,
            card_error: None,
        }
    }
}

/// The inline "advertise a service" form (e.g. "game" on port 25565).
pub struct AddServiceForm {
    pub name: String,
    pub port: String,
    pub error: Option<String>,
}

impl Default for AddServiceForm {
    fn default() -> (f: AddServiceForm)
        ensures
            f.name@.len() == 0,
            f.port@.len() == 0,
            f.error is None,
    {
        AddServiceForm { name: String::new(), port: String::new(), error: None }
    }
}

/// The "enter the public address by hand" form.
pub struct ManualAddrForm {
    pub ip: String,
    pub port: String,
    pub error: Option<String>,
}

impl Default for ManualAddrForm {
    fn default() -> (f: ManualAddrForm)
        ensures
            f.ip@.len() == 0,
            f.port@.len() == 0,
            f.error is None,
    {
        ManualAddrForm { ip: String::new(), port: String::new(), error: None }
    }
}

/// The first-run setup form, field by field as typed.
pub struct SetupForm {
    pub name: String,
    pub virtual_ip: String,
    pub prefix: String,
    pub listen_port: String,
    pub psk_input: String,
    pub generated_psk: Option<String>,
    pub domain_suffix: String,
    pub error: Option<String>,
}

impl Default for SetupForm {
    fn default() -> (f: SetupForm)
        ensures
            f.name@ == "player"@,
            f.virtual_ip@ == "10.66.0.1"@,
            f.prefix@ == "24"@,
            f.listen_port@ == "54321"@,
            f.psk_input@.len() == 0,
            f.generated_psk is None,
            f.domain_suffix@ == "mesh"@,
            f.error is None,
    {
        SetupForm {
            name: "player".to_string(),
            virtual_ip: "10.66.0.1".to_string(),
            prefix: "24".to_string(),
            listen_port: "54321".to_string(),
            psk_input: String::new(),
            generated_psk: None,
            domain_suffix: "mesh".to_string(),
            error: None,
        }
    }
}

// ---------------------------------------------------------------------
// Setup form to configuration
// ---------------------------------------------------------------------

/// The error the setup form gets, if any, before the key is looked at:
/// the virtual IP, the prefix (0 to 255) and the port are read as typed.
pub open spec fn setup_field_error(form: SetupForm) -> Option<Seq<char>> {
    if parse_ipv4(form.virtual_ip@) is None {
        Some("Invalid virtual IP address"@)
    } else if parse_unsigned(form.prefix@, 255) is None {
        Some("Invalid subnet prefix"@)
    } else if parse_unsigned(form.listen_port@, 65535) is None {
        Some("Invalid listen port"@)
    } else {
        None
    }
}

/// Turns the setup form into a configuration with no peers and no
/// services. The virtual IP, prefix and port must parse as typed; a
/// blank key field makes a new random key, otherwise the trimmed key must
/// decode to 32 bytes; a blank name is `player` and a blank suffix
/// `mesh`. The rest takes the usual defaults.
pub fn build_config(form: &SetupForm) -> (r: Result<Config, String>)
    ensures
        setup_field_error(*form) matches Some(m) ==> (r matches Err(e) && e@ == m),
        setup_field_error(*form) is None && trim(form.psk_input@).len() > 0 ==> match b64std_decoded(
            trim(form.psk_input@),
        ) {
            None => r matches Err(e) && e@.len() >= "Invalid pre-shared key: "@.len() && e@.take(
                "Invalid pre-shared key: "@.len() as int,
            ) == "Invalid pre-shared key: "@,
            Some(b) => if b.len() == KEY_LEN {
                r is Ok
            } else {
                r matches Err(e) && e@ == "Invalid pre-shared key: "@ + "PSK must decode to exactly 32 bytes, got "@
                    + dec_text(b.len()) + " bytes"@
            },
        },
        setup_field_error(*form) is None && trim(form.psk_input@).len() == 0 ==> r is Ok,
        r matches Ok(c) ==> {
            &&& Some(c.me.virtual_ip) == parse_ipv4(form.virtual_ip@)
            &&& parse_unsigned(form.prefix@, 255) == Some(c.me.prefix as nat)
            &&& parse_unsigned(form.listen_port@, 65535) == Some(c.me.listen_port as nat)
            &&& (trim(form.psk_input@).len() > 0 ==> c.me.psk@ == trim(form.psk_input@))
            &&& (b64std_decoded(trim(c.me.psk@)) matches Some(b) && b.len() == KEY_LEN)
            &&& c.me.name@ == field_or(form.name@, "player"@)
            &&& c.me.domain_suffix@ == field_or(form.domain_suffix@, "mesh"@)
            &&& c.me.mtu == 1400
            &&& c.me.sync_hosts_file
            &&& !c.me.dns_server
            &&& c.me.dns_port == 53
            &&& !c.me.dns_auto_configure
            &&& c.me.manual_public_ip is None
            &&& c.me.manual_public_port is None
            &&& c.me.warp_compat
            &&& !c.me.cache_public_addr
            &&& c.me.cached_public_ip is None
            &&& c.me.cached_public_port is None
            &&& c.peers@.len() == 0
            &&& c.services@.len() == 0
        },
{
    let virtual_ip = match parse_ipv4_str(form.virtual_ip.as_str()) {
        Some(ip) => ip,
        None => return Err("Invalid virtual IP address".to_string()),
    };
    let pc = chars_of(form.prefix.as_str());
    let prefix: u8 = match parse_unsigned_chars(pc.as_slice(), 255) {
        Some(v) => v as u8,
        None => return Err("Invalid subnet prefix".to_string()),
    };
    let lc = chars_of(form.listen_port.as_str());
    let listen_port: u16 = match parse_unsigned_chars(lc.as_slice(), 65535) {
        Some(v) => v as u16,
        None => return Err("Invalid listen port".to_string()),
    };
    let kc = chars_of(form.psk_input.as_str());
    let kt = trim_chars(kc.as_slice());
    let psk = if kt.len() == 0 {
        Cipher::generate_psk_b64()
    } else {
        string_from_chars(kt.as_slice())
    };
    proof {
        lemma_trim_idempotent(form.psk_input@);
    }
    match Cipher::from_psk_b64(psk.as_str()) {
        Ok(_) => {},
        Err(e) => {
            let mut m = chars_of("Invalid pre-shared key: ");
            let ghost head = m@;
            let ec = chars_of(e.as_str());
            crate::text::push_all(&mut m, ec.as_slice());
            assert(m@.take(head.len() as int) =~= head);
            return Err(string_from_chars(m.as_slice()));
        },
    }
    let name = trimmed_or(form.name.as_str(), "player");
    let domain_suffix = trimmed_or(form.domain_suffix.as_str(), "mesh");
    Ok(
        Config {
            me: MeConfig {
                name,
                virtual_ip,
                prefix,
                listen_port,
                psk,
                mtu: 1400,
                domain_suffix,
                sync_hosts_file: true,
                dns_server: false,
                dns_port: 53,
                dns_auto_configure: false,
                manual_public_ip: None,
                manual_public_port: None,
                warp_compat: true,
                cache_public_addr: false,
                cached_public_ip: None,
                cached_public_port: None,
            },
            peers: Vec::new(),
            services: Vec::new(),
        },
    )
}

// ---------------------------------------------------------------------
// Cards and the manual address
// ---------------------------------------------------------------------

/// Reads the card pasted into the "add a peer" dialog (surrounding
/// whitespace ignored): it must be there, must read as a card, and must
/// not be this machine's own (same virtual IP).
pub fn read_pasted_card(paste: &str, my_virtual_ip: Ipv4Addr) -> (r: Result<PeerConfig, String>)
    ensures
        trim(paste@).len() == 0 ==> (r matches Err(m) && m@ == "Paste a card first."@),
        trim(paste@).len() > 0 ==> match decode_spec(trim(paste@)) {
            Ok(p) => if p.virtual_ip == my_virtual_ip {
                r matches Err(m) && m@ == "That's your own card."@
            } else {
                r matches Ok(c) && peer_config_view(c) == p
            },
            Err(e) => r matches Err(m) && (card_error_text(e) matches Some(t) ==> m@ == t),
        },
{
    let pc = chars_of(paste);
    let t = trim_chars(pc.as_slice());
    if t.len() == 0 {
        return Err("Paste a card first.".to_string());
    }
    let card_text = string_from_chars(t.as_slice());
    proof {
        lemma_trim_idempotent(paste@);
    }
    match decode(card_text.as_str()) {
        Ok(peer) => {
            if peer.virtual_ip == my_virtual_ip {
                Err("That's your own card.".to_string())
            } else {
                Ok(peer)
            }
        },
        Err(e) => Err(e),
    }
}

/// The message when this machine's public address is not known yet.
pub const NO_PUBLIC_ADDR: &'static str = "Could not determine your public address yet -- if the mesh just started, wait a few seconds for it to finish discovering it, then try again.";

/// This machine's card, made from its name, virtual IP and public
/// address (the one the running mesh found, or a fresh probe's); without
/// a public address there is no card.
pub fn own_card(name: &str, virtual_ip: Ipv4Addr, public_addr: Option<SocketAddr>) -> (r: Result<
    String,
    String,
>)
    ensures
        match public_addr {
            Some(a) => r matches Ok(t) && t@ == card(name@, virtual_ip, ipv4_text(a.ip), a.port),
            None => r matches Err(m) && m@ == NO_PUBLIC_ADDR@,
        },
{
    match public_addr {
        Some(a) => {
            let ip_text = a.ip.to_text();
            Ok(encode(name, virtual_ip, ip_text.as_str(), a.port))
        },
        None => Err(NO_PUBLIC_ADDR.to_string()),
    }
}

/// Reads the manual public-address form: both fields trimmed, then an
/// IPv4 address and a port.
pub fn read_manual_addr(ip: &str, port: &str) -> (r: Result<SocketAddr, String>)
    ensures
        match parse_ipv4(trim(ip@)) {
            None => r matches Err(m) && m@ == "Invalid IPv4 address."@,
            Some(a) => match parse_unsigned(trim(port@), 65535) {
                None => r matches Err(m) && m@ == "Invalid port (must be 0-65535)."@,
                Some(p) => r == Ok::<SocketAddr, String>(SocketAddr { ip: a, port: p as u16 }),
            },
        },
{
    let ic = chars_of(ip);
    let it = trim_chars(ic.as_slice());
    let addr = match crate::net::parse_ipv4_chars(it.as_slice()) {
        Some(a) => a,
        None => return Err("Invalid IPv4 address.".to_string()),
    };
    let pc = chars_of(port);
    let pt = trim_chars(pc.as_slice());
    match parse_unsigned_chars(pt.as_slice(), 65535) {
        Some(p) => Ok(SocketAddr { ip: addr, port: p as u16 }),
        None => Err("Invalid port (must be 0-65535).".to_string()),
    }
}

/// Reads the "advertise a service" form: the name trimmed and not
/// empty, the port (trimmed) a number up to 65535.
pub fn read_service_form(name: &str, port: &str) -> (r: Result<(String, u16), String>)
    ensures
        trim(name@).len() == 0 ==> (r matches Err(m) && m@ == "Service name can't be empty."@),
        trim(name@).len() > 0 ==> match parse_unsigned(trim(port@), 65535) {
            None => r matches Err(m) && m@ == "Invalid port."@,
            Some(p) => r matches Ok((n, q)) && n@ == trim(name@) && q as nat == p,
        },
{
    let nc = chars_of(name);
    let nt = trim_chars(nc.as_slice());
    if nt.len() == 0 {
        return Err("Service name can't be empty.".to_string());
    }
    let pc = chars_of(port);
    let pt = trim_chars(pc.as_slice());
    match parse_unsigned_chars(pt.as_slice(), 65535) {
        Some(p) => Ok((string_from_chars(nt.as_slice()), p as u16)),
        None => Err("Invalid port.".to_string()),
    }
}

// ---------------------------------------------------------------------
// Preferences, tray, labels
// ---------------------------------------------------------------------

/// Where the app's own preferences are saved, next to `mesh.toml`.
pub const GUI_SETTINGS_PATH: &'static str = "gui.toml";

/// The app's own preferences.
#[derive(Clone, Debug)]
pub struct GuiSettings {
    /// Closing the window hides it to the tray; the mesh keeps running.
    pub close_to_tray: bool,
    /// Look for a newer release once per launch.
    pub check_updates_on_start: bool,
}

impl Default for GuiSettings {
    fn default() -> (s: GuiSettings)
        ensures
            s.close_to_tray,
            s.check_updates_on_start,
    {
        GuiSettings { close_to_tray: true, check_updates_on_start: true }
    }
}

/// What the tray icon asks of the app.
#[derive(PartialEq, Eq, Clone, Copy, Debug, Structural)]
pub enum TrayCommand {
    /// Restore and focus the main window.
    Show,
    /// Quit the whole application, mesh included.
    Quit,
}

/// The label drawn on a peer's node in the network map: the first three
/// characters of its name, uppercased.
pub open spec fn short_label_spec(name: Seq<char>) -> Seq<char> {
    unicode_upper(
        if name.len() <= 3 {
            name
        } else {
            name.take(3)
        },
    )
}

/// See `short_label_spec`.
pub fn short_label(name: &str) -> (r: String)
    ensures
        r@ == short_label_spec(name@),
{
    let c = chars_of(name);
    let mut head: Vec<char> = Vec::new();
    let mut i: usize = 0;
    while i < c.len() && i < 3
        invariant
            i <= c.len(),
            i <= 3,
            head@ == c@.take(i as int),
        decreases c.len() - i,
    {
        head.push(c[i]);
        assert(c@.take(i + 1) =~= c@.take(i as int).push(c@[i as int]));
        i = i + 1;
    }
    if c.len() <= 3 {
        assert(c@.take(c.len() as int) =~= c@);
    }
    let h = string_from_chars(head.as_slice());
    to_uppercase(h.as_str())
}

} // verus!
