//! The command-line tool's rules, apart from its prompts and printing:
//! answers with defaults, the configuration `init` writes, and reading
//! the arguments of `add-peer`, `add-service`, `set-public-addr`, the
//! on/off switches and `ping`.

use vstd::prelude::*;
use crate::config::{
    add_service_spec, is_first_service, svc_views, Config, MeConfig, PeerConfig,
};
use crate::net::{
    parse_ipv4, parse_ipv4_str, parse_unsigned, parse_unsigned_chars, Ipv4Addr, SocketAddr,
};
use crate::text::{
    chars_eq_ignore_case, chars_of, eq_ignore_case, field_or, push_all, string_from_chars, trim,
    trim_chars, trimmed_or,
};

verus! {

/// What a prompt gives: the typed line trimmed, or the default when that
/// is empty.
pub fn prompt_answer(line: &str, default: &str) -> (r: String)
    ensures
        r@ == field_or(line@, default@),
{
    trimmed_or(line, default)
}

/// The default virtual IP of a new configuration, 10.66.0.1.
pub open spec fn default_virtual_ip() -> Ipv4Addr {
    Ipv4Addr { a: 10, b: 66, c: 0, d: 1 }
}

/// The configuration `init` writes from the answers given: an IP that
/// does not parse becomes 10.66.0.1, a prefix or port that does not parse
/// becomes 24 or 54321; no peers and no services; everything else takes
/// its usual default.
pub fn init_config(
    name: String,
    virtual_ip: &str,
    prefix: &str,
    listen_port: &str,
    psk: String,
    domain_suffix: String,
) -> (c: Config)
    ensures
        c.me.name == name,
        c.me.virtual_ip == (match parse_ipv4(virtual_ip@) {
            Some(ip) => ip,
            None => default_virtual_ip(),
        }),
        c.me.prefix as nat == (match parse_unsigned(prefix@, 255) {
            Some(v) => v,
            None => 24,
        }),
        c.me.listen_port as nat == (match parse_unsigned(listen_port@, 65535) {
            Some(v) => v,
            None => 54321,
        }),
        c.me.psk == psk,
        c.me.domain_suffix == domain_suffix,
        c.me.mtu == 1400,
        c.me.sync_hosts_file,
        !c.me.dns_server,
        c.me.dns_port == 53,
        !c.me.dns_auto_configure,
        c.me.manual_public_ip is None,
        c.me.manual_public_port is None,
        c.me.warp_compat,
        !c.me.cache_public_addr,
        c.me.cached_public_ip is None,
        c.me.cached_public_port is None,
        c.peers@.len() == 0,
        c.services@.len() == 0,
{
    let ip = match parse_ipv4_str(virtual_ip) {
        Some(ip) => ip,
        None => Ipv4Addr::new(10, 66, 0, 1),
    };
    let pc = chars_of(prefix);
    let prefix_value: u8 = match parse_unsigned_chars(pc.as_slice(), 255) {
        Some(v) => v as u8,
        None => 24,
    };
    let lc = chars_of(listen_port);
    let port_value: u16 = match parse_unsigned_chars(lc.as_slice(), 65535) {
        Some(v) => v as u16,
        None => 54321,
    };
    Config {
        me: MeConfig {
            name,
            virtual_ip: ip,
            prefix: prefix_value,
            listen_port: port_value,
            psk,
            mtu: 1400,
            domain_suffix,
            sync_hosts_file: true,
            dns_server: false,
            dns_port: 53,
            dns_auto_configure: false,
            manual_public_ip: None,
            manual_public_port: None,
            warp_compat: true,
            cache_public_addr: false,
            cached_public_ip: None,
            cached_public_port: None,
        },
        peers: Vec::new(),
        services: Vec::new(),
    }
}

/// A message made of a text, a value and a closing text.
pub open spec fn quoted_message(head: Seq<char>, value: Seq<char>, tail: Seq<char>) -> Seq<char> {
    head + value + tail
}

fn message(head: &str, value: &str, tail: &str) -> (m: String)
    ensures
        m@ == quoted_message(head@, value@, tail@),
{
    let mut out = chars_of(head);
    let v = chars_of(value);
    let t = chars_of(tail);
    push_all(&mut out, v.as_slice());
    push_all(&mut out, t.as_slice());
    string_from_chars(out.as_slice())
}

/// Reads the arguments of `set-public-addr`: an IPv4 address and a port,
/// each as typed.
pub fn parse_public_addr(ip_text: &str, port_text: &str) -> (r: Result<SocketAddr, String>)
    ensures
        match parse_ipv4(ip_text@) {
            None => r matches Err(m) && m@ == quoted_message("Invalid IP address '"@, ip_text@, "'."@),
            Some(ip) => match parse_unsigned(port_text@, 65535) {
                None => r matches Err(m) && m@ == quoted_message("Invalid port '"@, port_text@, "'."@),
                Some(p) => r == Ok::<SocketAddr, String>(SocketAddr { ip, port: p as u16 }),
            },
        },
{
    let ip = match parse_ipv4_str(ip_text) {
        Some(ip) => ip,
        None => return Err(message("Invalid IP address '", ip_text, "'.")),
    };
    let pc = chars_of(port_text);
    match parse_unsigned_chars(pc.as_slice(), 65535) {
        Some(p) => Ok(SocketAddr { ip, port: p as u16 }),
        None => Err(message("Invalid port '", port_text, "'.")),
    }
}

/// Reads an on/off switch: `on`, `true` or `enable` turn it on, `off`,
/// `false` or `disable` off; anything else is not understood.
pub fn parse_switch(arg: &str) -> (r: Option<bool>)
    ensures
        r == (if arg@ == "on"@ || arg@ == "true"@ || arg@ == "enable"@ {
            Some(true)
        } else if arg@ == "off"@ || arg@ == "false"@ || arg@ == "disable"@ {
            Some(false)
        } else {
            None::<bool>
        }),
{
    let a = arg.to_string();
    if a == "on".to_string() || a == "true".to_string() || a == "enable".to_string() {
        Some(true)
    } else if a == "off".to_string() || a == "false".to_string() || a == "disable".to_string() {
        Some(false)
    } else {
        None
    }
}

/// The number of probes `ping` sends: the argument if it reads as a
/// `u32`, else 5.
pub fn ping_count(arg: Option<&str>) -> (n: u32)
    ensures
        n as nat == (match arg {
            Some(a) => match parse_unsigned(a@, u32::MAX as nat) {
                Some(v) => v,
                None => 5,
            },
            None => 5,
        }),
{
    match arg {
        Some(a) => {
            let c = chars_of(a);
            match parse_unsigned_chars(c.as_slice(), u32::MAX as u64) {
                Some(v) => v as u32,
                None => 5,
            }
        },
        None => 5,
    }
}

/// Reads the answers of `add-peer` into a peer: its virtual IP must parse
/// and differ from this machine's, its port must parse.
pub fn new_peer_from_answers(
    cfg: &Config,
    name: String,
    virtual_ip: &str,
    public_ip: String,
    public_port: &str,
) -> (r: Result<PeerConfig, String>)
    ensures
        match parse_ipv4(virtual_ip@) {
            None => r matches Err(m) && m@ == "Invalid IP, aborting."@,
            Some(ip) => if ip == cfg.me.virtual_ip {
                r matches Err(m) && m@
                    == "That's your own virtual IP -- peers need distinct addresses. Aborting."@
            } else {
                match parse_unsigned(public_port@, 65535) {
                    None => r matches Err(m) && m@ == "Invalid port, aborting."@,
                    Some(p) => r matches Ok(peer) && peer.name == name && peer.virtual_ip == ip
                        && peer.public_ip == public_ip && peer.public_port as nat == p,
                }
            },
        },
{
    let ip = match parse_ipv4_str(virtual_ip) {
        Some(ip) => ip,
        None => return Err("Invalid IP, aborting.".to_string()),
    };
    if ip == cfg.me.virtual_ip {
        return Err("That's your own virtual IP -- peers need distinct addresses. Aborting.".to_string());
    }
    let pc = chars_of(public_port);
    let port = match parse_unsigned_chars(pc.as_slice(), 65535) {
        Some(p) => p as u16,
        None => return Err("Invalid port, aborting.".to_string()),
    };
    Ok(PeerConfig { name, virtual_ip: ip, public_ip, public_port: port })
}

/// What `add-service` did.
#[derive(Debug, Clone, Copy, PartialEq, Eq, Structural)]
pub enum ServiceEdit {
    /// A new service was added.
    Added,
    /// A service of that name (ignoring case) got the new port.
    Updated,
}

/// `add-service <name> <port>`: the name is trimmed and must not be
/// empty, the port must parse as typed; then the service is added, or
/// the one of that name (ignoring case) gets the new port.
pub fn add_service_from_args(cfg: &mut Config, name: &str, port_text: &str) -> (r: Result<
    ServiceEdit,
    String,
>)
    ensures
        trim(name@).len() == 0 ==> (r matches Err(m) && m@ == "Service name can't be empty."@),
        trim(name@).len() > 0 && parse_unsigned(port_text@, 65535) is None ==> (r matches Err(m) && m@
            == quoted_message("Invalid port '"@, port_text@, "'."@)),
        r is Err ==> *final(cfg) == *old(cfg),
        r is Ok ==> {
            &&& trim(name@).len() > 0
            &&& parse_unsigned(port_text@, 65535) matches Some(p) && svc_views(final(cfg).services@)
                == add_service_spec(svc_views(old(cfg).services@), name@, p as u16)
            &&& (r == Ok::<ServiceEdit, String>(ServiceEdit::Updated)) == (exists|i: int|
                is_first_service(svc_views(old(cfg).services@), trim(name@), i))
            &&& final(cfg).me == old(cfg).me
            &&& final(cfg).peers@ == old(cfg).peers@
        },
{
    let nc = chars_of(name);
    let trimmed = trim_chars(nc.as_slice());
    if trimmed.len() == 0 {
        return Err("Service name can't be empty.".to_string());
    }
    let pc = chars_of(port_text);
    let port: u16 = match parse_unsigned_chars(pc.as_slice(), 65535) {
        Some(p) => p as u16,
        None => return Err(message("Invalid port '", port_text, "'.")),
    };
    let ghost s0 = svc_views(cfg.services@);
    let mut found = false;
    let mut i: usize = 0;
    while i < cfg.services.len()
        invariant
            i <= cfg.services@.len(),
            s0 == svc_views(cfg.services@),
            trimmed@ == trim(name@),
            !found ==> forall|j: int| 0 <= j < i ==> !eq_ignore_case((#[trigger] s0[j]).0, trimmed@),
            found ==> exists|j: int| is_first_service(s0, trimmed@, j),
        decreases cfg.services@.len() - i,
    {
        if !found {
            let cur = chars_of(cfg.services[i].name.as_str());
            if chars_eq_ignore_case(cur.as_slice(), trimmed.as_slice()) {
                assert(is_first_service(s0, trimmed@, i as int));
                found = true;
            }
        }
        i = i + 1;
    }
    proof {
        if !found {
            assert forall|j: int| !is_first_service(s0, trimmed@, j) by {
                if 0 <= j < s0.len() {
                    assert(!eq_ignore_case(s0[j].0, trimmed@));
                }
            }
        }
    }
    cfg.add_service(name, port);
    if found {
        Ok(ServiceEdit::Updated)
    } else {
        Ok(ServiceEdit::Added)
    }
}

fn contains_addr(v: &[SocketAddr], a: SocketAddr) -> (r: bool)
    ensures
        r == v@.contains(a),
{
    let mut k: usize = 0;
    while k < v.len()
        invariant
            k <= v@.len(),
            forall|x: int| 0 <= x < k ==> v@[x] != a,
        decreases v@.len() - k,
    {
        if v[k] == a {
            assert(v@[k as int] == a);
            return true;
        }
        k = k + 1;
    }
    false
}

/// The addresses STUN servers reported, each once, in the order first
/// seen (more than one means the NAT maps differently per destination).
pub fn distinct_addrs(addrs: &[SocketAddr]) -> (r: Vec<SocketAddr>)
    ensures
        forall|i: int, j: int| 0 <= i < j < r@.len() ==> r@[i] != r@[j],
        forall|a: SocketAddr| r@.contains(a) <==> addrs@.contains(a),
{
    let mut out: Vec<SocketAddr> = Vec::new();
    let mut i: usize = 0;
    while i < addrs.len()
        invariant
            i <= addrs@.len(),
            forall|x: int, y: int| 0 <= x < y < out@.len() ==> out@[x] != out@[y],
            forall|a: SocketAddr| out@.contains(a) <==> addrs@.take(i as int).contains(a),
        decreases addrs@.len() - i,
    {
        let a = addrs[i];
        let seen = contains_addr(out.as_slice(), a);
        let ghost before = out@;
        if !seen {
            out.push(a);
        }
        assert(out@ == if seen { before } else { before.push(a) });
        proof {
            let t = addrs@.take(i + 1);
            assert(t =~= addrs@.take(i as int).push(a));
            assert forall|b: SocketAddr| out@.contains(b) <==> t.contains(b) by {
                if t.contains(b) {
                    let x = choose|x: int| 0 <= x < t.len() && t[x] == b;
                    if x < i {
                        assert(addrs@.take(i as int)[x] == b);
                        assert(addrs@.take(i as int).contains(b));
                        assert(before.contains(b));
                        let y = choose|y: int| 0 <= y < before.len() && before[y] == b;
                        assert(out@[y] == before[y]);
                    } else {
                        if !seen {
                            assert(out@[before.len() as int] == b);
                        } else {
                            let y = choose|y: int| 0 <= y < before.len() && before[y] == a;
                            assert(out@[y] == b);
                        }
                    }
                }
                if out@.contains(b) {
                    let y = choose|y: int| 0 <= y < out@.len() && out@[y] == b;
                    if y < before.len() {
                        assert(before[y] == b);
                        assert(before.contains(b));
                        let x = choose|x: int| 0 <= x < i && addrs@.take(i as int)[x] == b;
                        assert(t[x] == b);
                    } else {
                        assert(t[i as int] == b);
                    }
                }
            }
        }
        i = i + 1;
    }
    assert(addrs@.take(i as int) =~= addrs@);
    out
}

} // verus!
