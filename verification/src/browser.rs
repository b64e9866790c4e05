//! The in-app browser's rules, apart from its windows: what a typed
//! address means, the built-in mesh home page listing every local domain
//! name, the `data:` URL it is shown through, and the messages of its
//! address bar.

use vstd::prelude::*;
use vstd::utf8::encode_utf8;
use crate::config::Config;
use crate::hosts::{
    build_entries_with_services, config_domain_infos, config_infos_spec, domain_entries,
    HostEntryView, PeerDomainInfo, host_views,
};
use crate::net::{ipv4_text, Ipv4Addr};
use crate::text::{
    chars_contains, chars_eq, chars_of, chars_starts_with, contains_seq, push_all, push_replaced,
    replace_with, starts_with, string_from_chars, trim, trim_chars,
};

verus! {

/// The address that stands for the built-in home page.
pub const HOME_ADDRESS: &'static str = "about:home";

/// What the browser opens first: the address given on the command line,
/// made loadable, or the home page when none (or an empty one) is given.
pub fn resolve_start_target(arg: Option<String>) -> (r: String)
    ensures
        r@ == (match arg {
            Some(a) => if a@.len() > 0 {
                normalized_address(a@)
            } else {
                HOME_ADDRESS@
            },
            None => HOME_ADDRESS@,
        }),
{
    match arg {
        Some(a) => {
            if a.as_str().is_empty() {
                HOME_ADDRESS.to_string()
            } else {
                normalize_address(a.as_str())
            }
        },
        None => HOME_ADDRESS.to_string(),
    }
}

/// A typed address, trimmed: the home page's address and anything with
/// a scheme (`://`) are kept; anything else (a bare mesh name, a
/// host:port) is taken as plain `http://`.
pub open spec fn normalized_address(input: Seq<char>) -> Seq<char> {
    let t = trim(input);
    if t == HOME_ADDRESS@ || contains_seq(t, "://"@) {
        t
    } else {
        "http://"@ + t
    }
}

/// See `normalized_address`.
pub fn normalize_address(input: &str) -> (r: String)
    ensures
        r@ == normalized_address(input@),
{
    let ic = chars_of(input);
    let t = trim_chars(ic.as_slice());
    let home = chars_of(HOME_ADDRESS);
    let scheme = chars_of("://");
    if chars_eq(t.as_slice(), home.as_slice()) || chars_contains(t.as_slice(), scheme.as_slice()) {
        return string_from_chars(t.as_slice());
    }
    let mut out = chars_of("http://");
    push_all(&mut out, t.as_slice());
    string_from_chars(out.as_slice())
}

/// A byte that is written as itself: ASCII letters and digits, `-`, `_`,
/// `.` and `~`.
pub open spec fn is_unreserved(b: u8) -> bool {
    (65 <= b <= 90) || (97 <= b <= 122) || (48 <= b <= 57) || b == 45 || b == 95 || b == 46 || b == 126
}

/// Uppercase hex digit of a value below 16.
pub open spec fn hex_digit(n: u8) -> char {
    if n < 10 {
        (48 + n) as char
    } else {
        (55 + n) as char
    }
}

/// One byte percent-encoded: itself, or `%` and two uppercase hex digits.
pub open spec fn percent_byte(b: u8) -> Seq<char> {
    if is_unreserved(b) {
        seq![b as char]
    } else {
        seq!['%', hex_digit(b / 16), hex_digit(b % 16)]
    }
}

pub open spec fn percent_encoded(bytes: Seq<u8>) -> Seq<char>
    decreases bytes.len(),
{
    if bytes.len() == 0 {
        Seq::<char>::empty()
    } else {
        percent_encoded(bytes.drop_last()) + percent_byte(bytes.last())
    }
}

fn hex_char(n: u8) -> (c: char)
    requires
        n < 16,
    ensures
        c == hex_digit(n),
{
    if n < 10 {
        (48u8 + n) as char
    } else {
        (55u8 + n) as char
    }
}

/// Percent-encodes the UTF-8 bytes of a text; see `percent_byte`.
pub fn percent_encode(input: &str) -> (r: String)
    ensures
        r@ == percent_encoded(encode_utf8(input@)),
{
    let bytes = input.as_bytes();
    let mut out: Vec<char> = Vec::new();
    let mut i: usize = 0;
    assert(bytes@.take(0) =~= Seq::<u8>::empty());
    while i < bytes.len()
        invariant
            i <= bytes@.len(),
            out@ == percent_encoded(bytes@.take(i as int)),
        decreases bytes@.len() - i,
    {
        let b = bytes[i];
        proof {
            assert(bytes@.take(i + 1).drop_last() =~= bytes@.take(i as int));
            assert(bytes@.take(i + 1).last() == b);
        }
        if (65 <= b && b <= 90) || (97 <= b && b <= 122) || (48 <= b && b <= 57) || b == 45 || b == 95
            || b == 46 || b == 126 {
            out.push(b as char);
        } else {
            out.push('%');
            out.push(hex_char(b / 16));
            out.push(hex_char(b % 16));
        }
        assert(out@ =~= percent_encoded(bytes@.take(i + 1)));
        i = i + 1;
    }
    assert(bytes@.take(i as int) =~= bytes@);
    string_from_chars(out.as_slice())
}

/// The `data:` URL showing an HTML page.
pub open spec fn data_url(html: Seq<char>) -> Seq<char> {
    "data:text/html;charset=utf-8,"@ + percent_encoded(encode_utf8(html))
}

/// See `data_url`.
pub fn data_url_for(html: &str) -> (r: String)
    ensures
        r@ == data_url(html@),
{
    let mut out = chars_of("data:text/html;charset=utf-8,");
    let enc = percent_encode(html);
    let ec = chars_of(enc.as_str());
    push_all(&mut out, ec.as_slice());
    string_from_chars(out.as_slice())
}

// ---------------------------------------------------------------------
// The mesh home page
// ---------------------------------------------------------------------

/// The home page up to its list of names.
pub const HOME_PAGE_HEAD: &'static str = "<!DOCTYPE html><html><head><meta charset=\"utf-8\"><style>\n        body { background:#0b0d0f; color:#a8b4ba; font-family:'JetBrains Mono','Consolas',monospace;\n               margin:0; padding:40px; }\n        h1 { color:#2dd4bf; font-size:20px; letter-spacing:1px; margin-bottom:4px; }\n        .sub { color:#5f6b72; font-size:12px; margin-bottom:28px; }\n        .grid { display:grid; grid-template-columns: repeat(auto-fill, minmax(180px,1fr)); gap:12px; }\n        .card { display:block; background:#121518; border:1px solid #242a2e; padding:14px 16px;\n                 text-decoration:none; color:#e8edf0; transition: border-color .1s; }\n        .card:hover { border-color:#2dd4bf; background:#1a1e22; }\n        .n { font-size:14px; font-weight:bold; }\n        .i { font-size:11px; color:#5f6b72; margin-top:4px; }\n        .dim { color:#5f6b72; }\n        </style></head><body>\n        <h1>MEOW_MEOW ▸ MESH HOME</h1>\n        <div class=\"sub\">Local domain names on this mesh -- click to open.</div>\n        ";

/// The home page after its list of names.
pub const HOME_PAGE_TAIL: &'static str = "\n        </body></html>";

/// What the home page says when there is no name to list.
pub const NO_NAMES_NOTE: &'static str = "<p class=\"dim\">No mesh.toml found in the current directory, or no peers configured yet. Start the mesh first, then relaunch the browser -- or just type an address above.</p>";

/// One link of the home page.
pub open spec fn home_card(name: Seq<char>, ip: Seq<char>) -> Seq<char> {
    "<a class=\"card\" href=\"http://"@ + name + "/\"><div class=\"n\">"@ + name
        + "</div><div class=\"i\">"@ + ip + "</div></a>"@
}

pub open spec fn home_cards(entries: Seq<(Seq<char>, Seq<char>)>) -> Seq<char>
    decreases entries.len(),
{
    if entries.len() == 0 {
        Seq::<char>::empty()
    } else {
        home_cards(entries.drop_last()) + home_card(entries.last().0, entries.last().1)
    }
}

/// The home page listing (name, address) pairs as links.
pub open spec fn home_page_spec(entries: Seq<(Seq<char>, Seq<char>)>) -> Seq<char> {
    HOME_PAGE_HEAD@ + (if entries.len() == 0 {
        NO_NAMES_NOTE@
    } else {
        "<div class=\"grid\">"@ + home_cards(entries) + "</div>"@
    }) + HOME_PAGE_TAIL@
}

pub open spec fn pair_views(s: Seq<(String, String)>) -> Seq<(Seq<char>, Seq<char>)> {
    Seq::new(s.len(), |i: int| (s[i].0@, s[i].1@))
}

/// See `home_page_spec`.
pub fn home_page(entries: &[(String, String)]) -> (r: String)
    ensures
        r@ == home_page_spec(pair_views(entries@)),
{
    let ghost es = pair_views(entries@);
    let mut out = chars_of(HOME_PAGE_HEAD);
    if entries.len() == 0 {
        let note = chars_of(NO_NAMES_NOTE);
        push_all(&mut out, note.as_slice());
    } else {
        let open = chars_of("<div class=\"grid\">");
        push_all(&mut out, open.as_slice());
        let ghost base = out@;
        let mut i: usize = 0;
        assert(es.take(0) =~= Seq::<(Seq<char>, Seq<char>)>::empty());
        while i < entries.len()
            invariant
                i <= entries@.len(),
                es == pair_views(entries@),
                out@ == base + home_cards(es.take(i as int)),
            decreases entries@.len() - i,
        {
            let ghost prev = out@;
            let name = chars_of(entries[i].0.as_str());
            let ip = chars_of(entries[i].1.as_str());
            let p1 = chars_of("<a class=\"card\" href=\"http://");
            let p2 = chars_of("/\"><div class=\"n\">");
            let p3 = chars_of("</div><div class=\"i\">");
            let p4 = chars_of("</div></a>");
            push_all(&mut out, p1.as_slice());
            push_all(&mut out, name.as_slice());
            push_all(&mut out, p2.as_slice());
            push_all(&mut out, name.as_slice());
            push_all(&mut out, p3.as_slice());
            push_all(&mut out, ip.as_slice());
            push_all(&mut out, p4.as_slice());
            proof {
                assert(es.take(i + 1).drop_last() =~= es.take(i as int));
                assert(es.take(i + 1).last() == es[i as int]);
                assert(out@ =~= prev + home_card(es[i as int].0, es[i as int].1));
            }
            i = i + 1;
        }
        assert(es.take(i as int) =~= es);
        let close = chars_of("</div>");
        push_all(&mut out, close.as_slice());
    }
    let tail = chars_of(HOME_PAGE_TAIL);
    push_all(&mut out, tail.as_slice());
    string_from_chars(out.as_slice())
}

/// The names a configuration alone gives, each with its address as
/// text; see `config_infos_spec` and `domain_entries`.
pub fn home_entries(cfg: &Config) -> (r: Vec<(String, String)>)
    ensures
        exists|infos: Seq<PeerDomainInfo>|
            config_infos_spec(*cfg, infos) && pair_views(r@) == entry_pairs(
                domain_entries(cfg.me.domain_suffix@, infos, infos.len() as int),
            ),
{
    let infos = config_domain_infos(cfg);
    let entries = build_entries_with_services(cfg.me.domain_suffix.as_str(), infos.as_slice());
    let ghost hv = host_views(entries@);
    let mut out: Vec<(String, String)> = Vec::new();
    let mut i: usize = 0;
    while i < entries.len()
        invariant
            i <= entries@.len(),
            hv == host_views(entries@),
            pair_views(out@) == entry_pairs(hv.take(i as int)),
        decreases entries@.len() - i,
    {
        let ghost before = pair_views(out@);
        let name = entries[i].hostname.clone();
        let ip = entries[i].virtual_ip.to_text();
        out.push((name, ip));
        proof {
            assert(hv[i as int].hostname == entries@[i as int].hostname@);
            assert(pair_views(out@) =~= before.push((hv[i as int].hostname, ipv4_text(hv[i as int].virtual_ip))));
            assert(entry_pairs(hv.take(i + 1)) =~= entry_pairs(hv.take(i as int)).push(
                (hv[i as int].hostname, ipv4_text(hv[i as int].virtual_ip)),
            ));
        }
        i = i + 1;
    }
    assert(hv.take(i as int) =~= hv);
    out
}

/// Each name with its address as text.
pub open spec fn entry_pairs(es: Seq<HostEntryView>) -> Seq<(Seq<char>, Seq<char>)> {
    Seq::new(es.len(), |i: int| (es[i].hostname, ipv4_text(es[i].virtual_ip)))
}

// ---------------------------------------------------------------------
// The address bar
// ---------------------------------------------------------------------

/// What the address bar asks of the page view.
#[derive(Debug, Clone, PartialEq, Eq)]
pub enum ChromeMsg {
    Navigate(String),
    Back,
    Forward,
    Reload,
    Home,
}

/// Reads a message of the address bar by its kind (`navigate` carries
/// the typed address); an unknown kind is ignored.
pub fn chrome_message(kind: &str, value: String) -> (r: Option<ChromeMsg>)
    ensures
        r == (if kind@ == "navigate"@ {
            Some(ChromeMsg::Navigate(value))
        } else if kind@ == "back"@ {
            Some(ChromeMsg::Back)
        } else if kind@ == "forward"@ {
            Some(ChromeMsg::Forward)
        } else if kind@ == "reload"@ {
            Some(ChromeMsg::Reload)
        } else if kind@ == "home"@ {
            Some(ChromeMsg::Home)
        } else {
            None::<ChromeMsg>
        }),
{
    let k = kind.to_string();
    if k == "navigate".to_string() {
        Some(ChromeMsg::Navigate(value))
    } else if k == "back".to_string() {
        Some(ChromeMsg::Back)
    } else if k == "forward".to_string() {
        Some(ChromeMsg::Forward)
    } else if k == "reload".to_string() {
        Some(ChromeMsg::Reload)
    } else if k == "home".to_string() {
        Some(ChromeMsg::Home)
    } else {
        None
    }
}

/// Where a typed address leads: the home page (as a `data:` URL) for the
/// home page's address, else the normalized address.
pub fn navigation_url(raw: &str, home_html: &str) -> (r: String)
    ensures
        r@ == (if normalized_address(raw@) == HOME_ADDRESS@ {
            data_url(home_html@)
        } else {
            normalized_address(raw@)
        }),
{
    let target = normalize_address(raw);
    let tc = chars_of(target.as_str());
    let home = chars_of(HOME_ADDRESS);
    if chars_eq(tc.as_slice(), home.as_slice()) {
        data_url_for(home_html)
    } else {
        target
    }
}

/// A text made safe inside a double-quoted JavaScript string: `\` and
/// `"` escaped.
pub open spec fn js_escaped(s: Seq<char>) -> Seq<char> {
    replace_with(replace_with(s, '\\', "\\\\"@), '"', "\\\""@)
}

/// See `js_escaped`.
pub fn js_escape(s: &str) -> (r: String)
    ensures
        r@ == js_escaped(s@),
{
    let sc = chars_of(s);
    let mut first: Vec<char> = Vec::new();
    let bs = chars_of("\\\\");
    push_replaced(&mut first, sc.as_slice(), '\\', bs.as_slice());
    assert(first@ =~= replace_with(s@, '\\', "\\\\"@));
    let mut second: Vec<char> = Vec::new();
    let q = chars_of("\\\"");
    push_replaced(&mut second, first.as_slice(), '"', q.as_slice());
    assert(second@ =~= js_escaped(s@));
    string_from_chars(second.as_slice())
}

/// The status line for a page: `mesh home` for the home page (a `data:`
/// URL), else the page's URL.
pub fn status_text(url: &str) -> (r: String)
    ensures
        r@ == (if starts_with(url@, "data:"@) {
            "mesh home"@
        } else {
            url@
        }),
{
    let uc = chars_of(url);
    let p = chars_of("data:");
    if chars_starts_with(uc.as_slice(), p.as_slice()) {
        "mesh home".to_string()
    } else {
        url.to_string()
    }
}

/// The script that shows `text` in the address bar's field
/// (`window.__setUrl`) or status line (`window.__setStatus`).
pub fn chrome_script(setter: &str, text: &str) -> (r: String)
    ensures
        r@ == "window."@ + setter@ + " && window."@ + setter@ + "(\""@ + js_escaped(text@) + "\")"@,
{
    let mut out = chars_of("window.");
    let sc = chars_of(setter);
    push_all(&mut out, sc.as_slice());
    let mid = chars_of(" && window.");
    push_all(&mut out, mid.as_slice());
    push_all(&mut out, sc.as_slice());
    let open = chars_of("(\"");
    push_all(&mut out, open.as_slice());
    let e = js_escape(text);
    let ec = chars_of(e.as_str());
    push_all(&mut out, ec.as_slice());
    let close = chars_of("\")");
    push_all(&mut out, close.as_slice());
    string_from_chars(out.as_slice())
}

} // verus!
