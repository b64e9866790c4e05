//! Starting the app with the session: the XDG autostart entry written on
//! Linux, the command registered under the Windows `Run` key, where the
//! entry lives, and the answers on a platform that has neither. Both
//! entries start the app with `--minimized`, so that it comes up quietly
//! in the tray. Reading and writing the entry is the caller's job.

use vstd::prelude::*;
use crate::text::{chars_of, ends_with, push_all, push_replaced, replace_with, string_from_chars};

verus! {

/// The file name of the XDG autostart entry.
pub const DESKTOP_FILE_NAME: &'static str = "meow-meow-gui.desktop";

/// The registry key whose values Windows starts at login.
pub const RUN_KEY: &'static str = "HKCU\\Software\\Microsoft\\Windows\\CurrentVersion\\Run";

/// The name of the app's value under `RUN_KEY`.
pub const RUN_VALUE: &'static str = "meow-meow_gui";

/// The refusal where the platform has no autostart mechanism.
pub const UNSUPPORTED: &'static str = "autostart is not supported on this platform";

/// An executable path quoted for a desktop entry's `Exec=` line: `\` and
/// `"` escaped.
pub open spec fn exec_quoted(path: Seq<char>) -> Seq<char> {
    replace_with(replace_with(path, '\\', "\\\\"@), '"', "\\\""@)
}

/// The XDG autostart entry that starts the app at `exe` minimized.
pub open spec fn desktop_entry_spec(exe: Seq<char>) -> Seq<char> {
    "[Desktop Entry]\nType=Application\nName=meow-meow\nComment=meow-meow virtual LAN\nExec=\""@
        + exec_quoted(exe) + "\" --minimized\nTerminal=false\nX-GNOME-Autostart-enabled=true\n"@
}

/// See `desktop_entry_spec`.
pub fn desktop_entry(exe: &str) -> (r: String)
    ensures
        r@ == desktop_entry_spec(exe@),
{
    let ec = chars_of(exe);
    let mut once: Vec<char> = Vec::new();
    let bs = chars_of("\\\\");
    push_replaced(&mut once, ec.as_slice(), '\\', bs.as_slice());
    let mut out = chars_of(
        "[Desktop Entry]\nType=Application\nName=meow-meow\nComment=meow-meow virtual LAN\nExec=\"",
    );
    let ghost head = out@;
    let q = chars_of("\\\"");
    push_replaced(&mut out, once.as_slice(), '"', q.as_slice());
    let tail = chars_of("\" --minimized\nTerminal=false\nX-GNOME-Autostart-enabled=true\n");
    push_all(&mut out, tail.as_slice());
    assert(out@ =~= desktop_entry_spec(exe@));
    string_from_chars(out.as_slice())
}

/// The command registered under the `Run` key: the quoted executable
/// path followed by `--minimized`.
pub fn run_command(exe: &str) -> (r: String)
    ensures
        r@ == "\""@ + exe@ + "\" --minimized"@,
{
    let mut out = chars_of("\"");
    let ec = chars_of(exe);
    push_all(&mut out, ec.as_slice());
    let tail = chars_of("\" --minimized");
    push_all(&mut out, tail.as_slice());
    string_from_chars(out.as_slice())
}

/// A path with one more component (`Path::join` of a relative name):
/// a `/` is put between them unless the path is empty or already ends
/// with one.
pub open spec fn path_join(dir: Seq<char>, name: Seq<char>) -> Seq<char> {
    if dir.len() == 0 || ends_with(dir, "/"@) {
        dir + name
    } else {
        dir + "/"@ + name
    }
}

fn join_path(dir: &str, name: &str) -> (r: String)
    ensures
        r@ == path_join(dir@, name@),
{
    let mut out = chars_of(dir);
    let nc = chars_of(name);
    let slash = chars_of("/");
    if out.len() > 0 && !crate::text::chars_ends_with(out.as_slice(), slash.as_slice()) {
        push_all(&mut out, slash.as_slice());
    }
    push_all(&mut out, nc.as_slice());
    string_from_chars(out.as_slice())
}

/// The XDG autostart directory: `$XDG_CONFIG_HOME/autostart` when that
/// variable is set and not empty, else `$HOME/.config/autostart`; none
/// without a home either.
pub open spec fn autostart_dir_spec(xdg_config_home: Option<Seq<char>>, home: Option<Seq<char>>) -> Option<
    Seq<char>,
> {
    match xdg_config_home {
        Some(x) if x.len() > 0 => Some(path_join(x, "autostart"@)),
        _ => match home {
            Some(h) => Some(path_join(path_join(h, ".config"@), "autostart"@)),
            None => None,
        },
    }
}

/// See `autostart_dir_spec`; the caller reads the two variables.
pub fn autostart_dir(xdg_config_home: Option<&str>, home: Option<&str>) -> (r: Option<String>)
    ensures
        r matches Some(d) ==> autostart_dir_spec(
            match xdg_config_home {
                Some(x) => Some(x@),
                None => None,
            },
            match home {
                Some(h) => Some(h@),
                None => None,
            },
        ) == Some(d@),
        r is None ==> autostart_dir_spec(
            match xdg_config_home {
                Some(x) => Some(x@),
                None => None,
            },
            match home {
                Some(h) => Some(h@),
                None => None,
            },
        ) is None,
{
    match xdg_config_home {
        Some(x) => {
            if !x.is_empty() {
                return Some(join_path(x, "autostart"));
            }
        },
        None => {},
    }
    match home {
        Some(h) => {
            let config = join_path(h, ".config");
            Some(join_path(config.as_str(), "autostart"))
        },
        None => None,
    }
}

/// The autostart entry's file: `DESKTOP_FILE_NAME` inside the autostart
/// directory, when there is one.
pub fn desktop_file(xdg_config_home: Option<&str>, home: Option<&str>) -> (r: Option<String>)
    ensures
        r matches Some(f) ==> autostart_dir_spec(
            match xdg_config_home {
                Some(x) => Some(x@),
                None => None,
            },
            match home {
                Some(h) => Some(h@),
                None => None,
            },
        ) matches Some(d) && f@ == path_join(d, DESKTOP_FILE_NAME@),
        r is None ==> autostart_dir_spec(
            match xdg_config_home {
                Some(x) => Some(x@),
                None => None,
            },
            match home {
                Some(h) => Some(h@),
                None => None,
            },
        ) is None,
{
    match autostart_dir(xdg_config_home, home) {
        Some(d) => Some(join_path(d.as_str(), DESKTOP_FILE_NAME)),
        None => None,
    }
}

/// Whether the app starts with the session, where the platform offers no
/// way for it to: never.
pub fn is_enabled() -> (r: bool)
    ensures
        !r,
{
    false
}

/// Asks for the app to start with the session, where the platform offers
/// no way for it to: refused.
pub fn enable() -> (r: Result<(), String>)
    ensures
        r matches Err(m) && m@ == UNSUPPORTED@,
{
    Err(UNSUPPORTED.to_string())
}

/// Stops the app starting with the session, where the platform offers no
/// way for it to: nothing to undo.
pub fn disable() -> (r: Result<(), String>)
    ensures
        r is Ok,
{
    Ok(())
}

} // verus!
