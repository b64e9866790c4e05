//! Where log lines go: each message is stamped with the wall-clock time
//! of day and handed to an installed sink, or printed when none is.

use vstd::prelude::*;
use crate::text::{chars_of, push_all, string_from_chars};

verus! {

/// `[HH:MM:SS] message`: the line that the log shows for a message
/// stamped with `clock`.
pub open spec fn log_line_spec(clock: Seq<char>, msg: Seq<char>) -> Seq<char> {
    "["@ + clock + "] "@ + msg
}

/// See `log_line_spec`.
pub fn log_line(clock: &str, msg: &str) -> (r: String)
    ensures
        r@ == log_line_spec(clock@, msg@),
{
    let mut out = chars_of("[");
    let c = chars_of(clock);
    push_all(&mut out, c.as_slice());
    let sep = chars_of("] ");
    push_all(&mut out, sep.as_slice());
    let m = chars_of(msg);
    push_all(&mut out, m.as_slice());
    string_from_chars(out.as_slice())
}

/// The log's destination: a sink once one is installed, standard output
/// before that.
pub struct LogSink<F> {
    pub sink: Option<F>,
}

impl<F: Fn(&str)> LogSink<F> {
    /// No sink installed: lines go to standard output.
    pub fn new() -> (r: Self)
        ensures
            r.sink is None,
    {
        LogSink { sink: None }
    }

    /// Emits one stamped line: the installed sink is called with it (and
    /// `None` returned), else the line is returned for standard output.
    pub fn emit(&self, clock: &str, msg: &str) -> (r: Option<String>)
        requires
            self.sink matches Some(f) ==> forall|s: &str| #[trigger] f.requires((s,)),
        ensures
            self.sink is Some <==> r is None,
            r matches Some(line) ==> line@ == log_line_spec(clock@, msg@),
            self.sink matches Some(f) ==> exists|s: &str|
                s@ == log_line_spec(clock@, msg@) && #[trigger] call_ensures(f, (s,), ()),
    {
        let line = log_line(clock, msg);
        match &self.sink {
            Some(f) => {
                f(line.as_str());
                None
            },
            None => Some(line),
        }
    }
}

/// Installs a sink that receives each stamped line from then on, in
/// place of standard output (and of any sink installed before).
pub fn set_sink<F: Fn(&str)>(log: &mut LogSink<F>, f: F)
    ensures
        final(log).sink == Some(f),
{
    log.sink = Some(f);
}

} // verus!
