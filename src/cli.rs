//! The command line's values, and the parsing of `KEY=VALUE` launch arguments.
use vstd::prelude::*;

verus! {

/// The parsed command line.
#[derive(Debug)]
pub struct Cli {
    pub command: CliCommand,
}

/// The commands that the command line offers.
#[derive(Debug)]
pub enum CliCommand {
    /// Open a window by its ID (eg. `zebar open bar`).
    Open(OpenWindowArgs),
    /// Output available monitors.
    Monitors(OutputMonitorsArgs),
}

/// A request to open one window.
#[derive(Debug)]
pub struct OpenWindowArgs {
    /// ID of the window to open (eg. `bar`).
    pub window_id: String,
    /// Arguments to pass to the window, in the order given.
    pub args: Option<Vec<(String, String)>>,
}

/// Options of the command that lists monitors.
#[derive(Debug)]
pub struct OutputMonitorsArgs {
    /// Delimit monitors with the NUL character instead of newlines.
    pub print0: bool,
}

/// The message of a launch argument without `=`.
pub const ARG_FORMAT_MESSAGE: &'static str = "Arguments must be of format KEY1=VAL1";

/// The index of the first `=` at or after `from`, or the length where there is none.
pub open spec fn eq_from(s: Seq<char>, from: int) -> int
    decreases s.len() - from,
{
    if from < 0 || from >= s.len() {
        s.len() as int
    } else if s[from] == '=' {
        from
    } else {
        eq_from(s, from + 1)
    }
}

/// What a launch argument token gives: the text before its first `=` as key,
/// and the text after it up to the next `=` (or the end) as value; nothing
/// where the token holds no `=`.
pub open spec fn parsed_open_arg(s: Seq<char>) -> Option<(Seq<char>, Seq<char>)> {
    let k = eq_from(s, 0);
    if k >= s.len() {
        None
    } else {
        Some((s.subrange(0, k), s.subrange(k + 1, eq_from(s, k + 1))))
    }
}

proof fn lemma_eq_from_bounds(s: Seq<char>, from: int)
    requires
        0 <= from,
    ensures
        from <= eq_from(s, from) <= s.len() || (from > s.len() && eq_from(s, from) == s.len()),
        eq_from(s, from) < s.len() ==> s[eq_from(s, from)] == '=',
    decreases s.len() - from,
{
    if from < s.len() && s[from] != '=' {
        lemma_eq_from_bounds(s, from + 1);
    }
}

fn find_eq(input: &str, from: usize) -> (r: usize)
    requires
        from <= input@.len(),
    ensures
        r == eq_from(input@, from as int),
        from <= r <= input@.len(),
{
    let len = input.unicode_len();
    let mut i = from;
    while i < len
        invariant
            len == input@.len(),
            from <= i <= len,
            eq_from(input@, from as int) == eq_from(input@, i as int),
        decreases len - i,
    {
        if input.get_char(i) == '=' {
            return i;
        }
        i = i + 1;
    }
    i
}

/// Parses one `KEY=VALUE` launch argument into its key and value.
pub fn parse_open_args(input: &str) -> (r: Result<(String, String), String>)
    ensures
        match parsed_open_arg(input@) {
            Some(kv) => r matches Ok(p) && p.0@ == kv.0 && p.1@ == kv.1,
            None => r matches Err(e) && e@ == ARG_FORMAT_MESSAGE@,
        },
{
    let len = input.unicode_len();
    let k = find_eq(input, 0);
    if k >= len {
        Err(String::from_str(ARG_FORMAT_MESSAGE))
    } else {
        let end = find_eq(input, k + 1);
        let key = String::from_str(input.substring_char(0, k));
        let value = String::from_str(input.substring_char(k + 1, end));
        Ok((key, value))
    }
}

} // verus!
