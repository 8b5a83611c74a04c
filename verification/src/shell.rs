//! The decision the interactive shell makes for each input line: skip it,
//! run a dot command, or send it to the server as a GQL query or as a raw
//! JSON request. Reading lines and talking to the server belong to the
//! caller.

use vstd::prelude::*;

use crate::cli::{lowercase_of, str_to_lowercase, str_to_uppercase, trim_text, trimmed, uppercase_str_of};

verus! {

/// What the shell does with one input line.
#[derive(Debug, Clone, PartialEq, Eq)]
pub enum ShellAction {
    /// An empty line: nothing to do.
    Skip,
    /// `.help`: print the help text.
    Help,
    /// `.quit` or `.exit`: leave the shell.
    Quit,
    /// `.ping`: send a ping request.
    Ping,
    /// `.clear`: clear the screen.
    Clear,
    /// Another dot command, which is reported as unknown (the trimmed line).
    UnknownCommand(String),
    /// Send the trimmed line as a GQL query.
    Query(String),
    /// Send the trimmed line as it stands, as a JSON request.
    Raw(String),
}

/// Whether an upper-cased line starts with one of the GQL keywords that mark
/// a query.
pub open spec fn starts_like_query(upper: Seq<char>) -> bool {
    ||| "MATCH"@.is_prefix_of(upper)
    ||| "CREATE"@.is_prefix_of(upper)
    ||| "DELETE"@.is_prefix_of(upper)
    ||| "RETURN"@.is_prefix_of(upper)
    ||| "OPTIONAL"@.is_prefix_of(upper)
    ||| "WITH"@.is_prefix_of(upper)
    ||| "MERGE"@.is_prefix_of(upper)
    ||| "SET"@.is_prefix_of(upper)
    ||| "REMOVE"@.is_prefix_of(upper)
}

/// The action for a line whose trimmed form is `t`, with `lower` and `upper`
/// its lower- and upper-cased forms. An empty line is skipped; a line
/// starting with `.` is a dot command, matched case-insensitively; a line
/// that starts like a query is a query; one starting with `{` is sent as raw
/// JSON; anything else is sent as a query too.
pub open spec fn shell_action_spec(t: Seq<char>, lower: Seq<char>, upper: Seq<char>, r: ShellAction) -> bool {
    if t.len() == 0 {
        r == ShellAction::Skip
    } else if t[0] == '.' {
        if lower == ".help"@ {
            r == ShellAction::Help
        } else if lower == ".quit"@ || lower == ".exit"@ {
            r == ShellAction::Quit
        } else if lower == ".ping"@ {
            r == ShellAction::Ping
        } else if lower == ".clear"@ {
            r == ShellAction::Clear
        } else {
            r matches ShellAction::UnknownCommand(s) && s@ == t
        }
    } else if starts_like_query(upper) {
        r matches ShellAction::Query(s) && s@ == t
    } else if t[0] == '{' {
        r matches ShellAction::Raw(s) && s@ == t
    } else {
        r matches ShellAction::Query(s) && s@ == t
    }
}

fn has_prefix(s: &str, p: &str) -> (r: bool)
    ensures
        r == p@.is_prefix_of(s@),
{
    let n = s.unicode_len();
    let m = p.unicode_len();
    if m > n {
        return false;
    }
    let mut i: usize = 0;
    while i < m
        invariant
            m <= n,
            n == s@.len(),
            m == p@.len(),
            i <= m,
            forall|j: int| 0 <= j < i ==> p@[j] == s@[j],
        decreases m - i,
    {
        if s.get_char(i) != p.get_char(i) {
            return false;
        }
        i = i + 1;
    }
    assert(p@ =~= s@.subrange(0, m as int));
    true
}

fn is_text(s: &String, lit: &str) -> (r: bool)
    ensures
        r == (s@ == lit@),
{
    let t = String::from_str(lit);
    *s == t
}

/// The action for a line already trimmed (`trimmed`), given its lower- and
/// upper-cased forms.
pub fn shell_action_of(trimmed: &str, lower: &str, upper: &str) -> (r: ShellAction)
    ensures
        shell_action_spec(trimmed@, lower@, upper@, r),
{
    proof {
        reveal_strlit("MATCH");
        reveal_strlit("CREATE");
        reveal_strlit("DELETE");
        reveal_strlit("RETURN");
        reveal_strlit("OPTIONAL");
        reveal_strlit("WITH");
        reveal_strlit("MERGE");
        reveal_strlit("SET");
        reveal_strlit("REMOVE");
    }
    let n = trimmed.unicode_len();
    if n == 0 {
        return ShellAction::Skip;
    }
    let first = trimmed.get_char(0);
    if first == '.' {
        let lowered = String::from_str(lower);
        if is_text(&lowered, ".help") {
            ShellAction::Help
        } else if is_text(&lowered, ".quit") || is_text(&lowered, ".exit") {
            ShellAction::Quit
        } else if is_text(&lowered, ".ping") {
            ShellAction::Ping
        } else if is_text(&lowered, ".clear") {
            ShellAction::Clear
        } else {
            ShellAction::UnknownCommand(String::from_str(trimmed))
        }
    } else if has_prefix(upper, "MATCH") || has_prefix(upper, "CREATE") || has_prefix(upper, "DELETE")
        || has_prefix(upper, "RETURN") || has_prefix(upper, "OPTIONAL") || has_prefix(upper, "WITH")
        || has_prefix(upper, "MERGE") || has_prefix(upper, "SET") || has_prefix(upper, "REMOVE") {
        ShellAction::Query(String::from_str(trimmed))
    } else if first == '{' {
        ShellAction::Raw(String::from_str(trimmed))
    } else {
        ShellAction::Query(String::from_str(trimmed))
    }
}

/// The action for one input line: trimmed of Unicode white space, dot commands
/// lower-cased by `str::to_lowercase`, query keywords looked for in the
/// `str::to_uppercase` form.
pub fn shell_action(line: &str) -> (r: ShellAction)
    ensures
        ({
            let t = trimmed(line@);
            shell_action_spec(t, lowercase_of(t), uppercase_str_of(t), r)
        }),
{
    let trimmed = trim_text(line);
    let lower = str_to_lowercase(trimmed.as_str());
    let upper = str_to_uppercase(trimmed.as_str());
    shell_action_of(trimmed.as_str(), lower.as_str(), upper.as_str())
}

} // verus!
