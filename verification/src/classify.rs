//! Classification of a raw command string into one of three lanes.

use vstd::prelude::*;
use vstd::string::StrSliceExecFns;

verus! {

/// The three execution lanes of a stored command.
#[derive(Clone, Copy, Debug, PartialEq, Eq, Structural)]
pub enum Category {
    /// The string is a filesystem path that existed at classification time.
    File,
    /// The string is no existing path and starts with the literal `"start"`.
    WindowsAction,
    /// The fallback: a command for the shell.
    Terminal,
}

/// Whether the command starts with the launch-prefix token `"start"`,
/// case-sensitively.
pub open spec fn is_start_prefixed(s: Seq<char>) -> bool {
    s.len() >= 5 && s[0] == 's' && s[1] == 't' && s[2] == 'a' && s[3] == 'r' && s[4] == 't'
}

/// The lane of a command, given whether it names an existing path.
pub open spec fn classify_spec(s: Seq<char>, on_disk: bool) -> Category {
    if on_disk {
        Category::File
    } else if is_start_prefixed(s) {
        Category::WindowsAction
    } else {
        Category::Terminal
    }
}

/// Tests for the literal prefix `"start"`.
fn starts_with_start(s: &str) -> (r: bool)
    ensures
        r == is_start_prefixed(s@),
{
    let n = s.unicode_len();
    if n < 5 {
        return false;
    }
    s.get_char(0) == 's' && s.get_char(1) == 't' && s.get_char(2) == 'a' && s.get_char(3) == 'r'
        && s.get_char(4) == 't'
}

/// Classifies one command string.  `on_disk` reports whether the string
/// names a filesystem path that exists at classification time; that check
/// reads mutable filesystem state, so the caller performs it and passes the
/// result in.  The function is total: an existing path is `File`, otherwise
/// a `"start"`-prefixed string is `WindowsAction`, and everything else is
/// `Terminal`.
pub fn classify(command: &str, on_disk: bool) -> (c: Category)
    ensures
        c == classify_spec(command@, on_disk),
        on_disk ==> c == Category::File,
        !on_disk && is_start_prefixed(command@) ==> c == Category::WindowsAction,
        !on_disk && !is_start_prefixed(command@) ==> c == Category::Terminal,
{
    if on_disk {
        Category::File
    } else if starts_with_start(command) {
        Category::WindowsAction
    } else {
        Category::Terminal
    }
}

} // verus!
