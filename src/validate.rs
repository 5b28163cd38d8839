//! Checks on the names a user gives to commands and variables, and the
//! lookup of the default profile's name.
use vstd::prelude::*;
use crate::text::{find_char, find_from, find_in, slice_string, to_chars};

verus! {

/// An ASCII letter or digit.
pub open spec fn is_alnum(c: char) -> bool {
    ('a' <= c && c <= 'z') || ('A' <= c && c <= 'Z') || ('0' <= c && c <= '9')
}

/// A command name: not empty, made of letters, digits, `-` and `_`, and not
/// starting with `-`.
pub open spec fn valid_command_name(name: Seq<char>) -> bool {
    &&& name.len() > 0
    &&& name[0] != '-'
    &&& forall|i: int| 0 <= i < name.len() ==> is_alnum(#[trigger] name[i]) || name[i] == '-' || name[i] == '_'
}

/// An environment-variable name: not empty, starting with a letter or `_`,
/// made of letters, digits and `_`.
pub open spec fn valid_env_var_name(name: Seq<char>) -> bool {
    &&& name.len() > 0
    &&& (('a' <= name[0] && name[0] <= 'z') || ('A' <= name[0] && name[0] <= 'Z') || name[0] == '_')
    &&& forall|i: int| 0 <= i < name.len() ==> is_alnum(#[trigger] name[i]) || name[i] == '_'
}

/// Whether `name` can name a command.
pub fn is_valid_command_name(name: &str) -> (r: bool)
    ensures
        r == valid_command_name(name@),
{
    let cs = to_chars(name);
    if cs.len() == 0 || cs[0] == '-' {
        return false;
    }
    let mut i: usize = 0;
    while i < cs.len()
        invariant
            cs@ == name@,
            i <= cs.len(),
            forall|k: int| 0 <= k < i ==> is_alnum(#[trigger] cs@[k]) || cs@[k] == '-' || cs@[k] == '_',
        decreases cs.len() - i,
    {
        let c = cs[i];
        if !(('a' <= c && c <= 'z') || ('A' <= c && c <= 'Z') || ('0' <= c && c <= '9') || c == '-' || c == '_') {
            assert(!(is_alnum(cs@[i as int]) || cs@[i as int] == '-' || cs@[i as int] == '_'));
            return false;
        }
        i = i + 1;
    }
    true
}

/// Whether `name` can name an environment variable.
pub fn is_valid_env_var_name(name: &str) -> (r: bool)
    ensures
        r == valid_env_var_name(name@),
{
    let cs = to_chars(name);
    if cs.len() == 0 {
        return false;
    }
    let f = cs[0];
    if !(('a' <= f && f <= 'z') || ('A' <= f && f <= 'Z') || f == '_') {
        return false;
    }
    let mut i: usize = 0;
    while i < cs.len()
        invariant
            cs@ == name@,
            i <= cs.len(),
            forall|k: int| 0 <= k < i ==> is_alnum(#[trigger] cs@[k]) || cs@[k] == '_',
        decreases cs.len() - i,
    {
        let c = cs[i];
        if !(('a' <= c && c <= 'z') || ('A' <= c && c <= 'Z') || ('0' <= c && c <= '9') || c == '_') {
            assert(!(is_alnum(cs@[i as int]) || cs@[i as int] == '_'));
            return false;
        }
        i = i + 1;
    }
    true
}

/// The name after the first `defaultShell = "`, up to the next `"`.
pub open spec fn default_shell_spec(s: Seq<char>) -> Option<Seq<char>> {
    match find_in(s, "defaultShell = \""@, 0, s.len() as int) {
        None => None,
        Some(i) => {
            let from = i + "defaultShell = \""@.len();
            match find_in(s, seq!['"'], from, s.len() as int) {
                None => None,
                Some(j) => Some(s.subrange(from, j)),
            }
        },
    }
}

/// Reads the name of the default profile from the text of the helper
/// module (`defaultShell = "NAME"`).
pub fn default_shell_of(content: &str) -> (r: Option<String>)
    ensures
        match r {
            Some(t) => default_shell_spec(content@) == Some(t@),
            None => default_shell_spec(content@) is None,
        },
{
    let s = to_chars(content);
    let pat = to_chars("defaultShell = \"");
    let i = match find_from(&s, &pat, 0, s.len()) {
        Some(i) => i,
        None => {
            return None;
        },
    };
    let from = i + pat.len();
    match find_char(&s, '"', from, s.len()) {
        Some(j) => Some(slice_string(content, from, j)),
        None => None,
    }
}

} // verus!
