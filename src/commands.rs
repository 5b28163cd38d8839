//! Named command blocks inside the multi-line `shellHook = '' ... '';`
//! string of a profile.
//!
//! A command block reads
//!
//! ```text
//!     # flk-command: NAME
//!     NAME () {
//!       BODY
//!     }
//! ```
//!
//! The functions that take a profile name take the one the caller resolved;
//! the text they are given alone decides their result.
use vstd::prelude::*;
use crate::error::EditError;
use crate::render::{line_spans, lines, lines_from, repeat};
use crate::section::{insertion_point, insertion_point_exec};
use crate::text::{
    concat, find_from, find_in, is_space, is_space_exec, rfind_char, rfind_in, slice_string,
    splice, splice_exec, to_chars, trim_bounds, trimmed,
};

verus! {

/// The introducer of the shell hook, with blanks around `=`.
pub open spec fn hook_intro() -> Seq<char> {
    "shellHook = ''"@
}

/// The introducer of the shell hook, without blanks.
pub open spec fn hook_intro_tight() -> Seq<char> {
    "shellHook=''"@
}

/// What closes the shell hook.
pub open spec fn hook_close() -> Seq<char> {
    "'';"@
}

/// The marker comment that opens the block of the command `name`.
pub open spec fn marker(name: Seq<char>) -> Seq<char> {
    "# flk-command: "@ + name
}

/// What closes a command block: a line that holds `}` indented by four
/// spaces, with the line break before it.
pub open spec fn block_close() -> Seq<char> {
    "\n    }\n"@
}

/// Where the shell hook stands: the position of its introducer, of the first
/// character of its text, and of the closing `'';`.
pub open spec fn hook_span(s: Seq<char>) -> Result<(int, int, int), EditError> {
    let (start, body) = match find_in(s, hook_intro(), 0, s.len() as int) {
        Some(i) => (Some(i), i + hook_intro().len()),
        None => match find_in(s, hook_intro_tight(), 0, s.len() as int) {
            Some(i) => (Some(i), i + hook_intro_tight().len()),
            None => (None, 0),
        },
    };
    match start {
        None => Err(EditError::SectionNotFound),
        Some(i) => match find_in(s, hook_close(), body, s.len() as int) {
            Some(e) => Ok((i, body, e)),
            None => Err(EditError::Malformed),
        },
    }
}

/// Locates the shell hook: the position of its introducer, of its text and
/// of its closing `'';`.
fn hook_span_exec(s: &Vec<char>) -> (r: Result<(usize, usize, usize), EditError>)
    ensures
        match r {
            Ok((a, b, e)) => hook_span(s@) == Ok::<(int, int, int), EditError>((a as int, b as int, e as int))
                && a < b <= e && e + 3 <= s.len(),
            Err(err) => hook_span(s@) == Err::<(int, int, int), EditError>(err),
        },
{
    proof {
        reveal_strlit("shellHook = ''");
        reveal_strlit("shellHook=''");
        reveal_strlit("'';");
    }
    let wide = to_chars("shellHook = ''");
    let tight = to_chars("shellHook=''");
    let close = to_chars("'';");
    let (start, body) = match find_from(s, &wide, 0, s.len()) {
        Some(i) => (i, i + wide.len()),
        None => match find_from(s, &tight, 0, s.len()) {
            Some(i) => (i, i + tight.len()),
            None => {
                return Err(EditError::SectionNotFound);
            },
        },
    };
    match find_from(s, &close, body, s.len()) {
        Some(e) => Ok((start, body, e)),
        None => Err(EditError::Malformed),
    }
}

/// Finds the shell hook of a profile: the position of its introducer and of
/// its closing `'';`.  Fails with `SectionNotFound` when the text holds no
/// `shellHook = ''`, and with `Malformed` when the string is not closed.
pub fn find_shell_hook_in_profile(content: &str, _profile_name: &str) -> (r: Result<(usize, usize), EditError>)
    ensures
        match r {
            Ok((a, e)) => hook_span(content@) matches Ok((a2, _, e2)) && a == a2 && e == e2,
            Err(err) => hook_span(content@) == Err::<(int, int, int), EditError>(err),
        },
{
    let s = to_chars(content);
    match hook_span_exec(&s) {
        Ok((a, _, e)) => Ok((a, e)),
        Err(err) => Err(err),
    }
}

/// The text of the shell hook, without leading and trailing whitespace.
pub fn parse_shell_hook_from_profile(content: &str, profile_name: &str) -> (r: Result<String, EditError>)
    ensures
        match r {
            Ok(t) => hook_span(content@) matches Ok((_, b, e)) && t@ == trimmed(content@, b, e),
            Err(err) => hook_span(content@) == Err::<(int, int, int), EditError>(err),
        },
{
    let s = to_chars(content);
    match hook_span_exec(&s) {
        Ok((_, b, e)) => {
            let (x, y) = trim_bounds(&s, b, e);
            Ok(slice_string(content, x, y))
        },
        Err(err) => Err(err),
    }
}

/// The marker comment of the command `name`.
fn marker_exec(name: &str) -> (r: Vec<char>)
    ensures
        r@ == marker(name@),
{
    let m = concat("# flk-command: ", name);
    to_chars(m.as_str())
}

/// Whether the text holds the marker of the command `name` anywhere.
pub fn command_exists(content: &str, name: &str) -> (r: bool)
    ensures
        r == find_in(content@, marker(name@), 0, content@.len() as int) is Some,
{
    let s = to_chars(content);
    let m = marker_exec(name);
    find_from(&s, &m, 0, s.len()).is_some()
}

/// The line that closes a block whose marker is indented by `indent`: `}`
/// at the same indentation, with the line break before it.
pub open spec fn close_line(indent: Seq<char>) -> Seq<char> {
    "\n"@ + indent + "}\n"@
}

/// The span of the block of the command `name`: from the line break before
/// its marker (the start of the hook's text when there is none) to after the first
/// line after the marker that is `}` indented as the marker is.  The marker
/// and that line must lie inside the shell hook.
pub open spec fn command_span(s: Seq<char>, name: Seq<char>) -> Option<(int, int)> {
    match hook_span(s) {
        Err(_) => None,
        Ok((_, b, e)) => match find_in(s, marker(name), b, e) {
            None => None,
            Some(m) => {
                let ls = match rfind_in(s, seq!['\n'], b, m) {
                    Some(k) => k,
                    None => b,
                };
                let indent = match rfind_in(s, seq!['\n'], b, m) {
                    Some(k) => s.subrange(k + 1, m),
                    None => s.subrange(b, m),
                };
                let from = m + marker(name).len();
                match find_in(s, close_line(indent), from, e) {
                    Some(c) => Some((ls, c + close_line(indent).len())),
                    None => None,
                }
            },
        },
    }
}

/// Finds the block of the command `name` (see `command_span`).
pub fn find_command(content: &str, name: &str, _profile_name: &str) -> (r: Option<(usize, usize)>)
    ensures
        match r {
            Some((a, b)) => command_span(content@, name@) == Some((a as int, b as int)) && a <= b
                <= content@.len(),
            None => command_span(content@, name@) is None,
        },
{
    let s = to_chars(content);
    let (_, b, e) = match hook_span_exec(&s) {
        Ok(x) => x,
        Err(_) => {
            return None;
        },
    };
    let m = marker_exec(name);
    let ms = match find_from(&s, &m, b, e) {
        Some(i) => i,
        None => {
            return None;
        },
    };
    let (ls, indent_start) = match rfind_char(&s, '\n', b, ms) {
        Some(k) => (k, k + 1),
        None => (b, b),
    };
    let mut line = String::from_str("\n");
    line.append(content.substring_char(indent_start, ms));
    line.append("}\n");
    let close = to_chars(line.as_str());
    let from = ms + m.len();
    match find_from(&s, &close, from, e) {
        Some(c) => Some((ls, c + close.len())),
        None => None,
    }
}

/// A line that holds only whitespace.
pub open spec fn is_blank_line(l: Seq<char>) -> bool {
    forall|i: int| 0 <= i < l.len() ==> is_space(#[trigger] l[i])
}

/// A line indented by `pad`, or nothing for a blank line.
pub open spec fn indent_one(l: Seq<char>, pad: Seq<char>) -> Seq<char> {
    if is_blank_line(l) {
        seq![]
    } else {
        pad + l
    }
}

/// The lines `ls`, each indented by `pad` (blank ones emptied), joined by
/// line feeds.
pub open spec fn join_indented(ls: Seq<Seq<char>>, pad: Seq<char>) -> Seq<char>
    decreases ls.len(),
{
    if ls.len() == 0 {
        seq![]
    } else if ls.len() == 1 {
        indent_one(ls[0], pad)
    } else {
        join_indented(ls.drop_last(), pad) + "\n"@ + indent_one(ls.last(), pad)
    }
}

/// Indents each non-blank line of `text` by `spaces` spaces and empties the
/// blank ones; the lines are joined by line feeds.
pub fn indent_lines(text: &str, spaces: usize) -> (r: String)
    ensures
        r@ == join_indented(lines(text@), repeat(" "@, spaces as nat)),
{
    let mut pad = String::new();
    crate::render::indent_line(&mut pad, " ", spaces);
    let cs = to_chars(text);
    let spans = line_spans(&cs);
    let ghost ls = lines(text@);
    let mut out = String::new();
    let mut k: usize = 0;
    while k < spans.len()
        invariant
            cs@ == text@,
            ls == lines(text@),
            spans@.map_values(|p: (usize, usize)| (p.0 as int, p.1 as int)) == lines_from(text@, 0),
            forall|m: int| 0 <= m < spans.len() ==> (#[trigger] spans[m]).0 <= spans[m].1 <= cs.len(),
            pad@ == repeat(" "@, spaces as nat),
            k <= spans.len(),
            out@ == join_indented(ls.subrange(0, k as int), pad@),
        decreases spans.len() - k,
    {
        let (a, b) = spans[k];
        assert(spans@.map_values(|p: (usize, usize)| (p.0 as int, p.1 as int))[k as int] == (a as int, b as int));
        assert(ls[k as int] == text@.subrange(a as int, b as int));
        let mut blank = true;
        let mut j = a;
        while j < b
            invariant
                a <= j <= b <= cs.len(),
                blank == forall|i: int| a <= i < j ==> is_space(#[trigger] cs@[i]),
            decreases b - j,
        {
            if !is_space_exec(cs[j]) {
                blank = false;
            }
            j = j + 1;
        }
        assert(blank == is_blank_line(ls[k as int])) by {
            if !blank {
                let i = choose|i: int| a <= i < b && !is_space(#[trigger] cs@[i]);
                assert(ls[k as int][i - a] == cs@[i]);
            } else {
                assert forall|i: int| 0 <= i < ls[k as int].len() implies is_space(#[trigger] ls[k as int][i]) by {
                    assert(ls[k as int][i] == cs@[a + i]);
                }
            }
        }
        if k > 0 {
            out.append("\n");
        }
        if !blank {
            out.append(pad.as_str());
            out.append(text.substring_char(a, b));
        }
        assert(ls.subrange(0, k + 1).drop_last() =~= ls.subrange(0, k as int));
        proof {
            reveal_strlit("");
        }
        assert(k == 0 ==> out@ =~= join_indented(ls.subrange(0, k + 1), pad@));
        k = k + 1;
    }
    assert(ls.subrange(0, k as int) =~= ls);
    out
}

/// The block that `add_command_to_shell_hook` writes for the command `name`
/// whose body is `body` (already trimmed).
pub open spec fn command_block(name: Seq<char>, body: Seq<char>) -> Seq<char> {
    "\n    # flk-command: "@ + name + "\n"@ + join_indented(lines(name), repeat(" "@, 4)) + " () {\n"@
        + join_indented(lines(body), repeat(" "@, 6)) + "\n    }\n"@
}

/// Appends the block of the command `name` to the shell hook, right before
/// the line that closes it; the body is the command without leading and
/// trailing whitespace, each of its lines indented.
pub fn add_command_to_shell_hook(content: &str, name: &str, command: &str, _profile_name: &str) -> (r: Result<String, EditError>)
    ensures
        match hook_span(content@) {
            Ok((_, b, e)) => r matches Ok(t) && t@ == splice(
                content@,
                insertion_point(content@, b, e),
                insertion_point(content@, b, e),
                command_block(name@, trimmed(command@, 0, command@.len() as int)),
            ),
            Err(err) => r == Err::<String, EditError>(err),
        },
{
    let s = to_chars(content);
    let (_, b, e) = match hook_span_exec(&s) {
        Ok(x) => x,
        Err(err) => {
            return Err(err);
        },
    };
    let ip = insertion_point_exec(&s, b, e);
    let cs = to_chars(command);
    let (x, y) = trim_bounds(&cs, 0, cs.len());
    let body = command.substring_char(x, y);
    let mut block = String::from_str("\n    # flk-command: ");
    block.append(name);
    block.append("\n");
    block.append(indent_lines(name, 4).as_str());
    block.append(" () {\n");
    block.append(indent_lines(body, 6).as_str());
    block.append("\n    }\n");
    proof {
        reveal_strlit(" ");
        assert(repeat(" "@, 4) =~= repeat(" "@, 4usize as nat));
    }
    Ok(splice_exec(content, ip, ip, block.as_str()))
}

/// Removes the block of the command `name` (see `command_span`).  Fails
/// with `NotFound` when the shell hook holds no marker for it.
pub fn remove_command_from_shell_hook(content: &str, name: &str, profile_name: &str) -> (r: Result<String, EditError>)
    ensures
        match command_span(content@, name@) {
            Some((a, b)) => r matches Ok(t) && t@ == splice(content@, a, b, seq![]),
            None => r == Err::<String, EditError>(EditError::NotFound),
        },
{
    match find_command(content, name, profile_name) {
        Some((a, b)) => {
            proof {
                reveal_strlit("");
                assert(""@ =~= Seq::<char>::empty());
            }
            Ok(splice_exec(content, a, b, ""))
        },
        None => Err(EditError::NotFound),
    }
}

} // verus!
