//! The lexical primitives as stand-alone parsers: each takes the input and
//! returns what is left of it and what it recognised, or fails with
//! `Malformed` when the input does not start with what it recognises.
use vstd::prelude::*;
use crate::env::{ident_end, ident_end_exec, string_close, string_close_exec};
use crate::error::EditError;
use crate::packages::{is_path_char_exec, lemma_path_end, path_end};
use crate::text::{
    find_from, find_in, line_end, line_end_exec, matches_at, matches_at_exec, skip_blank,
    skip_blank_exec, skip_multi_blank, skip_multi_blank_exec, slice_string, to_chars,
};

verus! {

/// `r` splits `s` at `k`: what is left, then what was recognised.
pub open spec fn split_at(r: (String, String), s: Seq<char>, k: int) -> bool {
    &&& r.0@ == s.subrange(k, s.len() as int)
    &&& r.1@ == s.subrange(0, k)
}

/// Recognises leading spaces and tabs (possibly none).
pub fn ws(input: &str) -> (r: Result<(String, String), EditError>)
    ensures
        r matches Ok(p) && split_at(p, input@, skip_blank(input@, 0)),
{
    let s = to_chars(input);
    let k = skip_blank_exec(&s, 0);
    Ok((slice_string(input, k, s.len()), slice_string(input, 0, k)))
}

/// Recognises leading whitespace, line breaks included (possibly none).
pub fn multiws(input: &str) -> (r: Result<(String, String), EditError>)
    ensures
        r matches Ok(p) && split_at(p, input@, skip_multi_blank(input@, 0)),
{
    let s = to_chars(input);
    let k = skip_multi_blank_exec(&s, 0);
    Ok((slice_string(input, k, s.len()), slice_string(input, 0, k)))
}

/// Recognises an identifier: one or more letters, digits, `-` or `_`.
pub fn identifier(input: &str) -> (r: Result<(String, String), EditError>)
    ensures
        ident_end(input@, 0) > 0 ==> (r matches Ok(p) && split_at(p, input@, ident_end(input@, 0))),
        ident_end(input@, 0) == 0 ==> r == Err::<(String, String), EditError>(EditError::Malformed),
{
    let s = to_chars(input);
    let k = ident_end_exec(&s, 0);
    if k == 0 {
        return Err(EditError::Malformed);
    }
    Ok((slice_string(input, k, s.len()), slice_string(input, 0, k)))
}

/// Recognises an attribute path: one or more letters, digits, `-`, `_`,
/// `.`, `"` or `@`.
pub fn attribute_path(input: &str) -> (r: Result<(String, String), EditError>)
    ensures
        path_end(input@, 0) > 0 ==> (r matches Ok(p) && split_at(p, input@, path_end(input@, 0))),
        path_end(input@, 0) == 0 ==> r == Err::<(String, String), EditError>(EditError::Malformed),
{
    let s = to_chars(input);
    proof {
        lemma_path_end(s@, 0);
    }
    let mut k: usize = 0;
    while k < s.len() && is_path_char_exec(s[k])
        invariant
            k <= s.len(),
            path_end(s@, 0) == path_end(s@, k as int),
        decreases s.len() - k,
    {
        k = k + 1;
    }
    if k == 0 {
        return Err(EditError::Malformed);
    }
    Ok((slice_string(input, k, s.len()), slice_string(input, 0, k)))
}

/// Recognises a double-quoted string literal (a backslash escapes the next
/// character) and gives its text without the quotes.
pub fn string_literal(input: &str) -> (r: Result<(String, String), EditError>)
    ensures
        match (input@.len() > 0 && input@[0] == '"', string_close(input@, 1)) {
            (true, Some(k)) => r matches Ok(p) && p.0@ == input@.subrange(k + 1, input@.len() as int)
                && p.1@ == input@.subrange(1, k),
            _ => r == Err::<(String, String), EditError>(EditError::Malformed),
        },
{
    let s = to_chars(input);
    if !(s.len() > 0 && s[0] == '"') {
        return Err(EditError::Malformed);
    }
    proof {
        crate::env::lemma_string_close(s@, 1);
    }
    match string_close_exec(&s, 1) {
        Some(k) => Ok((slice_string(input, k + 1, s.len()), slice_string(input, 1, k))),
        None => Err(EditError::Malformed),
    }
}

/// Recognises a multi-line string `'' ... ''` and gives its text.
pub fn multiline_string(input: &str) -> (r: Result<(String, String), EditError>)
    ensures
        match (matches_at(input@, "''"@, 0), find_in(input@, "''"@, 2, input@.len() as int)) {
            (true, Some(k)) => r matches Ok(p) && p.0@ == input@.subrange(k + 2, input@.len() as int)
                && p.1@ == input@.subrange(2, k),
            _ => r == Err::<(String, String), EditError>(EditError::Malformed),
        },
{
    proof {
        reveal_strlit("''");
    }
    let s = to_chars(input);
    let q = to_chars("''");
    if !matches_at_exec(&s, &q, 0) {
        return Err(EditError::Malformed);
    }
    match find_from(&s, &q, 2, s.len()) {
        Some(k) => Ok((slice_string(input, k + 2, s.len()), slice_string(input, 2, k))),
        None => Err(EditError::Malformed),
    }
}

/// Recognises an inline comment: blanks, `#`, and the rest of the line; gives
/// the text after the `#`.
pub fn inline_comment(input: &str) -> (r: Result<(String, String), EditError>)
    ensures
        ({
            let b = skip_blank(input@, 0);
            if b < input@.len() && input@[b] == '#' {
                r matches Ok(p) && p.0@ == input@.subrange(line_end(input@, b + 1), input@.len() as int)
                    && p.1@ == input@.subrange(b + 1, line_end(input@, b + 1))
            } else {
                r == Err::<(String, String), EditError>(EditError::Malformed)
            }
        }),
{
    let s = to_chars(input);
    let b = skip_blank_exec(&s, 0);
    if !(b < s.len() && s[b] == '#') {
        return Err(EditError::Malformed);
    }
    let e = line_end_exec(&s, b + 1);
    Ok((slice_string(input, e, s.len()), slice_string(input, b + 1, e)))
}

/// An optional inline comment: the comment when there is one, else the
/// input untouched and no comment.
pub fn opt_inline_comment(input: &str) -> (r: Result<(String, Option<String>), EditError>)
    ensures
        ({
            let b = skip_blank(input@, 0);
            if b < input@.len() && input@[b] == '#' {
                r matches Ok((rest, Some(c))) && rest@ == input@.subrange(
                    line_end(input@, b + 1),
                    input@.len() as int,
                ) && c@ == input@.subrange(b + 1, line_end(input@, b + 1))
            } else {
                r matches Ok((rest, None)) && rest@ == input@
            }
        }),
{
    match inline_comment(input) {
        Ok((rest, c)) => Ok((rest, Some(c))),
        Err(_) => Ok((String::from_str(input), None)),
    }
}

} // verus!
