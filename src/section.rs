//! Locating a bracketed section and scanning its body for entries.
//!
//! The three list-like sections share one layout: an introducer (`packages =`,
//! `envVars =`, `inputs =`), blanks, an opening delimiter, a body of entries,
//! the closing delimiter, blanks and `;`.  Inside the body, blank lines are
//! skipped and a line that holds no entry (a comment, say) is skipped whole.
use vstd::prelude::*;
use crate::env::{env_entry_end, env_entry_end_exec, lemma_env_entry_end};
use crate::error::EditError;
use crate::inputs::{input_entry_end, input_entry_end_exec, lemma_input_entry_end};
use crate::packages::{
    is_path_char, is_path_char_exec, lemma_package_entry_end, package_entry_end,
    package_entry_end_exec,
};
use crate::text::{
    after_eol, after_eol_exec, rfind_char, rfind_in, splice, splice_exec, find_from, find_in, line_end, line_end_exec, matches_at, matches_at_exec, skip_blank,
    skip_blank_exec, skip_multi_blank, skip_multi_blank_exec, to_chars,
};

verus! {

/// The kind of a list-like section.
#[derive(Debug, Clone, Copy, PartialEq, Eq, Structural)]
pub enum Shape {
    /// `packages = [ name [# comment] ... ];`
    PackageList,
    /// `envVars = { NAME = "value"; ... };`
    EnvVars,
    /// `inputs = { name.url = "url"; ... };`
    Inputs,
}

/// The text that introduces the section.
pub open spec fn intro(shape: Shape) -> Seq<char> {
    match shape {
        Shape::PackageList => "packages ="@,
        Shape::EnvVars => "envVars ="@,
        Shape::Inputs => "inputs ="@,
    }
}

/// The section's opening delimiter.
pub open spec fn opener(shape: Shape) -> char {
    match shape {
        Shape::PackageList => '[',
        _ => '{',
    }
}

/// The section's closing delimiter.
pub open spec fn closer(shape: Shape) -> char {
    match shape {
        Shape::PackageList => ']',
        _ => '}',
    }
}

/// The optional prefix that brings the package set into scope.
pub open spec fn with_pkgs() -> Seq<char> {
    "with pkgs;"@
}

/// Where the entry that starts at `q` ends, its line ending included; `None`
/// when no entry starts there.
pub open spec fn entry_end(shape: Shape, s: Seq<char>, q: int) -> Option<int> {
    match shape {
        Shape::PackageList => if 0 <= q < s.len() && is_path_char(s[q]) {
            Some(package_entry_end(s, q))
        } else {
            None
        },
        Shape::EnvVars => env_entry_end(s, q),
        Shape::Inputs => input_entry_end(s, q),
    }
}

pub proof fn lemma_entry_end(shape: Shape, s: Seq<char>, q: int)
    requires
        0 <= q <= s.len(),
    ensures
        entry_end(shape, s, q) matches Some(e) ==> q < e <= s.len(),
{
    match shape {
        Shape::PackageList => if 0 <= q < s.len() && is_path_char(s[q]) {
            lemma_package_entry_end(s, q);
        },
        Shape::EnvVars => lemma_env_entry_end(s, q),
        Shape::Inputs => lemma_input_entry_end(s, q),
    }
}

/// Finds where the entry that starts at `q` ends.
pub fn entry_end_exec(shape: Shape, s: &Vec<char>, q: usize) -> (r: Option<usize>)
    requires
        q <= s.len(),
    ensures
        match r {
            Some(e) => entry_end(shape, s@, q as int) == Some(e as int),
            None => entry_end(shape, s@, q as int) is None,
        },
{
    proof {
        lemma_entry_end(shape, s@, q as int);
    }
    match shape {
        Shape::PackageList => if q < s.len() && is_path_char_exec(s[q]) {
            Some(package_entry_end_exec(s, q))
        } else {
            None
        },
        Shape::EnvVars => env_entry_end_exec(s, q),
        Shape::Inputs => input_entry_end_exec(s, q),
    }
}

/// Scans the section body from `p`: the starts of the entries found, and the
/// position of the closing delimiter.
pub open spec fn scan(shape: Shape, s: Seq<char>, p: int) -> Option<(Seq<int>, int)>
    decreases s.len() - p,
{
    if p < 0 || p > s.len() {
        None
    } else {
        let q = skip_multi_blank(s, p);
        if q < s.len() && s[q] == closer(shape) {
            Some((seq![], q))
        } else {
            match entry_end(shape, s, q) {
                Some(e) => if e <= p || e > s.len() {
                    None
                } else {
                    match scan(shape, s, e) {
                        Some((rest, c)) => Some((seq![q] + rest, c)),
                        None => None,
                    }
                },
                None => {
                    let k = line_end(s, q);
                    if k < s.len() && k >= p {
                        scan(shape, s, k + 1)
                    } else {
                        None
                    }
                },
            }
        }
    }
}

/// `r` with `xs` put in front of the entries it found.
pub open spec fn prepend(xs: Seq<int>, r: Option<(Seq<int>, int)>) -> Option<(Seq<int>, int)> {
    match r {
        Some((ys, c)) => Some((xs + ys, c)),
        None => None,
    }
}

proof fn lemma_prepend_assoc(xs: Seq<int>, q: int, r: Option<(Seq<int>, int)>)
    ensures
        prepend(xs, prepend(seq![q], r)) == prepend(xs.push(q), r),
{
    if let Some((ys, c)) = r {
        assert(xs + (seq![q] + ys) =~= xs.push(q) + ys);
    }
}

/// The starts found are in order, each entry ends before the next one
/// starts, and the closing delimiter comes after them all.
pub open spec fn scan_ordered(shape: Shape, s: Seq<char>, p: int, starts: Seq<int>, c: int) -> bool {
    &&& p <= c < s.len()
    &&& s[c] == closer(shape)
    &&& forall|i: int| 0 <= i < starts.len() ==> #[trigger] entry_placed(shape, s, p, starts, c, i)
}

/// The `i`-th entry found starts at or after `p`, ends before the next one
/// starts and before the closing delimiter at `c`.
pub open spec fn entry_placed(shape: Shape, s: Seq<char>, p: int, starts: Seq<int>, c: int, i: int) -> bool {
    match entry_end(shape, s, starts[i]) {
        Some(e) => p <= starts[i] < e <= c && (i + 1 < starts.len() ==> e <= starts[i + 1]),
        None => false,
    }
}

pub proof fn lemma_scan_bounds(shape: Shape, s: Seq<char>, p: int)
    ensures
        scan(shape, s, p) matches Some((starts, c)) ==> scan_ordered(shape, s, p, starts, c),
    decreases s.len() - p,
{
    if p < 0 || p > s.len() {
    } else {
        let q = skip_multi_blank(s, p);
        crate::text::lemma_skip_multi_blank(s, p);
        if q < s.len() && s[q] == closer(shape) {
        } else {
            lemma_entry_end(shape, s, q);
            match entry_end(shape, s, q) {
                Some(e) => if e <= p || e > s.len() {
                } else {
                    lemma_scan_bounds(shape, s, e);
                    if let Some((rest, c)) = scan(shape, s, e) {
                        let starts = seq![q] + rest;
                        assert forall|i: int| 0 <= i < starts.len() implies #[trigger] entry_placed(
                            shape,
                            s,
                            p,
                            starts,
                            c,
                            i,
                        ) by {
                            assert(starts[0] == q);
                            if i > 0 {
                                assert(starts[i] == rest[i - 1]);
                                assert(entry_placed(shape, s, e, rest, c, i - 1));
                                if i + 1 < starts.len() {
                                    assert(starts[i + 1] == rest[i]);
                                }
                            } else if rest.len() > 0 {
                                assert(entry_placed(shape, s, e, rest, c, 0));
                                assert(starts[1] == rest[0]);
                            }
                        }
                    }
                },
                None => {
                    let k = line_end(s, q);
                    if k < s.len() && k >= p {
                        lemma_scan_bounds(shape, s, k + 1);
                        if let Some((starts, c)) = scan(shape, s, k + 1) {
                            assert forall|i: int| 0 <= i < starts.len() implies #[trigger] entry_placed(
                                shape,
                                s,
                                p,
                                starts,
                                c,
                                i,
                            ) by {
                                assert(entry_placed(shape, s, k + 1, starts, c, i));
                            }
                        }
                    }
                },
            }
        }
    }
}

/// Scans the section body from `p`.
pub fn scan_exec(shape: Shape, s: &Vec<char>, p: usize) -> (r: Option<(Vec<usize>, usize)>)
    requires
        p <= s.len(),
    ensures
        match r {
            Some((starts, c)) => scan(shape, s@, p as int) == Some((starts@.map_values(|x: usize| x as int), c as int)),
            None => scan(shape, s@, p as int) is None,
        },
{
    let mut starts: Vec<usize> = Vec::new();
    let mut pos = p;
    loop
        invariant
            p <= pos <= s.len(),
            scan(shape, s@, p as int) == prepend(
                starts@.map_values(|x: usize| x as int),
                scan(shape, s@, pos as int),
            ),
        decreases s.len() - pos,
    {
        let q = skip_multi_blank_exec(s, pos);
        let close = match shape {
            Shape::PackageList => ']',
            _ => '}',
        };
        if q < s.len() && s[q] == close {
            assert(starts@.map_values(|x: usize| x as int) + seq![] =~= starts@.map_values(|x: usize| x as int));
            return Some((starts, q));
        }
        proof {
            lemma_entry_end(shape, s@, q as int);
        }
        match entry_end_exec(shape, s, q) {
            Some(e) => {
                proof {
                    lemma_prepend_assoc(
                        starts@.map_values(|x: usize| x as int),
                        q as int,
                        scan(shape, s@, e as int),
                    );
                }
                let ghost found = starts@.map_values(|x: usize| x as int);
                starts.push(q);
                assert(starts@.map_values(|x: usize| x as int) =~= found.push(q as int));
                pos = e;
            },
            None => {
                let k = line_end_exec(s, q);
                if k < s.len() {
                    pos = k + 1;
                } else {
                    return None;
                }
            },
        }
    }
}

/// Where the opening delimiter should stand when the introducer ends at
/// `pf`: after blanks, and for the package list an optional `with pkgs;`.
pub open spec fn open_pos(shape: Shape, s: Seq<char>, pf: int) -> int {
    let lead = skip_blank(s, pf);
    if shape == Shape::PackageList && matches_at(s, with_pkgs(), lead) {
        skip_blank(s, lead + with_pkgs().len())
    } else {
        lead
    }
}

/// The layout of the section in `s`: position of the introducer, of the
/// opening delimiter, the starts of the entries, the position of the closing
/// delimiter and the position after the final `;`.
///
/// Fails with `SectionNotFound` when the introducer is absent and with
/// `Malformed` when what follows it does not have the section's shape.
pub open spec fn layout(shape: Shape, s: Seq<char>) -> Result<(int, int, Seq<int>, int, int), EditError> {
    match find_in(s, intro(shape), 0, s.len() as int) {
        None => Err(EditError::SectionNotFound),
        Some(start) => {
            let ob = open_pos(shape, s, start + intro(shape).len());
            if !(ob < s.len() && s[ob] == opener(shape)) {
                Err(EditError::Malformed)
            } else {
                match scan(shape, s, ob + 1) {
                    None => Err(EditError::Malformed),
                    Some((starts, close)) => {
                        let semi = skip_blank(s, close + 1);
                        if semi < s.len() && s[semi] == ';' {
                            Ok((start, ob, starts, close, semi + 1))
                        } else {
                            Err(EditError::Malformed)
                        }
                    },
                }
            }
        },
    }
}

/// Locates the section in `s` and scans its body.
pub fn layout_exec(shape: Shape, s: &Vec<char>) -> (r: Result<(usize, usize, Vec<usize>, usize, usize), EditError>)
    ensures
        match r {
            Ok((start, ob, starts, close, end)) => {
                &&& layout(shape, s@) == Ok::<(int, int, Seq<int>, int, int), EditError>(
                    (start as int, ob as int, starts@.map_values(|x: usize| x as int), close as int, end as int),
                )
                &&& scan_ordered(shape, s@, ob + 1, starts@.map_values(|x: usize| x as int), close as int)
                &&& start < ob < close < end <= s.len()
            },
            Err(e) => layout(shape, s@) == Err::<(int, int, Seq<int>, int, int), EditError>(e),
        },
{
    let intro_text = match shape {
        Shape::PackageList => to_chars("packages ="),
        Shape::EnvVars => to_chars("envVars ="),
        Shape::Inputs => to_chars("inputs ="),
    };
    let wp = to_chars("with pkgs;");
    let (open, close_char) = match shape {
        Shape::PackageList => ('[', ']'),
        _ => ('{', '}'),
    };
    let start = match find_from(s, &intro_text, 0, s.len()) {
        Some(i) => i,
        None => {
            return Err(EditError::SectionNotFound);
        },
    };
    proof {
        reveal_strlit("packages =");
        reveal_strlit("envVars =");
        reveal_strlit("inputs =");
    }
    let pf = start + intro_text.len();
    let lead = skip_blank_exec(s, pf);
    let ob = if shape == Shape::PackageList && matches_at_exec(s, &wp, lead) {
        skip_blank_exec(s, lead + wp.len())
    } else {
        lead
    };
    if !(ob < s.len() && s[ob] == open) {
        return Err(EditError::Malformed);
    }
    let (starts, close) = match scan_exec(shape, s, ob + 1) {
        Some(x) => x,
        None => {
            return Err(EditError::Malformed);
        },
    };
    proof {
        lemma_scan_bounds(shape, s@, (ob + 1) as int);
    }
    let semi = skip_blank_exec(s, close + 1);
    if !(semi < s.len() && s[semi] == ';') {
        return Err(EditError::Malformed);
    }
    Ok((start, ob, starts, close, semi + 1))
}

/// Where a line is added to a body spanning `lo..hi`: after the last line
/// break inside it, or right before the closing delimiter when the body is on
/// one line.
pub open spec fn insertion_point(s: Seq<char>, lo: int, hi: int) -> int {
    match rfind_in(s, seq!['\n'], lo, hi) {
        Some(k) => k + 1,
        None => hi,
    }
}

/// The body `lo..hi` with `line` added as its last line: after its last
/// line break, or on a new line before the closing delimiter when the body
/// holds none.
pub open spec fn line_added(s: Seq<char>, lo: int, hi: int, line: Seq<char>) -> Seq<char> {
    match rfind_in(s, seq!['\n'], lo, hi) {
        Some(k) => splice(s, k + 1, k + 1, line),
        None => splice(s, hi, hi, "\n"@ + line),
    }
}

/// Finds where a line is added to the body `lo..hi`.
pub fn insertion_point_exec(s: &Vec<char>, lo: usize, hi: usize) -> (r: usize)
    requires
        lo <= hi <= s.len(),
    ensures
        r == insertion_point(s@, lo as int, hi as int),
        lo <= r <= hi,
{
    match rfind_char(s, '\n', lo, hi) {
        Some(k) => k + 1,
        None => hi,
    }
}

/// Where the line of the entry starting at `start` begins: after the last
/// line break between `lo` and `start`, or at `start` itself.
pub open spec fn line_start(s: Seq<char>, lo: int, start: int) -> int {
    match rfind_in(s, seq!['\n'], lo, start) {
        Some(k) => k + 1,
        None => start,
    }
}

/// Where the removal of an entry ending at `end` stops: the entry's own line
/// ending, or the blanks and line ending that follow it.
pub open spec fn cut_end(s: Seq<char>, start: int, end: int) -> int {
    if start < end && s[end - 1] == '\n' {
        end
    } else {
        after_eol(s, skip_blank(s, end))
    }
}

/// Removes the line of the entry spanning `start..end` from `content`, whose
/// characters are `s`; `lo` bounds the search for the start of the line.
pub fn remove_line(content: &str, s: &Vec<char>, lo: usize, start: usize, end: usize) -> (r: String)
    requires
        s@ == content@,
        lo <= start <= end <= s.len(),
    ensures
        lo <= line_start(s@, lo as int, start as int) <= start,
        end <= cut_end(s@, start as int, end as int) <= s.len(),
        r@ == splice(
            s@,
            line_start(s@, lo as int, start as int),
            cut_end(s@, start as int, end as int),
            seq![],
        ),
{
    let a = match rfind_char(s, '\n', lo, start) {
        Some(k) => k + 1,
        None => start,
    };
    let b = if start < end && s[end - 1] == '\n' {
        end
    } else {
        after_eol_exec(s, skip_blank_exec(s, end))
    };
    proof {
        reveal_strlit("");
        assert(""@ =~= Seq::<char>::empty());
    }
    splice_exec(content, a, b, "")
}

} // verus!
