//! The pin table: `sources = { NAME = "REF"; ... };` and
//! `pinnedPackages = { NAME = [ { pkg = "P"; name = "ALIAS"; } ... ]; ... };`.
//!
//! Every edit returns the whole new text; the composite operations keep the
//! two sections consistent: a pin entry comes with its source, and a pin
//! whose last package goes is removed together with its source.
use vstd::prelude::*;
use crate::env::{is_ident_char, is_ident_char_exec};
use crate::error::{same_result, EditError};
use crate::section::{insertion_point, insertion_point_exec};
use crate::text::{
    after_eol, after_eol_exec, skip_blank, skip_blank_exec, concat, find_char, find_from,
    find_in, find_matching_brace, is_space, is_space_exec, line_end, line_end_exec, matches_at,
    matches_at_exec, matching_delim, rfind_char, rfind_from, rfind_in, skip_inline_space,
    slice_string, splice, splice_exec, to_chars,
};

verus! {

/// The introducer of the sources section.
pub open spec fn sources_intro() -> Seq<char> {
    "sources = {"@
}

/// The introducer of the pinned-packages section.
pub open spec fn pinned_intro() -> Seq<char> {
    "pinnedPackages = {"@
}

/// The body of a braced section introduced by `intro` (which ends with its
/// `{`): from after the `{` to the matching `}`.
pub open spec fn braced_span(s: Seq<char>, intro: Seq<char>) -> Result<(int, int), EditError> {
    match find_in(s, intro, 0, s.len() as int) {
        None => Err(EditError::SectionNotFound),
        Some(i) => {
            let ob = i + intro.len() - 1;
            match matching_delim(s, ob, '{', '}') {
                Some(c) => Ok((ob + 1, c)),
                None => Err(EditError::Malformed),
            }
        },
    }
}

/// Finds the body of the braced section introduced by `intro`.
fn braced_span_exec(s: &Vec<char>, intro: &Vec<char>) -> (r: Result<(usize, usize), EditError>)
    requires
        intro.len() > 0,
        intro@[intro.len() - 1] == '{',
    ensures
        match r {
            Ok((a, b)) => braced_span(s@, intro@) == Ok::<(int, int), EditError>((a as int, b as int))
                && 0 < a <= b < s.len(),
            Err(e) => braced_span(s@, intro@) == Err::<(int, int), EditError>(e),
        },
{
    let i = match find_from(s, intro, 0, s.len()) {
        Some(i) => i,
        None => {
            return Err(EditError::SectionNotFound);
        },
    };
    let ob = i + intro.len() - 1;
    proof {
        crate::text::lemma_find_in_bounds(s@, intro@, 0, s@.len() as int);
        assert(s@.subrange(i as int, i + intro.len())[intro.len() - 1] == s@[ob as int]);
        crate::text::lemma_matching_from(s@, ob as int, (ob + 1) as int, '{', '}');
    }
    match find_matching_brace(s, ob, '{', '}') {
        Some(c) => Ok((ob + 1, c)),
        None => Err(EditError::Malformed),
    }
}

/// The first line of `s[i..b]` whose text, after leading blanks, begins with
/// `pat`: the start of that line and the position of the match.
pub open spec fn line_prefix_from(s: Seq<char>, i: int, b: int, pat: Seq<char>) -> Option<(int, int)>
    decreases b - i,
{
    if i < 0 || i >= b {
        None
    } else {
        let j = skip_inline_space(s, i, b);
        let le = line_end(s, i);
        let lim = if le < b {
            le
        } else {
            b
        };
        if j + pat.len() <= lim && matches_at(s, pat, j) {
            Some((i, j))
        } else if le < b && le >= i {
            line_prefix_from(s, le + 1, b, pat)
        } else {
            None
        }
    }
}

pub proof fn lemma_line_prefix_from(s: Seq<char>, i: int, b: int, pat: Seq<char>)
    requires
        0 <= i,
        b <= s.len(),
    ensures
        line_prefix_from(s, i, b, pat) matches Some((x, j)) ==> i <= x <= j && j + pat.len() <= b
            && matches_at(s, pat, j),
    decreases b - i,
{
    if i < 0 || i >= b {
    } else {
        crate::text::lemma_skip_inline_space(s, i, b);
        let le = line_end(s, i);
        if le < b && le >= i {
            lemma_line_prefix_from(s, le + 1, b, pat);
        }
    }
}

/// Finds the first line of `s[i..b]` that begins with `pat` after its
/// leading blanks.
pub(crate) fn line_prefix_exec(s: &Vec<char>, i: usize, b: usize, pat: &Vec<char>) -> (r: Option<(usize, usize)>)
    requires
        i <= b <= s.len(),
    ensures
        match r {
            Some((x, j)) => line_prefix_from(s@, i as int, b as int, pat@) == Some((x as int, j as int)),
            None => line_prefix_from(s@, i as int, b as int, pat@) is None,
        },
        r matches Some((x, j)) ==> i <= x <= j && j + pat.len() <= b,
{
    proof {
        lemma_line_prefix_from(s@, i as int, b as int, pat@);
    }
    let mut p = i;
    while p < b
        invariant
            i <= p,
            b <= s.len(),
            line_prefix_from(s@, i as int, b as int, pat@) == line_prefix_from(s@, p as int, b as int, pat@),
        decreases b - p,
    {
        let mut j = p;
        while j < b && s[j] != '\n' && is_space_exec(s[j])
            invariant
                p <= j <= b <= s.len(),
                skip_inline_space(s@, p as int, b as int) == skip_inline_space(s@, j as int, b as int),
            decreases b - j,
        {
            j = j + 1;
        }
        let le = line_end_exec(s, p);
        let lim = if le < b {
            le
        } else {
            b
        };
        if j <= lim && pat.len() <= lim - j && matches_at_exec(s, pat, j) {
            return Some((p, j));
        }
        if le < b {
            p = le + 1;
        } else {
            return None;
        }
    }
    None
}

/// The text `pat` with ` =` after it.
fn with_suffix(name: &str, suffix: &str) -> (r: Vec<char>)
    ensures
        r@ == name@ + suffix@,
{
    let t = concat(name, suffix);
    to_chars(t.as_str())
}

/// Whether a line of the sources section begins with `name =`.
pub open spec fn source_exists_spec(s: Seq<char>, name: Seq<char>) -> Result<bool, EditError> {
    match braced_span(s, sources_intro()) {
        Err(e) => Err(e),
        Ok((a, b)) => Ok(line_prefix_from(s, a, b, name + " ="@) is Some),
    }
}

fn sources_span_exec(s: &Vec<char>) -> (r: Result<(usize, usize), EditError>)
    ensures
        match r {
            Ok((a, b)) => braced_span(s@, sources_intro()) == Ok::<(int, int), EditError>((a as int, b as int))
                && 0 < a <= b < s.len(),
            Err(e) => braced_span(s@, sources_intro()) == Err::<(int, int), EditError>(e),
        },
{
    proof {
        reveal_strlit("sources = {");
    }
    let intro = to_chars("sources = {");
    braced_span_exec(s, &intro)
}

fn pinned_span_exec(s: &Vec<char>) -> (r: Result<(usize, usize), EditError>)
    ensures
        match r {
            Ok((a, b)) => braced_span(s@, pinned_intro()) == Ok::<(int, int), EditError>((a as int, b as int))
                && 0 < a <= b < s.len(),
            Err(e) => braced_span(s@, pinned_intro()) == Err::<(int, int), EditError>(e),
        },
{
    proof {
        reveal_strlit("pinnedPackages = {");
    }
    let intro = to_chars("pinnedPackages = {");
    braced_span_exec(s, &intro)
}

/// Whether a line of the sources section begins with `source_name =`.
pub fn source_exists(content: &str, source_name: &str) -> (r: Result<bool, EditError>)
    ensures
        r == source_exists_spec(content@, source_name@),
{
    let s = to_chars(content);
    let (a, b) = match sources_span_exec(&s) {
        Ok(x) => x,
        Err(e) => {
            return Err(e);
        },
    };
    let pat = with_suffix(source_name, " =");
    Ok(line_prefix_exec(&s, a, b, &pat).is_some())
}

/// The line `add_source` writes.
pub open spec fn source_line(name: Seq<char>, source_ref: Seq<char>) -> Seq<char> {
    "    "@ + name + " = \""@ + source_ref + "\";\n"@
}

/// The text after `add_source`.
pub open spec fn add_source_spec(s: Seq<char>, name: Seq<char>, source_ref: Seq<char>) -> Result<Seq<char>, EditError> {
    match braced_span(s, sources_intro()) {
        Err(e) => Err(e),
        Ok((a, b)) => Ok(
            splice(s, insertion_point(s, a, b), insertion_point(s, a, b), source_line(name, source_ref)),
        ),
    }
}

/// Adds `source_name = "source_ref";` as the last line of the sources.
pub fn add_source(content: &str, source_name: &str, source_ref: &str) -> (r: Result<String, EditError>)
    ensures
        same_result(r, add_source_spec(content@, source_name@, source_ref@)),
{
    let s = to_chars(content);
    let (a, b) = match sources_span_exec(&s) {
        Ok(x) => x,
        Err(e) => {
            return Err(e);
        },
    };
    let ip = insertion_point_exec(&s, a, b);
    let mut line = String::from_str("    ");
    line.append(source_name);
    line.append(" = \"");
    line.append(source_ref);
    line.append("\";\n");
    Ok(splice_exec(content, ip, ip, line.as_str()))
}

/// Where the removal of an entry that ends at `k` stops: past the rest of
/// its line when only blanks follow it there, at `k` otherwise.
pub open spec fn entry_cut_end(s: Seq<char>, k: int) -> int {
    let k2 = skip_blank(s, k);
    if after_eol(s, k2) > k2 {
        after_eol(s, k2)
    } else {
        k
    }
}

pub(crate) fn entry_cut_end_exec(s: &Vec<char>, k: usize) -> (r: usize)
    requires
        k <= s.len(),
    ensures
        r == entry_cut_end(s@, k as int),
        k <= r <= s.len(),
{
    let k2 = skip_blank_exec(s, k);
    let k3 = after_eol_exec(s, k2);
    if k3 > k2 {
        k3
    } else {
        k
    }
}

/// The text after `remove_source`: from the start of the source's line
/// through its `;`, and the rest of that line when it is blank.
pub open spec fn remove_source_spec(s: Seq<char>, name: Seq<char>) -> Result<Seq<char>, EditError> {
    match braced_span(s, sources_intro()) {
        Err(e) => Err(e),
        Ok((a, b)) => match line_prefix_from(s, a, b, name + " ="@) {
            None => Err(EditError::NotFound),
            Some((x, j)) => match find_in(s, seq![';'], j, b) {
                None => Err(EditError::Malformed),
                Some(k) => Ok(splice(s, x, entry_cut_end(s, k + 1), seq![])),
            },
        },
    }
}

/// Removes the first line of the sources section that begins with
/// `source_name =`.  Fails with `NotFound` when there is none.
pub fn remove_source(content: &str, source_name: &str) -> (r: Result<String, EditError>)
    ensures
        same_result(r, remove_source_spec(content@, source_name@)),
{
    let s = to_chars(content);
    let (a, b) = match sources_span_exec(&s) {
        Ok(x) => x,
        Err(e) => {
            return Err(e);
        },
    };
    let pat = with_suffix(source_name, " =");
    let (x, j) = match line_prefix_exec(&s, a, b, &pat) {
        Some(p) => p,
        None => {
            return Err(EditError::NotFound);
        },
    };
    let k = match find_char(&s, ';', j, b) {
        Some(k) => k,
        None => {
            return Err(EditError::Malformed);
        },
    };
    let e = entry_cut_end_exec(&s, k + 1);
    proof {
        reveal_strlit("");
        assert(""@ =~= Seq::<char>::empty());
    }
    Ok(splice_exec(content, x, e, ""))
}

/// Whether a line of the pinned packages begins with `pin_name = [`.
pub open spec fn pin_entry_exists_spec(s: Seq<char>, pin: Seq<char>) -> Result<bool, EditError> {
    match braced_span(s, pinned_intro()) {
        Err(e) => Err(e),
        Ok((a, b)) => Ok(line_prefix_from(s, a, b, pin + " = ["@) is Some),
    }
}

/// Whether a line of the pinned packages begins with `pin_name = [`.
pub fn pin_entry_exists(content: &str, pin_name: &str) -> (r: Result<bool, EditError>)
    ensures
        r == pin_entry_exists_spec(content@, pin_name@),
{
    let s = to_chars(content);
    let (a, b) = match pinned_span_exec(&s) {
        Ok(x) => x,
        Err(e) => {
            return Err(e);
        },
    };
    let pat = with_suffix(pin_name, " = [");
    Ok(line_prefix_exec(&s, a, b, &pat).is_some())
}

/// The lines `add_pin_entry` writes.
pub open spec fn pin_entry_lines(pin: Seq<char>) -> Seq<char> {
    "    "@ + pin + " = [\n    ];\n"@
}

/// The text after `add_pin_entry`.
pub open spec fn add_pin_entry_spec(s: Seq<char>, pin: Seq<char>) -> Result<Seq<char>, EditError> {
    match braced_span(s, pinned_intro()) {
        Err(e) => Err(e),
        Ok((a, b)) => Ok(splice(s, insertion_point(s, a, b), insertion_point(s, a, b), pin_entry_lines(pin))),
    }
}

/// Adds an empty pin entry `pin_name = [ ];` as the last entry of the
/// pinned packages.
pub fn add_pin_entry(content: &str, pin_name: &str) -> (r: Result<String, EditError>)
    ensures
        same_result(r, add_pin_entry_spec(content@, pin_name@)),
{
    let s = to_chars(content);
    let (a, b) = match pinned_span_exec(&s) {
        Ok(x) => x,
        Err(e) => {
            return Err(e);
        },
    };
    let ip = insertion_point_exec(&s, a, b);
    let mut lines = String::from_str("    ");
    lines.append(pin_name);
    lines.append(" = [\n    ];\n");
    Ok(splice_exec(content, ip, ip, lines.as_str()))
}

/// The span of the pin entry `pin`: the start of its line, the position of
/// its `[` and of the matching `]`, which must lie inside the pinned
/// packages.
pub open spec fn pin_entry_span(s: Seq<char>, pin: Seq<char>) -> Result<(int, int, int), EditError> {
    match braced_span(s, pinned_intro()) {
        Err(e) => Err(e),
        Ok((a, b)) => match line_prefix_from(s, a, b, pin + " = ["@) {
            None => Err(EditError::NotFound),
            Some((x, j)) => {
                let ob = j + pin.len() + 3;
                match matching_delim(s, ob, '[', ']') {
                    Some(c) => if c < b {
                        Ok((x, ob, c))
                    } else {
                        Err(EditError::Malformed)
                    },
                    None => Err(EditError::Malformed),
                }
            },
        },
    }
}

fn pin_entry_span_exec(s: &Vec<char>, pin_name: &str) -> (r: Result<(usize, usize, usize), EditError>)
    ensures
        match r {
            Ok((x, ob, c)) => pin_entry_span(s@, pin_name@) == Ok::<(int, int, int), EditError>(
                (x as int, ob as int, c as int),
            ) && x <= ob < c < s.len(),
            Err(e) => pin_entry_span(s@, pin_name@) == Err::<(int, int, int), EditError>(e),
        },
{
    proof {
        reveal_strlit(" = [");
    }
    let (a, b) = match pinned_span_exec(s) {
        Ok(x) => x,
        Err(e) => {
            return Err(e);
        },
    };
    let pat = with_suffix(pin_name, " = [");
    let (x, j) = match line_prefix_exec(s, a, b, &pat) {
        Some(p) => p,
        None => {
            return Err(EditError::NotFound);
        },
    };
    let ob = j + pat.len() - 1;
    proof {
        lemma_line_prefix_from(s@, a as int, b as int, pat@);
        assert(s@.subrange(j as int, j + pat.len())[pat.len() - 1] == s@[ob as int]);
        assert(pat@[pat.len() - 1] == '[');
        crate::text::lemma_matching_from(s@, ob as int, (ob + 1) as int, '[', ']');
    }
    match find_matching_brace(s, ob, '[', ']') {
        Some(c) => if c < b {
            Ok((x, ob, c))
        } else {
            Err(EditError::Malformed)
        },
        None => Err(EditError::Malformed),
    }
}

/// Where a pin entry whose list closes at `c` ends: after the `;` that
/// follows the `]`, or after the `]` when there is none.
pub open spec fn pin_entry_end(s: Seq<char>, c: int) -> int {
    let k = skip_blank(s, c + 1);
    if k < s.len() && s[k] == ';' {
        k + 1
    } else {
        c + 1
    }
}

/// The text after `remove_pin_entry`: from the start of the entry's line
/// through its `];`, and the rest of that line when it is blank.
pub open spec fn remove_pin_entry_spec(s: Seq<char>, pin: Seq<char>) -> Result<Seq<char>, EditError> {
    match pin_entry_span(s, pin) {
        Err(e) => Err(e),
        Ok((x, _, c)) => Ok(splice(s, x, entry_cut_end(s, pin_entry_end(s, c)), seq![])),
    }
}

/// Removes the pin entry `pin_name`, all its lines.  Fails with `NotFound`
/// when no line of the pinned packages begins with `pin_name = [`.
pub fn remove_pin_entry(content: &str, pin_name: &str) -> (r: Result<String, EditError>)
    ensures
        same_result(r, remove_pin_entry_spec(content@, pin_name@)),
{
    let s = to_chars(content);
    let (x, _, c) = match pin_entry_span_exec(&s, pin_name) {
        Ok(p) => p,
        Err(e) => {
            return Err(e);
        },
    };
    let k = skip_blank_exec(&s, c + 1);
    let pe = if k < s.len() && s[k] == ';' {
        k + 1
    } else {
        c + 1
    };
    let e = entry_cut_end_exec(&s, pe);
    proof {
        reveal_strlit("");
        assert(""@ =~= Seq::<char>::empty());
    }
    Ok(splice_exec(content, x, e, ""))
}

/// The record of the package with the alias `alias`, as it is searched for.
pub open spec fn alias_pattern(alias: Seq<char>) -> Seq<char> {
    "name = \""@ + alias + "\""@
}

fn alias_pattern_exec(alias: &str) -> (r: Vec<char>)
    ensures
        r@ == alias_pattern(alias@),
{
    let mut t = String::from_str("name = \"");
    t.append(alias);
    t.append("\"");
    to_chars(t.as_str())
}

/// Whether the package list of the pin holds a record named `alias`.
pub open spec fn package_in_pin_exists_spec(s: Seq<char>, pin: Seq<char>, alias: Seq<char>) -> Result<bool, EditError> {
    match pin_entry_span(s, pin) {
        Err(e) => Err(e),
        Ok((_, ob, c)) => Ok(find_in(s, alias_pattern(alias), ob + 1, c) is Some),
    }
}

/// Whether the package list of the pin `pin_name` holds a record named
/// `package_name`.
pub fn package_in_pin_exists(content: &str, pin_name: &str, package_name: &str) -> (r: Result<bool, EditError>)
    ensures
        r == package_in_pin_exists_spec(content@, pin_name@, package_name@),
{
    let s = to_chars(content);
    let (_, ob, c) = match pin_entry_span_exec(&s, pin_name) {
        Ok(p) => p,
        Err(e) => {
            return Err(e);
        },
    };
    let pat = alias_pattern_exec(package_name);
    Ok(find_from(&s, &pat, ob + 1, c).is_some())
}

/// The record line `add_package_to_pin` writes.
pub open spec fn record_line(package: Seq<char>, alias: Seq<char>) -> Seq<char> {
    "        { pkg = \""@ + package + "\"; name = \""@ + alias + "\"; }\n"@
}

/// The text after `add_package_to_pin`.
pub open spec fn add_package_to_pin_spec(s: Seq<char>, pin: Seq<char>, package: Seq<char>, alias: Seq<char>) -> Result<Seq<char>, EditError> {
    match pin_entry_span(s, pin) {
        Err(e) => Err(e),
        Ok((_, ob, c)) => Ok(
            splice(s, insertion_point(s, ob + 1, c), insertion_point(s, ob + 1, c), record_line(package, alias)),
        ),
    }
}

/// Adds the record `{ pkg = "package"; name = "package_alias"; }` as the
/// last line of the pin's package list.
pub fn add_package_to_pin(content: &str, pin_name: &str, package: &str, package_alias: &str) -> (r: Result<String, EditError>)
    ensures
        same_result(r, add_package_to_pin_spec(content@, pin_name@, package@, package_alias@)),
{
    let s = to_chars(content);
    let (_, ob, c) = match pin_entry_span_exec(&s, pin_name) {
        Ok(p) => p,
        Err(e) => {
            return Err(e);
        },
    };
    let ip = insertion_point_exec(&s, ob + 1, c);
    let mut line = String::from_str("        { pkg = \"");
    line.append(package);
    line.append("\"; name = \"");
    line.append(package_alias);
    line.append("\"; }\n");
    Ok(splice_exec(content, ip, ip, line.as_str()))
}

/// The span of the line of the record named `alias` in the pin's list,
/// kept inside the list when the record shares a line with a bracket.
pub open spec fn record_span(s: Seq<char>, pin: Seq<char>, alias: Seq<char>) -> Result<(int, int), EditError> {
    match pin_entry_span(s, pin) {
        Err(e) => Err(e),
        Ok((_, ob, c)) => match find_in(s, alias_pattern(alias), ob + 1, c) {
            None => Err(EditError::NotFound),
            Some(p) => {
                let a = match rfind_in(s, seq!['\n'], ob + 1, p) {
                    Some(k) => k + 1,
                    None => ob + 1,
                };
                let b = match find_in(s, seq!['\n'], p, c) {
                    Some(k) => k + 1,
                    None => c,
                };
                Ok((a, b))
            },
        },
    }
}

/// The text after `remove_package_from_pin`.
pub open spec fn remove_package_from_pin_spec(s: Seq<char>, pin: Seq<char>, alias: Seq<char>) -> Result<Seq<char>, EditError> {
    match record_span(s, pin, alias) {
        Err(e) => Err(e),
        Ok((a, b)) => Ok(splice(s, a, b, seq![])),
    }
}

/// Removes the line of the record named `package_alias` from the pin's
/// package list.  Fails with `NotFound` when the list holds no such record.
pub fn remove_package_from_pin(content: &str, pin_name: &str, package_alias: &str) -> (r: Result<String, EditError>)
    ensures
        same_result(r, remove_package_from_pin_spec(content@, pin_name@, package_alias@)),
{
    let s = to_chars(content);
    let (_, ob, c) = match pin_entry_span_exec(&s, pin_name) {
        Ok(p) => p,
        Err(e) => {
            return Err(e);
        },
    };
    let pat = alias_pattern_exec(package_alias);
    let p = match find_from(&s, &pat, ob + 1, c) {
        Some(p) => p,
        None => {
            return Err(EditError::NotFound);
        },
    };
    let a = match rfind_char(&s, '\n', ob + 1, p) {
        Some(k) => k + 1,
        None => ob + 1,
    };
    let b = match find_char(&s, '\n', p, c) {
        Some(k) => k + 1,
        None => c,
    };
    proof {
        reveal_strlit("");
        assert(""@ =~= Seq::<char>::empty());
    }
    Ok(splice_exec(content, a, b, ""))
}

/// Whether `s[a..b]` holds anything but whitespace.
pub open spec fn has_non_space(s: Seq<char>, a: int, b: int) -> bool {
    exists|i: int| a <= i < b && !is_space(#[trigger] s[i])
}

/// Whether the pin's package list holds anything but whitespace.
pub open spec fn pin_has_packages_spec(s: Seq<char>, pin: Seq<char>) -> Result<bool, EditError> {
    match pin_entry_span(s, pin) {
        Err(e) => Err(e),
        Ok((_, ob, c)) => Ok(has_non_space(s, ob + 1, c)),
    }
}

/// Whether the package list of the pin `pin_name` holds anything but
/// whitespace.
pub fn pin_has_packages(content: &str, pin_name: &str) -> (r: Result<bool, EditError>)
    ensures
        r == pin_has_packages_spec(content@, pin_name@),
{
    let s = to_chars(content);
    let (x, ob, c) = match pin_entry_span_exec(&s, pin_name) {
        Ok(p) => p,
        Err(e) => {
            return Err(e);
        },
    };
    let mut i = ob + 1;
    while i < c
        invariant
            s@ == content@,
            pin_entry_span(s@, pin_name@) == Ok::<(int, int, int), EditError>((x as int, ob as int, c as int)),
            ob + 1 <= i <= c < s.len(),
            forall|k: int| ob + 1 <= k < i ==> is_space(#[trigger] s@[k]),
        decreases c - i,
    {
        if !is_space_exec(s[i]) {
            assert(!is_space(content@[i as int]));
            assert(has_non_space(content@, ob + 1, c as int));
            return Ok(true);
        }
        i = i + 1;
    }
    Ok(false)
}

/// Where the identifier that ends at `e` starts, going back no further than
/// `lo`.
pub open spec fn ident_start(s: Seq<char>, lo: int, e: int) -> int
    decreases e - lo,
{
    if lo < e && is_ident_char(s[e - 1]) {
        ident_start(s, lo, e - 1)
    } else {
        e
    }
}

/// The name of the pin whose list holds the first record named `alias` in
/// the pinned packages: the identifier right before the last ` = [` that
/// comes before the record.
pub open spec fn pin_for_package_span(s: Seq<char>, alias: Seq<char>) -> Result<(int, int), EditError> {
    match braced_span(s, pinned_intro()) {
        Err(e) => Err(e),
        Ok((a, b)) => match find_in(s, alias_pattern(alias), a, b) {
            None => Err(EditError::NotFound),
            Some(p) => match rfind_in(s, " = ["@, a, p) {
                None => Err(EditError::Malformed),
                Some(e) => {
                    let st = ident_start(s, a, e);
                    if st < e {
                        Ok((st, e))
                    } else {
                        Err(EditError::Malformed)
                    }
                },
            },
        },
    }
}

/// The name of the pin that holds the package `alias`.
pub open spec fn find_pin_for_package_spec(s: Seq<char>, alias: Seq<char>) -> Result<Seq<char>, EditError> {
    match pin_for_package_span(s, alias) {
        Err(e) => Err(e),
        Ok((st, e)) => Ok(s.subrange(st, e)),
    }
}

/// Finds the name of the pin that holds the record named `package_alias`.
/// Fails with `NotFound` when no record of the pinned packages has it.
pub fn find_pin_for_package(content: &str, package_alias: &str) -> (r: Result<String, EditError>)
    ensures
        same_result(r, find_pin_for_package_spec(content@, package_alias@)),
{
    proof {
        reveal_strlit(" = [");
    }
    let s = to_chars(content);
    let (a, b) = match pinned_span_exec(&s) {
        Ok(x) => x,
        Err(e) => {
            return Err(e);
        },
    };
    let pat = alias_pattern_exec(package_alias);
    let p = match find_from(&s, &pat, a, b) {
        Some(p) => p,
        None => {
            return Err(EditError::NotFound);
        },
    };
    let open = to_chars(" = [");
    let e = match rfind_from(&s, &open, a, p) {
        Some(e) => e,
        None => {
            return Err(EditError::Malformed);
        },
    };
    proof {
        crate::text::lemma_rfind_in_bounds(s@, " = ["@, a as int, p as int);
    }
    let mut st = e;
    while a < st && is_ident_char_exec(s[st - 1])
        invariant
            a <= st <= e < s.len(),
            ident_start(s@, a as int, e as int) == ident_start(s@, a as int, st as int),
        decreases st - a,
    {
        st = st - 1;
    }
    if st < e {
        Ok(slice_string(content, st, e))
    } else {
        Err(EditError::Malformed)
    }
}

/// The name of the pin of the revision `pin_hash`.
pub open spec fn pin_name_of(pin_hash: Seq<char>) -> Seq<char> {
    "pkgs-"@ + pin_hash
}

/// The alias of `package` at `version`.
pub open spec fn alias_of(package: Seq<char>, version: Seq<char>) -> Seq<char> {
    package + "@"@ + version
}

/// The text after `add_pinned_package`.
pub open spec fn add_pinned_package_spec(
    s: Seq<char>,
    pin_hash: Seq<char>,
    source_ref: Seq<char>,
    package: Seq<char>,
    version: Seq<char>,
) -> Result<Seq<char>, EditError> {
    let pin = pin_name_of(pin_hash);
    let alias = alias_of(package, version);
    let s1 = match source_exists_spec(s, pin) {
        Err(e) => Err(e),
        Ok(true) => Ok(s),
        Ok(false) => add_source_spec(s, pin, source_ref),
    };
    let s2 = match s1 {
        Err(e) => Err(e),
        Ok(s1) => match pin_entry_exists_spec(s1, pin) {
            Err(e) => Err(e),
            Ok(true) => Ok(s1),
            Ok(false) => add_pin_entry_spec(s1, pin),
        },
    };
    match s2 {
        Err(e) => Err(e),
        Ok(s2) => match package_in_pin_exists_spec(s2, pin, alias) {
            Err(e) => Err(e),
            Ok(true) => Err(EditError::Duplicate),
            Ok(false) => add_package_to_pin_spec(s2, pin, package, alias),
        },
    }
}

/// Pins `package` at `version` to the revision `pin_hash`: adds the source
/// `pkgs-<pin_hash> = "<source_ref>";` when it is new, an empty pin entry
/// when there is none, then the record of `<package>@<version>`.  Fails
/// with `Duplicate` when the pin already holds that alias.
pub fn add_pinned_package(content: &str, pin_hash: &str, source_ref: &str, package: &str, version: &str) -> (r: Result<String, EditError>)
    ensures
        same_result(r, add_pinned_package_spec(content@, pin_hash@, source_ref@, package@, version@)),
{
    let pin_name = concat("pkgs-", pin_hash);
    let mut alias = concat(package, "@");
    alias.append(version);
    let mut result = match source_exists(content, pin_name.as_str()) {
        Err(e) => {
            return Err(e);
        },
        Ok(true) => String::from_str(content),
        Ok(false) => match add_source(content, pin_name.as_str(), source_ref) {
            Ok(t) => t,
            Err(e) => {
                return Err(e);
            },
        },
    };
    result = match pin_entry_exists(result.as_str(), pin_name.as_str()) {
        Err(e) => {
            return Err(e);
        },
        Ok(true) => result,
        Ok(false) => match add_pin_entry(result.as_str(), pin_name.as_str()) {
            Ok(t) => t,
            Err(e) => {
                return Err(e);
            },
        },
    };
    match package_in_pin_exists(result.as_str(), pin_name.as_str(), alias.as_str()) {
        Err(e) => Err(e),
        Ok(true) => Err(EditError::Duplicate),
        Ok(false) => add_package_to_pin(result.as_str(), pin_name.as_str(), package, alias.as_str()),
    }
}

/// The text after `remove_pinned_package_with_cleanup`: the record goes;
/// when the pin's list is left empty, the pin entry and its source go too.
pub open spec fn remove_pinned_package_spec(s: Seq<char>, alias: Seq<char>) -> Result<Seq<char>, EditError> {
    match find_pin_for_package_spec(s, alias) {
        Err(e) => Err(e),
        Ok(pin) => match remove_package_from_pin_spec(s, pin, alias) {
            Err(e) => Err(e),
            Ok(s1) => match pin_has_packages_spec(s1, pin) {
                Err(e) => Err(e),
                Ok(true) => Ok(s1),
                Ok(false) => match remove_pin_entry_spec(s1, pin) {
                    Err(e) => Err(e),
                    Ok(s2) => remove_source_spec(s2, pin),
                },
            },
        },
    }
}

/// Removes the record of the package `package_alias` from the pin that
/// holds it; when that pin has no package left, removes the pin entry and
/// its source as well.  Fails with `NotFound` when no pin holds the alias.
pub fn remove_pinned_package_with_cleanup(content: &str, package_alias: &str) -> (r: Result<String, EditError>)
    ensures
        same_result(r, remove_pinned_package_spec(content@, package_alias@)),
{
    let pin_name = match find_pin_for_package(content, package_alias) {
        Ok(p) => p,
        Err(e) => {
            return Err(e);
        },
    };
    let result = match remove_package_from_pin(content, pin_name.as_str(), package_alias) {
        Ok(t) => t,
        Err(e) => {
            return Err(e);
        },
    };
    match pin_has_packages(result.as_str(), pin_name.as_str()) {
        Err(e) => Err(e),
        Ok(true) => Ok(result),
        Ok(false) => match remove_pin_entry(result.as_str(), pin_name.as_str()) {
            Err(e) => Err(e),
            Ok(t) => remove_source(t.as_str(), pin_name.as_str()),
        },
    }
}

} // verus!
