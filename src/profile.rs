//! Line-oriented lookups and edits on a profile file, located by the
//! section introducers and bracket matching alone.
//!
//! The functions that take a profile name take the one the caller resolved;
//! the text they are given alone decides their result.
use vstd::prelude::*;
use crate::error::EditError;
use crate::commands::{hook_span, parse_shell_hook_from_profile};
use crate::model::{has_version, is_latest, Package, Profile};
use crate::packages::{
    entry_at, package_entry_end, package_matches, parse_packages_section, path_end,
};
use crate::section::{cut_end, intro, layout, line_start, with_pkgs, Shape};
use crate::pins::{entry_cut_end, entry_cut_end_exec, line_prefix_exec, line_prefix_from};
use crate::env::{env_entry_at, env_entry_parts, parse_env_vars_section};
use crate::render::{escaped, line_spans, lines_from, nix_escape_string, unescaped};
use crate::section::{insertion_point, insertion_point_exec};
use crate::text::{
    concat, find_char, find_from, find_in, find_matching_brace, lemma_find_in_bounds,
    is_space, lemma_matching_from, ltrim, matches_at, matches_at_exec, matching_delim, rfind_char, rfind_in, rtrim,
    same_text, skip_blank, skip_blank_exec, slice_string, splice, splice_exec, to_chars, trim_bounds, trimmed,
};

verus! {

/// Where the package list of a profile stands: the position of its `[`,
/// of the matching `]`, and whether it is written `packages = with pkgs;`
/// (entries then need no `pkgs.` qualifier).
pub open spec fn packages_locator(s: Seq<char>) -> Result<(int, int, bool), EditError> {
    let (start, with) = match find_in(s, "packages = with"@, 0, s.len() as int) {
        Some(i) => (Some(i), true),
        None => match find_in(s, "packages ="@, 0, s.len() as int) {
            Some(i) => (Some(i), false),
            None => (None, false),
        },
    };
    match start {
        None => Err(EditError::SectionNotFound),
        Some(i) => match find_in(s, seq!['['], i, s.len() as int) {
            None => Err(EditError::Malformed),
            Some(ob) => match matching_delim(s, ob, '[', ']') {
                None => Err(EditError::Malformed),
                Some(c) => Ok((ob, c, with)),
            },
        },
    }
}

/// Finds the package list of a profile (see `packages_locator`).
pub fn find_packages_in_profile(content: &str, _profile_name: &str) -> (r: Result<(usize, usize, bool), EditError>)
    ensures
        match r {
            Ok((a, b, w)) => packages_locator(content@) == Ok::<(int, int, bool), EditError>((a as int, b as int, w))
                && a < b < content@.len(),
            Err(e) => packages_locator(content@) == Err::<(int, int, bool), EditError>(e),
        },
{
    let s = to_chars(content);
    let with_intro = to_chars("packages = with");
    let intro = to_chars("packages =");
    let (start, with) = match find_from(&s, &with_intro, 0, s.len()) {
        Some(i) => (i, true),
        None => match find_from(&s, &intro, 0, s.len()) {
            Some(i) => (i, false),
            None => {
                return Err(EditError::SectionNotFound);
            },
        },
    };
    let ob = match find_char(&s, '[', start, s.len()) {
        Some(ob) => ob,
        None => {
            return Err(EditError::Malformed);
        },
    };
    proof {
        lemma_matching_from(s@, ob as int, (ob + 1) as int, '[', ']');
    }
    match find_matching_brace(&s, ob, '[', ']') {
        Some(c) => Ok((ob, c, with)),
        None => Err(EditError::Malformed),
    }
}

/// The text of each line of `s[a..b]` without leading and trailing
/// whitespace, as `(start, end)` spans.
pub open spec fn trimmed_lines(s: Seq<char>, a: int, b: int) -> Seq<(int, int)> {
    lines_from(s.subrange(a, b), 0).map_values(
        |p: (int, int)| (ltrim(s, a + p.0, a + p.1), rtrim(s, ltrim(s, a + p.0, a + p.1), a + p.1)),
    )
}

/// The trimmed lines of `s[a..b]`.
fn trimmed_line_spans(content: &str, s: &Vec<char>, a: usize, b: usize) -> (r: Vec<(usize, usize)>)
    requires
        s@ == content@,
        a <= b <= s.len(),
    ensures
        r@.map_values(|p: (usize, usize)| (p.0 as int, p.1 as int)) == trimmed_lines(s@, a as int, b as int),
        forall|k: int| 0 <= k < r.len() ==> a <= (#[trigger] r[k]).0 <= r[k].1 <= b,
{
    let body = to_chars(content.substring_char(a, b));
    let spans = line_spans(&body);
    let mut r: Vec<(usize, usize)> = Vec::new();
    let mut k: usize = 0;
    let ghost f = |p: (int, int)| (ltrim(s@, a + p.0, a + p.1), rtrim(s@, ltrim(s@, a + p.0, a + p.1), a + p.1));
    let ghost ls = lines_from(s@.subrange(a as int, b as int), 0);
    while k < spans.len()
        invariant
            s@ == content@,
            a <= b <= s.len(),
            body@ == s@.subrange(a as int, b as int),
            spans@.map_values(|p: (usize, usize)| (p.0 as int, p.1 as int)) == ls,
            forall|m: int| 0 <= m < spans.len() ==> (#[trigger] spans[m]).0 <= spans[m].1 <= body.len(),
            ls == lines_from(s@.subrange(a as int, b as int), 0),
            f == (|p: (int, int)| (ltrim(s@, a + p.0, a + p.1), rtrim(s@, ltrim(s@, a + p.0, a + p.1), a + p.1))),
            k <= spans.len(),
            r@.map_values(|p: (usize, usize)| (p.0 as int, p.1 as int)) == ls.subrange(0, k as int).map_values(f),
            forall|m: int| 0 <= m < r.len() ==> a <= (#[trigger] r[m]).0 <= r[m].1 <= b,
        decreases spans.len() - k,
    {
        let (x, y) = spans[k];
        assert(ls[k as int] == (x as int, y as int));
        let (u, v) = trim_bounds(s, a + x, a + y);
        let ghost before = r@.map_values(|p: (usize, usize)| (p.0 as int, p.1 as int));
        r.push((u, v));
        assert(r@.map_values(|p: (usize, usize)| (p.0 as int, p.1 as int)) =~= before.push((u as int, v as int)));
        assert(ls.subrange(0, k + 1).map_values(f) =~= ls.subrange(0, k as int).map_values(f).push(f(ls[k as int])));
        k = k + 1;
    }
    assert(ls.subrange(0, k as int) =~= ls);
    r
}

/// The name of the package entry that starts at `q`.
pub open spec fn name_at(s: Seq<char>, q: int) -> Seq<char> {
    s.subrange(q, path_end(s, q))
}

/// The package list is written `packages = with pkgs; [`.
pub open spec fn has_with_pkgs(s: Seq<char>) -> bool {
    match find_in(s, intro(Shape::PackageList), 0, s.len() as int) {
        Some(i) => matches_at(s, with_pkgs(), skip_blank(s, i + intro(Shape::PackageList).len())),
        None => false,
    }
}

fn has_with_pkgs_exec(s: &Vec<char>) -> (r: bool)
    ensures
        r == has_with_pkgs(s@),
{
    proof {
        reveal_strlit("packages =");
    }
    let intro_text = to_chars("packages =");
    let wp = to_chars("with pkgs;");
    match find_from(s, &intro_text, 0, s.len()) {
        Some(i) => matches_at_exec(s, &wp, skip_blank_exec(s, i + intro_text.len())),
        None => false,
    }
}

/// The package an entry called `name` stands for: without a `pkgs.`
/// qualifier when the list has no `with pkgs;`.
pub open spec fn listed_name(name: Seq<char>, with: bool) -> Seq<char> {
    if !with && matches_at(name, "pkgs."@, 0) {
        name.subrange(5, name.len() as int)
    } else {
        name
    }
}

/// The packages of the profile's list, one per entry, each at its latest
/// version; without a `with pkgs;` a `pkgs.` qualifier is dropped.  Fails as
/// the package list's parse does (`SectionNotFound`, `Malformed`).
pub fn parse_packages_from_profile(content: &str, _profile_name: &str) -> (r: Result<Vec<Package>, EditError>)
    ensures
        match layout(Shape::PackageList, content@) {
            Err(e) => r == Err::<Vec<Package>, EditError>(e),
            Ok((_, _, starts, _, _)) => r matches Ok(v) && v.len() == starts.len() && forall|i: int|
                0 <= i < v.len() ==> (#[trigger] v[i]).name@ == listed_name(
                    name_at(content@, starts[i]),
                    has_with_pkgs(content@),
                ) && is_latest(v[i].version),
        },
{
    proof {
        reveal_strlit("pkgs.");
    }
    let sec = match parse_packages_section(content) {
        Ok(sec) => sec,
        Err(e) => {
            return Err(e);
        },
    };
    let s = to_chars(content);
    let with = has_with_pkgs_exec(&s);
    let pk = to_chars("pkgs.");
    let ghost starts = layout(Shape::PackageList, content@)->Ok_0.2;
    let mut packages: Vec<Package> = Vec::new();
    let mut i: usize = 0;
    while i < sec.entries.len()
        invariant
            sec.parsed_from(content@),
            starts == layout(Shape::PackageList, content@)->Ok_0.2,
            with == has_with_pkgs(content@),
            pk@ == "pkgs."@,
            i <= sec.entries.len(),
            packages.len() == i,
            forall|k: int|
                0 <= k < i ==> (#[trigger] packages[k]).name@ == listed_name(name_at(content@, starts[k]), with)
                    && is_latest(packages[k].version),
        decreases sec.entries.len() - i,
    {
        assert(entry_at(content@, starts[i as int], sec.entries[i as int]));
        proof {
            reveal_strlit("pkgs.");
        }
        let name = sec.entries[i].name.as_str();
        let nc = to_chars(name);
        let listed = if !with && matches_at_exec(&nc, &pk, 0) {
            slice_string(name, 5, nc.len())
        } else {
            String::from_str(name)
        };
        packages.push(Package::new(listed));
        i = i + 1;
    }
    Ok(packages)
}

/// The entry name `l` names `package`: it is `package`, or ends with `.`
/// followed by `package`.
pub open spec fn names_package(l: Seq<char>, package: Seq<char>) -> bool {
    l == package || (l.len() >= package.len() + 1 && l.subrange(l.len() - package.len() - 1, l.len() as int)
        == "."@ + package)
}

/// Some entry of the list names `package`.
pub open spec fn some_entry_names(s: Seq<char>, starts: Seq<int>, package: Seq<char>) -> bool {
    exists|i: int| 0 <= i < starts.len() && names_package(name_at(s, #[trigger] starts[i]), package)
}

/// Whether an entry of the profile's package list is `package` or ends with
/// `.package`.  Fails as the package list's parse does.
pub fn package_exists(content: &str, package: &str, _profile_name: &str) -> (r: Result<bool, EditError>)
    ensures
        match layout(Shape::PackageList, content@) {
            Err(e) => r == Err::<bool, EditError>(e),
            Ok((_, _, starts, _, _)) => r == Ok::<bool, EditError>(some_entry_names(content@, starts, package@)),
        },
{
    let sec = match parse_packages_section(content) {
        Ok(sec) => sec,
        Err(e) => {
            return Err(e);
        },
    };
    let ghost starts = layout(Shape::PackageList, content@)->Ok_0.2;
    let dotted = to_chars(concat(".", package).as_str());
    let mut i: usize = 0;
    while i < sec.entries.len()
        invariant
            sec.parsed_from(content@),
            starts == layout(Shape::PackageList, content@)->Ok_0.2,
            dotted@ == "."@ + package@,
            i <= sec.entries.len(),
            forall|k: int| 0 <= k < i ==> !names_package(name_at(content@, #[trigger] starts[k]), package@),
        decreases sec.entries.len() - i,
    {
        assert(entry_at(content@, starts[i as int], sec.entries[i as int]));
        let name = sec.entries[i].name.as_str();
        let nc = to_chars(name);
        let hit = same_text(name, package) || (nc.len() >= dotted.len() && matches_at_exec(
            &nc,
            &dotted,
            nc.len() - dotted.len(),
        ));
        proof {
            reveal_strlit(".");
        }
        if hit {
            assert(names_package(name_at(content@, starts[i as int]), package@));
            assert(some_entry_names(content@, starts, package@));
            return Ok(true);
        }
        i = i + 1;
    }
    Ok(false)
}

/// The line `add_package_to_profile` writes.
pub open spec fn profile_package_line(package: Seq<char>, with: bool) -> Seq<char> {
    if with {
        "    "@ + package + "\n"@
    } else {
        "    pkgs."@ + package + "\n"@
    }
}

/// The list body `ob + 1 .. c` with `line` added as its last line: after its
/// last line break, or on a new line before the `]` when it has none.
pub open spec fn with_line_added(s: Seq<char>, ob: int, c: int, line: Seq<char>) -> Seq<char> {
    crate::section::line_added(s, ob + 1, c, line)
}

/// Adds `package` as the last line of the profile's package list, with a
/// `pkgs.` qualifier when the list has no `with pkgs;`; a list written on
/// one line gets a line break first.  Fails as the package list's parse
/// does.
pub fn add_package_to_profile(content: &str, package: &str, _profile_name: &str) -> (r: Result<String, EditError>)
    ensures
        match layout(Shape::PackageList, content@) {
            Err(e) => r == Err::<String, EditError>(e),
            Ok((_, ob, _, c, _)) => r matches Ok(t) && t@ == with_line_added(
                content@,
                ob,
                c,
                profile_package_line(package@, has_with_pkgs(content@)),
            ),
        },
{
    let sec = match parse_packages_section(content) {
        Ok(sec) => sec,
        Err(e) => {
            return Err(e);
        },
    };
    let s = to_chars(content);
    let with = has_with_pkgs_exec(&s);
    let mut line = if with {
        String::from_str("    ")
    } else {
        String::from_str("    pkgs.")
    };
    line.append(package);
    line.append("\n");
    match rfind_char(&s, '\n', sec._list_start, sec.list_end) {
        Some(k) => Ok(splice_exec(content, k + 1, k + 1, line.as_str())),
        None => {
            let mut ins = String::from_str("\n");
            ins.append(line.as_str());
            Ok(splice_exec(content, sec.list_end, sec.list_end, ins.as_str()))
        },
    }
}

/// The `i`-th entry is the first that stands for `package` (it is
/// `package` or `pkgs.package`).
pub open spec fn is_first_listed(s: Seq<char>, starts: Seq<int>, package: Seq<char>, i: int) -> bool {
    &&& 0 <= i < starts.len()
    &&& package_matches(name_at(s, starts[i]), package)
    &&& forall|j: int| 0 <= j < i ==> !package_matches(name_at(s, #[trigger] starts[j]), package)
}

/// Removes the line of the first entry of the profile's package list that
/// is `package` or `pkgs.package`, its line ending included.  Fails with
/// `NotFound` when there is none, and as the package list's parse does.
pub fn remove_package_from_profile(content: &str, package: &str, _profile_name: &str) -> (r: Result<String, EditError>)
    ensures
        match layout(Shape::PackageList, content@) {
            Err(e) => r == Err::<String, EditError>(e),
            Ok((_, ob, starts, _, _)) => {
                &&& (forall|i: int| 0 <= i < starts.len() ==> !package_matches(name_at(content@, #[trigger] starts[i]), package@))
                    ==> r == Err::<String, EditError>(EditError::NotFound)
                &&& forall|i: int| #[trigger] is_first_listed(content@, starts, package@, i) ==> (r matches Ok(t) && t@ == splice(
                    content@,
                    line_start(content@, ob + 1, starts[i]),
                    cut_end(content@, starts[i], package_entry_end(content@, starts[i])),
                    seq![],
                ))
            },
        },
{
    let sec = match parse_packages_section(content) {
        Ok(sec) => sec,
        Err(e) => {
            return Err(e);
        },
    };
    let ghost starts = layout(Shape::PackageList, content@)->Ok_0.2;
    let r = sec.remove_package(content, package);
    proof {
        assert forall|k: int| 0 <= k < starts.len() implies sec.entries[k].name@ == name_at(content@, #[trigger] starts[k]) by {
            assert(entry_at(content@, starts[k], sec.entries[k]));
        }
        if !sec.has_package(package@) {
            assert forall|i: int| 0 <= i < starts.len() implies !package_matches(name_at(content@, #[trigger] starts[i]), package@) by {
                assert(sec.entries[i].name@ == name_at(content@, starts[i]));
            }
        }
        assert forall|i: int| #[trigger] is_first_listed(content@, starts, package@, i) implies (r matches Ok(t) && t@ == splice(
            content@,
            line_start(content@, sec._list_start as int, starts[i]),
            cut_end(content@, starts[i], package_entry_end(content@, starts[i])),
            seq![],
        )) by {
            assert(sec.entries[i].name@ == name_at(content@, starts[i]));
            assert(sec.has_package(package@));
            let f = sec.first_match(package@);
            if f < i {
                assert(sec.entries[f].name@ == name_at(content@, starts[f]));
            } else if f > i {
                assert(!package_matches(sec.entries[i].name@, package@));
            }
            assert(entry_at(content@, starts[i], sec.entries[i]));
        }
    }
    r
}

/// Where the environment-variable map of a profile stands: after its `{`
/// and at the matching `}`.
pub open spec fn env_locator(s: Seq<char>) -> Result<(int, int), EditError> {
    match find_in(s, "envVars = {"@, 0, s.len() as int) {
        None => Err(EditError::SectionNotFound),
        Some(i) => match matching_delim(s, i + 10, '{', '}') {
            None => Err(EditError::Malformed),
            Some(c) => Ok((i + 11, c)),
        },
    }
}

/// Finds the environment-variable map of a profile (see `env_locator`).
pub fn find_env_vars_in_profile(content: &str, _profile_name: &str) -> (r: Result<(usize, usize), EditError>)
    ensures
        match r {
            Ok((a, b)) => env_locator(content@) == Ok::<(int, int), EditError>((a as int, b as int)) && a <= b
                < content@.len(),
            Err(e) => env_locator(content@) == Err::<(int, int), EditError>(e),
        },
{
    proof {
        reveal_strlit("envVars = {");
    }
    let s = to_chars(content);
    let intro = to_chars("envVars = {");
    let i = match find_from(&s, &intro, 0, s.len()) {
        Some(i) => i,
        None => {
            return Err(EditError::SectionNotFound);
        },
    };
    proof {
        lemma_find_in_bounds(s@, intro@, 0, s@.len() as int);
        assert(s@.subrange(i as int, i + 11)[10] == s@[i + 10]);
        lemma_matching_from(s@, (i + 10) as int, (i + 11) as int, '{', '}');
    }
    match find_matching_brace(&s, i + 10, '{', '}') {
        Some(c) => Ok((i + 11, c)),
        None => Err(EditError::Malformed),
    }
}

/// Whether a trimmed line of the profile's environment-variable map begins
/// with `name = `.
pub open spec fn env_var_exists_spec(s: Seq<char>, name: Seq<char>) -> Result<bool, EditError> {
    match env_locator(s) {
        Err(e) => Err(e),
        Ok((a, b)) => Ok(some_line_starts_with(s, a, b, name + " = "@)),
    }
}

/// Some trimmed line of `s[a..b]` begins with `pat`.
pub open spec fn some_line_starts_with(s: Seq<char>, a: int, b: int, pat: Seq<char>) -> bool {
    exists|k: int|
        0 <= k < trimmed_lines(s, a, b).len() && matches_at(
            s.subrange(#[trigger] trimmed_lines(s, a, b)[k].0, trimmed_lines(s, a, b)[k].1),
            pat,
            0,
        )
}

/// Whether a line of the profile's environment-variable map begins with
/// `name = `.
pub fn env_var_exists(flake_content: &str, name: &str, profile_name: &str) -> (r: Result<bool, EditError>)
    ensures
        r == env_var_exists_spec(flake_content@, name@),
{
    let content = flake_content;
    let (a, b) = match find_env_vars_in_profile(content, profile_name) {
        Ok(x) => x,
        Err(e) => {
            return Err(e);
        },
    };
    let s = to_chars(content);
    let spans = trimmed_line_spans(content, &s, a, b);
    let ghost ls = trimmed_lines(s@, a as int, b as int);
    let pat = to_chars(concat(name, " = ").as_str());
    let mut k: usize = 0;
    while k < spans.len()
        invariant
            s@ == content@,
            a <= b <= s.len(),
            content@ == flake_content@,
            env_locator(content@) == Ok::<(int, int), EditError>((a as int, b as int)),
            ls == trimmed_lines(s@, a as int, b as int),
            spans@.map_values(|p: (usize, usize)| (p.0 as int, p.1 as int)) == ls,
            forall|m: int| 0 <= m < spans.len() ==> a <= (#[trigger] spans[m]).0 <= spans[m].1 <= b,
            pat@ == name@ + " = "@,
            k <= spans.len(),
            forall|m: int| 0 <= m < k ==> !matches_at(s@.subrange(#[trigger] ls[m].0, ls[m].1), pat@, 0),
        decreases spans.len() - k,
    {
        let (x, y) = spans[k];
        assert(ls[k as int] == (x as int, y as int));
        let lc = to_chars(content.substring_char(x, y));
        if matches_at_exec(&lc, &pat, 0) {
            assert(matches_at(s@.subrange(trimmed_lines(s@, a as int, b as int)[k as int].0, trimmed_lines(s@, a as int, b as int)[k as int].1), name@ + " = "@, 0));
            assert(some_line_starts_with(s@, a as int, b as int, name@ + " = "@));
            return Ok(true);
        }
        k = k + 1;
    }
    Ok(false)
}

/// The line `add_env_var_to_profile` writes.
pub open spec fn profile_env_line(name: Seq<char>, value: Seq<char>) -> Seq<char> {
    "    "@ + name + " = \""@ + escaped(value) + "\";\n"@
}

/// The text after `add_env_var_to_profile`.
pub open spec fn add_env_var_spec(s: Seq<char>, name: Seq<char>, value: Seq<char>) -> Result<Seq<char>, EditError> {
    match env_locator(s) {
        Err(e) => Err(e),
        Ok((a, b)) => if some_line_starts_with(s, a, b, name + " = "@) {
            Err(EditError::Duplicate)
        } else {
            Ok(splice(s, insertion_point(s, a, b), insertion_point(s, a, b), profile_env_line(name, value)))
        },
    }
}

/// Adds `name = "value";` (the value escaped) as the last line of the
/// profile's environment-variable map.  Fails with `Duplicate` when a line
/// of the map already begins with `name = `.
pub fn add_env_var_to_profile(content: &str, name: &str, value: &str, profile_name: &str) -> (r: Result<String, EditError>)
    ensures
        crate::error::same_result(r, add_env_var_spec(content@, name@, value@)),
{
    match env_var_exists(content, name, profile_name) {
        Err(e) => {
            return Err(e);
        },
        Ok(true) => {
            return Err(EditError::Duplicate);
        },
        Ok(false) => {},
    }
    let (a, b) = match find_env_vars_in_profile(content, profile_name) {
        Ok(x) => x,
        Err(e) => {
            return Err(e);
        },
    };
    let s = to_chars(content);
    let ip = insertion_point_exec(&s, a, b);
    let mut line = String::from_str("    ");
    line.append(name);
    line.append(" = \"");
    line.append(nix_escape_string(value).as_str());
    line.append("\";\n");
    Ok(splice_exec(content, ip, ip, line.as_str()))
}

/// The text after `remove_env_var_from_profile`: from the start of the
/// variable's declaration line through its `;`, and the rest of that line
/// when it is blank.
pub open spec fn remove_env_var_spec(s: Seq<char>, name: Seq<char>) -> Result<Seq<char>, EditError> {
    match env_locator(s) {
        Err(e) => Err(e),
        Ok((a, b)) => match line_prefix_from(s, a, b, name + " = "@) {
            None => Err(EditError::NotFound),
            Some((x, j)) => match find_in(s, seq![';'], j, b) {
                None => Err(EditError::Malformed),
                Some(k) => Ok(splice(s, x, entry_cut_end(s, k + 1), seq![])),
            },
        },
    }
}

/// Removes the declaration of `name` from the profile's environment-variable
/// map: the first line that begins with `name = `, so that `VAR` never
/// matches `VAR2` or `MYVAR`.  Fails with `NotFound` when there is none.
pub fn remove_env_var_from_profile(flake_content: &str, name: &str, profile_name: &str) -> (r: Result<String, EditError>)
    ensures
        crate::error::same_result(r, remove_env_var_spec(flake_content@, name@)),
{
    let (a, b) = match find_env_vars_in_profile(flake_content, profile_name) {
        Ok(x) => x,
        Err(e) => {
            return Err(e);
        },
    };
    let s = to_chars(flake_content);
    let pat = to_chars(concat(name, " = ").as_str());
    let (x, j) = match line_prefix_exec(&s, a, b, &pat) {
        Some(p) => p,
        None => {
            return Err(EditError::NotFound);
        },
    };
    let k = match find_char(&s, ';', j, b) {
        Some(k) => k,
        None => {
            return Err(EditError::Malformed);
        },
    };
    let e = entry_cut_end_exec(&s, k + 1);
    proof {
        reveal_strlit("");
        assert(""@ =~= Seq::<char>::empty());
    }
    Ok(splice_exec(flake_content, x, e, ""))
}

/// The name and value of the environment variable declared at `q`.
pub open spec fn env_pair_at(s: Seq<char>, q: int) -> (Seq<char>, Seq<char>) {
    match env_entry_parts(s, q) {
        Some((n, vs, ve, _)) => (s.subrange(q, n), unescaped(s.subrange(vs, ve))),
        None => (seq![], seq![]),
    }
}

/// The name and value of each variable of the profile's environment-variable
/// map, in order, each value with its escapes resolved.  Fails as the map's
/// parse does (`SectionNotFound`, `Malformed`).
pub fn parse_env_vars_from_profile(content: &str, _profile_name: &str) -> (r: Result<Vec<(String, String)>, EditError>)
    ensures
        match layout(Shape::EnvVars, content@) {
            Err(e) => r == Err::<Vec<(String, String)>, EditError>(e),
            Ok((_, _, starts, _, _)) => r matches Ok(v) && v.len() == starts.len() && forall|i: int|
                0 <= i < v.len() ==> env_pair_at(content@, starts[i]) == ((#[trigger] v[i]).0@, v[i].1@),
        },
{
    let sec = match parse_env_vars_section(content) {
        Ok(sec) => sec,
        Err(e) => {
            return Err(e);
        },
    };
    let ghost starts = layout(Shape::EnvVars, content@)->Ok_0.2;
    let mut vars: Vec<(String, String)> = Vec::new();
    let mut i: usize = 0;
    while i < sec.entries.len()
        invariant
            sec.parsed_from(content@),
            starts == layout(Shape::EnvVars, content@)->Ok_0.2,
            i <= sec.entries.len(),
            vars.len() == i,
            forall|k: int| 0 <= k < i ==> env_pair_at(content@, starts[k]) == ((#[trigger] vars[k]).0@, vars[k].1@),
        decreases sec.entries.len() - i,
    {
        assert(env_entry_at(content@, starts[i as int], sec.entries[i as int]));
        vars.push((String::from_str(sec.entries[i].name.as_str()), String::from_str(sec.entries[i].value.as_str())));
        i = i + 1;
    }
    Ok(vars)
}

/// Reads a profile out of the text of its file: its package list, its
/// environment-variable map and its shell hook.  Fails with the first
/// error of those three parses, in that order.
pub fn parse_profile(name: String, content: &str) -> (r: Result<Profile, EditError>)
    ensures
        match (layout(Shape::PackageList, content@), layout(Shape::EnvVars, content@), hook_span(content@)) {
            (Err(e), _, _) => r == Err::<Profile, EditError>(e),
            (Ok(_), Err(e), _) => r == Err::<Profile, EditError>(e),
            (Ok(_), Ok(_), Err(e)) => r == Err::<Profile, EditError>(e),
            (Ok((_, _, ps, _, _)), Ok((_, _, es, _, _)), Ok((_, b, e))) => r matches Ok(p) && {
                &&& p.name == name
                &&& p.packages.len() == ps.len()
                &&& forall|i: int|
                    0 <= i < ps.len() ==> (#[trigger] p.packages[i]).name@ == name_at(content@, ps[i])
                        && is_latest(p.packages[i].version)
                &&& p.env_vars.len() == es.len()
                &&& forall|i: int|
                    0 <= i < es.len() ==> env_pair_at(content@, es[i]) == (
                        (#[trigger] p.env_vars[i]).name@,
                        p.env_vars[i].value@,
                    )
                &&& p.shell_hook@ == trimmed(content@, b, e)
            },
        },
{
    let packages = match parse_packages_section(content) {
        Ok(sec) => sec,
        Err(e) => {
            return Err(e);
        },
    };
    let env = match parse_env_vars_section(content) {
        Ok(sec) => sec,
        Err(e) => {
            return Err(e);
        },
    };
    let hook = match parse_shell_hook_from_profile(content, "") {
        Ok(h) => h,
        Err(e) => {
            return Err(e);
        },
    };
    let ghost ps = layout(Shape::PackageList, content@)->Ok_0.2;
    let ghost es = layout(Shape::EnvVars, content@)->Ok_0.2;
    let pkgs = packages.to_packages();
    let vars = env.to_env_vars();
    proof {
        assert forall|i: int| 0 <= i < ps.len() implies (#[trigger] pkgs[i]).name@ == name_at(content@, ps[i]) by {
            assert(entry_at(content@, ps[i], packages.entries[i]));
        }
        assert forall|i: int| 0 <= i < es.len() implies env_pair_at(content@, es[i]) == (
            (#[trigger] vars[i]).name@,
            vars[i].value@,
        ) by {
            assert(env_entry_at(content@, es[i], env.entries[i]));
        }
    }
    let mut profile = Profile::new(name);
    profile.packages = pkgs;
    profile.env_vars = vars;
    profile.shell_hook = hook;
    Ok(profile)
}

/// The end of the word that starts at `i` in `s[..b]`.
pub open spec fn word_end(s: Seq<char>, i: int, b: int) -> int
    decreases b - i,
{
    if 0 <= i < b && !is_space(s[i]) {
        word_end(s, i + 1, b)
    } else {
        i
    }
}

/// The spans of the whitespace-separated words of `s[i..b]`.
pub open spec fn words(s: Seq<char>, i: int, b: int) -> Seq<(int, int)>
    decreases b - i,
{
    if i < 0 || i >= b {
        seq![]
    } else if is_space(s[i]) {
        words(s, i + 1, b)
    } else {
        let e = word_end(s, i, b);
        if e <= i || e > b {
            seq![]
        } else {
            seq![(i, e)] + words(s, e, b)
        }
    }
}

pub proof fn lemma_word_end(s: Seq<char>, i: int, b: int)
    requires
        0 <= i <= b,
    ensures
        i <= word_end(s, i, b) <= b,
        i < b && !is_space(s[i]) ==> i < word_end(s, i, b),
    decreases b - i,
{
    if 0 <= i < b && !is_space(s[i]) {
        lemma_word_end(s, i + 1, b);
    }
}

/// The words of `s[a..b]`.
fn word_spans(s: &Vec<char>, a: usize, b: usize) -> (r: Vec<(usize, usize)>)
    requires
        a <= b <= s.len(),
    ensures
        r@.map_values(|p: (usize, usize)| (p.0 as int, p.1 as int)) == words(s@, a as int, b as int),
        forall|k: int| 0 <= k < r.len() ==> (#[trigger] r[k]).0 <= r[k].1 <= b,
{
    let mut r: Vec<(usize, usize)> = Vec::new();
    let mut i = a;
    while i < b
        invariant
            a <= i <= b <= s.len(),
            words(s@, a as int, b as int) == r@.map_values(|p: (usize, usize)| (p.0 as int, p.1 as int)) + words(s@, i as int, b as int),
            forall|k: int| 0 <= k < r.len() ==> (#[trigger] r[k]).0 <= r[k].1 <= b,
        decreases b - i,
    {
        if crate::text::is_space_exec(s[i]) {
            i = i + 1;
        } else {
            proof {
                lemma_word_end(s@, i as int, b as int);
            }
            let mut e = i;
            while e < b && !crate::text::is_space_exec(s[e])
                invariant
                    i <= e <= b <= s.len(),
                    word_end(s@, i as int, b as int) == word_end(s@, e as int, b as int),
                decreases b - e,
            {
                e = e + 1;
            }
            let ghost before = r@.map_values(|p: (usize, usize)| (p.0 as int, p.1 as int));
            r.push((i, e));
            assert(r@.map_values(|p: (usize, usize)| (p.0 as int, p.1 as int)) =~= before.push((i as int, e as int)));
            assert(before + (seq![(i as int, e as int)] + words(s@, e as int, b as int)) =~= before.push((i as int, e as int)) + words(s@, e as int, b as int));
            i = e;
        }
    }
    assert(words(s@, i as int, b as int) =~= seq![]);
    assert(r@.map_values(|p: (usize, usize)| (p.0 as int, p.1 as int)) + seq![] =~= r@.map_values(|p: (usize, usize)| (p.0 as int, p.1 as int)));
    r
}

/// The packages a search listing names: after its header line, each line of
/// at least four words gives a package, its first word the name and its
/// second the version.
pub open spec fn listed_in_output(s: Seq<char>, ls: Seq<(int, int)>) -> Seq<(Seq<char>, Seq<char>)>
    decreases ls.len(),
{
    if ls.len() == 0 {
        seq![]
    } else {
        let rest = listed_in_output(s, ls.drop_last());
        let ws = words(s, ls.last().0, ls.last().1);
        if ws.len() >= 4 {
            rest.push((s.subrange(ws[0].0, ws[0].1), s.subrange(ws[1].0, ws[1].1)))
        } else {
            rest
        }
    }
}

/// Reads the packages of a search listing (see `listed_in_output`).
pub fn extract_packages_from_output(output: &str) -> (r: Result<Vec<Package>, EditError>)
    ensures
        r matches Ok(v) && {
            let ls = lines_from(output@, 0);
            let found = if ls.len() == 0 {
                seq![]
            } else {
                listed_in_output(output@, ls.subrange(1, ls.len() as int))
            };
            &&& v.len() == found.len()
            &&& forall|i: int|
                0 <= i < v.len() ==> (#[trigger] v[i]).name@ == found[i].0 && has_version(v[i].version, found[i].1)
        },
{
    let s = to_chars(output);
    let spans = line_spans(&s);
    let ghost ls = lines_from(output@, 0);
    let mut v: Vec<Package> = Vec::new();
    if spans.len() == 0 {
        return Ok(v);
    }
    let ghost tail = ls.subrange(1, ls.len() as int);
    let mut k: usize = 1;
    while k < spans.len()
        invariant
            s@ == output@,
            ls == lines_from(output@, 0),
            spans@.map_values(|p: (usize, usize)| (p.0 as int, p.1 as int)) == ls,
            forall|m: int| 0 <= m < spans.len() ==> (#[trigger] spans[m]).0 <= spans[m].1 <= s.len(),
            spans.len() > 0,
            tail == ls.subrange(1, ls.len() as int),
            1 <= k <= spans.len(),
            v.len() == listed_in_output(output@, tail.subrange(0, k - 1)).len(),
            forall|i: int|
                0 <= i < v.len() ==> (#[trigger] v[i]).name@ == listed_in_output(output@, tail.subrange(0, k - 1))[i].0
                    && has_version(v[i].version, listed_in_output(output@, tail.subrange(0, k - 1))[i].1),
        decreases spans.len() - k,
    {
        let (x, y) = spans[k];
        assert(ls[k as int] == (x as int, y as int));
        assert(tail.subrange(0, k as int).drop_last() =~= tail.subrange(0, k - 1));
        assert(tail.subrange(0, k as int).last() == (x as int, y as int));
        let ws = word_spans(&s, x, y);
        if ws.len() >= 4 {
            let (n0, n1) = ws[0];
            let (v0, v1) = ws[1];
            assert(words(s@, x as int, y as int)[0] == (n0 as int, n1 as int));
            assert(words(s@, x as int, y as int)[1] == (v0 as int, v1 as int));
            v.push(Package { name: slice_string(output, n0, n1), version: Some(slice_string(output, v0, v1)) });
        }
        k = k + 1;
    }
    assert(tail.subrange(0, k - 1) =~= tail);
    Ok(v)
}

} // verus!
