//! The package list: `packages = [ ... ];` or `packages = with pkgs; [ ... ];`.
use vstd::prelude::*;
use crate::error::EditError;
use crate::model::{is_latest, Package};
use crate::section::{
    cut_end, insertion_point, insertion_point_exec, layout, layout_exec, line_added, line_start,
    remove_line, scan_ordered, Shape,
};
use crate::text::{
    after_eol, after_eol_exec, concat, rfind_char, same_text, splice, splice_exec, indentation_in,
    indentation_of, lemma_line_end, lemma_skip_blank, line_end, line_end_exec, skip_blank,
    skip_blank_exec, slice_string, to_chars, trim_bounds, trimmed,
};

verus! {

/// One line of the package list.
#[derive(Debug, Clone)]
pub struct PackageEntry {
    pub name: String,
    pub _comment: Option<String>,
    /// Position of the first character of the name.
    pub start_pos: usize,
    /// Position after the entry's own line ending.
    pub end_pos: usize,
}

/// A parsed package list together with where it stands in the file.
#[derive(Debug)]
pub struct PackagesSection {
    pub entries: Vec<PackageEntry>,
    pub indentation: String,
    /// Position after the opening `[`.
    pub _list_start: usize,
    /// Position of the closing `]`.
    pub list_end: usize,
    /// Position of the `packages =` introducer.
    pub _section_start: usize,
    /// Position after the closing `;`.
    pub _section_end: usize,
}

/// A character that may stand in a package's attribute path.
pub open spec fn is_path_char(c: char) -> bool {
    ('a' <= c && c <= 'z') || ('A' <= c && c <= 'Z') || ('0' <= c && c <= '9') || c == '_'
        || c == '-' || c == '.' || c == '"' || c == '@'
}

pub fn is_path_char_exec(c: char) -> (r: bool)
    ensures
        r == is_path_char(c),
{
    ('a' <= c && c <= 'z') || ('A' <= c && c <= 'Z') || ('0' <= c && c <= '9') || c == '_'
        || c == '-' || c == '.' || c == '"' || c == '@'
}

/// The end of the attribute path that starts at `i`.
pub open spec fn path_end(s: Seq<char>, i: int) -> int
    decreases s.len() - i,
{
    if 0 <= i < s.len() && is_path_char(s[i]) {
        path_end(s, i + 1)
    } else {
        i
    }
}

pub proof fn lemma_path_end(s: Seq<char>, i: int)
    requires
        0 <= i <= s.len(),
    ensures
        i <= path_end(s, i) <= s.len(),
        i < s.len() && is_path_char(s[i]) ==> i < path_end(s, i),
    decreases s.len() - i,
{
    if i < s.len() && is_path_char(s[i]) {
        lemma_path_end(s, i + 1);
    }
}

/// The span of the text of an inline comment (`# ...`, after optional
/// blanks) that starts at `i`, up to the end of its line.
pub open spec fn comment_span(s: Seq<char>, i: int) -> Option<(int, int)> {
    let b = skip_blank(s, i);
    if 0 <= b < s.len() && s[b] == '#' {
        Some((b + 1, line_end(s, b + 1)))
    } else {
        None
    }
}

/// Where the package entry whose name starts at `q` ends, its own line
/// ending included.
pub open spec fn package_entry_end(s: Seq<char>, q: int) -> int {
    let n = path_end(s, q);
    match comment_span(s, n) {
        Some((_, e)) => after_eol(s, e),
        None => after_eol(s, n),
    }
}

/// The trimmed comment of the package entry whose name starts at `q`.
pub open spec fn package_entry_comment(s: Seq<char>, q: int) -> Option<Seq<char>> {
    match comment_span(s, path_end(s, q)) {
        Some((a, b)) => Some(trimmed(s, a, b)),
        None => None,
    }
}

/// The entry parsed at `q` is `e`.
pub open spec fn entry_at(s: Seq<char>, q: int, e: PackageEntry) -> bool {
    &&& e.start_pos == q
    &&& e.name@ == s.subrange(q, path_end(s, q))
    &&& e.end_pos == package_entry_end(s, q)
    &&& match (e._comment, package_entry_comment(s, q)) {
        (Some(c), Some(m)) => c@ == m,
        (None, None) => true,
        _ => false,
    }
}

pub proof fn lemma_package_entry_end(s: Seq<char>, q: int)
    requires
        0 <= q < s.len(),
        is_path_char(s[q]),
    ensures
        q < path_end(s, q) <= package_entry_end(s, q) <= s.len(),
{
    lemma_path_end(s, q);
    let n = path_end(s, q);
    lemma_skip_blank(s, n);
    let b = skip_blank(s, n);
    if 0 <= b < s.len() && s[b] == '#' {
        lemma_line_end(s, b + 1);
    }
}

impl PackagesSection {
    /// This section is the package list parsed out of `s`.
    pub open spec fn parsed_from(&self, s: Seq<char>) -> bool {
        match layout(Shape::PackageList, s) {
            Ok((start, ob, starts, close, end)) => {
                &&& self._section_start == start
                &&& self._list_start == ob + 1
                &&& self.list_end == close
                &&& self._section_end == end
                &&& self.indentation@ == indentation_of(s, ob + 1, close)
                &&& self.entries.len() == starts.len()
                &&& forall|i: int|
                    0 <= i < starts.len() ==> entry_at(s, starts[i], #[trigger] self.entries[i])
            },
            Err(_) => false,
        }
    }

    /// Spans that fit in a text of length `n`, entries in order inside the list.
    pub open spec fn fits(&self, n: int) -> bool {
        &&& self._list_start <= self.list_end <= n
        &&& forall|i: int|
            0 <= i < self.entries.len() ==> self._list_start <= (#[trigger] self.entries[i]).start_pos
                <= self.entries[i].end_pos <= self.list_end
    }

    /// Whether an entry is called `name`, or `pkgs.` followed by `name`.
    pub open spec fn has_package(&self, name: Seq<char>) -> bool {
        exists|i: int|
            0 <= i < self.entries.len() && (#[trigger] self.entries[i].name@ == name
                || self.entries[i].name@ == "pkgs."@ + name)
    }

    /// Whether an entry is called exactly `name`.
    pub open spec fn has_entry(&self, name: Seq<char>) -> bool {
        exists|k: int| 0 <= k < self.entries.len() && #[trigger] self.entries[k].name@ == name
    }

    /// The `i`-th entry is the first that stands for `name`.
    pub open spec fn is_first_match(&self, name: Seq<char>, i: int) -> bool {
        &&& 0 <= i < self.entries.len()
        &&& package_matches(self.entries[i].name@, name)
        &&& forall|j: int| 0 <= j < i ==> !package_matches(#[trigger] self.entries[j].name@, name)
    }

    /// The index of the first entry that `has_package` looks for.
    pub open spec fn first_match(&self, name: Seq<char>) -> int
        recommends
            self.has_package(name),
    {
        choose|i: int|
            0 <= i < self.entries.len() && package_matches(#[trigger] self.entries[i].name@, name)
                && forall|j: int|
                0 <= j < i ==> !package_matches(#[trigger] self.entries[j].name@, name)
    }

    /// Where `add_package` inserts a line: after the last line break inside
    /// the list, or right before the `]` when the list is on one line.
    pub open spec fn insertion_point(&self, s: Seq<char>) -> int {
        insertion_point(s, self._list_start as int, self.list_end as int)
    }
}

/// An entry called `entry` stands for the package `name`.
pub open spec fn package_matches(entry: Seq<char>, name: Seq<char>) -> bool {
    entry == name || entry == "pkgs."@ + name
}

/// The line `add_package` writes.
pub open spec fn package_line(indent: Seq<char>, name: Seq<char>, comment: Option<Seq<char>>) -> Seq<char> {
    match comment {
        Some(c) => indent + name + " # "@ + c + "\n"@,
        None => indent + name + "\n"@,
    }
}

/// Whether the entry called `entry` stands for the package `name`.
fn package_matches_exec(entry: &str, name: &str) -> (r: bool)
    ensures
        r == package_matches(entry@, name@),
{
    if same_text(entry, name) {
        return true;
    }
    let qualified = concat("pkgs.", name);
    same_text(entry, qualified.as_str())
}

impl PackagesSection {
    /// The packages of the list, each at its latest version.
    pub fn to_packages(&self) -> (r: Vec<Package>)
        ensures
            r.len() == self.entries.len(),
            forall|i: int|
                0 <= i < r.len() ==> (#[trigger] r[i]).name@ == self.entries[i].name@
                    && is_latest(r[i].version),
    {
        let mut r: Vec<Package> = Vec::new();
        let mut i: usize = 0;
        while i < self.entries.len()
            invariant
                i <= self.entries.len(),
                r.len() == i,
                forall|k: int|
                    0 <= k < i ==> (#[trigger] r[k]).name@ == self.entries[k].name@
                        && is_latest(r[k].version),
            decreases self.entries.len() - i,
        {
            let name = self.entries[i].name.clone();
            r.push(Package::new(name));
            i = i + 1;
        }
        r
    }

    /// Finds the first entry that stands for `name`.
    fn find_package(&self, name: &str) -> (r: Option<usize>)
        ensures
            match r {
                Some(i) => i < self.entries.len() && i == self.first_match(name@) && self.has_package(
                    name@,
                ) && self.is_first_match(name@, i as int),
                None => !self.has_package(name@),
            },
    {
        let mut i: usize = 0;
        while i < self.entries.len()
            invariant
                i <= self.entries.len(),
                forall|j: int| 0 <= j < i ==> !package_matches(#[trigger] self.entries[j].name@, name@),
            decreases self.entries.len() - i,
        {
            if package_matches_exec(self.entries[i].name.as_str(), name) {
                proof {
                    let f = self.first_match(name@);
                    assert(package_matches(self.entries[i as int].name@, name@));
                    if f < i {
                        assert(!package_matches(self.entries[f].name@, name@));
                    } else if f > i {
                        assert(!package_matches(self.entries[i as int].name@, name@));
                    }
                }
                return Some(i);
            }
            i = i + 1;
        }
        None
    }

    /// Whether an entry is called `name` or `pkgs.` followed by `name`.
    pub fn package_exists(&self, name: &str) -> (r: bool)
        ensures
            r == self.has_package(name@),
    {
        self.find_package(name).is_some()
    }

    /// Adds `name` (with an optional comment) as the list's last line, with
    /// the list's indentation; a list written on one line gets a line break
    /// first.  Fails with `Duplicate` when the package is already there;
    /// nothing else of the text changes.
    pub fn add_package(&self, original_content: &str, name: &str, comment: Option<&str>) -> (r: Result<String, EditError>)
        requires
            self.fits(original_content@.len() as int),
        ensures
            self.has_package(name@) ==> r == Err::<String, EditError>(EditError::Duplicate),
            !self.has_package(name@) ==> (r matches Ok(t) && t@ == line_added(
                original_content@,
                self._list_start as int,
                self.list_end as int,
                package_line(
                    self.indentation@,
                    name@,
                    match comment {
                        Some(c) => Some(c@),
                        None => None,
                    },
                ),
            )),
            self._list_start <= self.insertion_point(original_content@) <= self.list_end,
    {
        let s = to_chars(original_content);
        proof {
            crate::text::lemma_rfind_in_bounds(s@, seq!['\n'], self._list_start as int, self.list_end as int);
        }
        if self.package_exists(name) {
            return Err(EditError::Duplicate);
        }
        let mut line = self.indentation.clone();
        line.append(name);
        match comment {
            Some(c) => {
                line.append(" # ");
                line.append(c);
            },
            None => {},
        }
        line.append("\n");
        match rfind_char(&s, '\n', self._list_start, self.list_end) {
            Some(k) => Ok(splice_exec(original_content, k + 1, k + 1, line.as_str())),
            None => {
                let mut ins = String::from_str("\n");
                ins.append(line.as_str());
                Ok(splice_exec(original_content, self.list_end, self.list_end, ins.as_str()))
            },
        }
    }

    /// Removes the line of the first entry that stands for `name`, line
    /// ending included.  Fails with `NotFound` when there is none.
    pub fn remove_package(&self, original_content: &str, name: &str) -> (r: Result<String, EditError>)
        requires
            self.fits(original_content@.len() as int),
        ensures
            !self.has_package(name@) ==> r == Err::<String, EditError>(EditError::NotFound),
            self.has_package(name@) ==> self.is_first_match(name@, self.first_match(name@)),
            self.has_package(name@) ==> (r matches Ok(t) && {
                let e = self.entries[self.first_match(name@)];
                let a = line_start(original_content@, self._list_start as int, e.start_pos as int);
                let b = cut_end(original_content@, e.start_pos as int, e.end_pos as int);
                &&& self._list_start <= a <= e.start_pos <= e.end_pos <= b <= original_content@.len()
                &&& t@ == splice(original_content@, a, b, seq![])
            }),
    {
        let s = to_chars(original_content);
        let i = match self.find_package(name) {
            Some(i) => i,
            None => {
                return Err(EditError::NotFound);
            },
        };
        Ok(remove_line(original_content, &s, self._list_start, self.entries[i].start_pos, self.entries[i].end_pos))
    }
}

/// Parses the entry whose name starts at `q`.
fn parse_package_entry(content: &str, s: &Vec<char>, q: usize) -> (e: PackageEntry)
    requires
        s@ == content@,
        q < s.len(),
        is_path_char(s@[q as int]),
    ensures
        entry_at(s@, q as int, e),
        q < e.end_pos <= s.len(),
{
    proof {
        lemma_path_end(s@, q as int);
    }
    let mut n = q;
    while n < s.len() && is_path_char_exec(s[n])
        invariant
            q <= n <= s.len(),
            path_end(s@, q as int) == path_end(s@, n as int),
        decreases s.len() - n,
    {
        n = n + 1;
    }
    let name = slice_string(content, q, n);
    let b = skip_blank_exec(s, n);
    let (comment, e) = if b < s.len() && s[b] == '#' {
        let le = line_end_exec(s, b + 1);
        let (ta, tb) = trim_bounds(s, b + 1, le);
        (Some(slice_string(content, ta, tb)), le)
    } else {
        (None, n)
    };
    let end = after_eol_exec(s, e);
    PackageEntry { name, _comment: comment, start_pos: q, end_pos: end }
}

/// Finds where the entry whose name starts at `q` ends.
pub fn package_entry_end_exec(s: &Vec<char>, q: usize) -> (r: usize)
    requires
        q < s.len(),
        is_path_char(s@[q as int]),
    ensures
        r == package_entry_end(s@, q as int),
{
    proof {
        lemma_path_end(s@, q as int);
    }
    let mut n = q;
    while n < s.len() && is_path_char_exec(s[n])
        invariant
            q <= n <= s.len(),
            path_end(s@, q as int) == path_end(s@, n as int),
        decreases s.len() - n,
    {
        n = n + 1;
    }
    let b = skip_blank_exec(s, n);
    let e = if b < s.len() && s[b] == '#' {
        line_end_exec(s, b + 1)
    } else {
        n
    };
    after_eol_exec(s, e)
}

/// Parses the package list of a profile.
///
/// Fails with `SectionNotFound` when the text holds no `packages =`, and with
/// `Malformed` when what follows is not a bracketed list closed by `];`.
pub fn parse_packages_section(content: &str) -> (r: Result<PackagesSection, EditError>)
    ensures
        match r {
            Ok(sec) => sec.parsed_from(content@) && sec.fits(content@.len() as int),
            Err(e) => layout(Shape::PackageList, content@) == Err::<(int, int, Seq<int>, int, int), EditError>(e),
        },
{
    let s = to_chars(content);
    let (start, ob, starts, close, end) = match layout_exec(Shape::PackageList, &s) {
        Ok(x) => x,
        Err(e) => {
            return Err(e);
        },
    };
    let ghost st = starts@.map_values(|x: usize| x as int);
    let mut entries: Vec<PackageEntry> = Vec::new();
    let mut i: usize = 0;
    while i < starts.len()
        invariant
            s@ == content@,
            st == starts@.map_values(|x: usize| x as int),
            scan_ordered(Shape::PackageList, s@, ob + 1, st, close as int),
            close < s.len(),
            i <= starts.len(),
            entries.len() == i,
            forall|k: int| 0 <= k < i ==> entry_at(s@, st[k], #[trigger] entries[k]),
            forall|k: int| 0 <= k < i ==> ob + 1 <= (#[trigger] entries[k]).start_pos <= entries[k].end_pos <= close,
        decreases starts.len() - i,
    {
        let q = starts[i];
        assert(st[i as int] == q);
        assert(crate::section::entry_placed(Shape::PackageList, s@, ob + 1, st, close as int, i as int));
        let e = parse_package_entry(content, &s, q);
        entries.push(e);
        i = i + 1;
    }
    let indentation = indentation_in(content, &s, ob + 1, close);
    Ok(PackagesSection {
        entries,
        indentation,
        _list_start: ob + 1,
        list_end: close,
        _section_start: start,
        _section_end: end,
    })
}

} // verus!
