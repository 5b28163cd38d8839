//! The environment-variable map: `envVars = { NAME = "value"; ... };`.
use vstd::prelude::*;
use crate::error::EditError;
use crate::model::EnvVar;
use crate::render::{escaped, nix_escape_string, unescape, unescaped};
use crate::section::{
    cut_end, insertion_point, insertion_point_exec, layout, layout_exec, line_start, remove_line,
    scan_ordered, Shape,
};
use crate::text::{
    after_eol, after_eol_exec, lemma_skip_blank, same_text, skip_blank, skip_blank_exec, splice,
    splice_exec, indentation_in, indentation_of, to_chars, slice_string,
};

verus! {

/// One `NAME = value;` line of the map.
#[derive(Debug, Clone)]
pub struct EnvVarEntry {
    pub name: String,
    /// The value: the text between the quotes with its backslash escapes
    /// resolved, or the bare word.
    pub value: String,
    /// Position of the first character of the name.
    pub start_pos: usize,
    /// Position after the entry's own line ending.
    pub end_pos: usize,
}

/// A parsed environment-variable map together with where it stands.
#[derive(Debug)]
pub struct EnvVarsSection {
    pub entries: Vec<EnvVarEntry>,
    /// Position after the opening `{`.
    pub _content_start: usize,
    /// Position of the closing `}`.
    pub _content_end: usize,
    pub indentation: String,
    /// Position of the `envVars =` introducer.
    pub _section_start: usize,
    /// Position after the closing `;`.
    pub _section_end: usize,
}

/// A character of an identifier.
pub open spec fn is_ident_char(c: char) -> bool {
    ('a' <= c && c <= 'z') || ('A' <= c && c <= 'Z') || ('0' <= c && c <= '9') || c == '_'
        || c == '-'
}

pub fn is_ident_char_exec(c: char) -> (r: bool)
    ensures
        r == is_ident_char(c),
{
    ('a' <= c && c <= 'z') || ('A' <= c && c <= 'Z') || ('0' <= c && c <= '9') || c == '_'
        || c == '-'
}

/// The end of the identifier that starts at `i` (`i` itself when none does).
pub open spec fn ident_end(s: Seq<char>, i: int) -> int
    decreases s.len() - i,
{
    if 0 <= i < s.len() && is_ident_char(s[i]) {
        ident_end(s, i + 1)
    } else {
        i
    }
}

pub proof fn lemma_ident_end(s: Seq<char>, i: int)
    requires
        0 <= i <= s.len(),
    ensures
        i <= ident_end(s, i) <= s.len(),
    decreases s.len() - i,
{
    if i < s.len() && is_ident_char(s[i]) {
        lemma_ident_end(s, i + 1);
    }
}

/// Finds the end of the identifier that starts at `i`.
pub fn ident_end_exec(s: &Vec<char>, i: usize) -> (r: usize)
    requires
        i <= s.len(),
    ensures
        r == ident_end(s@, i as int),
        i <= r <= s.len(),
{
    proof {
        lemma_ident_end(s@, i as int);
    }
    let mut k = i;
    while k < s.len() && is_ident_char_exec(s[k])
        invariant
            i <= k <= s.len(),
            ident_end(s@, i as int) == ident_end(s@, k as int),
        decreases s.len() - k,
    {
        k = k + 1;
    }
    k
}

/// The position of the `"` that closes a string literal whose text starts
/// at `i`; a backslash escapes the character after it.
pub open spec fn string_close(s: Seq<char>, i: int) -> Option<int>
    decreases s.len() - i,
{
    if i < 0 || i >= s.len() {
        None
    } else if s[i] == '"' {
        Some(i)
    } else if s[i] == '\\' {
        if i + 1 < s.len() {
            string_close(s, i + 2)
        } else {
            None
        }
    } else {
        string_close(s, i + 1)
    }
}

pub proof fn lemma_string_close(s: Seq<char>, i: int)
    requires
        0 <= i,
    ensures
        string_close(s, i) matches Some(k) ==> i <= k < s.len() && s[k] == '"',
    decreases s.len() - i,
{
    if i < 0 || i >= s.len() {
    } else if s[i] == '"' {
    } else if s[i] == '\\' {
        if i + 1 < s.len() {
            lemma_string_close(s, i + 2);
        }
    } else {
        lemma_string_close(s, i + 1);
    }
}

/// Finds the `"` that closes a string literal whose text starts at `i`.
pub fn string_close_exec(s: &Vec<char>, i: usize) -> (r: Option<usize>)
    requires
        i <= s.len(),
    ensures
        match r {
            Some(k) => string_close(s@, i as int) == Some(k as int),
            None => string_close(s@, i as int) is None,
        },
{
    let mut k = i;
    while k < s.len()
        invariant
            i <= k,
            string_close(s@, i as int) == string_close(s@, k as int),
        decreases s.len() - k,
    {
        if s[k] == '"' {
            return Some(k);
        } else if s[k] == '\\' {
            if k + 1 < s.len() {
                k = k + 2;
            } else {
                return None;
            }
        } else {
            k = k + 1;
        }
    }
    None
}

/// A value after `=` at `b`: a string literal or a bare identifier.  The
/// span of its text and the position after it.
pub open spec fn value_at(s: Seq<char>, b: int) -> Option<(int, int, int)> {
    if 0 <= b < s.len() && s[b] == '"' {
        match string_close(s, b + 1) {
            Some(k) => Some((b + 1, k, k + 1)),
            None => None,
        }
    } else {
        let e = ident_end(s, b);
        if e > b {
            Some((b, e, e))
        } else {
            None
        }
    }
}

/// The parts of an `NAME = value;` entry that starts at `q`: end of the
/// name, span of the value's text, and end of the entry with its line ending.
pub open spec fn env_entry_parts(s: Seq<char>, q: int) -> Option<(int, int, int, int)> {
    let n = ident_end(s, q);
    let b1 = skip_blank(s, n);
    if n <= q || !(b1 < s.len() && s[b1] == '=') {
        None
    } else {
        match value_at(s, skip_blank(s, b1 + 1)) {
            None => None,
            Some((vs, ve, after)) => {
                let b3 = skip_blank(s, after);
                if b3 < s.len() && s[b3] == ';' {
                    Some((n, vs, ve, after_eol(s, b3 + 1)))
                } else {
                    None
                }
            },
        }
    }
}

/// Where the entry that starts at `q` ends.
pub open spec fn env_entry_end(s: Seq<char>, q: int) -> Option<int> {
    match env_entry_parts(s, q) {
        Some((_, _, _, e)) => Some(e),
        None => None,
    }
}

pub proof fn lemma_env_entry_parts(s: Seq<char>, q: int)
    requires
        0 <= q <= s.len(),
    ensures
        env_entry_parts(s, q) matches Some((n, vs, ve, e)) ==> q < n <= vs <= ve < e <= s.len(),
{
    lemma_ident_end(s, q);
    let n = ident_end(s, q);
    lemma_skip_blank(s, n);
    let b1 = skip_blank(s, n);
    if n <= q || !(b1 < s.len() && s[b1] == '=') {
    } else {
        let b2 = skip_blank(s, b1 + 1);
        lemma_skip_blank(s, b1 + 1);
        if 0 <= b2 < s.len() && s[b2] == '"' {
            lemma_string_close(s, b2 + 1);
        } else {
            lemma_ident_end(s, b2);
        }
        if let Some((vs, ve, after)) = value_at(s, b2) {
            lemma_skip_blank(s, after);
        }
    }
}

pub proof fn lemma_env_entry_end(s: Seq<char>, q: int)
    requires
        0 <= q <= s.len(),
    ensures
        env_entry_end(s, q) matches Some(e) ==> q < e <= s.len(),
{
    lemma_env_entry_parts(s, q);
}

/// Parses the parts of the entry that starts at `q`.
pub fn env_entry_parts_exec(s: &Vec<char>, q: usize) -> (r: Option<(usize, usize, usize, usize)>)
    requires
        q <= s.len(),
    ensures
        match r {
            Some((n, vs, ve, e)) => env_entry_parts(s@, q as int) == Some(
                (n as int, vs as int, ve as int, e as int),
            ),
            None => env_entry_parts(s@, q as int) is None,
        },
{
    proof {
        lemma_env_entry_parts(s@, q as int);
    }
    let n = ident_end_exec(s, q);
    let b1 = skip_blank_exec(s, n);
    if n <= q || !(b1 < s.len() && s[b1] == '=') {
        return None;
    }
    let b2 = skip_blank_exec(s, b1 + 1);
    let (vs, ve, after) = if b2 < s.len() && s[b2] == '"' {
        proof {
            lemma_string_close(s@, (b2 + 1) as int);
        }
        match string_close_exec(s, b2 + 1) {
            Some(k) => (b2 + 1, k, k + 1),
            None => {
                return None;
            },
        }
    } else {
        let e = ident_end_exec(s, b2);
        if e > b2 {
            (b2, e, e)
        } else {
            return None;
        }
    };
    let b3 = skip_blank_exec(s, after);
    if b3 < s.len() && s[b3] == ';' {
        Some((n, vs, ve, after_eol_exec(s, b3 + 1)))
    } else {
        None
    }
}

/// Finds where the entry that starts at `q` ends.
pub fn env_entry_end_exec(s: &Vec<char>, q: usize) -> (r: Option<usize>)
    requires
        q <= s.len(),
    ensures
        match r {
            Some(e) => env_entry_end(s@, q as int) == Some(e as int),
            None => env_entry_end(s@, q as int) is None,
        },
{
    match env_entry_parts_exec(s, q) {
        Some((_, _, _, e)) => Some(e),
        None => None,
    }
}

/// The entry parsed at `q` is `e`.
pub open spec fn env_entry_at(s: Seq<char>, q: int, e: EnvVarEntry) -> bool {
    match env_entry_parts(s, q) {
        Some((n, vs, ve, end)) => {
            &&& e.start_pos == q
            &&& e.end_pos == end
            &&& e.name@ == s.subrange(q, n)
            &&& e.value@ == unescaped(s.subrange(vs, ve))
        },
        None => false,
    }
}

/// The line `add_env_var` writes.
pub open spec fn env_line(indent: Seq<char>, name: Seq<char>, value: Seq<char>) -> Seq<char> {
    indent + name + " = \""@ + escaped(value) + "\";\n"@
}

impl EnvVarsSection {
    /// This section is the map parsed out of `s`.
    pub open spec fn parsed_from(&self, s: Seq<char>) -> bool {
        match layout(Shape::EnvVars, s) {
            Ok((start, ob, starts, close, end)) => {
                &&& self._section_start == start
                &&& self._content_start == ob + 1
                &&& self._content_end == close
                &&& self._section_end == end
                &&& self.indentation@ == indentation_of(s, ob + 1, close)
                &&& self.entries.len() == starts.len()
                &&& forall|i: int|
                    0 <= i < starts.len() ==> env_entry_at(s, starts[i], #[trigger] self.entries[i])
            },
            Err(_) => false,
        }
    }

    /// Spans that fit in a text of length `n`, entries inside the body.
    pub open spec fn fits(&self, n: int) -> bool {
        &&& self._content_start <= self._content_end <= n
        &&& forall|i: int|
            0 <= i < self.entries.len() ==> self._content_start <= (#[trigger] self.entries[i]).start_pos
                <= self.entries[i].end_pos <= self._content_end
    }

    /// Whether a variable is called `name`.
    pub open spec fn has_var(&self, name: Seq<char>) -> bool {
        exists|i: int| 0 <= i < self.entries.len() && #[trigger] self.entries[i].name@ == name
    }

    /// The index of the first variable called `name`.
    pub open spec fn first_var(&self, name: Seq<char>) -> int
        recommends
            self.has_var(name),
    {
        choose|i: int|
            0 <= i < self.entries.len() && #[trigger] self.entries[i].name@ == name && forall|j: int|
                0 <= j < i ==> #[trigger] self.entries[j].name@ != name
    }

    /// Finds the first variable called `name`.
    fn find_var(&self, name: &str) -> (r: Option<usize>)
        ensures
            match r {
                Some(i) => i < self.entries.len() && i == self.first_var(name@) && self.has_var(name@),
                None => !self.has_var(name@),
            },
    {
        let mut i: usize = 0;
        while i < self.entries.len()
            invariant
                i <= self.entries.len(),
                forall|j: int| 0 <= j < i ==> #[trigger] self.entries[j].name@ != name@,
            decreases self.entries.len() - i,
        {
            if same_text(self.entries[i].name.as_str(), name) {
                proof {
                    let f = self.first_var(name@);
                    assert(self.entries[i as int].name@ == name@);
                    if f < i {
                        assert(self.entries[f].name@ != name@);
                    } else if f > i {
                        assert(self.entries[i as int].name@ != name@);
                    }
                }
                return Some(i);
            }
            i = i + 1;
        }
        None
    }

    /// The variables of the map, in order.
    pub fn to_env_vars(&self) -> (r: Vec<EnvVar>)
        ensures
            r.len() == self.entries.len(),
            forall|i: int|
                0 <= i < r.len() ==> (#[trigger] r[i]).name@ == self.entries[i].name@ && r[i].value@
                    == self.entries[i].value@,
    {
        let mut r: Vec<EnvVar> = Vec::new();
        let mut i: usize = 0;
        while i < self.entries.len()
            invariant
                i <= self.entries.len(),
                r.len() == i,
                forall|k: int|
                    0 <= k < i ==> (#[trigger] r[k]).name@ == self.entries[k].name@ && r[k].value@
                        == self.entries[k].value@,
            decreases self.entries.len() - i,
        {
            r.push(EnvVar::new(self.entries[i].name.clone(), self.entries[i].value.clone()));
            i = i + 1;
        }
        r
    }

    /// Adds `name = "value";` as the map's last line, the value escaped.
    /// Fails with `Duplicate` when a variable is already called `name`.
    pub fn add_env_var(&self, original_content: &str, name: &str, value: &str) -> (r: Result<String, EditError>)
        requires
            self.fits(original_content@.len() as int),
        ensures
            self.has_var(name@) ==> r == Err::<String, EditError>(EditError::Duplicate),
            !self.has_var(name@) ==> (r matches Ok(t) && t@ == splice(
                original_content@,
                insertion_point(original_content@, self._content_start as int, self._content_end as int),
                insertion_point(original_content@, self._content_start as int, self._content_end as int),
                env_line(self.indentation@, name@, value@),
            )),
    {
        let s = to_chars(original_content);
        let ip = insertion_point_exec(&s, self._content_start, self._content_end);
        if self.find_var(name).is_some() {
            return Err(EditError::Duplicate);
        }
        let mut line = self.indentation.clone();
        line.append(name);
        line.append(" = \"");
        line.append(nix_escape_string(value).as_str());
        line.append("\";\n");
        Ok(splice_exec(original_content, ip, ip, line.as_str()))
    }

    /// Removes the line of the first variable called `name`, line ending
    /// included.  Fails with `NotFound` when there is none.
    pub fn remove_env_var(&self, original_content: &str, name: &str) -> (r: Result<String, EditError>)
        requires
            self.fits(original_content@.len() as int),
        ensures
            !self.has_var(name@) ==> r == Err::<String, EditError>(EditError::NotFound),
            self.has_var(name@) ==> (r matches Ok(t) && {
                let e = self.entries[self.first_var(name@)];
                let a = line_start(original_content@, self._content_start as int, e.start_pos as int);
                let b = cut_end(original_content@, e.start_pos as int, e.end_pos as int);
                &&& self._content_start <= a <= e.start_pos <= e.end_pos <= b <= original_content@.len()
                &&& t@ == splice(original_content@, a, b, seq![])
            }),
    {
        let s = to_chars(original_content);
        let i = match self.find_var(name) {
            Some(i) => i,
            None => {
                return Err(EditError::NotFound);
            },
        };
        Ok(remove_line(original_content, &s, self._content_start, self.entries[i].start_pos, self.entries[i].end_pos))
    }

    /// Whether a variable is called `name`.
    pub fn env_var_exists(&self, name: &str) -> (r: Result<bool, EditError>)
        ensures
            r == Ok::<bool, EditError>(self.has_var(name@)),
    {
        Ok(self.find_var(name).is_some())
    }
}

/// Parses the entry that starts at `q`.
fn parse_env_entry(content: &str, s: &Vec<char>, q: usize) -> (r: Option<EnvVarEntry>)
    requires
        s@ == content@,
        q <= s.len(),
    ensures
        match r {
            Some(e) => env_entry_at(s@, q as int, e),
            None => env_entry_parts(s@, q as int) is None,
        },
{
    proof {
        lemma_env_entry_parts(s@, q as int);
    }
    match env_entry_parts_exec(s, q) {
        Some((n, vs, ve, e)) => Some(
            EnvVarEntry {
                name: slice_string(content, q, n),
                value: unescape(content.substring_char(vs, ve)),
                start_pos: q,
                end_pos: e,
            },
        ),
        None => None,
    }
}

/// Parses the environment-variable map of a profile.
///
/// Fails with `SectionNotFound` when the text holds no `envVars =`, and with
/// `Malformed` when what follows is not a braced map closed by `};`.
pub fn parse_env_vars_section(content: &str) -> (r: Result<EnvVarsSection, EditError>)
    ensures
        match r {
            Ok(sec) => sec.parsed_from(content@) && sec.fits(content@.len() as int),
            Err(e) => layout(Shape::EnvVars, content@) == Err::<(int, int, Seq<int>, int, int), EditError>(e),
        },
{
    let s = to_chars(content);
    let (start, ob, starts, close, end) = match layout_exec(Shape::EnvVars, &s) {
        Ok(x) => x,
        Err(e) => {
            return Err(e);
        },
    };
    let ghost st = starts@.map_values(|x: usize| x as int);
    let mut entries: Vec<EnvVarEntry> = Vec::new();
    let mut i: usize = 0;
    while i < starts.len()
        invariant
            s@ == content@,
            st == starts@.map_values(|x: usize| x as int),
            scan_ordered(Shape::EnvVars, s@, ob + 1, st, close as int),
            close < s.len(),
            i <= starts.len(),
            entries.len() == i,
            forall|k: int| 0 <= k < i ==> env_entry_at(s@, st[k], #[trigger] entries[k]),
            forall|k: int| 0 <= k < i ==> ob + 1 <= (#[trigger] entries[k]).start_pos <= entries[k].end_pos <= close,
        decreases starts.len() - i,
    {
        let q = starts[i];
        assert(st[i as int] == q);
        assert(crate::section::entry_placed(Shape::EnvVars, s@, ob + 1, st, close as int, i as int));
        let e = match parse_env_entry(content, &s, q) {
            Some(e) => e,
            None => {
                return Err(EditError::Malformed);
            },
        };
        entries.push(e);
        i = i + 1;
    }
    let indentation = indentation_in(content, &s, ob + 1, close);
    Ok(EnvVarsSection {
        entries,
        _content_start: ob + 1,
        _content_end: close,
        indentation,
        _section_start: start,
        _section_end: end,
    })
}

} // verus!
