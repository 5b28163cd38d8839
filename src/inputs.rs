//! The flake inputs: `inputs = { name.url = "url"; ... };`.
use vstd::prelude::*;
use crate::env::{
    ident_end, ident_end_exec, lemma_ident_end, lemma_string_close, string_close,
    string_close_exec,
};
use crate::error::EditError;
use crate::section::{
    cut_end, insertion_point, insertion_point_exec, layout, layout_exec, line_start, remove_line,
    scan_ordered, Shape,
};
use crate::text::{
    after_eol, after_eol_exec, indentation_in, indentation_of, lemma_skip_blank, matches_at,
    matches_at_exec, same_text, skip_blank, skip_blank_exec, slice_string, splice, splice_exec,
    to_chars,
};

verus! {

/// One `name.url = "url";` line of the inputs.
#[derive(Debug, Clone)]
pub struct InputEntry {
    pub name: String,
    pub url: String,
    /// Position of the first character of the name.
    pub start_pos: usize,
    /// Position after the entry's own line ending.
    pub end_pos: usize,
}

/// The parsed inputs together with where they stand.
#[derive(Debug)]
pub struct InputsSection {
    pub entries: Vec<InputEntry>,
    /// Position of the `inputs =` introducer.
    pub section_start: usize,
    /// Position after the opening `{`.
    pub content_start: usize,
    /// Position of the closing `}`.
    pub content_end: usize,
    /// Position after the closing `;`.
    pub section_end: usize,
    pub indentation: String,
}

/// The parts of a `name.url = "url";` entry that starts at `q` (blanks are
/// allowed around the dot): end of the name, span of the url, the position
/// after the `;`, and the end of the entry with its line ending.
pub open spec fn input_entry_parts(s: Seq<char>, q: int) -> Option<(int, int, int, int, int)> {
    let n = ident_end(s, q);
    let b1 = skip_blank(s, n);
    let b2 = skip_blank(s, b1 + 1);
    let b3 = skip_blank(s, b2 + 3);
    let b4 = skip_blank(s, b3 + 1);
    if n <= q || !(b1 < s.len() && s[b1] == '.') || !matches_at(s, "url"@, b2) || !(b3 < s.len()
        && s[b3] == '=') || !(b4 < s.len() && s[b4] == '"') {
        None
    } else {
        match string_close(s, b4 + 1) {
            None => None,
            Some(k) => {
                let b5 = skip_blank(s, k + 1);
                if b5 < s.len() && s[b5] == ';' {
                    Some((n, b4 + 1, k, b5 + 1, after_eol(s, b5 + 1)))
                } else {
                    None
                }
            },
        }
    }
}

/// Where the entry that starts at `q` ends.
pub open spec fn input_entry_end(s: Seq<char>, q: int) -> Option<int> {
    match input_entry_parts(s, q) {
        Some((_, _, _, _, e)) => Some(e),
        None => None,
    }
}

pub proof fn lemma_input_entry_parts(s: Seq<char>, q: int)
    requires
        0 <= q <= s.len(),
    ensures
        input_entry_parts(s, q) matches Some((n, us, ue, semi, e)) ==> q < n < us <= ue < semi <= e
            <= s.len(),
{
    lemma_ident_end(s, q);
    let n = ident_end(s, q);
    lemma_skip_blank(s, n);
    let b1 = skip_blank(s, n);
    if b1 < s.len() && s[b1] == '.' {
        lemma_skip_blank(s, b1 + 1);
        let b2 = skip_blank(s, b1 + 1);
        if matches_at(s, "url"@, b2) {
            reveal_strlit("url");
            lemma_skip_blank(s, b2 + 3);
            let b3 = skip_blank(s, b2 + 3);
            if b3 < s.len() {
                lemma_skip_blank(s, b3 + 1);
                let b4 = skip_blank(s, b3 + 1);
                if b4 < s.len() {
                    lemma_string_close(s, b4 + 1);
                    if let Some(k) = string_close(s, b4 + 1) {
                        lemma_skip_blank(s, k + 1);
                    }
                }
            }
        }
    }
}

pub proof fn lemma_input_entry_end(s: Seq<char>, q: int)
    requires
        0 <= q <= s.len(),
    ensures
        input_entry_end(s, q) matches Some(e) ==> q < e <= s.len(),
{
    lemma_input_entry_parts(s, q);
}

/// Parses the parts of the entry that starts at `q`.
pub fn input_entry_parts_exec(s: &Vec<char>, q: usize) -> (r: Option<(usize, usize, usize, usize, usize)>)
    requires
        q <= s.len(),
    ensures
        match r {
            Some((n, us, ue, semi, e)) => input_entry_parts(s@, q as int) == Some(
                (n as int, us as int, ue as int, semi as int, e as int),
            ),
            None => input_entry_parts(s@, q as int) is None,
        },
{
    proof {
        lemma_input_entry_parts(s@, q as int);
        reveal_strlit("url");
    }
    let url = to_chars("url");
    let n = ident_end_exec(s, q);
    let b1 = skip_blank_exec(s, n);
    if n <= q || !(b1 < s.len() && s[b1] == '.') {
        return None;
    }
    let b2 = skip_blank_exec(s, b1 + 1);
    if !matches_at_exec(s, &url, b2) {
        return None;
    }
    let b3 = skip_blank_exec(s, b2 + 3);
    if !(b3 < s.len() && s[b3] == '=') {
        return None;
    }
    let b4 = skip_blank_exec(s, b3 + 1);
    if !(b4 < s.len() && s[b4] == '"') {
        return None;
    }
    proof {
        lemma_string_close(s@, (b4 + 1) as int);
    }
    let k = match string_close_exec(s, b4 + 1) {
        Some(k) => k,
        None => {
            return None;
        },
    };
    let b5 = skip_blank_exec(s, k + 1);
    if b5 < s.len() && s[b5] == ';' {
        Some((n, b4 + 1, k, b5 + 1, after_eol_exec(s, b5 + 1)))
    } else {
        None
    }
}

/// Finds where the entry that starts at `q` ends.
pub fn input_entry_end_exec(s: &Vec<char>, q: usize) -> (r: Option<usize>)
    requires
        q <= s.len(),
    ensures
        match r {
            Some(e) => input_entry_end(s@, q as int) == Some(e as int),
            None => input_entry_end(s@, q as int) is None,
        },
{
    match input_entry_parts_exec(s, q) {
        Some((_, _, _, _, e)) => Some(e),
        None => None,
    }
}

/// The entry parsed at `q` is `e`.
pub open spec fn input_entry_at(s: Seq<char>, q: int, e: InputEntry) -> bool {
    match input_entry_parts(s, q) {
        Some((n, us, ue, _, end)) => {
            &&& e.start_pos == q
            &&& e.end_pos == end
            &&& e.name@ == s.subrange(q, n)
            &&& e.url@ == s.subrange(us, ue)
        },
        None => false,
    }
}

/// The text `name.url = "url";`.
pub open spec fn input_decl(name: Seq<char>, url: Seq<char>) -> Seq<char> {
    name + ".url = \""@ + url + "\";"@
}

impl InputsSection {
    /// These are the inputs parsed out of `s`.
    pub open spec fn parsed_from(&self, s: Seq<char>) -> bool {
        match layout(Shape::Inputs, s) {
            Ok((start, ob, starts, close, end)) => {
                &&& self.section_start == start
                &&& self.content_start == ob + 1
                &&& self.content_end == close
                &&& self.section_end == end
                &&& self.indentation@ == indentation_of(s, ob + 1, close)
                &&& self.entries.len() == starts.len()
                &&& forall|i: int|
                    0 <= i < starts.len() ==> input_entry_at(s, starts[i], #[trigger] self.entries[i])
            },
            Err(_) => false,
        }
    }

    /// Spans that fit in a text of length `n`, entries inside the body.
    pub open spec fn fits(&self, n: int) -> bool {
        &&& self.content_start <= self.content_end <= n
        &&& forall|i: int|
            0 <= i < self.entries.len() ==> self.content_start <= (#[trigger] self.entries[i]).start_pos
                <= self.entries[i].end_pos <= self.content_end
    }

    /// Whether an input is called `name`.
    pub open spec fn has_input(&self, name: Seq<char>) -> bool {
        exists|i: int| 0 <= i < self.entries.len() && #[trigger] self.entries[i].name@ == name
    }

    /// The index of the first input called `name`.
    pub open spec fn first_input(&self, name: Seq<char>) -> int
        recommends
            self.has_input(name),
    {
        choose|i: int|
            0 <= i < self.entries.len() && #[trigger] self.entries[i].name@ == name && forall|j: int|
                0 <= j < i ==> #[trigger] self.entries[j].name@ != name
    }

    /// Finds the first input called `name`.
    fn find_input(&self, name: &str) -> (r: Option<usize>)
        ensures
            match r {
                Some(i) => i < self.entries.len() && i == self.first_input(name@) && self.has_input(name@),
                None => !self.has_input(name@),
            },
    {
        let mut i: usize = 0;
        while i < self.entries.len()
            invariant
                i <= self.entries.len(),
                forall|j: int| 0 <= j < i ==> #[trigger] self.entries[j].name@ != name@,
            decreases self.entries.len() - i,
        {
            if same_text(self.entries[i].name.as_str(), name) {
                proof {
                    let f = self.first_input(name@);
                    if f < i {
                        assert(self.entries[f].name@ != name@);
                    } else if f > i {
                        assert(self.entries[i as int].name@ != name@);
                    }
                }
                return Some(i);
            }
            i = i + 1;
        }
        None
    }

    /// The names of the inputs, in order.
    pub fn to_input_names(&self) -> (r: Vec<String>)
        ensures
            r.len() == self.entries.len(),
            forall|i: int| 0 <= i < r.len() ==> (#[trigger] r[i])@ == self.entries[i].name@,
    {
        let mut r: Vec<String> = Vec::new();
        let mut i: usize = 0;
        while i < self.entries.len()
            invariant
                i <= self.entries.len(),
                r.len() == i,
                forall|k: int| 0 <= k < i ==> (#[trigger] r[k])@ == self.entries[k].name@,
            decreases self.entries.len() - i,
        {
            r.push(self.entries[i].name.clone());
            i = i + 1;
        }
        r
    }

    /// Adds `name.url = "url";` as the last line of the inputs; the text is
    /// returned unchanged when an input is already called `name`.
    pub fn add_input(&self, original_content: &str, name: &str, url: &str) -> (r: String)
        requires
            self.fits(original_content@.len() as int),
        ensures
            self.has_input(name@) ==> r@ == original_content@,
            !self.has_input(name@) ==> r@ == splice(
                original_content@,
                insertion_point(original_content@, self.content_start as int, self.content_end as int),
                insertion_point(original_content@, self.content_start as int, self.content_end as int),
                self.indentation@ + input_decl(name@, url@) + "\n"@,
            ),
    {
        if self.find_input(name).is_some() {
            return String::from_str(original_content);
        }
        let s = to_chars(original_content);
        let ip = insertion_point_exec(&s, self.content_start, self.content_end);
        let mut line = self.indentation.clone();
        line.append(name);
        line.append(".url = \"");
        line.append(url);
        line.append("\";");
        line.append("\n");
        splice_exec(original_content, ip, ip, line.as_str())
    }

    /// Removes the line of the first input called `name`, line ending
    /// included.  Fails with `NotFound` when there is none.
    pub fn remove_input(&self, original_content: &str, name: &str) -> (r: Result<String, EditError>)
        requires
            self.fits(original_content@.len() as int),
        ensures
            !self.has_input(name@) ==> r == Err::<String, EditError>(EditError::NotFound),
            self.has_input(name@) ==> (r matches Ok(t) && {
                let e = self.entries[self.first_input(name@)];
                let a = line_start(original_content@, self.content_start as int, e.start_pos as int);
                let b = cut_end(original_content@, e.start_pos as int, e.end_pos as int);
                &&& self.content_start <= a <= e.start_pos <= e.end_pos <= b <= original_content@.len()
                &&& t@ == splice(original_content@, a, b, seq![])
            }),
    {
        let s = to_chars(original_content);
        let i = match self.find_input(name) {
            Some(i) => i,
            None => {
                return Err(EditError::NotFound);
            },
        };
        Ok(remove_line(original_content, &s, self.content_start, self.entries[i].start_pos, self.entries[i].end_pos))
    }

    /// Rewrites the declaration of the first input called `name` (up to its
    /// `;`) as `name.url = "new_url";`.  Fails with `NotFound` when there is
    /// none.
    pub fn update_input(&self, original_content: &str, name: &str, new_url: &str) -> (r: Result<String, EditError>)
        requires
            self.parsed_from(original_content@),
            self.fits(original_content@.len() as int),
        ensures
            !self.has_input(name@) ==> r == Err::<String, EditError>(EditError::NotFound),
            self.has_input(name@) ==> (r matches Ok(t) && {
                let e = self.entries[self.first_input(name@)];
                input_entry_parts(original_content@, e.start_pos as int) matches Some((_, _, _, semi, _))
                    && t@ == splice(original_content@, e.start_pos as int, semi, input_decl(name@, new_url@))
            }),
    {
        let s = to_chars(original_content);
        let i = match self.find_input(name) {
            Some(i) => i,
            None => {
                return Err(EditError::NotFound);
            },
        };
        let start = self.entries[i].start_pos;
        proof {
            let ghost st = match layout(Shape::Inputs, s@) {
                Ok((_, _, starts, _, _)) => starts,
                Err(_) => seq![],
            };
            assert(input_entry_at(s@, st[i as int], self.entries[i as int]));
            lemma_input_entry_parts(s@, start as int);
        }
        let semi = match input_entry_parts_exec(&s, start) {
            Some((_, _, _, semi, _)) => semi,
            None => {
                return Err(EditError::Malformed);
            },
        };
        let mut decl = String::from_str(name);
        decl.append(".url = \"");
        decl.append(new_url);
        decl.append("\";");
        Ok(splice_exec(original_content, start, semi, decl.as_str()))
    }
}

/// Parses the entry that starts at `q`.
fn parse_input_entry(content: &str, s: &Vec<char>, q: usize) -> (r: Option<InputEntry>)
    requires
        s@ == content@,
        q <= s.len(),
    ensures
        match r {
            Some(e) => input_entry_at(s@, q as int, e),
            None => input_entry_parts(s@, q as int) is None,
        },
{
    proof {
        lemma_input_entry_parts(s@, q as int);
    }
    match input_entry_parts_exec(s, q) {
        Some((n, us, ue, _, e)) => Some(
            InputEntry {
                name: slice_string(content, q, n),
                url: slice_string(content, us, ue),
                start_pos: q,
                end_pos: e,
            },
        ),
        None => None,
    }
}

/// Parses the inputs of a flake.
///
/// Fails with `SectionNotFound` when the text holds no `inputs =`, and with
/// `Malformed` when what follows is not a braced set closed by `};`.
pub fn parse_inputs_section(content: &str) -> (r: Result<InputsSection, EditError>)
    ensures
        match r {
            Ok(sec) => sec.parsed_from(content@) && sec.fits(content@.len() as int),
            Err(e) => layout(Shape::Inputs, content@) == Err::<(int, int, Seq<int>, int, int), EditError>(e),
        },
{
    let s = to_chars(content);
    let (start, ob, starts, close, end) = match layout_exec(Shape::Inputs, &s) {
        Ok(x) => x,
        Err(e) => {
            return Err(e);
        },
    };
    let ghost st = starts@.map_values(|x: usize| x as int);
    let mut entries: Vec<InputEntry> = Vec::new();
    let mut i: usize = 0;
    while i < starts.len()
        invariant
            s@ == content@,
            st == starts@.map_values(|x: usize| x as int),
            scan_ordered(Shape::Inputs, s@, ob + 1, st, close as int),
            close < s.len(),
            i <= starts.len(),
            entries.len() == i,
            forall|k: int| 0 <= k < i ==> input_entry_at(s@, st[k], #[trigger] entries[k]),
            forall|k: int| 0 <= k < i ==> ob + 1 <= (#[trigger] entries[k]).start_pos <= entries[k].end_pos <= close,
        decreases starts.len() - i,
    {
        let q = starts[i];
        assert(st[i as int] == q);
        assert(crate::section::entry_placed(Shape::Inputs, s@, ob + 1, st, close as int, i as int));
        let e = match parse_input_entry(content, &s, q) {
            Some(e) => e,
            None => {
                return Err(EditError::Malformed);
            },
        };
        entries.push(e);
        i = i + 1;
    }
    let indentation = indentation_in(content, &s, ob + 1, close);
    Ok(InputsSection {
        entries,
        section_start: start,
        content_start: ob + 1,
        content_end: close,
        section_end: end,
        indentation,
    })
}

} // verus!
