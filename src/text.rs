//! Lexical primitives over the characters of a file: searching, skipping
//! whitespace, matching delimiters and splicing.
//!
//! Positions are character positions in the text (the index into `s@`).
use vstd::prelude::*;

verus! {

/// The characters of `s`, one per element.
pub fn to_chars(s: &str) -> (r: Vec<char>)
    ensures
        r@ == s@,
{
    let mut r: Vec<char> = Vec::new();
    for c in it: s.chars()
        invariant
            r@ == it.seq().subrange(0, it.index() as int),
    {
        r.push(c);
    }
    r
}

/// `pat` occurs in `s` at position `i`.
pub open spec fn matches_at(s: Seq<char>, pat: Seq<char>, i: int) -> bool {
    0 <= i && i + pat.len() <= s.len() && s.subrange(i, i + pat.len()) == pat
}

/// The first position `i >= from` at which `pat` occurs and ends at or before `to`.
pub open spec fn find_in(s: Seq<char>, pat: Seq<char>, from: int, to: int) -> Option<int>
    decreases to + 1 - from,
{
    if from + pat.len() > to {
        None
    } else if matches_at(s, pat, from) {
        Some(from)
    } else {
        find_in(s, pat, from + 1, to)
    }
}

/// The last position `i >= from` at which `pat` occurs and ends at or before `to`.
pub open spec fn rfind_in(s: Seq<char>, pat: Seq<char>, from: int, to: int) -> Option<int>
    decreases to + 1 - from,
{
    if from + pat.len() > to {
        None
    } else if matches_at(s, pat, to - pat.len()) {
        Some(to - pat.len())
    } else {
        rfind_in(s, pat, from, to - 1)
    }
}

pub proof fn lemma_find_in_bounds(s: Seq<char>, pat: Seq<char>, from: int, to: int)
    requires
        to <= s.len(),
    ensures
        find_in(s, pat, from, to) matches Some(i) ==> from <= i && i + pat.len() <= to
            && matches_at(s, pat, i),
        find_in(s, pat, from, to) is None ==> forall|j: int|
            from <= j && j + pat.len() <= to ==> !matches_at(s, pat, j),
    decreases to + 1 - from,
{
    if from + pat.len() > to {
    } else if matches_at(s, pat, from) {
    } else {
        lemma_find_in_bounds(s, pat, from + 1, to);
    }
}

pub proof fn lemma_rfind_in_bounds(s: Seq<char>, pat: Seq<char>, from: int, to: int)
    requires
        to <= s.len(),
    ensures
        rfind_in(s, pat, from, to) matches Some(i) ==> from <= i && i + pat.len() <= to
            && matches_at(s, pat, i),
    decreases to + 1 - from,
{
    if from + pat.len() > to {
    } else if matches_at(s, pat, to - pat.len()) {
    } else {
        lemma_rfind_in_bounds(s, pat, from, to - 1);
    }
}

/// Whether `pat` occurs in `s` at position `i`.
pub fn matches_at_exec(s: &Vec<char>, pat: &Vec<char>, i: usize) -> (r: bool)
    ensures
        r == matches_at(s@, pat@, i as int),
{
    if i > s.len() || pat.len() > s.len() - i {
        return false;
    }
    let mut k: usize = 0;
    while k < pat.len()
        invariant
            i + pat.len() <= s.len(),
            k <= pat.len(),
            forall|m: int| 0 <= m < k ==> s@[i + m] == pat@[m],
        decreases pat.len() - k,
    {
        if s[i + k] != pat[k] {
            assert(s@.subrange(i as int, i + pat.len())[k as int] != pat@[k as int]);
            return false;
        }
        k = k + 1;
    }
    assert(s@.subrange(i as int, i + pat.len()) =~= pat@);
    true
}

/// The first occurrence of `pat` starting at or after `from` and ending at or
/// before `to`.
pub fn find_from(s: &Vec<char>, pat: &Vec<char>, from: usize, to: usize) -> (r: Option<usize>)
    requires
        to <= s.len(),
    ensures
        match r {
            Some(i) => find_in(s@, pat@, from as int, to as int) == Some(i as int),
            None => find_in(s@, pat@, from as int, to as int) is None,
        },
        r matches Some(i) ==> from <= i && i + pat.len() <= to,
{
    proof {
        lemma_find_in_bounds(s@, pat@, from as int, to as int);
    }
    if pat.len() == 0 {
        return if from <= to {
            assert(s@.subrange(from as int, from as int) =~= pat@);
            Some(from)
        } else {
            None
        };
    }
    let mut i = from;
    while i <= to && pat.len() <= to - i
        invariant
            from <= i,
            to <= s.len(),
            pat.len() > 0,
            find_in(s@, pat@, from as int, to as int) == find_in(s@, pat@, i as int, to as int),
        decreases to - i,
    {
        if matches_at_exec(s, pat, i) {
            return Some(i);
        }
        i = i + 1;
    }
    None
}

/// The last occurrence of `pat` starting at or after `from` and ending at or
/// before `to`.
pub fn rfind_from(s: &Vec<char>, pat: &Vec<char>, from: usize, to: usize) -> (r: Option<usize>)
    requires
        to <= s.len(),
    ensures
        match r {
            Some(i) => rfind_in(s@, pat@, from as int, to as int) == Some(i as int),
            None => rfind_in(s@, pat@, from as int, to as int) is None,
        },
        r matches Some(i) ==> from <= i && i + pat.len() <= to,
{
    proof {
        lemma_rfind_in_bounds(s@, pat@, from as int, to as int);
    }
    if pat.len() == 0 {
        return if from <= to {
            assert(s@.subrange(to as int, to as int) =~= pat@);
            Some(to)
        } else {
            None
        };
    }
    let mut t = to;
    while from <= t && pat.len() <= t - from
        invariant
            t <= to,
            to <= s.len(),
            pat.len() > 0,
            rfind_in(s@, pat@, from as int, to as int) == rfind_in(s@, pat@, from as int, t as int),
        decreases t,
    {
        if matches_at_exec(s, pat, t - pat.len()) {
            return Some(t - pat.len());
        }
        t = t - 1;
    }
    None
}

/// The first occurrence of the character `c` in `s[from..to]`.
pub fn find_char(s: &Vec<char>, c: char, from: usize, to: usize) -> (r: Option<usize>)
    requires
        to <= s.len(),
    ensures
        match r {
            Some(i) => find_in(s@, seq![c], from as int, to as int) == Some(i as int),
            None => find_in(s@, seq![c], from as int, to as int) is None,
        },
        r matches Some(i) ==> from <= i < to && s@[i as int] == c,
{
    let pat = vec![c];
    assert(pat@ =~= seq![c]);
    let r = find_from(s, &pat, from, to);
    proof {
        lemma_find_in_bounds(s@, seq![c], from as int, to as int);
        if let Some(i) = r {
            assert(s@.subrange(i as int, i + 1)[0] == c);
        }
    }
    r
}

/// The last occurrence of the character `c` in `s[from..to]`.
pub fn rfind_char(s: &Vec<char>, c: char, from: usize, to: usize) -> (r: Option<usize>)
    requires
        to <= s.len(),
    ensures
        match r {
            Some(i) => rfind_in(s@, seq![c], from as int, to as int) == Some(i as int),
            None => rfind_in(s@, seq![c], from as int, to as int) is None,
        },
        r matches Some(i) ==> from <= i < to && s@[i as int] == c,
{
    let pat = vec![c];
    assert(pat@ =~= seq![c]);
    let r = rfind_from(s, &pat, from, to);
    proof {
        lemma_rfind_in_bounds(s@, seq![c], from as int, to as int);
        if let Some(i) = r {
            assert(s@.subrange(i as int, i + 1)[0] == c);
        }
    }
    r
}

/// Space or tab.
pub open spec fn is_blank(c: char) -> bool {
    c == ' ' || c == '\t'
}

/// Space, tab, carriage return or line feed.
pub open spec fn is_multi_blank(c: char) -> bool {
    c == ' ' || c == '\t' || c == '\r' || c == '\n'
}

/// ASCII whitespace.
pub open spec fn is_space(c: char) -> bool {
    c == ' ' || c == '\t' || c == '\r' || c == '\n' || c == '\x0b' || c == '\x0c'
}

/// The first position at or after `i` that does not hold a space or tab.
pub open spec fn skip_blank(s: Seq<char>, i: int) -> int
    decreases s.len() - i,
{
    if 0 <= i < s.len() && is_blank(s[i]) {
        skip_blank(s, i + 1)
    } else {
        i
    }
}

/// The first position at or after `i` that holds no whitespace of any kind,
/// line breaks included.
pub open spec fn skip_multi_blank(s: Seq<char>, i: int) -> int
    decreases s.len() - i,
{
    if 0 <= i < s.len() && is_multi_blank(s[i]) {
        skip_multi_blank(s, i + 1)
    } else {
        i
    }
}

pub proof fn lemma_skip_blank(s: Seq<char>, i: int)
    requires
        0 <= i <= s.len(),
    ensures
        i <= skip_blank(s, i) <= s.len(),
        forall|k: int| i <= k < skip_blank(s, i) ==> is_blank(s[k]),
        skip_blank(s, i) < s.len() ==> !is_blank(s[skip_blank(s, i)]),
    decreases s.len() - i,
{
    if i < s.len() && is_blank(s[i]) {
        lemma_skip_blank(s, i + 1);
    }
}

pub proof fn lemma_skip_multi_blank(s: Seq<char>, i: int)
    requires
        0 <= i <= s.len(),
    ensures
        i <= skip_multi_blank(s, i) <= s.len(),
        forall|k: int| i <= k < skip_multi_blank(s, i) ==> is_multi_blank(s[k]),
        skip_multi_blank(s, i) < s.len() ==> !is_multi_blank(s[skip_multi_blank(s, i)]),
    decreases s.len() - i,
{
    if i < s.len() && is_multi_blank(s[i]) {
        lemma_skip_multi_blank(s, i + 1);
    }
}

/// Skips spaces and tabs.
pub fn skip_blank_exec(s: &Vec<char>, i: usize) -> (r: usize)
    requires
        i <= s.len(),
    ensures
        r == skip_blank(s@, i as int),
        i <= r <= s.len(),
{
    proof {
        lemma_skip_blank(s@, i as int);
    }
    let mut k = i;
    while k < s.len() && (s[k] == ' ' || s[k] == '\t')
        invariant
            i <= k <= s.len(),
            skip_blank(s@, i as int) == skip_blank(s@, k as int),
        decreases s.len() - k,
    {
        k = k + 1;
    }
    k
}

/// Skips spaces, tabs and line breaks.
pub fn skip_multi_blank_exec(s: &Vec<char>, i: usize) -> (r: usize)
    requires
        i <= s.len(),
    ensures
        r == skip_multi_blank(s@, i as int),
        i <= r <= s.len(),
{
    proof {
        lemma_skip_multi_blank(s@, i as int);
    }
    let mut k = i;
    while k < s.len() && (s[k] == ' ' || s[k] == '\t' || s[k] == '\r' || s[k] == '\n')
        invariant
            i <= k <= s.len(),
            skip_multi_blank(s@, i as int) == skip_multi_blank(s@, k as int),
        decreases s.len() - k,
    {
        k = k + 1;
    }
    k
}

/// The first position in `a..b` that holds no whitespace, or `b`.
pub open spec fn ltrim(s: Seq<char>, a: int, b: int) -> int
    decreases b - a,
{
    if a < b && is_space(s[a]) {
        ltrim(s, a + 1, b)
    } else {
        a
    }
}

/// The end of `s[a..b]` once trailing whitespace is cut off.
pub open spec fn rtrim(s: Seq<char>, a: int, b: int) -> int
    decreases b - a,
{
    if a < b && is_space(s[b - 1]) {
        rtrim(s, a, b - 1)
    } else {
        b
    }
}

/// `s[a..b]` without leading and trailing whitespace.
pub open spec fn trimmed(s: Seq<char>, a: int, b: int) -> Seq<char> {
    s.subrange(ltrim(s, a, b), rtrim(s, ltrim(s, a, b), b))
}

pub proof fn lemma_ltrim(s: Seq<char>, a: int, b: int)
    requires
        a <= b,
    ensures
        a <= ltrim(s, a, b) <= b,
    decreases b - a,
{
    if a < b && is_space(s[a]) {
        lemma_ltrim(s, a + 1, b);
    }
}

pub proof fn lemma_rtrim(s: Seq<char>, a: int, b: int)
    requires
        a <= b,
    ensures
        a <= rtrim(s, a, b) <= b,
    decreases b - a,
{
    if a < b && is_space(s[b - 1]) {
        lemma_rtrim(s, a, b - 1);
    }
}

/// Whether `c` is ASCII whitespace.
pub fn is_space_exec(c: char) -> (r: bool)
    ensures
        r == is_space(c),
{
    c == ' ' || c == '\t' || c == '\r' || c == '\n' || c == '\x0b' || c == '\x0c'
}

/// The bounds of `s[a..b]` without leading and trailing whitespace.
pub fn trim_bounds(s: &Vec<char>, a: usize, b: usize) -> (r: (usize, usize))
    requires
        a <= b <= s.len(),
    ensures
        r.0 == ltrim(s@, a as int, b as int),
        r.1 == rtrim(s@, r.0 as int, b as int),
        a <= r.0 <= r.1 <= b,
{
    let mut i = a;
    while i < b && is_space_exec(s[i])
        invariant
            a <= i <= b <= s.len(),
            ltrim(s@, a as int, b as int) == ltrim(s@, i as int, b as int),
        decreases b - i,
    {
        i = i + 1;
    }
    let mut j = b;
    while i < j && is_space_exec(s[j - 1])
        invariant
            i <= j <= b <= s.len(),
            rtrim(s@, i as int, b as int) == rtrim(s@, i as int, j as int),
        decreases j - i,
    {
        j = j - 1;
    }
    (i, j)
}

/// The first line break at or after `i`, or the end of the text.
pub open spec fn line_end(s: Seq<char>, i: int) -> int
    decreases s.len() - i,
{
    if i < 0 || i >= s.len() || s[i] == '\n' {
        i
    } else {
        line_end(s, i + 1)
    }
}

pub proof fn lemma_line_end(s: Seq<char>, i: int)
    requires
        0 <= i <= s.len(),
    ensures
        i <= line_end(s, i) <= s.len(),
        line_end(s, i) < s.len() ==> s[line_end(s, i)] == '\n',
        forall|k: int| i <= k < line_end(s, i) ==> s[k] != '\n',
    decreases s.len() - i,
{
    if i < s.len() && s[i] != '\n' {
        lemma_line_end(s, i + 1);
    }
}

/// Finds the first line break at or after `i`, or the end of the text.
pub fn line_end_exec(s: &Vec<char>, i: usize) -> (r: usize)
    requires
        i <= s.len(),
    ensures
        r == line_end(s@, i as int),
        i <= r <= s.len(),
{
    proof {
        lemma_line_end(s@, i as int);
    }
    let mut k = i;
    while k < s.len() && s[k] != '\n'
        invariant
            i <= k <= s.len(),
            line_end(s@, i as int) == line_end(s@, k as int),
        decreases s.len() - k,
    {
        k = k + 1;
    }
    k
}

/// The position after an optional line ending (`\n` or `\r\n`) at `e`.
pub open spec fn after_eol(s: Seq<char>, e: int) -> int {
    if 0 <= e < s.len() && s[e] == '\n' {
        e + 1
    } else if 0 <= e && e + 1 < s.len() && s[e] == '\r' && s[e + 1] == '\n' {
        e + 2
    } else {
        e
    }
}

/// Steps over an optional line ending at `e`.
pub fn after_eol_exec(s: &Vec<char>, e: usize) -> (r: usize)
    requires
        e <= s.len(),
    ensures
        r == after_eol(s@, e as int),
        e <= r <= s.len(),
{
    if e < s.len() && s[e] == '\n' {
        e + 1
    } else if e < s.len() && e + 1 < s.len() && s[e] == '\r' && s[e + 1] == '\n' {
        e + 2
    } else {
        e
    }
}

/// The text of `s[a..b]` as a string.
pub fn slice_string(content: &str, a: usize, b: usize) -> (r: String)
    requires
        a <= b <= content@.len(),
    ensures
        r@ == content@.subrange(a as int, b as int),
{
    content.substring_char(a, b).to_owned()
}

/// Whitespace that does not end a line.
pub open spec fn is_inline_space(c: char) -> bool {
    is_space(c) && c != '\n'
}

/// The first position in `i..b` that holds no inline whitespace, or `b`.
pub open spec fn skip_inline_space(s: Seq<char>, i: int, b: int) -> int
    decreases b - i,
{
    if i < b && is_inline_space(s[i]) {
        skip_inline_space(s, i + 1, b)
    } else {
        i
    }
}

/// The leading whitespace `(i, j)` of the first line in `s[i..b]` that is
/// neither blank nor flush left.
pub open spec fn indent_from(s: Seq<char>, i: int, b: int) -> Option<(int, int)>
    decreases b - i,
{
    if i < 0 || i >= b {
        None
    } else {
        let j = skip_inline_space(s, i, b);
        if j < b && s[j] != '\n' && j > i {
            Some((i, j))
        } else {
            let k = line_end(s, j);
            if k < b && k >= i {
                indent_from(s, k + 1, b)
            } else {
                None
            }
        }
    }
}

/// The indentation used by the existing lines of `s[a..b]`: the leading
/// whitespace of its first indented non-blank line, or two spaces.
pub open spec fn indentation_of(s: Seq<char>, a: int, b: int) -> Seq<char> {
    match indent_from(s, a, b) {
        Some((i, j)) => s.subrange(i, j),
        None => "  "@,
    }
}

pub proof fn lemma_skip_inline_space(s: Seq<char>, i: int, b: int)
    requires
        i <= b,
    ensures
        i <= skip_inline_space(s, i, b) <= b,
    decreases b - i,
{
    if i < b && is_inline_space(s[i]) {
        lemma_skip_inline_space(s, i + 1, b);
    }
}

pub proof fn lemma_indent_from(s: Seq<char>, i: int, b: int)
    requires
        0 <= i,
        b <= s.len(),
    ensures
        indent_from(s, i, b) matches Some((x, y)) ==> i <= x <= y <= b,
    decreases b - i,
{
    if i < 0 || i >= b {
    } else {
        let j = skip_inline_space(s, i, b);
        lemma_skip_inline_space(s, i, b);
        if j < b && s[j] != '\n' && j > i {
        } else {
            let k = line_end(s, j);
            if k < b && k >= i {
                lemma_indent_from(s, k + 1, b);
            }
        }
    }
}

/// The indentation used by the lines of `s[a..b]` (see `indentation_of`).
pub fn indentation_in(content: &str, s: &Vec<char>, a: usize, b: usize) -> (r: String)
    requires
        s@ == content@,
        a <= b <= s.len(),
    ensures
        r@ == indentation_of(s@, a as int, b as int),
{
    let mut i = a;
    while i < b
        invariant
            s@ == content@,
            a <= i,
            b <= s.len(),
            indent_from(s@, a as int, b as int) == indent_from(s@, i as int, b as int),
        ensures
            indent_from(s@, a as int, b as int) is None,
        decreases b - i,
    {
        let mut j = i;
        while j < b && s[j] != '\n' && is_space_exec(s[j])
            invariant
                i <= j <= b <= s.len(),
                skip_inline_space(s@, i as int, b as int) == skip_inline_space(s@, j as int, b as int),
            decreases b - j,
        {
            j = j + 1;
        }
        if j < b && s[j] != '\n' && j > i {
            return slice_string(content, i, j);
        }
        let k = line_end_exec(s, j);
        if k < b && k >= i {
            i = k + 1;
        } else {
            assert(indent_from(s@, i as int, b as int) is None);
            break;
        }
    }
    String::from_str("  ")
}

/// The indentation used by the lines of `content`: the leading whitespace of
/// its first indented non-blank line, or two spaces when there is none.
pub fn detect_indentation(content: &str) -> (r: String)
    ensures
        r@ == indentation_of(content@, 0, content@.len() as int),
{
    let s = to_chars(content);
    indentation_in(content, &s, 0, s.len())
}

/// Whether the two texts are equal.
pub fn same_text(a: &str, b: &str) -> (r: bool)
    ensures
        r == (a@ == b@),
{
    let x = to_chars(a);
    let y = to_chars(b);
    if x.len() != y.len() {
        return false;
    }
    let mut i: usize = 0;
    while i < x.len()
        invariant
            x@ == a@,
            y@ == b@,
            x.len() == y.len(),
            i <= x.len(),
            forall|k: int| 0 <= k < i ==> x@[k] == y@[k],
        decreases x.len() - i,
    {
        if x[i] != y[i] {
            assert(x@[i as int] != y@[i as int]);
            return false;
        }
        i = i + 1;
    }
    assert(x@ =~= y@);
    true
}

/// `pfx` followed by `s`.
pub fn concat(pfx: &str, s: &str) -> (r: String)
    ensures
        r@ == pfx@ + s@,
{
    let mut r = String::from_str(pfx);
    r.append(s);
    r
}

/// The change in nesting depth that the character `c` makes.
pub open spec fn depth_step(c: char, open: char, close: char) -> int {
    if c == open {
        1
    } else if c == close {
        -1
    } else {
        0
    }
}

/// The nesting depth after scanning `s[start..i]`.
pub open spec fn depth(s: Seq<char>, start: int, i: int, open: char, close: char) -> int
    decreases i - start,
{
    if i <= start {
        0
    } else {
        depth(s, start, i - 1, open, close) + depth_step(s[i - 1], open, close)
    }
}

/// The first closing delimiter at or after `i` that brings the depth counted
/// from `start` back to zero.
pub open spec fn matching_from(s: Seq<char>, start: int, i: int, open: char, close: char) -> Option<int>
    decreases s.len() - i,
{
    if i < start || i >= s.len() {
        None
    } else if s[i] != open && s[i] == close && depth(s, start, i + 1, open, close) == 0 {
        Some(i)
    } else {
        matching_from(s, start, i + 1, open, close)
    }
}

/// The position of the delimiter that closes the one at `start`.
pub open spec fn matching_delim(s: Seq<char>, start: int, open: char, close: char) -> Option<int> {
    matching_from(s, start, start, open, close)
}

pub proof fn lemma_matching_from(s: Seq<char>, start: int, i: int, open: char, close: char)
    requires
        start <= i,
    ensures
        matching_from(s, start, i, open, close) matches Some(k) ==> i <= k < s.len() && s[k] == close,
    decreases s.len() - i,
{
    if i < start || i >= s.len() {
    } else if s[i] != open && s[i] == close && depth(s, start, i + 1, open, close) == 0 {
    } else {
        lemma_matching_from(s, start, i + 1, open, close);
    }
}

/// Finds the delimiter `close` that matches the `open` at `start`, counting
/// the nesting depth from `start` on.  Delimiters inside string literals or
/// comments are counted as well: callers use it only on text known to hold
/// none there.
pub fn find_matching_brace(s: &Vec<char>, start: usize, open: char, close: char) -> (r: Option<usize>)
    ensures
        match r {
            Some(i) => matching_delim(s@, start as int, open, close) == Some(i as int),
            None => matching_delim(s@, start as int, open, close) is None,
        },
        r matches Some(i) ==> start <= i < s.len() && s@[i as int] == close,
{
    proof {
        lemma_matching_from(s@, start as int, start as int, open, close);
    }
    let mut i = start;
    let mut opens: usize = 0;
    let mut closes: usize = 0;
    while i < s.len()
        invariant
            start <= i,
            opens + closes <= i - start,
            opens - closes == depth(s@, start as int, i as int, open, close),
            matching_delim(s@, start as int, open, close) == matching_from(
                s@,
                start as int,
                i as int,
                open,
                close,
            ),
        decreases s.len() - i,
    {
        let c = s[i];
        if c == open {
            opens = opens + 1;
        } else if c == close {
            closes = closes + 1;
            if opens == closes {
                return Some(i);
            }
        }
        i = i + 1;
    }
    None
}

/// The text `s` with the characters `a..b` replaced by `ins`.
pub open spec fn splice(s: Seq<char>, a: int, b: int, ins: Seq<char>) -> Seq<char> {
    s.subrange(0, a) + ins + s.subrange(b, s.len() as int)
}

/// Replaces the characters `a..b` of `content` by `ins`.
pub fn splice_exec(content: &str, a: usize, b: usize, ins: &str) -> (r: String)
    requires
        a <= b <= content@.len(),
    ensures
        r@ == splice(content@, a as int, b as int, ins@),
{
    let n = content.unicode_len();
    let mut r = String::new();
    r.append(content.substring_char(0, a));
    r.append(ins);
    r.append(content.substring_char(b, n));
    r
}

} // verus!
