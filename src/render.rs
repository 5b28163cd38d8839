//! Rendering values as Nix source text.
use vstd::prelude::*;
use crate::text::{line_end, line_end_exec, lemma_line_end, to_chars};

verus! {

/// How one character is written inside a double-quoted string.
pub open spec fn escape_char(c: char) -> Seq<char> {
    if c == '\\' {
        "\\\\"@
    } else if c == '"' {
        "\\\""@
    } else if c == '\n' {
        "\\n"@
    } else if c == '\r' {
        "\\r"@
    } else if c == '\t' {
        "\\t"@
    } else {
        seq![c]
    }
}

/// `s` escaped for a double-quoted string: backslash, quote, line feed,
/// carriage return and tab get a backslash escape.
pub open spec fn escaped(s: Seq<char>) -> Seq<char>
    decreases s.len(),
{
    if s.len() == 0 {
        seq![]
    } else {
        escaped(s.drop_last()) + escape_char(s.last())
    }
}

/// The character a backslash escape `\\c` stands for.
pub open spec fn unescape_char(c: char) -> char {
    if c == 'n' {
        '\n'
    } else if c == 'r' {
        '\r'
    } else if c == 't' {
        '\t'
    } else {
        c
    }
}

/// The text a double-quoted string's contents `v` stand for: each
/// backslash escape replaced by the character it stands for.
pub open spec fn unescaped(v: Seq<char>) -> Seq<char>
    decreases v.len(),
{
    if v.len() == 0 {
        seq![]
    } else if v[0] == '\\' && v.len() >= 2 {
        seq![unescape_char(v[1])] + unescaped(v.subrange(2, v.len() as int))
    } else {
        seq![v[0]] + unescaped(v.subrange(1, v.len() as int))
    }
}

/// Escaping a non-empty text escapes its first character, then the rest.
pub proof fn lemma_escaped_front(v: Seq<char>)
    requires
        v.len() > 0,
    ensures
        escaped(v) == escape_char(v[0]) + escaped(v.drop_first()),
    decreases v.len(),
{
    if v.len() == 1 {
        assert(v.drop_last() =~= Seq::<char>::empty());
        assert(v.drop_first() =~= Seq::<char>::empty());
        assert(escaped(v) =~= escape_char(v[0]) + escaped(v.drop_first()));
    } else {
        lemma_escaped_front(v.drop_last());
        assert(v.drop_last().drop_first() =~= v.drop_first().drop_last());
        assert(v.drop_first().last() == v.last());
        assert(escaped(v) =~= escape_char(v[0]) + escaped(v.drop_first()));
    }
}

/// Unescaping an escaped text gives the text back.
pub proof fn lemma_unescape_escaped(v: Seq<char>)
    ensures
        unescaped(escaped(v)) == v,
    decreases v.len(),
{
    reveal_strlit("\\\\");
    reveal_strlit("\\\"");
    reveal_strlit("\\n");
    reveal_strlit("\\r");
    reveal_strlit("\\t");
    if v.len() == 0 {
    } else {
        lemma_escaped_front(v);
        lemma_unescape_escaped(v.drop_first());
        let e = escaped(v);
        let c = v[0];
        let head = escape_char(c);
        if head.len() == 2 {
            assert(e.subrange(2, e.len() as int) =~= escaped(v.drop_first()));
        } else {
            assert(e.subrange(1, e.len() as int) =~= escaped(v.drop_first()));
        }
        assert(v =~= seq![c] + v.drop_first());
    }
}

/// Unescapes the contents `v` of a double-quoted string.
pub fn unescape(v: &str) -> (r: String)
    ensures
        r@ == unescaped(v@),
{
    let cs = to_chars(v);
    let mut out = String::new();
    let mut i: usize = 0;
    assert(v@.subrange(0, v@.len() as int) =~= v@);
    assert(out@ + unescaped(v@) =~= unescaped(v@));
    while i < cs.len()
        invariant
            cs@ == v@,
            i <= cs.len(),
            unescaped(v@) == out@ + unescaped(v@.subrange(i as int, v@.len() as int)),
        decreases cs.len() - i,
    {
        let ghost rest = v@.subrange(i as int, v@.len() as int);
        let ghost before = out@;
        if cs[i] == '\\' && i + 1 < cs.len() {
            let c = cs[i + 1];
            if c == 'n' {
                out.append("\n");
            } else if c == 'r' {
                out.append("\r");
            } else if c == 't' {
                out.append("\t");
            } else {
                out.append(v.substring_char(i + 1, i + 2));
                assert(v@.subrange(i + 1, i + 2) =~= seq![c]);
            }
            proof {
                reveal_strlit("\n");
                reveal_strlit("\r");
                reveal_strlit("\t");
                assert(rest.subrange(2, rest.len() as int) =~= v@.subrange(i + 2, v@.len() as int));
                assert(out@ =~= before + seq![unescape_char(c)]);
            }
            i = i + 2;
        } else {
            out.append(v.substring_char(i, i + 1));
            proof {
                assert(v@.subrange(i as int, i + 1) =~= seq![cs@[i as int]]);
                assert(rest.subrange(1, rest.len() as int) =~= v@.subrange(i + 1, v@.len() as int));
            }
            i = i + 1;
        }
    }
    assert(v@.subrange(i as int, v@.len() as int) =~= Seq::<char>::empty());
    out
}

/// Escapes `s` for a double-quoted string.
pub fn nix_escape_string(s: &str) -> (r: String)
    ensures
        r@ == escaped(s@),
{
    let cs = to_chars(s);
    let mut out = String::new();
    let mut i: usize = 0;
    while i < cs.len()
        invariant
            cs@ == s@,
            i <= cs.len(),
            out@ == escaped(s@.subrange(0, i as int)),
        decreases cs.len() - i,
    {
        let c = cs[i];
        if c == '\\' {
            out.append("\\\\");
        } else if c == '"' {
            out.append("\\\"");
        } else if c == '\n' {
            out.append("\\n");
        } else if c == '\r' {
            out.append("\\r");
        } else if c == '\t' {
            out.append("\\t");
        } else {
            out.append(s.substring_char(i, i + 1));
            assert(s@.subrange(i as int, i + 1) =~= seq![c]);
        }
        assert(s@.subrange(0, i + 1).drop_last() =~= s@.subrange(0, i as int));
        i = i + 1;
    }
    assert(s@.subrange(0, cs.len() as int) =~= s@);
    out
}

/// `s` as a double-quoted Nix string.
pub fn nix_string(s: &str) -> (r: String)
    ensures
        r@ == "\""@ + escaped(s@) + "\""@,
{
    let mut r = String::from_str("\"");
    r.append(nix_escape_string(s).as_str());
    r.append("\"");
    r
}

/// A character that may start a bare attribute name.
pub open spec fn is_key_start(c: char) -> bool {
    ('a' <= c && c <= 'z') || ('A' <= c && c <= 'Z') || c == '_'
}

/// A character that may follow the first one in a bare attribute name.
pub open spec fn is_key_char(c: char) -> bool {
    ('a' <= c && c <= 'z') || ('A' <= c && c <= 'Z') || ('0' <= c && c <= '9') || c == '_'
        || c == '\'' || c == '-'
}

/// `key` can be written as a bare attribute name.
pub open spec fn is_bare_key(key: Seq<char>) -> bool {
    key.len() > 0 && is_key_start(key[0]) && forall|i: int| 1 <= i < key.len() ==> is_key_char(#[trigger] key[i])
}

/// `key` as an attribute name: bare when it is a plain identifier, quoted
/// otherwise (`"pkgs-f720de5"` keeps its dash, `"a b"` needs the quotes).
pub fn nix_attr_key(key: &str) -> (r: String)
    ensures
        is_bare_key(key@) ==> r@ == key@,
        !is_bare_key(key@) ==> r@ == "\""@ + escaped(key@) + "\""@,
{
    let cs = to_chars(key);
    let mut ok = cs.len() > 0;
    if ok {
        let c = cs[0];
        ok = ('a' <= c && c <= 'z') || ('A' <= c && c <= 'Z') || c == '_';
    }
    let mut i: usize = 1;
    while ok && i < cs.len()
        invariant
            cs@ == key@,
            1 <= i,
            ok ==> cs.len() > 0 && is_key_start(cs@[0]) && forall|k: int| 1 <= k < i && k < cs.len() ==> is_key_char(#[trigger] cs@[k]),
            !ok ==> !is_bare_key(key@),
        decreases cs.len() - i,
    {
        let c = cs[i];
        ok = ('a' <= c && c <= 'z') || ('A' <= c && c <= 'Z') || ('0' <= c && c <= '9') || c == '_'
            || c == '\'' || c == '-';
        i = i + 1;
    }
    if ok {
        String::from_str(key)
    } else {
        nix_string(key)
    }
}

/// `s` repeated `n` times.
pub open spec fn repeat(s: Seq<char>, n: nat) -> Seq<char>
    decreases n,
{
    if n == 0 {
        seq![]
    } else {
        repeat(s, (n - 1) as nat) + s
    }
}

/// Appends `indent` to `out` `level` times.
pub fn indent_line(out: &mut String, indent: &str, level: usize)
    ensures
        final(out)@ == old(out)@ + repeat(indent@, level as nat),
{
    let mut k: usize = 0;
    while k < level
        invariant
            k <= level,
            out@ == old(out)@ + repeat(indent@, k as nat),
        decreases level - k,
    {
        out.append(indent);
        assert(old(out)@ + repeat(indent@, k as nat) + indent@ =~= old(out)@ + repeat(indent@, (k + 1) as nat));
        k = k + 1;
    }
}

/// The spans of the lines of `s` from `i` on, as `str::lines` splits them:
/// at each line feed, a carriage return before it dropped, with no empty
/// line after a final line feed.
pub open spec fn lines_from(s: Seq<char>, i: int) -> Seq<(int, int)>
    decreases s.len() - i,
{
    if i < 0 || i >= s.len() {
        seq![]
    } else {
        let k = line_end(s, i);
        let e = if k < s.len() && k > i && s[k - 1] == '\r' {
            k - 1
        } else {
            k
        };
        if k < s.len() && k >= i {
            seq![(i, e)] + lines_from(s, k + 1)
        } else {
            seq![(i, e)]
        }
    }
}

/// The text of each line of `s`.
pub open spec fn lines(s: Seq<char>) -> Seq<Seq<char>> {
    lines_from(s, 0).map_values(|p: (int, int)| s.subrange(p.0, p.1))
}

/// The spans of the lines of `s`.
pub fn line_spans(s: &Vec<char>) -> (r: Vec<(usize, usize)>)
    ensures
        r@.map_values(|p: (usize, usize)| (p.0 as int, p.1 as int)) == lines_from(s@, 0),
        forall|k: int| 0 <= k < r.len() ==> (#[trigger] r[k]).0 <= r[k].1 <= s.len(),
{
    let mut r: Vec<(usize, usize)> = Vec::new();
    let mut i: usize = 0;
    while i < s.len()
        invariant
            i <= s.len(),
            lines_from(s@, 0) == r@.map_values(|p: (usize, usize)| (p.0 as int, p.1 as int)) + lines_from(s@, i as int),
            forall|k: int| 0 <= k < r.len() ==> (#[trigger] r[k]).0 <= r[k].1 <= s.len(),
        decreases s.len() - i,
    {
        proof {
            lemma_line_end(s@, i as int);
        }
        let k = line_end_exec(s, i);
        let e = if k < s.len() && k > i && s[k - 1] == '\r' {
            k - 1
        } else {
            k
        };
        let ghost before = r@.map_values(|p: (usize, usize)| (p.0 as int, p.1 as int));
        r.push((i, e));
        assert(r@.map_values(|p: (usize, usize)| (p.0 as int, p.1 as int)) =~= before.push((i as int, e as int)));
        if k < s.len() {
            assert(before + (seq![(i as int, e as int)] + lines_from(s@, k + 1)) =~= before.push((i as int, e as int)) + lines_from(s@, k + 1));
            i = k + 1;
        } else {
            assert(before + seq![(i as int, e as int)] =~= before.push((i as int, e as int)) + lines_from(s@, s.len() as int));
            i = s.len();
        }
    }
    assert(lines_from(s@, i as int) =~= seq![]);
    assert(r@.map_values(|p: (usize, usize)| (p.0 as int, p.1 as int)) + seq![] =~= r@.map_values(|p: (usize, usize)| (p.0 as int, p.1 as int)));
    r
}

/// The body of a multi-line string: each line on its own, indented.
pub open spec fn multiline_body(ls: Seq<Seq<char>>, inner: Seq<char>) -> Seq<char>
    decreases ls.len(),
{
    if ls.len() == 0 {
        seq![]
    } else {
        multiline_body(ls.drop_last(), inner) + inner + ls.last() + "\n"@
    }
}

/// `s` as an indented multi-line Nix string (`'' ... ''`) at nesting `level`.
pub open spec fn multiline_of(s: Seq<char>, indent: Seq<char>, level: nat) -> Seq<char> {
    if lines(s).len() == 0 {
        "''''"@
    } else {
        "''\n"@ + multiline_body(lines(s), repeat(indent, level + 1)) + repeat(indent, level) + "''"@
    }
}

/// Renders `s` as an indented multi-line Nix string at nesting `level`:
/// each line indented one level deeper, the closing `''` at `level`.
pub fn nix_multiline_string(s: &str, indent: &str, level: usize) -> (r: String)
    requires
        level < usize::MAX,
    ensures
        r@ == multiline_of(s@, indent@, level as nat),
{
    let cs = to_chars(s);
    let spans = line_spans(&cs);
    let ghost ls = lines(s@);
    if spans.len() == 0 {
        assert(ls.len() == 0);
        return String::from_str("''''");
    }
    let mut inner = String::new();
    indent_line(&mut inner, indent, level + 1);
    let mut out = String::from_str("''\n");
    let mut k: usize = 0;
    while k < spans.len()
        invariant
            cs@ == s@,
            ls == lines(s@),
            spans@.map_values(|p: (usize, usize)| (p.0 as int, p.1 as int)) == lines_from(s@, 0),
            forall|m: int| 0 <= m < spans.len() ==> (#[trigger] spans[m]).0 <= spans[m].1 <= cs.len(),
            inner@ == repeat(indent@, (level + 1) as nat),
            k <= spans.len(),
            out@ == "''\n"@ + multiline_body(ls.subrange(0, k as int), inner@),
        decreases spans.len() - k,
    {
        let (a, b) = spans[k];
        assert(spans@.map_values(|p: (usize, usize)| (p.0 as int, p.1 as int))[k as int] == (a as int, b as int));
        out.append(inner.as_str());
        out.append(s.substring_char(a, b));
        out.append("\n");
        assert(ls[k as int] == s@.subrange(a as int, b as int));
        assert(ls.subrange(0, k + 1).drop_last() =~= ls.subrange(0, k as int));
        k = k + 1;
    }
    assert(ls.subrange(0, k as int) =~= ls);
    indent_line(&mut out, indent, level);
    out.append("''");
    out
}

} // verus!
