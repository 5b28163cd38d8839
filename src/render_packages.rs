//! Rendering a package list wholesale, and reading it back.
use vstd::prelude::*;
use crate::laws::{
    lemma_line_end_run, lemma_path_end_run, lemma_skip_blank_run, lemma_skip_multi_blank_run,
};
use crate::packages::{
    comment_span, entry_at, is_path_char, package_entry_comment, package_entry_end, path_end,
    PackageEntry, PackagesSection,
};
use crate::section::{entry_end, layout, open_pos, scan, with_pkgs, Shape};
use crate::text::{find_in, is_blank, is_multi_blank, is_space, ltrim, matches_at, trimmed};

verus! {

/// The comment text, if any.
pub open spec fn comment_view(c: Option<String>) -> Option<Seq<char>> {
    match c {
        Some(c) => Some(c@),
        None => None,
    }
}

/// The line that renders a package and its comment.
pub open spec fn package_entry_line(indent: Seq<char>, name: Seq<char>, comment: Option<Seq<char>>) -> Seq<char> {
    match comment {
        Some(k) => indent + name + " # "@ + k + "\n"@,
        None => indent + name + "\n"@,
    }
}

/// The lines that render the packages `es`, in order.
pub open spec fn package_lines(es: Seq<(Seq<char>, Option<Seq<char>>)>, indent: Seq<char>) -> Seq<char>
    decreases es.len(),
{
    if es.len() == 0 {
        seq![]
    } else {
        package_entry_line(indent, es[0].0, es[0].1) + package_lines(es.drop_first(), indent)
    }
}

/// The whole list rendering the packages `es`.
pub open spec fn rendered_packages(es: Seq<(Seq<char>, Option<Seq<char>>)>, indent: Seq<char>) -> Seq<char> {
    "packages = with pkgs; [\n"@ + package_lines(es, indent) + "];"@
}

/// The names and comments of `entries`.
pub open spec fn package_pairs(entries: Seq<PackageEntry>) -> Seq<(Seq<char>, Option<Seq<char>>)> {
    entries.map_values(|e: PackageEntry| (e.name@, comment_view(e._comment)))
}

/// Renders the packages as a `packages = with pkgs; [ ... ];` list, one per
/// line, each with its comment.
pub fn render_packages(entries: &Vec<PackageEntry>, indent: &str) -> (r: String)
    ensures
        r@ == rendered_packages(package_pairs(entries@), indent@),
{
    let mut out = String::from_str("packages = with pkgs; [\n");
    let ghost es = package_pairs(entries@);
    let mut i: usize = entries.len();
    let mut lines = String::new();
    while i > 0
        invariant
            i <= entries.len(),
            es == package_pairs(entries@),
            lines@ == package_lines(es.subrange(i as int, es.len() as int), indent@),
        decreases i,
    {
        i = i - 1;
        let mut line = String::from_str(indent);
        line.append(entries[i].name.as_str());
        match &entries[i]._comment {
            Some(c) => {
                line.append(" # ");
                line.append(c.as_str());
            },
            None => {},
        }
        line.append("\n");
        line.append(lines.as_str());
        assert(es.subrange(i as int, es.len() as int).drop_first() =~= es.subrange(i + 1, es.len() as int));
        assert(es[i as int] == (entries@[i as int].name@, comment_view(entries@[i as int]._comment)));
        lines = line;
    }
    assert(es.subrange(0, es.len() as int) =~= es);
    out.append(lines.as_str());
    out.append("];");
    out
}

/// A name and comment a list can hold: the name a non-empty attribute path,
/// the comment on one line, without surrounding whitespace.
pub open spec fn listable(e: (Seq<char>, Option<Seq<char>>)) -> bool {
    &&& e.0.len() > 0
    &&& forall|k: int| 0 <= k < e.0.len() ==> is_path_char(#[trigger] e.0[k])
    &&& match e.1 {
        Some(c) => (forall|k: int| 0 <= k < c.len() ==> #[trigger] c[k] != '\n') && (c.len() > 0 ==> !is_space(
            c[0],
        ) && !is_space(c[c.len() - 1])),
        None => true,
    }
}

/// The entry at `q` reads as the package `e`.
pub open spec fn package_reads(r: Seq<char>, q: int, e: (Seq<char>, Option<Seq<char>>)) -> bool {
    &&& entry_end(Shape::PackageList, r, q) is Some
    &&& r.subrange(q, path_end(r, q)) == e.0
    &&& package_entry_comment(r, q) == e.1
}

/// The starts of the entries of `package_lines(es, indent)` put at `base`.
pub open spec fn package_starts(es: Seq<(Seq<char>, Option<Seq<char>>)>, indent: Seq<char>, base: int) -> Seq<int>
    decreases es.len(),
{
    if es.len() == 0 {
        seq![]
    } else {
        seq![base + indent.len()] + package_starts(
            es.drop_first(),
            indent,
            base + package_entry_line(indent, es[0].0, es[0].1).len(),
        )
    }
}

proof fn lemma_ltrim_run(s: Seq<char>, a: int, r: int, b: int)
    requires
        0 <= a <= r <= b <= s.len(),
        forall|k: int| a <= k < r ==> is_space(#[trigger] s[k]),
        r == b || !is_space(s[r]),
    ensures
        ltrim(s, a, b) == r,
    decreases r - a,
{
    if a < r {
        lemma_ltrim_run(s, a + 1, r, b);
    }
}

/// The characters of a rendered package line put at `base`, and how its
/// entry reads.
#[verifier::rlimit(100)]
proof fn lemma_package_line(r: Seq<char>, base: int, indent: Seq<char>, e: (Seq<char>, Option<Seq<char>>))
    requires
        0 <= base,
        base + package_entry_line(indent, e.0, e.1).len() <= r.len(),
        r.subrange(base, base + package_entry_line(indent, e.0, e.1).len()) == package_entry_line(indent, e.0, e.1),
        listable(e),
    ensures
        forall|k: int| base <= k < base + indent.len() ==> #[trigger] r[k] == indent[k - base],
        r[base + indent.len()] == e.0[0],
        package_entry_end(r, base + indent.len()) == base + package_entry_line(indent, e.0, e.1).len(),
        package_reads(r, base + indent.len(), e),
{
    reveal_strlit(" # ");
    reveal_strlit("\n");
    let (name, comment) = e;
    let line = package_entry_line(indent, name, comment);
    let q = base + indent.len();
    let ne = q + name.len();
    assert forall|k: int| base <= k < base + line.len() implies #[trigger] r[k] == line[k - base] by {
        assert(r.subrange(base, base + line.len())[k - base] == r[k]);
    }
    assert forall|k: int| q <= k < ne implies is_path_char(#[trigger] r[k]) by {
        assert(r[k] == line[k - base]);
        assert(line[k - base] == name[k - q]);
    }
    assert forall|k: int| base <= k < q implies #[trigger] r[k] == indent[k - base] by {
        assert(r[k] == line[k - base]);
    }
    assert(r[q] == line[q - base]);
    assert(r[ne] == line[ne - base]);
    assert(entry_end(Shape::PackageList, r, q) is Some);
    match comment {
        None => {
            assert(r[ne] == '\n');
            lemma_path_end_run(r, q, ne);
            lemma_skip_blank_run(r, ne, ne);
            assert(comment_span(r, ne) is None);
        },
        Some(c) => {
            assert(r[ne + 1] == line[ne + 1 - base]);
            assert(r[ne + 2] == line[ne + 2 - base]);
            assert(r[ne] == ' ' && r[ne + 1] == '#' && r[ne + 2] == ' ');
            lemma_path_end_run(r, q, ne);
            lemma_skip_blank_run(r, ne, ne + 1);
            let le = ne + 3 + c.len();
            assert(r[le] == line[le - base]);
            assert forall|k: int| ne + 2 <= k < le implies #[trigger] r[k] != '\n' by {
                assert(r[k] == line[k - base]);
                if k > ne + 2 {
                    assert(line[k - base] == c[k - ne - 3]);
                }
            }
            lemma_line_end_run(r, ne + 2, le);
            assert forall|k: int| ne + 3 <= k < le implies #[trigger] r[k] == c[k - ne - 3] by {
                assert(r[k] == line[k - base]);
            }
            if c.len() > 0 {
                lemma_ltrim_run(r, ne + 2, ne + 3, le);
                assert(r[le - 1] == c[c.len() - 1]);
            } else {
                lemma_ltrim_run(r, ne + 2, le, le);
            }
            assert(trimmed(r, ne + 2, le) =~= c);
        },
    }
    assert(r.subrange(q, ne) =~= name);
}

#[verifier::rlimit(100)]
proof fn lemma_scan_packages_rendered(r: Seq<char>, es: Seq<(Seq<char>, Option<Seq<char>>)>, indent: Seq<char>, p: int, base: int)
    requires
        0 <= p <= base,
        base + package_lines(es, indent).len() < r.len(),
        r.subrange(base, base + package_lines(es, indent).len()) == package_lines(es, indent),
        r[base + package_lines(es, indent).len()] == ']',
        forall|k: int| p <= k < base ==> is_multi_blank(#[trigger] r[k]),
        forall|k: int| 0 <= k < indent.len() ==> is_blank(#[trigger] indent[k]),
        forall|i: int| 0 <= i < es.len() ==> listable(#[trigger] es[i]),
    ensures
        scan(Shape::PackageList, r, p) == Some((package_starts(es, indent, base), base + package_lines(es, indent).len())),
        package_starts(es, indent, base).len() == es.len(),
        forall|i: int| 0 <= i < es.len() ==> package_reads(r, #[trigger] package_starts(es, indent, base)[i], es[i]),
    decreases es.len(),
{
    let lines = package_lines(es, indent);
    if es.len() == 0 {
        lemma_skip_multi_blank_run(r, p, base);
    } else {
        let e0 = es[0];
        let line = package_entry_line(indent, e0.0, e0.1);
        let rest = es.drop_first();
        assert(lines == line + package_lines(rest, indent));
        let next = base + line.len();
        assert(r.subrange(base, base + line.len()) =~= line) by {
            assert forall|k: int| 0 <= k < line.len() implies r.subrange(base, base + line.len())[k] == line[k] by {
                assert(r.subrange(base, base + lines.len())[k] == lines[k]);
            }
        }
        assert(r.subrange(next, next + package_lines(rest, indent).len()) =~= package_lines(rest, indent)) by {
            assert forall|k: int| 0 <= k < package_lines(rest, indent).len() implies r.subrange(
                next,
                next + package_lines(rest, indent).len(),
            )[k] == package_lines(rest, indent)[k] by {
                assert(r.subrange(base, base + lines.len())[line.len() + k] == lines[line.len() + k]);
            }
        }
        assert(listable(es[0]));
        lemma_package_line(r, base, indent, e0);
        let q = base + indent.len();
        assert forall|k: int| p <= k < q implies is_multi_blank(#[trigger] r[k]) by {
            if k >= base {
                assert(r[k] == indent[k - base]);
            }
        }
        lemma_skip_multi_blank_run(r, p, q);
        assert forall|i: int| 0 <= i < rest.len() implies listable(#[trigger] rest[i]) by {
            assert(rest[i] == es[i + 1]);
        }
        lemma_scan_packages_rendered(r, rest, indent, next, next);
        let ls = package_starts(es, indent, base);
        assert forall|i: int| 0 <= i < es.len() implies package_reads(r, #[trigger] package_starts(es, indent, base)[i], es[i]) by {
            if i > 0 {
                assert(ls[i] == package_starts(rest, indent, next)[i - 1]);
                assert(es[i] == rest[i - 1]);
            }
        }
    }
}

/// Rendering packages whose names are attribute paths and whose comments
/// stand on one line without surrounding whitespace, then parsing the
/// list, gives back the same names and comments in the same order.
#[verifier::rlimit(100)]
pub proof fn lemma_packages_round_trip(es: Seq<(Seq<char>, Option<Seq<char>>)>, indent: Seq<char>, sec: PackagesSection)
    requires
        forall|k: int| 0 <= k < indent.len() ==> is_blank(#[trigger] indent[k]),
        forall|i: int| 0 <= i < es.len() ==> listable(#[trigger] es[i]),
        sec.parsed_from(rendered_packages(es, indent)),
    ensures
        sec.entries.len() == es.len(),
        forall|i: int|
            0 <= i < es.len() ==> (#[trigger] sec.entries[i]).name@ == es[i].0 && comment_view(sec.entries[i]._comment)
                == es[i].1,
{
    reveal_strlit("packages = with pkgs; [\n");
    reveal_strlit("packages =");
    reveal_strlit("with pkgs;");
    reveal_strlit("];");
    let lines = package_lines(es, indent);
    let r = rendered_packages(es, indent);
    let close = 24 + lines.len() as int;
    assert(r.subrange(24, close) =~= lines);
    assert(r[close] == ']');
    assert(r[close + 1] == ';');
    assert(r[23] == '\n');
    assert(r[10] == ' ');
    assert(r[21] == ' ');
    assert(r[22] == '[');
    assert(r.subrange(0, 10) =~= "packages ="@);
    assert(find_in(r, crate::section::intro(Shape::PackageList), 0, r.len() as int) == Some(0int));
    lemma_skip_blank_run(r, 10, 11);
    assert(r.subrange(11, 21) =~= "with pkgs;"@);
    assert(matches_at(r, with_pkgs(), 11));
    lemma_skip_blank_run(r, 21, 22);
    assert(open_pos(Shape::PackageList, r, 10) == 22);
    lemma_scan_packages_rendered(r, es, indent, 23, 24);
    lemma_skip_blank_run(r, close + 1, close + 1);
    let ls = package_starts(es, indent, 24);
    assert(layout(Shape::PackageList, r) == Ok::<(int, int, Seq<int>, int, int), crate::error::EditError>(
        (0, 22, ls, close, close + 2),
    ));
    assert forall|i: int| 0 <= i < es.len() implies (#[trigger] sec.entries[i]).name@ == es[i].0
        && comment_view(sec.entries[i]._comment) == es[i].1 by {
        assert(package_reads(r, ls[i], es[i]));
        assert(entry_at(r, ls[i], sec.entries[i]));
    }
}

} // verus!
