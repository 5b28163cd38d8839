//! Rendering an environment-variable map wholesale, and reading it back.
use vstd::prelude::*;
use crate::env::{env_entry_parts, ident_end, is_ident_char, string_close, EnvVarsSection};
use crate::model::EnvVar;
use crate::render::{
    escape_char, escaped, lemma_escaped_front, lemma_unescape_escaped, nix_escape_string,
    unescaped,
};
use crate::section::{layout, open_pos, scan, Shape};
use crate::laws::{lemma_skip_blank_run, lemma_skip_multi_blank_run};
use crate::text::{find_in, is_blank, is_multi_blank};

verus! {

/// The line that renders the variable `name = value`.
pub open spec fn env_var_line(indent: Seq<char>, name: Seq<char>, value: Seq<char>) -> Seq<char> {
    indent + name + " = \""@ + escaped(value) + "\";\n"@
}

/// The lines that render the variables `es`, in order.
pub open spec fn env_var_lines(es: Seq<(Seq<char>, Seq<char>)>, indent: Seq<char>) -> Seq<char>
    decreases es.len(),
{
    if es.len() == 0 {
        seq![]
    } else {
        env_var_line(indent, es[0].0, es[0].1) + env_var_lines(es.drop_first(), indent)
    }
}

/// The whole map rendering the variables `es`.
pub open spec fn rendered_env(es: Seq<(Seq<char>, Seq<char>)>, indent: Seq<char>) -> Seq<char> {
    "envVars = {\n"@ + env_var_lines(es, indent) + "};"@
}

/// The names and values of `vars`.
pub open spec fn env_pairs(vars: Seq<EnvVar>) -> Seq<(Seq<char>, Seq<char>)> {
    vars.map_values(|v: EnvVar| (v.name@, v.value@))
}

/// Renders the variables as an `envVars = { ... };` map, one per line,
/// each value escaped between quotes.
pub fn render_env_vars(vars: &Vec<EnvVar>, indent: &str) -> (r: String)
    ensures
        r@ == rendered_env(env_pairs(vars@), indent@),
{
    let mut out = String::from_str("envVars = {\n");
    let ghost es = env_pairs(vars@);
    let mut i: usize = vars.len();
    let mut lines = String::new();
    while i > 0
        invariant
            i <= vars.len(),
            es == env_pairs(vars@),
            lines@ == env_var_lines(es.subrange(i as int, es.len() as int), indent@),
        decreases i,
    {
        i = i - 1;
        let mut line = String::from_str(indent);
        line.append(vars[i].name.as_str());
        line.append(" = \"");
        line.append(nix_escape_string(vars[i].value.as_str()).as_str());
        line.append("\";\n");
        line.append(lines.as_str());
        assert(es.subrange(i as int, es.len() as int).drop_first() =~= es.subrange(i + 1, es.len() as int));
        assert(es[i as int] == (vars@[i as int].name@, vars@[i as int].value@));
        lines = line;
    }
    assert(es.subrange(0, es.len() as int) =~= es);
    out.append(lines.as_str());
    out.append("};");
    out
}

/// `name` is an identifier.
pub open spec fn renderable(e: (Seq<char>, Seq<char>)) -> bool {
    &&& e.0.len() > 0
    &&& forall|k: int| 0 <= k < e.0.len() ==> is_ident_char(#[trigger] e.0[k])
}

/// A string literal whose text is an escaped value closes at the quote
/// that follows it.
proof fn lemma_string_close_escaped(r: Seq<char>, x: int, v: Seq<char>)
    requires
        0 <= x,
        x + escaped(v).len() + 1 <= r.len(),
        r.subrange(x, x + escaped(v).len() + 1) == escaped(v) + seq!['"'],
    ensures
        string_close(r, x) == Some(x + escaped(v).len()),
    decreases v.len(),
{
    reveal_strlit("\\\\");
    reveal_strlit("\\\"");
    reveal_strlit("\\n");
    reveal_strlit("\\r");
    reveal_strlit("\\t");
    let w = escaped(v) + seq!['"'];
    assert(r[x] == w[0]) by {
        assert(r.subrange(x, x + w.len())[0] == r[x]);
    }
    if v.len() > 0 {
        lemma_escaped_front(v);
        let head = escape_char(v[0]);
        let rest = escaped(v.drop_first());
        let h = head.len() as int;
        assert(r.subrange(x + h, x + h + rest.len() + 1) =~= rest + seq!['"']) by {
            assert forall|k: int| 0 <= k < rest.len() + 1 implies r.subrange(x + h, x + h + rest.len() + 1)[k]
                == (rest + seq!['"'])[k] by {
                assert(r.subrange(x, x + w.len())[h + k] == w[h + k]);
            }
        }
        if h == 2 {
            assert(r[x + 1] == w[1]) by {
                assert(r.subrange(x, x + w.len())[1] == r[x + 1]);
            }
        }
        lemma_string_close_escaped(r, x + h, v.drop_first());
    }
}

proof fn lemma_ident_end_run(r: Seq<char>, p: int, e: int)
    requires
        0 <= p <= e < r.len(),
        forall|k: int| p <= k < e ==> is_ident_char(#[trigger] r[k]),
        !is_ident_char(r[e]),
    ensures
        ident_end(r, p) == e,
    decreases e - p,
{
    if p < e {
        lemma_ident_end_run(r, p + 1, e);
    }
}

/// The characters of a rendered line put at `base`.
proof fn lemma_line_chars(r: Seq<char>, base: int, indent: Seq<char>, name: Seq<char>, value: Seq<char>)
    requires
        0 <= base,
        base + env_var_line(indent, name, value).len() <= r.len(),
        r.subrange(base, base + env_var_line(indent, name, value).len()) == env_var_line(indent, name, value),
    ensures
        ({
            let q = base + indent.len();
            let ne = q + name.len();
            let vs = ne + 4;
            let ve = vs + escaped(value).len();
            &&& forall|k: int| base <= k < q ==> #[trigger] r[k] == indent[k - base]
            &&& forall|k: int| q <= k < ne ==> #[trigger] r[k] == name[k - q]
            &&& r[ne] == ' ' && r[ne + 1] == '=' && r[ne + 2] == ' ' && r[ne + 3] == '"'
            &&& r.subrange(vs, ve + 1) == escaped(value) + seq!['"']
            &&& r[ve + 1] == ';' && r[ve + 2] == '\n'
            &&& env_var_line(indent, name, value).len() == ve + 3 - base
        }),
{
    reveal_strlit(" = \"");
    reveal_strlit("\";\n");
    let line = env_var_line(indent, name, value);
    let q = base + indent.len();
    let ne = q + name.len();
    let vs = ne + 4;
    let ve = vs + escaped(value).len();
    assert forall|k: int| base <= k < base + line.len() implies #[trigger] r[k] == line[k - base] by {
        assert(r.subrange(base, base + line.len())[k - base] == r[k]);
    }
    assert(r[ne] == line[ne - base]);
    assert(r[ne + 1] == line[ne + 1 - base]);
    assert(r[ne + 2] == line[ne + 2 - base]);
    assert(r[ne + 3] == line[ne + 3 - base]);
    assert(r[ve] == line[ve - base]);
    assert(r[ve + 1] == line[ve + 1 - base]);
    assert(r[ve + 2] == line[ve + 2 - base]);
    assert forall|k: int| q <= k < ne implies #[trigger] r[k] == name[k - q] by {
        assert(r[k] == line[k - base]);
    }
    assert forall|k: int| base <= k < q implies #[trigger] r[k] == indent[k - base] by {
        assert(r[k] == line[k - base]);
    }
    assert(r.subrange(vs, ve + 1) =~= escaped(value) + seq!['"']) by {
        assert forall|k: int| vs <= k < ve implies #[trigger] r[k] == escaped(value)[k - vs] by {
            assert(r[k] == line[k - base]);
        }
    }
}

/// The starts of the entries of `env_var_lines(es, indent)` put at `base`.
pub open spec fn line_starts(es: Seq<(Seq<char>, Seq<char>)>, indent: Seq<char>, base: int) -> Seq<int>
    decreases es.len(),
{
    if es.len() == 0 {
        seq![]
    } else {
        seq![base + indent.len()] + line_starts(
            es.drop_first(),
            indent,
            base + env_var_line(indent, es[0].0, es[0].1).len(),
        )
    }
}

/// The entry at `q` reads as the variable `e`.
pub open spec fn entry_reads(r: Seq<char>, q: int, e: (Seq<char>, Seq<char>)) -> bool {
    match env_entry_parts(r, q) {
        Some((n, vs, ve, _)) => r.subrange(q, n) == e.0 && unescaped(r.subrange(vs, ve)) == e.1,
        None => false,
    }
}

proof fn lemma_lines_split(es: Seq<(Seq<char>, Seq<char>)>, indent: Seq<char>)
    requires
        es.len() > 0,
    ensures
        env_var_lines(es, indent) == env_var_line(indent, es[0].0, es[0].1) + env_var_lines(es.drop_first(), indent),
{
}

#[verifier::rlimit(100)]
proof fn lemma_scan_rendered(r: Seq<char>, es: Seq<(Seq<char>, Seq<char>)>, indent: Seq<char>, p: int, base: int)
    requires
        0 <= p <= base,
        base + env_var_lines(es, indent).len() < r.len(),
        r.subrange(base, base + env_var_lines(es, indent).len()) == env_var_lines(es, indent),
        r[base + env_var_lines(es, indent).len()] == '}',
        forall|k: int| p <= k < base ==> is_multi_blank(#[trigger] r[k]),
        forall|k: int| 0 <= k < indent.len() ==> is_blank(#[trigger] indent[k]),
        forall|i: int| 0 <= i < es.len() ==> renderable(#[trigger] es[i]),
    ensures
        scan(Shape::EnvVars, r, p) == Some((line_starts(es, indent, base), base + env_var_lines(es, indent).len())),
        line_starts(es, indent, base).len() == es.len(),
        forall|i: int| 0 <= i < es.len() ==> entry_reads(r, #[trigger] line_starts(es, indent, base)[i], es[i]),
    decreases es.len(),
{
    let lines = env_var_lines(es, indent);
    if es.len() == 0 {
        lemma_skip_multi_blank_run(r, p, base);
    } else {
        let (name, value) = es[0];
        let line = env_var_line(indent, name, value);
        let rest = es.drop_first();
        lemma_lines_split(es, indent);
        let next_base = base + line.len();
        assert(r.subrange(base, base + line.len()) =~= line) by {
            assert forall|k: int| 0 <= k < line.len() implies r.subrange(base, base + line.len())[k] == line[k] by {
                assert(r.subrange(base, base + lines.len())[k] == lines[k]);
            }
        }
        assert(r.subrange(next_base, next_base + env_var_lines(rest, indent).len()) =~= env_var_lines(rest, indent)) by {
            assert forall|k: int| 0 <= k < env_var_lines(rest, indent).len() implies r.subrange(
                next_base,
                next_base + env_var_lines(rest, indent).len(),
            )[k] == env_var_lines(rest, indent)[k] by {
                assert(r.subrange(base, base + lines.len())[line.len() + k] == lines[line.len() + k]);
            }
        }
        assert(renderable(es[0]));
        lemma_line_chars(r, base, indent, name, value);
        let q = base + indent.len();
        let ne = q + name.len();
        let vs = ne + 4;
        let ve = vs + escaped(value).len();
        assert forall|k: int| p <= k < q implies is_multi_blank(#[trigger] r[k]) by {
            if k >= base {
                assert(r[k] == indent[k - base]);
            }
        }
        assert(r[q] == name[0]);
        lemma_skip_multi_blank_run(r, p, q);
        lemma_ident_end_run(r, q, ne);
        lemma_skip_blank_run(r, ne, ne + 1);
        lemma_skip_blank_run(r, ne + 2, ne + 3);
        lemma_string_close_escaped(r, vs, value);
        lemma_skip_blank_run(r, ve + 1, ve + 1);
        assert(env_entry_parts(r, q) == Some((ne, vs, ve, next_base)));
        assert(r.subrange(q, ne) =~= name);
        assert(r.subrange(vs, ve) =~= escaped(value)) by {
            assert(r.subrange(vs, ve + 1) == escaped(value) + seq!['"']);
            assert forall|k: int| 0 <= k < escaped(value).len() implies r.subrange(vs, ve)[k] == escaped(value)[k] by {
                assert(r.subrange(vs, ve + 1)[k] == (escaped(value) + seq!['"'])[k]);
            }
        }
        lemma_unescape_escaped(value);
        assert forall|i: int| 0 <= i < rest.len() implies renderable(#[trigger] rest[i]) by {
            assert(rest[i] == es[i + 1]);
        }
        lemma_scan_rendered(r, rest, indent, next_base, next_base);
        let ls = line_starts(es, indent, base);
        assert forall|i: int| 0 <= i < es.len() implies entry_reads(r, #[trigger] line_starts(es, indent, base)[i], es[i]) by {
            if i > 0 {
                assert(ls[i] == line_starts(rest, indent, next_base)[i - 1]);
                assert(es[i] == rest[i - 1]);
            }
        }
    }
}

/// Rendering variables whose names are identifiers, then parsing the map,
/// gives back the same names and values in the same order, whatever the
/// values hold.
#[verifier::rlimit(100)]
pub proof fn lemma_env_round_trip(es: Seq<(Seq<char>, Seq<char>)>, indent: Seq<char>, sec: EnvVarsSection)
    requires
        forall|k: int| 0 <= k < indent.len() ==> is_blank(#[trigger] indent[k]),
        forall|i: int| 0 <= i < es.len() ==> renderable(#[trigger] es[i]),
        sec.parsed_from(rendered_env(es, indent)),
    ensures
        sec.entries.len() == es.len(),
        forall|i: int|
            0 <= i < es.len() ==> (#[trigger] sec.entries[i]).name@ == es[i].0 && sec.entries[i].value@ == es[i].1,
{
    reveal_strlit("envVars = {\n");
    reveal_strlit("envVars =");
    reveal_strlit("};");
    let lines = env_var_lines(es, indent);
    let r = rendered_env(es, indent);
    let close = 12 + lines.len() as int;
    assert(r.subrange(12, close) =~= lines);
    assert(r[close] == '}');
    assert(r[close + 1] == ';');
    assert(r[11] == '\n');
    assert(r[9] == ' ');
    assert(r[10] == '{');
    assert(r.subrange(0, 9) =~= "envVars ="@);
    assert(find_in(r, crate::section::intro(Shape::EnvVars), 0, r.len() as int) == Some(0int));
    lemma_skip_blank_run(r, 9, 10);
    assert(open_pos(Shape::EnvVars, r, 9) == 10);
    lemma_scan_rendered(r, es, indent, 11, 12);
    lemma_skip_blank_run(r, close + 1, close + 1);
    let ls = line_starts(es, indent, 12);
    assert(layout(Shape::EnvVars, r) == Ok::<(int, int, Seq<int>, int, int), crate::error::EditError>(
        (0, 10, ls, close, close + 2),
    ));
    assert forall|i: int| 0 <= i < es.len() implies (#[trigger] sec.entries[i]).name@ == es[i].0
        && sec.entries[i].value@ == es[i].1 by {
        assert(entry_reads(r, ls[i], es[i]));
        assert(crate::env::env_entry_at(r, ls[i], sec.entries[i]));
    }
}

} // verus!
