//! The shell-hook edits undo each other.
use vstd::prelude::*;
use crate::commands::{
    block_close, command_block, command_span, hook_close, hook_intro, hook_span, marker,
};
use crate::laws::{lemma_find_in_agree, lemma_splice_facts};
use crate::render::{lines, lines_from, repeat};
use crate::commands::{indent_one, join_indented};
use crate::section::insertion_point;
use crate::text::{
    line_end, lemma_line_end, find_in, lemma_find_in_bounds, matches_at, rfind_in, splice,
};

verus! {

/// `find_in` finds `r` when `pat` occurs there and nowhere before it.
proof fn lemma_find_in_first(s: Seq<char>, pat: Seq<char>, from: int, to: int, r: int)
    requires
        0 <= from <= r,
        r + pat.len() <= to <= s.len(),
        matches_at(s, pat, r),
        forall|j: int| from <= j < r ==> !matches_at(s, pat, j),
    ensures
        find_in(s, pat, from, to) == Some(r),
    decreases r - from,
{
    if from < r {
        lemma_find_in_first(s, pat, from + 1, to, r);
    }
}

/// `rfind_in` finds `r` when `pat` occurs there and nowhere after it.
proof fn lemma_rfind_in_last(s: Seq<char>, pat: Seq<char>, from: int, to: int, r: int)
    requires
        0 <= from <= r,
        r + pat.len() <= to <= s.len(),
        matches_at(s, pat, r),
        forall|j: int| r < j && j + pat.len() <= to ==> !matches_at(s, pat, j),
    ensures
        rfind_in(s, pat, from, to) == Some(r),
    decreases to - r,
{
    if r + pat.len() < to {
        assert(!matches_at(s, pat, to - pat.len()));
        lemma_rfind_in_last(s, pat, from, to - 1, r);
    }
}

/// A match of `pat` in `t` inside the window `ip..ip + w` is a match in the
/// window's text.
proof fn lemma_match_in_window(t: Seq<char>, ip: int, w: Seq<char>, pat: Seq<char>, j: int)
    requires
        0 <= ip,
        ip + w.len() <= t.len(),
        t.subrange(ip, ip + w.len()) == w,
        ip <= j,
        j + pat.len() <= ip + w.len(),
    ensures
        matches_at(t, pat, j) == matches_at(w, pat, j - ip),
{
    assert(t.subrange(j, j + pat.len()) =~= w.subrange(j - ip, j - ip + pat.len()));
}

/// A match of `pat` in `t` that holds position `k` has `t[k]` in `pat`.
proof fn lemma_match_holds(t: Seq<char>, pat: Seq<char>, j: int, k: int)
    requires
        matches_at(t, pat, j),
        j <= k < j + pat.len(),
    ensures
        t[k] == pat[k - j],
{
    assert(t.subrange(j, j + pat.len())[k - j] == t[k]);
}

/// `find_in` finds no match before the one it returns.
proof fn lemma_find_in_none_before(s: Seq<char>, pat: Seq<char>, from: int, to: int)
    requires
        0 <= from,
        to <= s.len(),
    ensures
        find_in(s, pat, from, to) matches Some(r) ==> forall|j: int| from <= j < r ==> !matches_at(s, pat, j),
    decreases to + 1 - from,
{
    if from + pat.len() > to {
    } else if matches_at(s, pat, from) {
    } else {
        lemma_find_in_none_before(s, pat, from + 1, to);
    }
}

/// The first characters of a command block: a line feed, four spaces and
/// the marker.
proof fn lemma_block_shape(name: Seq<char>, body: Seq<char>)
    ensures
        command_block(name, body).len() >= 5 + marker(name).len() as int + 6,
        command_block(name, body)[0] == '\n',
        forall|k: int| 1 <= k < 5 ==> #[trigger] command_block(name, body)[k] == ' ',
        command_block(name, body).subrange(5, 5 + marker(name).len() as int) == marker(name),
        command_block(name, body)[command_block(name, body).len() - 1] == '\n',
        command_block(name, body)[command_block(name, body).len() - 2] == '}',
        marker(name)[0] == '#',
        forall|k: int| 0 <= k < 15 ==> #[trigger] marker(name)[k] != '\n',
        marker(name).len() == 15 + name.len(),
{
    reveal_strlit("\n    # flk-command: ");
    reveal_strlit("# flk-command: ");
    reveal_strlit("\n    }\n");
    let blk = command_block(name, body);
    let head = "\n    # flk-command: "@;
    assert(head =~= "\n    "@ + "# flk-command: "@) by {
        reveal_strlit("\n    ");
    }
    assert(blk.subrange(5, 5 + marker(name).len() as int) =~= marker(name));
}

/// After a block is put in at `ip` inside the hook, the first `'';` from
/// the hook's text on is the old one, moved by the block's length.
#[verifier::rlimit(100)]
proof fn lemma_close_after_add(s: Seq<char>, ip: int, blk: Seq<char>, bb: int, e: int)
    requires
        0 <= bb <= ip <= e,
        e + 3 <= s.len(),
        blk.len() >= 1,
        blk[0] == '\n',
        blk[blk.len() - 1] == '\n',
        find_in(s, hook_close(), bb, s.len() as int) == Some(e),
        find_in(blk, hook_close(), 0, blk.len() as int) is None,
    ensures
        find_in(splice(s, ip, ip, blk), hook_close(), bb, (s.len() + blk.len()) as int) == Some(e + blk.len()),
{
    reveal_strlit("'';");
    let t = splice(s, ip, ip, blk);
    let n = blk.len() as int;
    lemma_splice_facts(s, ip, blk);
    lemma_find_in_none_before(s, hook_close(), bb, s.len() as int);
    lemma_find_in_bounds(s, hook_close(), bb, s.len() as int);
    lemma_find_in_bounds(blk, hook_close(), 0, n);
    assert(t.subrange(e + n, e + n + 3) =~= s.subrange(e, e + 3));
    assert(t.subrange(ip, ip + n)[0] == t[ip]);
    assert(t[ip] == '\n');
    assert(t.subrange(ip, ip + n)[n - 1] == t[ip + n - 1]);
    assert(t[ip + n - 1] == '\n');
    assert(hook_close()[0] == '\'' && hook_close()[1] == '\'' && hook_close()[2] == ';');
    assert forall|j: int| bb <= j < e + n implies !matches_at(t, hook_close(), j) by {
        if matches_at(t, hook_close(), j) {
            if j + 3 <= ip {
                assert(t.subrange(j, j + 3) =~= s.subrange(j, j + 3));
                assert(matches_at(s, hook_close(), j));
            } else if j < ip {
                lemma_match_holds(t, hook_close(), j, ip);
            } else if j + 3 <= ip + n {
                lemma_match_in_window(t, ip, blk, hook_close(), j);
                assert(matches_at(blk, hook_close(), j - ip));
            } else if j < ip + n {
                lemma_match_holds(t, hook_close(), j, ip + n - 1);
            } else {
                assert(t.subrange(j, j + 3) =~= s.subrange(j - n, j - n + 3));
                assert(matches_at(s, hook_close(), j - n));
            }
        }
    }
    lemma_find_in_first(t, hook_close(), bb, t.len() as int, e + n);
}

/// After a block is put in at `ip`, the first marker of its command from
/// `a` on is the block's own, when the text held none before.
#[verifier::rlimit(100)]
proof fn lemma_marker_after_add(s: Seq<char>, ip: int, blk: Seq<char>, name: Seq<char>, a: int)
    requires
        0 <= a <= ip <= s.len(),
        blk.len() >= 5 + marker(name).len(),
        blk[0] == '\n',
        forall|k: int| 1 <= k < 5 ==> #[trigger] blk[k] == ' ',
        blk.subrange(5, 5 + marker(name).len() as int) == marker(name),
        marker(name)[0] == '#',
        forall|k: int| 0 <= k < 15 ==> #[trigger] marker(name)[k] != '\n',
        marker(name).len() == 15 + name.len(),
        forall|k: int| 0 <= k < name.len() ==> #[trigger] name[k] != '\n',
        find_in(s, marker(name), 0, s.len() as int) is None,
    ensures
        forall|j: int| a <= j < ip + 5 ==> !matches_at(splice(s, ip, ip, blk), marker(name), j),
        matches_at(splice(s, ip, ip, blk), marker(name), ip + 5),
{
    let t = splice(s, ip, ip, blk);
    let n = blk.len() as int;
    let m = marker(name);
    lemma_splice_facts(s, ip, blk);
    lemma_find_in_bounds(s, m, 0, s.len() as int);
    assert(t.subrange(ip, ip + n)[0] == t[ip]);
    assert(t[ip] == '\n');
    lemma_match_in_window(t, ip, blk, m, ip + 5);
    assert(matches_at(blk, m, 5));
    assert forall|j: int| a <= j < ip + 5 implies !matches_at(t, m, j) by {
        if matches_at(t, m, j) {
            if j + m.len() <= ip {
                assert(t.subrange(j, j + m.len()) =~= s.subrange(j, j + m.len()));
                assert(matches_at(s, m, j));
            } else if j < ip {
                lemma_match_holds(t, m, j, ip);
                if ip - j >= 15 {
                    assert(m[ip - j] == name[ip - j - 15]);
                } else {
                    assert(m[ip - j] != '\n');
                }
            } else {
                lemma_match_holds(t, m, j, j);
                assert(t.subrange(ip, ip + n)[j - ip] == t[j]);
                assert(t[j] == blk[j - ip]);
                if j > ip {
                    assert(blk[j - ip] == ' ');
                }
            }
        }
    }
}

/// The spans `lines_from` gives hold no line feed, and lie in the text.
proof fn lemma_lines_from_no_break(s: Seq<char>, i: int)
    requires
        0 <= i,
    ensures
        forall|j: int|
            0 <= j < lines_from(s, i).len() ==> 0 <= (#[trigger] lines_from(s, i)[j]).0 <= lines_from(s, i)[j].1
                <= s.len() && forall|k: int|
                lines_from(s, i)[j].0 <= k < lines_from(s, i)[j].1 ==> s[k] != '\n',
    decreases s.len() - i,
{
    if i < 0 || i >= s.len() {
    } else {
        lemma_line_end(s, i);
        let k = line_end(s, i);
        if k < s.len() && k >= i {
            lemma_lines_from_no_break(s, k + 1);
            let rest = lines_from(s, k + 1);
            let e = if k < s.len() && k > i && s[k - 1] == '\r' {
                k - 1
            } else {
                k
            };
            assert forall|j: int| 0 <= j < lines_from(s, i).len() implies 0 <= (#[trigger] lines_from(s, i)[j]).0
                <= lines_from(s, i)[j].1 <= s.len() && forall|m: int|
                lines_from(s, i)[j].0 <= m < lines_from(s, i)[j].1 ==> s[m] != '\n' by {
                if j > 0 {
                    assert(lines_from(s, i)[j] == rest[j - 1]);
                }
            }
        }
    }
}

/// The lines of `s` hold no line feed.
proof fn lemma_lines_no_break(s: Seq<char>)
    ensures
        forall|j: int, k: int| 0 <= j < lines(s).len() && 0 <= k < lines(s)[j].len() ==> #[trigger] lines(s)[j][k] != '\n',
{
    lemma_lines_from_no_break(s, 0);
    assert forall|j: int, k: int| 0 <= j < lines(s).len() && 0 <= k < lines(s)[j].len() implies #[trigger] lines(s)[j][k] != '\n' by {
        let sp = lines_from(s, 0)[j];
        assert(lines(s)[j] == s.subrange(sp.0, sp.1));
        assert(s.subrange(sp.0, sp.1)[k] == s[sp.0 + k]);
    }
}

/// After a line feed of `"\n" + join_indented(ls, six spaces)`, the next
/// character is a line feed or the sixth one is a space: no line `    }`
/// starts there.
proof fn lemma_join_breaks(ls: Seq<Seq<char>>, pad: Seq<char>, c: Seq<char>)
    requires
        pad.len() == 6,
        forall|k: int| 0 <= k < 6 ==> #[trigger] pad[k] == ' ',
        forall|j: int, k: int| 0 <= j < ls.len() && 0 <= k < ls[j].len() ==> #[trigger] ls[j][k] != '\n',
        c.len() >= 6,
        c[0] == '\n',
    ensures
        ({
            let y = seq!['\n'] + join_indented(ls, pad) + c;
            forall|p: int| 0 <= p < 1 + join_indented(ls, pad).len() && #[trigger] y[p] == '\n' ==> y[p + 1] == '\n' || y[p + 5] == ' '
        }),
    decreases ls.len(),
{
    let j = join_indented(ls, pad);
    let y = seq!['\n'] + j + c;
    if ls.len() == 0 {
    } else if ls.len() == 1 {
        let l = ls[0];
        let i1 = indent_one(l, pad);
        assert forall|p: int| 0 <= p < 1 + j.len() && #[trigger] y[p] == '\n' implies y[p + 1] == '\n' || y[p + 5] == ' ' by {
            if p == 0 {
                if i1.len() > 0 {
                    assert(y[5] == pad[4]);
                }
            } else {
                if i1.len() > 0 {
                    if p - 1 >= 6 {
                        assert(y[p] == l[p - 7]);
                    } else {
                        assert(y[p] == pad[p - 1]);
                    }
                }
            }
        }
    } else {
        let init = ls.drop_last();
        let l = ls.last();
        let i1 = indent_one(l, pad);
        let c2 = seq!['\n'] + i1 + c;
        assert forall|jj: int, k: int| 0 <= jj < init.len() && 0 <= k < init[jj].len() implies #[trigger] init[jj][k] != '\n' by {
            assert(init[jj] == ls[jj]);
        }
        lemma_join_breaks(init, pad, c2);
        let ji = join_indented(init, pad);
        reveal_strlit("\n");
        assert(j == ji + "\n"@ + i1);
        assert(y =~= seq!['\n'] + ji + c2);
        assert forall|p: int| 0 <= p < 1 + j.len() && #[trigger] y[p] == '\n' implies y[p + 1] == '\n' || y[p + 5] == ' ' by {
            let q = 1 + ji.len();
            if p < q {
                assert((seq!['\n'] + ji + c2)[p] == y[p]);
            } else if p == q {
                if i1.len() > 0 {
                    assert(y[p + 5] == pad[4]);
                }
            } else {
                assert(i1.len() > 0);
                assert(l == ls[ls.len() - 1]);
                if p - q - 1 >= 6 {
                    assert(y[p] == l[p - q - 7]);
                } else {
                    assert(y[p] == pad[p - q - 1]);
                }
            }
        }
    }
}

/// A command block closes at its own last line: no line `    }` comes in it
/// after the marker before that one.
proof fn lemma_block_closes_last(name: Seq<char>, body: Seq<char>)
    requires
        crate::validate::valid_command_name(name),
    ensures
        find_in(command_block(name, body), block_close(), 5 + marker(name).len() as int, command_block(name, body).len() as int)
            == Some(command_block(name, body).len() - 7),
{
    reveal_strlit("\n    # flk-command: ");
    reveal_strlit("\n");
    reveal_strlit(" () {\n");
    reveal_strlit("\n    }\n");
    reveal_strlit(" ");
    reveal_strlit("# flk-command: ");
    let pad4 = repeat(" "@, 4);
    let pad6 = repeat(" "@, 6);
    lemma_repeat_spaces(4);
    lemma_repeat_spaces(6);
    // the name is one line, not blank
    lemma_line_end_run_to_end(name, 0);
    assert(lines_from(name, 0) =~= seq![(0int, name.len() as int)]);
    assert(name.subrange(0, name.len() as int) =~= name);
    assert(lines(name) =~= seq![name]);
    assert(!crate::commands::is_blank_line(name)) by {
        assert(!crate::text::is_space(name[0]));
    }
    let j1 = join_indented(lines(name), pad4);
    assert(j1 == pad4 + name);
    let j2 = join_indented(lines(body), pad6);
    let blk = command_block(name, body);
    let n = blk.len() as int;
    let big = 5 + marker(name).len() as int;
    let q = big + 1 + j1.len() + 5;
    let tail = "\n    }\n"@;
    assert(blk =~= ("\n    # flk-command: "@ + name + "\n"@ + j1 + " () {"@) + (seq!['\n'] + j2 + tail)) by {
        reveal_strlit(" () {");
        assert(" () {\n"@ =~= " () {"@ + seq!['\n']);
    }
    lemma_lines_no_break(body);
    lemma_join_breaks(lines(body), pad6, tail);
    let y = seq!['\n'] + j2 + tail;
    assert forall|p: int| big <= p < n - 7 implies !matches_at(blk, block_close(), p) by {
        if matches_at(blk, block_close(), p) {
            assert(blk.subrange(p, p + 7)[0] == blk[p]);
            assert(blk.subrange(p, p + 7)[1] == blk[p + 1]);
            assert(blk.subrange(p, p + 7)[5] == blk[p + 5]);
            if p >= q {
                assert(blk[p] == y[p - q]);
                assert(blk[p + 1] == y[p - q + 1]);
                assert(blk[p + 5] == y[p - q + 5]);
            } else if p == big {
                assert(blk[p + 5] == name[0]);
            } else if p < big + 5 {
                assert(blk[p] == ' ');
            } else if p < big + 5 + name.len() {
                assert(blk[p] == name[p - big - 5]);
            } else {
                assert(blk[p] != '\n');
            }
        }
    }
    assert(blk.subrange(n - 7, n) =~= block_close());
    lemma_find_in_first(blk, block_close(), big, n, n - 7);
}

proof fn lemma_repeat_spaces(n: nat)
    ensures
        repeat(" "@, n).len() == n,
        forall|k: int| 0 <= k < n ==> #[trigger] repeat(" "@, n)[k] == ' ',
    decreases n,
{
    reveal_strlit(" ");
    if n > 0 {
        lemma_repeat_spaces((n - 1) as nat);
    }
}

proof fn lemma_line_end_run_to_end(s: Seq<char>, i: int)
    requires
        0 <= i <= s.len(),
        forall|k: int| 0 <= k < s.len() ==> #[trigger] s[k] != '\n',
    ensures
        line_end(s, i) == s.len(),
    decreases s.len() - i,
{
    if i < s.len() {
        lemma_line_end_run_to_end(s, i + 1);
    }
}

/// Adding a command changes nothing outside the text of the shell hook.
pub proof fn lemma_add_command_keeps_outside(s: Seq<char>, name: Seq<char>, body: Seq<char>)
    requires
        hook_span(s) is Ok,
    ensures
        ({
            let (_, bb, e) = hook_span(s)->Ok_0;
            let ip = insertion_point(s, bb, e);
            let t = splice(s, ip, ip, command_block(name, body));
            &&& t.subrange(0, bb) == s.subrange(0, bb)
            &&& t.subrange(t.len() - (s.len() - e), t.len() as int) == s.subrange(e, s.len() as int)
        }),
{
    let (a, bb, e) = hook_span(s)->Ok_0;
    reveal_strlit("shellHook = ''");
    reveal_strlit("shellHook=''");
    lemma_find_in_bounds(s, hook_intro(), 0, s.len() as int);
    lemma_find_in_bounds(s, crate::commands::hook_intro_tight(), 0, s.len() as int);
    lemma_find_in_bounds(s, hook_close(), bb, s.len() as int);
    crate::text::lemma_rfind_in_bounds(s, seq!['\n'], bb, e);
    crate::laws::lemma_splice_keeps_outside(s, insertion_point(s, bb, e), insertion_point(s, bb, e), command_block(name, body), bb, e);
}

/// Removing a command changes nothing outside the text of the shell hook.
pub proof fn lemma_remove_command_keeps_outside(s: Seq<char>, name: Seq<char>)
    requires
        command_span(s, name) is Some,
    ensures
        ({
            let (_, bb, e) = hook_span(s)->Ok_0;
            let (x, y) = command_span(s, name)->Some_0;
            let t = splice(s, x, y, seq![]);
            &&& bb <= x <= y <= e
            &&& t.subrange(0, bb) == s.subrange(0, bb)
            &&& t.subrange(t.len() - (s.len() - e), t.len() as int) == s.subrange(e, s.len() as int)
        }),
{
    let (a, bb, e) = hook_span(s)->Ok_0;
    reveal_strlit("shellHook = ''");
    reveal_strlit("shellHook=''");
    lemma_find_in_bounds(s, hook_intro(), 0, s.len() as int);
    lemma_find_in_bounds(s, crate::commands::hook_intro_tight(), 0, s.len() as int);
    lemma_find_in_bounds(s, hook_close(), bb, s.len() as int);
    lemma_find_in_bounds(s, marker(name), bb, e);
    let m = find_in(s, marker(name), bb, e)->Some_0;
    crate::text::lemma_rfind_in_bounds(s, seq!['\n'], bb, m);
    let indent = match rfind_in(s, seq!['\n'], bb, m) {
        Some(k) => s.subrange(k + 1, m),
        None => s.subrange(bb, m),
    };
    lemma_find_in_bounds(s, crate::commands::close_line(indent), m + marker(name).len(), e);
    let (x, y) = command_span(s, name)->Some_0;
    crate::laws::lemma_splice_keeps_outside(s, x, y, seq![], bb, e);
}

/// Adding a command block to a shell hook that holds no marker for it, and
/// removing the command again, gives back the text as it was, whatever the
/// body holds but `'';`, which would end the hook.
pub proof fn lemma_add_then_remove_command(s: Seq<char>, name: Seq<char>, body: Seq<char>)
    requires
        hook_span(s) is Ok,
        find_in(s, hook_intro(), 0, s.len() as int) is Some,
        find_in(s, marker(name), 0, s.len() as int) is None,
        crate::validate::valid_command_name(name),
        find_in(command_block(name, body), hook_close(), 0, command_block(name, body).len() as int) is None,
    ensures
        ({
            let (a, bb, e) = hook_span(s)->Ok_0;
            let ip = insertion_point(s, bb, e);
            let t = splice(s, ip, ip, command_block(name, body));
            &&& command_span(t, name) == Some((ip, ip + command_block(name, body).len()))
            &&& splice(t, ip, ip + command_block(name, body).len(), seq![]) == s
        }),
{
    reveal_strlit("shellHook = ''");
    reveal_strlit("'';");
    reveal_strlit("\n    }\n");
    let (a, bb, e) = hook_span(s)->Ok_0;
    let blk = command_block(name, body);
    lemma_block_closes_last(name, body);
    assert forall|k: int| 0 <= k < name.len() implies #[trigger] name[k] != '\n' by {
        assert(crate::validate::is_alnum(name[k]) || name[k] == '-' || name[k] == '_');
    }
    let n = blk.len() as int;
    let m = marker(name);
    lemma_block_shape(name, body);
    lemma_find_in_bounds(s, hook_intro(), 0, s.len() as int);
    lemma_find_in_bounds(s, hook_close(), bb, s.len() as int);
    lemma_find_in_none_before(s, hook_close(), bb, s.len() as int);
    crate::text::lemma_rfind_in_bounds(s, seq!['\n'], bb, e);
    let ip = insertion_point(s, bb, e);
    assert(bb == a + 14);
    assert(bb <= ip <= e);
    let t = splice(s, ip, ip, blk);
    lemma_splice_facts(s, ip, blk);
    // the introducer
    lemma_find_in_agree(s, t, ip, hook_intro(), 0, a);
    // the closing '';
    assert(t.subrange(e + n, e + n + 3) =~= s.subrange(e, e + 3));
    lemma_find_in_bounds(blk, hook_close(), 0, n);
    lemma_close_after_add(s, ip, blk, bb, e);
    assert(hook_span(t) == Ok::<(int, int, int), crate::error::EditError>((a, bb, e + n)));
    // the marker
    lemma_find_in_bounds(s, m, 0, s.len() as int);
    lemma_marker_after_add(s, ip, blk, name, a);
    lemma_find_in_first(t, m, bb, e + n, ip + 5);
    // the line break before the marker
    assert(t[ip] == blk[0]);
    assert(t.subrange(ip, ip + 1) =~= seq!['\n']);
    assert forall|j: int| ip < j && j + 1 <= ip + 5 implies !matches_at(t, seq!['\n'], j) by {
        assert(t[j] == blk[j - ip]);
        assert(t.subrange(j, j + 1)[0] == t[j]);
    }
    lemma_rfind_in_last(t, seq!['\n'], bb, ip + 5, ip);
    // the end of the block
    lemma_find_in_bounds(blk, block_close(), 5 + m.len() as int, n);
    lemma_find_in_none_before(blk, block_close(), 5 + m.len() as int, n);
    lemma_match_in_window(t, ip, blk, block_close(), ip + n - 7);
    assert forall|j: int| ip + 5 + m.len() as int <= j < ip + n - 7 implies !matches_at(t, block_close(), j) by {
        lemma_match_in_window(t, ip, blk, block_close(), j);
    }
    lemma_find_in_first(t, block_close(), ip + 5 + m.len() as int, e + n, ip + n - 7);
    // the marker is indented by four spaces, so the block closes at `    }`
    reveal_strlit("    ");
    reveal_strlit("\n");
    reveal_strlit("}\n");
    assert(t.subrange(ip + 1, ip + 5) =~= "    "@) by {
        assert forall|k: int| 1 <= k < 5 implies t[ip + k] == blk[k] by {
            assert(t.subrange(ip, ip + n)[k] == t[ip + k]);
        }
    }
    assert(crate::commands::close_line("    "@) =~= block_close());
    assert(splice(t, ip, ip + n, seq![]) =~= s);
}

} // verus!
