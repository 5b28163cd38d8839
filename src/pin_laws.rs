//! Removing a source leaves no line of the sources that names it.
use vstd::prelude::*;
use crate::laws::{
    agree, lemma_cut_facts, lemma_find_in_agree, lemma_line_end_agree, lemma_line_end_shifted,
    shifted,
};
use crate::pins::{
    braced_span, entry_cut_end, find_pin_for_package_spec, line_prefix_from,
    pin_has_packages_spec, remove_package_from_pin_spec, remove_pin_entry_spec,
    remove_pinned_package_spec, remove_source_spec, source_exists_spec, sources_intro,
};
use crate::text::{
    after_eol, depth, find_in, is_inline_space, lemma_find_in_bounds, lemma_line_end,
    lemma_matching_from, lemma_skip_blank, lemma_skip_inline_space, line_end, matching_from,
    skip_blank, skip_inline_space, splice,
};

verus! {

/// No brace stands in `s[x..y]`.
pub open spec fn brace_free(s: Seq<char>, x: int, y: int) -> bool {
    forall|k: int| x <= k < y ==> #[trigger] s[k] != '{' && s[k] != '}'
}

proof fn lemma_depth_neutral(s: Seq<char>, start: int, x: int, i: int)
    requires
        start <= x <= i,
        i <= s.len(),
        brace_free(s, x, i),
    ensures
        depth(s, start, i, '{', '}') == depth(s, start, x, '{', '}'),
    decreases i - x,
{
    if i > x {
        lemma_depth_neutral(s, start, x, i - 1);
    }
}

/// Depths counted in the text with the brace-free `x..y` cut out.
proof fn lemma_depth_cut(s: Seq<char>, t: Seq<char>, start: int, x: int, y: int, i: int)
    requires
        0 <= start <= x <= y <= s.len(),
        agree(s, t, x),
        shifted(s, t, y, x - y),
        brace_free(s, x, y),
        start <= i <= t.len(),
    ensures
        i <= x ==> depth(t, start, i, '{', '}') == depth(s, start, i, '{', '}'),
        i >= x ==> depth(t, start, i, '{', '}') == depth(s, start, i + (y - x), '{', '}'),
    decreases i - start,
{
    if i > start {
        lemma_depth_cut(s, t, start, x, y, i - 1);
        if i - 1 >= x {
            assert(t[i - 1] == s[i - 1 + (y - x)]);
        } else {
            assert(t[i - 1] == s[i - 1]);
        }
    }
    if i == x {
        lemma_depth_neutral(s, start, x, y);
    }
}

/// The matching brace, counted in the text with the brace-free `x..y` cut
/// out, moves back by the cut's length.
proof fn lemma_matching_cut(s: Seq<char>, t: Seq<char>, start: int, x: int, y: int, c: int, i: int)
    requires
        0 <= start <= i,
        start < x <= y <= c < s.len(),
        agree(s, t, x),
        shifted(s, t, y, x - y),
        brace_free(s, x, y),
        matching_from(s, start, start, '{', '}') == Some(c),
        forall|k: int| start <= k < c ==> !(s[k] != '{' && s[k] == '}' && depth(s, start, k + 1, '{', '}') == 0),
        i <= c - (y - x),
        s[c] == '}' && depth(s, start, c + 1, '{', '}') == 0,
    ensures
        matching_from(t, start, i, '{', '}') == Some(c - (y - x)),
    decreases c - (y - x) - i,
{
    let d = y - x;
    let k = if i < x {
        i
    } else {
        i + d
    };
    lemma_depth_cut(s, t, start, x, y, i + 1);
    if i < x {
        assert(t[i] == s[i]);
    } else {
        assert(t[i] == s[i + d]);
    }
    if i < c - d {
        if i >= x {
            assert(!(s[k] != '{' && s[k] == '}' && depth(s, start, k + 1, '{', '}') == 0));
        } else {
            assert(!(s[k] != '{' && s[k] == '}' && depth(s, start, k + 1, '{', '}') == 0));
        }
        lemma_matching_cut(s, t, start, x, y, c, i + 1);
    }
}

/// The brace `matching_from` returns closes, and none before it does.
proof fn lemma_matching_first(s: Seq<char>, start: int, i: int)
    requires
        start <= i,
    ensures
        matching_from(s, start, i, '{', '}') matches Some(c) ==> {
            &&& i <= c < s.len()
            &&& s[c] == '}' && depth(s, start, c + 1, '{', '}') == 0
            &&& forall|k: int|
                i <= k < c ==> !(#[trigger] s[k] != '{' && s[k] == '}' && depth(s, start, k + 1, '{', '}') == 0)
        },
    decreases s.len() - i,
{
    if i < start || i >= s.len() {
    } else if s[i] != '{' && s[i] == '}' && depth(s, start, i + 1, '{', '}') == 0 {
    } else {
        lemma_matching_first(s, start, i + 1);
    }
}

proof fn lemma_skip_inline_space_agree(s: Seq<char>, t: Seq<char>, n: int, i: int, b: int, bt: int)
    requires
        agree(s, t, n),
        0 <= i,
        skip_inline_space(s, i, b) < n,
        skip_inline_space(s, i, b) < b,
        n <= bt,
    ensures
        skip_inline_space(t, i, bt) == skip_inline_space(s, i, b),
    decreases b - i,
{
    lemma_skip_inline_space(s, i, b);
    if i < b && is_inline_space(s[i]) {
        assert(t[i] == s[i]);
        lemma_skip_inline_space_agree(s, t, n, i + 1, b, bt);
    } else {
        assert(t[i] == s[i]);
    }
}

proof fn lemma_skip_inline_stops(s: Seq<char>, i: int, k: int, b: int)
    requires
        0 <= i <= k < b,
        k < s.len(),
        s[k] == '\n',
    ensures
        skip_inline_space(s, i, b) <= k,
    decreases k - i,
{
    if i < k && is_inline_space(s[i]) {
        lemma_skip_inline_stops(s, i + 1, k, b);
    }
}

/// Lines before the line `x` that `line_prefix_from` finds read the same in
/// a text that agrees up to `x`, and do not match there either.
proof fn lemma_line_prefix_agree(s: Seq<char>, t: Seq<char>, i: int, b: int, bt: int, pat: Seq<char>, x: int)
    requires
        agree(s, t, x),
        0 <= i <= x,
        x <= bt,
        b <= s.len(),
        bt <= t.len(),
        line_prefix_from(s, i, b, pat) matches Some((x2, _)) && x2 == x,
    ensures
        line_prefix_from(t, i, bt, pat) == line_prefix_from(t, x, bt, pat),
    decreases x - i,
{
    crate::pins::lemma_line_prefix_from(s, i, b, pat);
    if i < x {
        let j = skip_inline_space(s, i, b);
        let le = line_end(s, i);
        lemma_line_end(s, i);
        lemma_skip_inline_space(s, i, b);
        // the line at `i` is not the one found, so it ends before `x`
        assert(le < b && le >= i);
        crate::pins::lemma_line_prefix_from(s, le + 1, b, pat);
        assert(le + 1 <= x);
        lemma_line_end_agree(s, t, x, i);
        assert(s[le] == '\n');
        lemma_skip_inline_stops(s, i, le, b);
        lemma_skip_inline_space_agree(s, t, x, i, b, bt);
        if j + pat.len() <= le {
            assert(t.subrange(j, j + pat.len()) =~= s.subrange(j, j + pat.len()));
        }
        lemma_line_prefix_agree(s, t, le + 1, b, bt, pat, x);
    }
}

proof fn lemma_skip_inline_space_shifted(s: Seq<char>, t: Seq<char>, n: int, d: int, i: int, b: int)
    requires
        shifted(s, t, n, d),
        n <= i,
        i + d >= 0,
        b <= s.len(),
    ensures
        skip_inline_space(t, i + d, b + d) == skip_inline_space(s, i, b) + d,
    decreases b - i,
{
    if i < b && is_inline_space(s[i]) {
        assert(t[i + d] == s[i]);
        lemma_skip_inline_space_shifted(s, t, n, d, i + 1, b);
    } else if i < b {
        assert(t[i + d] == s[i]);
    }
}

/// Lines after the cut read in the shortened text as they did before it.
proof fn lemma_line_prefix_shifted(s: Seq<char>, t: Seq<char>, n: int, d: int, i: int, b: int, pat: Seq<char>)
    requires
        shifted(s, t, n, d),
        n <= i,
        i + d >= 0,
        b <= s.len(),
    ensures
        line_prefix_from(t, i + d, b + d, pat) == match line_prefix_from(s, i, b, pat) {
            Some((x, j)) => Some((x + d, j + d)),
            None => None,
        },
    decreases b - i,
{
    if i >= b {
    } else {
        lemma_skip_inline_space_shifted(s, t, n, d, i, b);
        lemma_skip_inline_space(s, i, b);
        lemma_line_end(s, i);
        lemma_line_end_shifted(s, t, n, d, i);
        let j = skip_inline_space(s, i, b);
        if j + pat.len() <= s.len() {
            assert(t.subrange(j + d, j + d + pat.len()) =~= s.subrange(j, j + pat.len()));
        }
        let le = line_end(s, i);
        if le < b && le >= i {
            lemma_line_prefix_shifted(s, t, n, d, le + 1, b, pat);
        }
    }
}

/// Cutting the whole lines `x..y` of a braced section, the first that
/// begins with `pat`, when they hold no brace and no later line begins with
/// `pat`, leaves the section in place, shorter, with no line that begins with
/// `pat`.
#[verifier::rlimit(100)]
proof fn lemma_cut_line_absent(s: Seq<char>, intro: Seq<char>, pat: Seq<char>, x: int, y: int)
    requires
        intro.len() >= 1,
        braced_span(s, intro) is Ok,
        line_prefix_from(s, braced_span(s, intro)->Ok_0.0, braced_span(s, intro)->Ok_0.1, pat) matches Some(
            (x2, _),
        ) && x2 == x,
        x < y <= braced_span(s, intro)->Ok_0.1,
        s[y - 1] == '\n',
        brace_free(s, x, y),
        line_prefix_from(s, y, braced_span(s, intro)->Ok_0.1, pat) is None,
    ensures
        braced_span(splice(s, x, y, seq![]), intro) == Ok::<(int, int), crate::error::EditError>(
            (braced_span(s, intro)->Ok_0.0, braced_span(s, intro)->Ok_0.1 - (y - x)),
        ),
        line_prefix_from(
            splice(s, x, y, seq![]),
            braced_span(s, intro)->Ok_0.0,
            braced_span(s, intro)->Ok_0.1 - (y - x),
            pat,
        ) is None,
{
    let (a, b) = braced_span(s, intro)->Ok_0;
    let i = find_in(s, intro, 0, s.len() as int)->Some_0;
    let ob = i + intro.len() - 1;
    lemma_find_in_bounds(s, intro, 0, s.len() as int);
    lemma_matching_from(s, ob, ob, '{', '}');
    lemma_matching_first(s, ob, ob);
    crate::pins::lemma_line_prefix_from(s, a, b, pat);
    let t = splice(s, x, y, seq![]);
    lemma_cut_facts(s, x, y);
    lemma_find_in_agree(s, t, x, intro, 0, i);
    lemma_matching_cut(s, t, ob, x, y, b, ob);
    lemma_line_prefix_agree(s, t, a, b, b - (y - x), pat, x);
    lemma_line_prefix_shifted(s, t, y, x - y, y, b, pat);
}

/// Removing the source of `pin` whose declaration holds no brace, has
/// nothing after its `;` on its line, and is the last line of the sources
/// that begins with `pin =`, leaves no line of the sources that begins with
/// `pin =`: the pin's source entry is gone.
pub proof fn lemma_remove_source_then_absent(s: Seq<char>, pin: Seq<char>)
    requires
        remove_source_spec(s, pin) is Ok,
        lone_source(s, pin),
    ensures
        crate::pins::source_exists_spec(remove_source_spec(s, pin)->Ok_0, pin) == Ok::<bool, crate::error::EditError>(false),
{
    reveal_strlit("sources = {");
    let pat = pin + " ="@;
    let (a, b) = braced_span(s, sources_intro())->Ok_0;
    let (x, j) = line_prefix_from(s, a, b, pat)->Some_0;
    let k = find_in(s, seq![';'], j, b)->Some_0;
    let sb = skip_blank(s, k + 1);
    let y = entry_cut_end(s, k + 1);
    let i = find_in(s, sources_intro(), 0, s.len() as int)->Some_0;
    lemma_find_in_bounds(s, sources_intro(), 0, s.len() as int);
    lemma_matching_from(s, i + 10, i + 10, '{', '}');
    crate::pins::lemma_line_prefix_from(s, a, b, pat);
    lemma_find_in_bounds(s, seq![';'], j, b);
    lemma_skip_blank(s, k + 1);
    assert(s[b] == '}');
    if sb >= b {
        assert(sb == b);
    }
    assert(y <= b);
    assert(s[y - 1] == '\n');
    lemma_cut_line_absent(s, sources_intro(), pat, x, y);
}

/// The pin entry of `pin` in `s` can be removed whole: nothing follows its
/// `];` on its line, it holds no brace, and no later line of the pinned
/// packages begins with `pin = [`.
pub open spec fn lone_pin_entry(s: Seq<char>, pin: Seq<char>) -> bool {
    let (x, _, c) = crate::pins::pin_entry_span(s, pin)->Ok_0;
    let (_, b) = braced_span(s, crate::pins::pinned_intro())->Ok_0;
    let y = entry_cut_end(s, crate::pins::pin_entry_end(s, c));
    &&& x < y
    &&& s[y - 1] == '\n'
    &&& brace_free(s, x, y)
    &&& line_prefix_from(s, y, b, pin + " = ["@) is None
}

/// Removing the pin entry of `pin`, when it can be removed whole, leaves no
/// line of the pinned packages that begins with `pin = [`.
pub proof fn lemma_remove_pin_entry_then_absent(s: Seq<char>, pin: Seq<char>)
    requires
        remove_pin_entry_spec(s, pin) is Ok,
        lone_pin_entry(s, pin),
    ensures
        crate::pins::pin_entry_exists_spec(remove_pin_entry_spec(s, pin)->Ok_0, pin) == Ok::<bool, crate::error::EditError>(false),
{
    reveal_strlit("pinnedPackages = {");
    let pat = pin + " = ["@;
    let (a, b) = braced_span(s, crate::pins::pinned_intro())->Ok_0;
    let (x, ob, c) = crate::pins::pin_entry_span(s, pin)->Ok_0;
    let i = find_in(s, crate::pins::pinned_intro(), 0, s.len() as int)->Some_0;
    lemma_find_in_bounds(s, crate::pins::pinned_intro(), 0, s.len() as int);
    lemma_matching_from(s, i + 17, i + 17, '{', '}');
    crate::pins::lemma_line_prefix_from(s, a, b, pat);
    lemma_matching_from(s, ob, ob, '[', ']');
    lemma_skip_blank(s, c + 1);
    crate::laws::lemma_skip_blank_stops(s, c + 1, b);
    let pe = crate::pins::pin_entry_end(s, c);
    lemma_entry_cut_end_bound(s, pe, b);
    lemma_cut_line_absent(s, crate::pins::pinned_intro(), pat, x, entry_cut_end(s, pe));
}

/// Cutting an entry that ends at `k` stops at or before `b`, where a closing
/// delimiter stands.
proof fn lemma_entry_cut_end_bound(s: Seq<char>, k: int, b: int)
    requires
        0 <= k <= b < s.len(),
        s[b] == '}' || s[b] == ']',
    ensures
        k <= entry_cut_end(s, k) <= b,
{
    crate::laws::lemma_skip_blank_stops(s, k, b);
    lemma_skip_blank(s, k);
}

/// Removing a source changes nothing outside the sources' braces.
pub proof fn lemma_remove_source_keeps_outside(s: Seq<char>, pin: Seq<char>)
    requires
        remove_source_spec(s, pin) is Ok,
    ensures
        ({
            let (a, b) = braced_span(s, sources_intro())->Ok_0;
            let t = remove_source_spec(s, pin)->Ok_0;
            &&& t.subrange(0, a) == s.subrange(0, a)
            &&& t.subrange(t.len() - (s.len() - b), t.len() as int) == s.subrange(b, s.len() as int)
        }),
{
    reveal_strlit("sources = {");
    let pat = pin + " ="@;
    let (a, b) = braced_span(s, sources_intro())->Ok_0;
    let i = find_in(s, sources_intro(), 0, s.len() as int)->Some_0;
    lemma_find_in_bounds(s, sources_intro(), 0, s.len() as int);
    lemma_matching_from(s, i + 10, i + 10, '{', '}');
    crate::pins::lemma_line_prefix_from(s, a, b, pat);
    let (x, j) = line_prefix_from(s, a, b, pat)->Some_0;
    lemma_find_in_bounds(s, seq![';'], j, b);
    let k = find_in(s, seq![';'], j, b)->Some_0;
    lemma_entry_cut_end_bound(s, k + 1, b);
    crate::laws::lemma_splice_keeps_outside(s, x, entry_cut_end(s, k + 1), seq![], a, b);
}

/// Removing a pin entry changes nothing outside the pinned packages'
/// braces.
pub proof fn lemma_remove_pin_entry_keeps_outside(s: Seq<char>, pin: Seq<char>)
    requires
        remove_pin_entry_spec(s, pin) is Ok,
    ensures
        ({
            let (a, b) = braced_span(s, crate::pins::pinned_intro())->Ok_0;
            let t = remove_pin_entry_spec(s, pin)->Ok_0;
            &&& t.subrange(0, a) == s.subrange(0, a)
            &&& t.subrange(t.len() - (s.len() - b), t.len() as int) == s.subrange(b, s.len() as int)
        }),
{
    reveal_strlit("pinnedPackages = {");
    let pat = pin + " = ["@;
    let (a, b) = braced_span(s, crate::pins::pinned_intro())->Ok_0;
    let i = find_in(s, crate::pins::pinned_intro(), 0, s.len() as int)->Some_0;
    lemma_find_in_bounds(s, crate::pins::pinned_intro(), 0, s.len() as int);
    lemma_matching_from(s, i + 17, i + 17, '{', '}');
    crate::pins::lemma_line_prefix_from(s, a, b, pat);
    let (x, ob, c) = crate::pins::pin_entry_span(s, pin)->Ok_0;
    let (x2, j) = line_prefix_from(s, a, b, pat)->Some_0;
    assert(x == x2);
    lemma_matching_from(s, ob, ob, '[', ']');
    lemma_skip_blank(s, c + 1);
    crate::laws::lemma_skip_blank_stops(s, c + 1, b);
    let pe = crate::pins::pin_entry_end(s, c);
    lemma_entry_cut_end_bound(s, pe, b);
    crate::laws::lemma_splice_keeps_outside(s, x, entry_cut_end(s, pe), seq![], a, b);
}

/// Removing a package from a pin changes nothing outside the pin's list.
pub proof fn lemma_remove_package_from_pin_keeps_outside(s: Seq<char>, pin: Seq<char>, alias: Seq<char>)
    requires
        crate::pins::remove_package_from_pin_spec(s, pin, alias) is Ok,
    ensures
        ({
            let (_, ob, c) = crate::pins::pin_entry_span(s, pin)->Ok_0;
            let t = crate::pins::remove_package_from_pin_spec(s, pin, alias)->Ok_0;
            &&& t.subrange(0, ob + 1) == s.subrange(0, ob + 1)
            &&& t.subrange(t.len() - (s.len() - c), t.len() as int) == s.subrange(c, s.len() as int)
        }),
{
    let (_, ob, c) = crate::pins::pin_entry_span(s, pin)->Ok_0;
    let pat = crate::pins::alias_pattern(alias);
    reveal_strlit("pinnedPackages = {");
    let (a, b) = braced_span(s, crate::pins::pinned_intro())->Ok_0;
    lemma_find_in_bounds(s, crate::pins::pinned_intro(), 0, s.len() as int);
    let i = find_in(s, crate::pins::pinned_intro(), 0, s.len() as int)->Some_0;
    lemma_matching_from(s, i + 17, i + 17, '{', '}');
    crate::pins::lemma_line_prefix_from(s, a, b, pin + " = ["@);
    lemma_matching_from(s, ob, ob, '[', ']');
    lemma_find_in_bounds(s, pat, ob + 1, c);
    let p = find_in(s, pat, ob + 1, c)->Some_0;
    crate::text::lemma_rfind_in_bounds(s, seq!['\n'], ob + 1, p);
    lemma_find_in_bounds(s, seq!['\n'], p, c);
    let (x, y) = crate::pins::record_span(s, pin, alias)->Ok_0;
    crate::laws::lemma_splice_keeps_outside(s, x, y, seq![], ob + 1, c);
}

/// The source declaration of `pin` in `s` can be removed whole: it holds no
/// brace, nothing follows its `;` on its line, and no later line of the
/// sources begins with `pin =`.
pub open spec fn lone_source(s: Seq<char>, pin: Seq<char>) -> bool {
    let (a, b) = braced_span(s, sources_intro())->Ok_0;
    let (x, j) = line_prefix_from(s, a, b, pin + " ="@)->Some_0;
    let k = find_in(s, seq![';'], j, b)->Some_0;
    let y = entry_cut_end(s, k + 1);
    &&& after_eol(s, skip_blank(s, k + 1)) > skip_blank(s, k + 1)
    &&& brace_free(s, x, y)
    &&& line_prefix_from(s, y, b, pin + " ="@) is None
}

/// Removing the last package of a pin also removes the pin entry and that
/// pin's source entry: no line of the pinned packages begins with
/// `pin = [` once the entry is cut, and no line of the sources begins with
/// `pin =` in the result, when both could be removed whole.
pub proof fn lemma_cleanup_removes_source(s: Seq<char>, alias: Seq<char>)
    requires
        remove_pinned_package_spec(s, alias) is Ok,
        ({
            let pin = find_pin_for_package_spec(s, alias)->Ok_0;
            let s1 = remove_package_from_pin_spec(s, pin, alias)->Ok_0;
            &&& pin_has_packages_spec(s1, pin) == Ok::<bool, crate::error::EditError>(false)
            &&& lone_pin_entry(s1, pin)
            &&& lone_source(remove_pin_entry_spec(s1, pin)->Ok_0, pin)
        }),
    ensures
        ({
            let pin = find_pin_for_package_spec(s, alias)->Ok_0;
            let s1 = remove_package_from_pin_spec(s, pin, alias)->Ok_0;
            crate::pins::pin_entry_exists_spec(remove_pin_entry_spec(s1, pin)->Ok_0, pin) == Ok::<
                bool,
                crate::error::EditError,
            >(false)
        }),
        source_exists_spec(
            remove_pinned_package_spec(s, alias)->Ok_0,
            find_pin_for_package_spec(s, alias)->Ok_0,
        ) == Ok::<bool, crate::error::EditError>(false),
{
    let pin = find_pin_for_package_spec(s, alias)->Ok_0;
    let s1 = remove_package_from_pin_spec(s, pin, alias)->Ok_0;
    let s2 = remove_pin_entry_spec(s1, pin)->Ok_0;
    assert(remove_pinned_package_spec(s, alias) == remove_source_spec(s2, pin));
    lemma_remove_pin_entry_then_absent(s1, pin);
    lemma_remove_source_then_absent(s2, pin);
}

} // verus!
