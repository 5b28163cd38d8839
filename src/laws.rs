//! Properties that relate several operations, or hold of every edit.
use vstd::prelude::*;
use crate::env::{env_line, EnvVarsSection};
use crate::pins::{
    find_pin_for_package_spec, pin_has_packages_spec, remove_package_from_pin_spec,
    remove_pin_entry_spec, remove_pinned_package_spec, remove_source_spec,
};
use crate::packages::{
    comment_span, is_path_char, lemma_path_end, package_entry_end, package_line, path_end,
    PackagesSection,
};
use crate::section::{
    cut_end, entry_end, intro, layout, lemma_scan_bounds, line_start, open_pos, scan,
    scan_ordered, with_pkgs, Shape,
};
use crate::text::{
    find_in, is_blank, is_multi_blank, lemma_find_in_bounds, lemma_line_end, lemma_skip_blank,
    lemma_skip_multi_blank, line_end, matches_at, skip_blank, skip_multi_blank, splice,
};

verus! {

/// An edit inside `lo..hi` leaves the text before `lo` and the text from
/// `hi` on as they were.
pub proof fn lemma_splice_keeps_outside(s: Seq<char>, a: int, b: int, ins: Seq<char>, lo: int, hi: int)
    requires
        0 <= lo <= a <= b <= hi <= s.len(),
    ensures
        splice(s, a, b, ins).subrange(0, lo) == s.subrange(0, lo),
        splice(s, a, b, ins).subrange(splice(s, a, b, ins).len() - (s.len() - hi), splice(s, a, b, ins).len() as int)
            == s.subrange(hi, s.len() as int),
{
    let t = splice(s, a, b, ins);
    assert(t.subrange(0, lo) =~= s.subrange(0, lo));
    assert(t.subrange(t.len() - (s.len() - hi), t.len() as int) =~= s.subrange(hi, s.len() as int));
}

/// A line added where every section adds one (`insertion_point` of the
/// body `lo..hi`) leaves the text before `lo` and from `hi` on as it was:
/// this holds of `add_source`, `add_pin_entry`, `add_package_to_pin`,
/// `add_package_to_profile`, `add_input` and the section adds.
pub proof fn lemma_insert_keeps_outside(s: Seq<char>, lo: int, hi: int, ins: Seq<char>)
    requires
        0 <= lo <= hi <= s.len(),
    ensures
        ({
            let ip = crate::section::insertion_point(s, lo, hi);
            let t = splice(s, ip, ip, ins);
            &&& t.subrange(0, lo) == s.subrange(0, lo)
            &&& t.subrange(t.len() - (s.len() - hi), t.len() as int) == s.subrange(hi, s.len() as int)
        }),
{
    crate::text::lemma_rfind_in_bounds(s, seq!['\n'], lo, hi);
    let ip = crate::section::insertion_point(s, lo, hi);
    lemma_splice_keeps_outside(s, ip, ip, ins, lo, hi);
}

/// Blanks skipped from `i` stop at or before `j` when `s[j]` is no blank.
pub(crate) proof fn lemma_skip_blank_stops(s: Seq<char>, i: int, j: int)
    requires
        0 <= i <= j < s.len(),
        !is_blank(s[j]),
    ensures
        skip_blank(s, i) <= j,
    decreases j - i,
{
    if is_blank(s[i]) {
        lemma_skip_blank_stops(s, i + 1, j);
    }
}

/// Adding a package changes nothing outside the list's brackets.
pub proof fn lemma_add_package_keeps_outside(sec: PackagesSection, s: Seq<char>, name: Seq<char>, comment: Option<Seq<char>>)
    requires
        sec.parsed_from(s),
        sec.fits(s.len() as int),
    ensures
        ({
            let t = crate::section::line_added(
                s,
                sec._list_start as int,
                sec.list_end as int,
                package_line(sec.indentation@, name, comment),
            );
            &&& t.subrange(0, sec._list_start as int) == s.subrange(0, sec._list_start as int)
            &&& t.subrange(t.len() - (s.len() - sec.list_end), t.len() as int) == s.subrange(
                sec.list_end as int,
                s.len() as int,
            )
        }),
{
    let line = package_line(sec.indentation@, name, comment);
    crate::text::lemma_rfind_in_bounds(s, seq!['\n'], sec._list_start as int, sec.list_end as int);
    match crate::text::rfind_in(s, seq!['\n'], sec._list_start as int, sec.list_end as int) {
        Some(k) => lemma_splice_keeps_outside(s, k + 1, k + 1, line, sec._list_start as int, sec.list_end as int),
        None => lemma_splice_keeps_outside(
            s,
            sec.list_end as int,
            sec.list_end as int,
            "\n"@ + line,
            sec._list_start as int,
            sec.list_end as int,
        ),
    }
}

/// Removing the `i`-th package changes nothing outside the list's brackets.
pub proof fn lemma_remove_package_keeps_outside(sec: PackagesSection, s: Seq<char>, i: int)
    requires
        sec.parsed_from(s),
        sec.fits(s.len() as int),
        0 <= i < sec.entries.len(),
    ensures
        ({
            let e = sec.entries[i];
            let a = line_start(s, sec._list_start as int, e.start_pos as int);
            let b = cut_end(s, e.start_pos as int, e.end_pos as int);
            let t = splice(s, a, b, seq![]);
            &&& sec._list_start <= a <= b <= sec.list_end
            &&& t.subrange(0, sec._list_start as int) == s.subrange(0, sec._list_start as int)
            &&& t.subrange(t.len() - (s.len() - sec.list_end), t.len() as int) == s.subrange(
                sec.list_end as int,
                s.len() as int,
            )
        }),
{
    let e = sec.entries[i];
    let a = line_start(s, sec._list_start as int, e.start_pos as int);
    let b = cut_end(s, e.start_pos as int, e.end_pos as int);
    crate::text::lemma_rfind_in_bounds(s, seq!['\n'], sec._list_start as int, e.start_pos as int);
    if let Ok((start, ob, starts, close, end)) = layout(Shape::PackageList, s) {
        lemma_scan_bounds(Shape::PackageList, s, ob + 1);
        assert(s[close] == ']');
    }
    let c = sec.list_end as int;
    if !(e.start_pos < e.end_pos && s[e.end_pos - 1] == '\n') {
        lemma_skip_blank_stops(s, e.end_pos as int, c);
        lemma_skip_blank(s, e.end_pos as int);
    }
    lemma_splice_keeps_outside(s, a, b, seq![], sec._list_start as int, c);
}

/// Adding an environment variable changes nothing outside the map's braces.
pub proof fn lemma_add_env_var_keeps_outside(sec: EnvVarsSection, s: Seq<char>, name: Seq<char>, value: Seq<char>)
    requires
        sec.fits(s.len() as int),
    ensures
        ({
            let ip = crate::section::insertion_point(s, sec._content_start as int, sec._content_end as int);
            let t = splice(s, ip, ip, env_line(sec.indentation@, name, value));
            &&& t.subrange(0, sec._content_start as int) == s.subrange(0, sec._content_start as int)
            &&& t.subrange(t.len() - (s.len() - sec._content_end), t.len() as int) == s.subrange(
                sec._content_end as int,
                s.len() as int,
            )
        }),
{
    let ip = crate::section::insertion_point(s, sec._content_start as int, sec._content_end as int);
    crate::text::lemma_rfind_in_bounds(s, seq!['\n'], sec._content_start as int, sec._content_end as int);
    lemma_splice_keeps_outside(
        s,
        ip,
        ip,
        env_line(sec.indentation@, name, value),
        sec._content_start as int,
        sec._content_end as int,
    );
}

/// Removing the `i`-th environment variable changes nothing outside the
/// map's braces.
pub proof fn lemma_remove_env_var_keeps_outside(sec: EnvVarsSection, s: Seq<char>, i: int)
    requires
        sec.parsed_from(s),
        sec.fits(s.len() as int),
        0 <= i < sec.entries.len(),
    ensures
        ({
            let e = sec.entries[i];
            let a = line_start(s, sec._content_start as int, e.start_pos as int);
            let b = cut_end(s, e.start_pos as int, e.end_pos as int);
            let t = splice(s, a, b, seq![]);
            &&& sec._content_start <= a <= b <= sec._content_end
            &&& t.subrange(0, sec._content_start as int) == s.subrange(0, sec._content_start as int)
            &&& t.subrange(t.len() - (s.len() - sec._content_end), t.len() as int) == s.subrange(
                sec._content_end as int,
                s.len() as int,
            )
        }),
{
    let e = sec.entries[i];
    let a = line_start(s, sec._content_start as int, e.start_pos as int);
    let b = cut_end(s, e.start_pos as int, e.end_pos as int);
    crate::text::lemma_rfind_in_bounds(s, seq!['\n'], sec._content_start as int, e.start_pos as int);
    if let Ok((start, ob, starts, close, end)) = layout(Shape::EnvVars, s) {
        lemma_scan_bounds(Shape::EnvVars, s, ob + 1);
        assert(s[close] == '}');
    }
    let c = sec._content_end as int;
    if !(e.start_pos < e.end_pos && s[e.end_pos - 1] == '\n') {
        lemma_skip_blank_stops(s, e.end_pos as int, c);
        lemma_skip_blank(s, e.end_pos as int);
    }
    lemma_splice_keeps_outside(s, a, b, seq![], sec._content_start as int, c);
}

/// Removing a pinned package takes its record out of its pin; when that
/// leaves the pin's list empty, the pin entry and then the pin's source go
/// too, and otherwise nothing but the record's line inside the pin's list
/// changes, so the source stays.
pub proof fn lemma_cleanup_follows_last_package(s: Seq<char>, alias: Seq<char>)
    requires
        remove_pinned_package_spec(s, alias) is Ok,
    ensures
        ({
            let pin = find_pin_for_package_spec(s, alias)->Ok_0;
            let s1 = remove_package_from_pin_spec(s, pin, alias)->Ok_0;
            &&& pin_has_packages_spec(s1, pin) == Ok::<bool, crate::error::EditError>(false) ==> remove_pinned_package_spec(
                s,
                alias,
            ) == remove_source_spec(remove_pin_entry_spec(s1, pin)->Ok_0, pin)
            &&& pin_has_packages_spec(s1, pin) == Ok::<bool, crate::error::EditError>(true) ==> remove_pinned_package_spec(
                s,
                alias,
            ) == Ok::<Seq<char>, crate::error::EditError>(s1)
            &&& crate::pins::record_span(s, pin, alias) matches Ok((x, y)) && crate::pins::pin_entry_span(
                s,
                pin,
            ) matches Ok((_, ob, c)) && ob + 1 <= x <= y <= c && s1 == splice(s, x, y, seq![])
        }),
{
    let pin = find_pin_for_package_spec(s, alias)->Ok_0;
    let (_, ob, c) = crate::pins::pin_entry_span(s, pin)->Ok_0;
    let pat = crate::pins::alias_pattern(alias);
    crate::text::lemma_matching_from(s, ob, ob, '[', ']');
    lemma_find_in_bounds(s, pat, ob + 1, c);
    let p = find_in(s, pat, ob + 1, c)->Some_0;
    crate::text::lemma_rfind_in_bounds(s, seq!['\n'], ob + 1, p);
    lemma_find_in_bounds(s, seq!['\n'], p, c);
}

/// `rfind_in` finds nothing only when there is nothing to find.
proof fn lemma_rfind_in_none(s: Seq<char>, pat: Seq<char>, from: int, to: int)
    requires
        to <= s.len(),
    ensures
        crate::text::rfind_in(s, pat, from, to) is None ==> forall|j: int|
            from <= j && j + pat.len() <= to ==> !matches_at(s, pat, j),
    decreases to + 1 - from,
{
    if from + pat.len() > to {
    } else if matches_at(s, pat, to - pat.len()) {
    } else {
        lemma_rfind_in_none(s, pat, from, to - 1);
    }
}

/// `s` and `t` hold the same characters before `n`.
pub open spec fn agree(s: Seq<char>, t: Seq<char>, n: int) -> bool {
    &&& 0 <= n <= s.len()
    &&& n <= t.len()
    &&& forall|k: int| 0 <= k < n ==> s[k] == t[k]
}

/// `t` is `s` with `d` characters put in at `n`: from `n` on, `t` holds
/// `s`'s characters `d` places later.
pub open spec fn shifted(s: Seq<char>, t: Seq<char>, n: int, d: int) -> bool {
    &&& 0 <= n <= s.len()
    &&& t.len() == s.len() + d
    &&& forall|k: int| n <= k < s.len() ==> t[k + d] == s[k]
}

proof fn lemma_skip_multi_blank_agree(s: Seq<char>, t: Seq<char>, n: int, p: int)
    requires
        agree(s, t, n),
        0 <= p,
        skip_multi_blank(s, p) < n,
    ensures
        skip_multi_blank(t, p) == skip_multi_blank(s, p),
    decreases s.len() - p,
{
    if p <= s.len() {
        lemma_skip_multi_blank(s, p);
    }
    if p < n {
        assert(t[p] == s[p]);
    }
    if 0 <= p < s.len() && is_multi_blank(s[p]) {
        lemma_skip_multi_blank_agree(s, t, n, p + 1);
    }
}

proof fn lemma_skip_blank_agree(s: Seq<char>, t: Seq<char>, n: int, p: int)
    requires
        agree(s, t, n),
        0 <= p,
        skip_blank(s, p) < n,
    ensures
        skip_blank(t, p) == skip_blank(s, p),
    decreases s.len() - p,
{
    if p <= s.len() {
        lemma_skip_blank(s, p);
    }
    if p < n {
        assert(t[p] == s[p]);
    }
    if 0 <= p < s.len() && is_blank(s[p]) {
        lemma_skip_blank_agree(s, t, n, p + 1);
    }
}

proof fn lemma_path_end_agree(s: Seq<char>, t: Seq<char>, n: int, p: int)
    requires
        agree(s, t, n),
        0 <= p,
        path_end(s, p) < n,
    ensures
        path_end(t, p) == path_end(s, p),
    decreases s.len() - p,
{
    if p <= s.len() {
        lemma_path_end(s, p);
    }
    if p < n {
        assert(t[p] == s[p]);
    }
    if 0 <= p < s.len() && is_path_char(s[p]) {
        lemma_path_end_agree(s, t, n, p + 1);
    }
}

pub(crate) proof fn lemma_line_end_agree(s: Seq<char>, t: Seq<char>, n: int, p: int)
    requires
        agree(s, t, n),
        0 <= p,
        line_end(s, p) < n,
    ensures
        line_end(t, p) == line_end(s, p),
    decreases s.len() - p,
{
    if p <= s.len() {
        lemma_line_end(s, p);
    }
    if p < n {
        assert(t[p] == s[p]);
    }
    if 0 <= p < s.len() && s[p] != '\n' {
        lemma_line_end_agree(s, t, n, p + 1);
    }
}

/// Blanks skipped from `p` stop at `r` when everything in `p..r` is blank
/// and `s[r]` is not.
pub(crate) proof fn lemma_skip_multi_blank_run(s: Seq<char>, p: int, r: int)
    requires
        0 <= p <= r < s.len(),
        forall|k: int| p <= k < r ==> is_multi_blank(#[trigger] s[k]),
        !is_multi_blank(s[r]),
    ensures
        skip_multi_blank(s, p) == r,
    decreases r - p,
{
    if p < r {
        lemma_skip_multi_blank_run(s, p + 1, r);
    }
}

pub(crate) proof fn lemma_path_end_run(s: Seq<char>, p: int, r: int)
    requires
        0 <= p <= r < s.len(),
        forall|k: int| p <= k < r ==> is_path_char(#[trigger] s[k]),
        !is_path_char(s[r]),
    ensures
        path_end(s, p) == r,
    decreases r - p,
{
    if p < r {
        lemma_path_end_run(s, p + 1, r);
    }
}

pub(crate) proof fn lemma_skip_blank_run(s: Seq<char>, p: int, r: int)
    requires
        0 <= p <= r < s.len(),
        forall|k: int| p <= k < r ==> is_blank(#[trigger] s[k]),
        !is_blank(s[r]),
    ensures
        skip_blank(s, p) == r,
    decreases r - p,
{
    if p < r {
        lemma_skip_blank_run(s, p + 1, r);
    }
}

pub(crate) proof fn lemma_line_end_run(s: Seq<char>, p: int, r: int)
    requires
        0 <= p <= r < s.len(),
        forall|k: int| p <= k < r ==> #[trigger] s[k] != '\n',
        s[r] == '\n',
    ensures
        line_end(s, p) == r,
    decreases r - p,
{
    if p < r {
        lemma_line_end_run(s, p + 1, r);
    }
}

proof fn lemma_skip_blank_shifted(s: Seq<char>, t: Seq<char>, n: int, d: int, p: int)
    requires
        shifted(s, t, n, d),
        n <= p <= s.len(),
        p + d >= 0,
    ensures
        skip_blank(t, p + d) == skip_blank(s, p) + d,
    decreases s.len() - p,
{
    if p < s.len() && is_blank(s[p]) {
        lemma_skip_blank_shifted(s, t, n, d, p + 1);
    }
}

proof fn lemma_skip_multi_blank_shifted(s: Seq<char>, t: Seq<char>, n: int, d: int, p: int)
    requires
        shifted(s, t, n, d),
        n <= p <= s.len(),
        p + d >= 0,
    ensures
        skip_multi_blank(t, p + d) == skip_multi_blank(s, p) + d,
    decreases s.len() - p,
{
    if p < s.len() && is_multi_blank(s[p]) {
        lemma_skip_multi_blank_shifted(s, t, n, d, p + 1);
    }
}

proof fn lemma_path_end_shifted(s: Seq<char>, t: Seq<char>, n: int, d: int, p: int)
    requires
        shifted(s, t, n, d),
        n <= p <= s.len(),
        p + d >= 0,
    ensures
        path_end(t, p + d) == path_end(s, p) + d,
    decreases s.len() - p,
{
    if p < s.len() && is_path_char(s[p]) {
        lemma_path_end_shifted(s, t, n, d, p + 1);
    }
}

pub(crate) proof fn lemma_line_end_shifted(s: Seq<char>, t: Seq<char>, n: int, d: int, p: int)
    requires
        shifted(s, t, n, d),
        n <= p <= s.len(),
        p + d >= 0,
    ensures
        line_end(t, p + d) == line_end(s, p) + d,
    decreases s.len() - p,
{
    if p < s.len() && s[p] != '\n' {
        lemma_line_end_shifted(s, t, n, d, p + 1);
    }
}

proof fn lemma_package_entry_shifted(s: Seq<char>, t: Seq<char>, n: int, d: int, q: int)
    requires
        shifted(s, t, n, d),
        n <= q < s.len(),
        q + d >= 0,
        is_path_char(s[q]),
    ensures
        package_entry_end(t, q + d) == package_entry_end(s, q) + d,
        path_end(t, q + d) == path_end(s, q) + d,
        t.subrange(q + d, path_end(t, q + d)) == s.subrange(q, path_end(s, q)),
{
    lemma_path_end(s, q);
    lemma_path_end_shifted(s, t, n, d, q);
    let ne = path_end(s, q);
    lemma_skip_blank(s, ne);
    lemma_skip_blank_shifted(s, t, n, d, ne);
    let b = skip_blank(s, ne);
    if 0 <= b < s.len() && s[b] == '#' {
        lemma_line_end(s, b + 1);
        lemma_line_end_shifted(s, t, n, d, b + 1);
        assert(t[b + d] == s[b]);
        let le = line_end(s, b + 1);
        if le < s.len() {
            assert(t[le + d] == s[le]);
        }
    } else {
        if 0 <= b < s.len() {
            assert(t[b + d] == s[b]);
        }
        if ne < s.len() {
            assert(t[ne + d] == s[ne]);
            if ne + 1 < s.len() {
                assert(t[ne + 1 + d] == s[ne + 1]);
            }
        }
    }
    assert(t.subrange(q + d, ne + d) =~= s.subrange(q, ne));
}

/// The entry starting at `q`, on a line that ends before `n`, ends at or
/// before `n` and reads the same in any text that agrees with `s` before `n`.
proof fn lemma_package_entry_agree(s: Seq<char>, t: Seq<char>, n: int, q: int)
    requires
        agree(s, t, n),
        0 <= q < n,
        s[n - 1] == '\n',
        is_path_char(s[q]),
    ensures
        q < package_entry_end(s, q) <= n,
        package_entry_end(t, q) == package_entry_end(s, q),
        path_end(s, q) < n,
        path_end(t, q) == path_end(s, q),
{
    lemma_path_end(s, q);
    let ne = path_end(s, q);
    if ne >= n {
        assert(is_path_char(s[n - 1])) by {
            lemma_path_chars(s, q, n - 1);
        }
    }
    assert(ne < n);
    lemma_path_end_agree(s, t, n, q);
    lemma_skip_blank_stops(s, ne, n - 1);
    lemma_skip_blank(s, ne);
    let b = skip_blank(s, ne);
    lemma_skip_blank_agree(s, t, n, ne);
    if 0 <= b < s.len() && s[b] == '#' {
        lemma_line_end(s, b + 1);
        lemma_line_end_stops(s, b + 1, n - 1);
        lemma_line_end_agree(s, t, n, b + 1);
    }
}

/// Everything from `q` up to the end of the path is a path character.
proof fn lemma_path_chars(s: Seq<char>, q: int, k: int)
    requires
        0 <= q <= k < path_end(s, q),
    ensures
        is_path_char(s[k]),
    decreases k - q,
{
    if q < k {
        lemma_path_chars(s, q + 1, k);
    }
}

/// A line end searched from `i` stops at or before a line feed at `j`.
proof fn lemma_line_end_stops(s: Seq<char>, i: int, j: int)
    requires
        0 <= i <= j < s.len(),
        s[j] == '\n',
    ensures
        line_end(s, i) <= j,
    decreases j - i,
{
    if s[i] != '\n' {
        lemma_line_end_stops(s, i + 1, j);
    }
}

/// Scanning a list body whose last line (blanks, then the `]` at `c`) got
/// a new entry at `qs`, put in at `ip`, finds what it found before and then
/// the new entry; the `]` moves by the length `d` of what was put in.
proof fn lemma_scan_with_added(s: Seq<char>, t: Seq<char>, ip: int, qs: int, d: int, c: int, p: int)
    requires
        agree(s, t, ip),
        shifted(s, t, ip, d),
        1 <= ip,
        0 <= p <= ip <= c < s.len(),
        s[c] == ']',
        s[ip - 1] == '\n',
        forall|k: int| ip <= k < c ==> is_blank(#[trigger] s[k]),
        ip <= qs < ip + d,
        forall|k: int| ip <= k < qs ==> is_multi_blank(#[trigger] t[k]),
        is_path_char(t[qs]),
        package_entry_end(t, qs) == ip + d,
        scan(Shape::PackageList, s, p) matches Some((_, c2)) && c2 == c,
    ensures
        scan(Shape::PackageList, s, p) matches Some((st, _)) && scan(Shape::PackageList, t, p) == Some(
            (st.push(qs), c + d),
        ),
    decreases ip - p,
{
    lemma_skip_multi_blank(s, p);
    let q = skip_multi_blank(s, p);
    // the body's closing line, shifted
    assert forall|k: int| ip + d <= k < c + d implies is_multi_blank(#[trigger] t[k]) by {
        assert(t[(k - d) + d] == s[k - d]);
    }
    assert(t[c + d] == s[c]);
    lemma_skip_multi_blank_run(t, ip + d, c + d);
    assert(scan(Shape::PackageList, t, ip + d) == Some((Seq::<int>::empty(), c + d)));
    if q >= ip {
        if q < c {
            assert(is_blank(s[q]));
        }
        if q > c {
            assert(is_multi_blank(s[c]));
        }
        assert(q == c);
        assert forall|k: int| p <= k < qs implies is_multi_blank(#[trigger] t[k]) by {
            if k < ip {
                assert(t[k] == s[k]);
            }
        }
        lemma_skip_multi_blank_run(t, p, qs);
        assert(entry_end(Shape::PackageList, t, qs) == Some(ip + d));
        assert(Seq::<int>::empty().push(qs) =~= seq![qs] + Seq::<int>::empty());
    } else {
        lemma_skip_multi_blank_agree(s, t, ip, p);
        assert(t[q] == s[q]);
        if s[q] == ']' {
            assert(false);
        } else if is_path_char(s[q]) {
            lemma_package_entry_agree(s, t, ip, q);
            let e = package_entry_end(s, q);
            lemma_scan_with_added(s, t, ip, qs, d, c, e);
            if let Some((rest, _)) = scan(Shape::PackageList, s, e) {
                assert(seq![q] + rest.push(qs) =~= (seq![q] + rest).push(qs));
            }
        } else {
            lemma_line_end(s, q);
            lemma_line_end_stops(s, q, ip - 1);
            lemma_line_end_agree(s, t, ip, q);
            let k = line_end(s, q);
            lemma_scan_with_added(s, t, ip, qs, d, c, k + 1);
        }
    }
}

/// `r` with every position moved by `d`.
pub open spec fn shift_scan(r: Option<(Seq<int>, int)>, d: int) -> Option<(Seq<int>, int)> {
    match r {
        Some((st, c)) => Some((st.map_values(|x: int| x + d), c + d)),
        None => None,
    }
}

proof fn lemma_scan_shifted(s: Seq<char>, t: Seq<char>, n: int, d: int, p: int)
    requires
        shifted(s, t, n, d),
        n <= p <= s.len(),
        p + d >= 0,
    ensures
        scan(Shape::PackageList, t, p + d) == shift_scan(scan(Shape::PackageList, s, p), d),
    decreases s.len() - p,
{
    lemma_skip_multi_blank(s, p);
    lemma_skip_multi_blank_shifted(s, t, n, d, p);
    let q = skip_multi_blank(s, p);
    if q < s.len() {
        assert(t[q + d] == s[q]);
    }
    if q < s.len() && s[q] == ']' {
        assert(Seq::<int>::empty().map_values(|x: int| x + d) =~= Seq::<int>::empty());
    } else if q < s.len() && is_path_char(s[q]) {
        lemma_package_entry_shifted(s, t, n, d, q);
        crate::packages::lemma_package_entry_end(s, q);
        let e = package_entry_end(s, q);
        if e <= p || e > s.len() {
        } else {
            lemma_scan_shifted(s, t, n, d, e);
            if let Some((rest, c)) = scan(Shape::PackageList, s, e) {
                assert(seq![q + d] + rest.map_values(|x: int| x + d) =~= (seq![q] + rest).map_values(|x: int| x + d));
            }
        }
    } else {
        lemma_line_end(s, q);
        lemma_line_end_shifted(s, t, n, d, q);
        let k = line_end(s, q);
        if k < s.len() && k >= p {
            lemma_scan_shifted(s, t, n, d, k + 1);
        }
    }
}

proof fn lemma_skip_multi_blank_prefix(s: Seq<char>, p: int, r: int)
    requires
        0 <= p <= r <= s.len(),
        forall|k: int| p <= k < r ==> is_multi_blank(#[trigger] s[k]),
    ensures
        skip_multi_blank(s, p) == skip_multi_blank(s, r),
    decreases r - p,
{
    if p < r {
        lemma_skip_multi_blank_prefix(s, p + 1, r);
    }
}

/// Scanning from `p` or from `r` finds the same when only blanks and line
/// breaks lie between.
proof fn lemma_scan_blank_run(s: Seq<char>, p: int, r: int)
    requires
        0 <= p <= r <= s.len(),
        forall|k: int| p <= k < r ==> is_multi_blank(#[trigger] s[k]),
    ensures
        scan(Shape::PackageList, s, p) == scan(Shape::PackageList, s, r),
{
    lemma_skip_multi_blank_prefix(s, p, r);
    lemma_skip_multi_blank(s, r);
    let q = skip_multi_blank(s, r);
    if q < s.len() && is_path_char(s[q]) {
        crate::packages::lemma_package_entry_end(s, q);
    } else {
        lemma_line_end(s, q);
    }
}

/// Scanning a list body from which the line of the entry at `q` (from the
/// line start `a` to `b`) was cut finds what it found before, but for that
/// entry, and positions after the cut move back by its length.
proof fn lemma_scan_with_removed(s: Seq<char>, t: Seq<char>, a: int, b: int, q: int, p: int)
    requires
        agree(s, t, a),
        shifted(s, t, b, a - b),
        1 <= a,
        0 <= p <= a <= q < b <= s.len(),
        s[a - 1] == '\n',
        forall|k: int| a <= k < q ==> is_blank(#[trigger] s[k]),
        is_path_char(s[q]),
        package_entry_end(s, q) <= b,
        forall|k: int| package_entry_end(s, q) <= k < b ==> is_multi_blank(#[trigger] s[k]),
        scan(Shape::PackageList, s, p) matches Some((st, _)) && st.contains(q),
    ensures
        scan(Shape::PackageList, s, p) matches Some((st, c)) && scan(Shape::PackageList, s, b) matches Some(
            (rest, c2),
        ) && c2 == c && st.len() >= rest.len() + 1 && st == st.subrange(0, st.len() - rest.len() - 1)
            + seq![q] + rest && (forall|k: int| 0 <= k < st.len() - rest.len() - 1 ==> #[trigger] st[k] < a)
            && scan(Shape::PackageList, t, p) == Some(
            (st.subrange(0, st.len() - rest.len() - 1) + rest.map_values(|x: int| x + (a - b)), c + (a - b)),
        ),
    decreases a - p,
{
    lemma_skip_multi_blank(s, p);
    let q1 = skip_multi_blank(s, p);
    let d = a - b;
    crate::packages::lemma_package_entry_end(s, q);
    let e = package_entry_end(s, q);
    if q1 >= a {
        if q1 > q {
            assert(is_multi_blank(s[q]));
        }
        if q1 < q {
            assert(is_blank(s[q1]));
        }
        assert(q1 == q);
        lemma_scan_blank_run(s, e, b);
        assert forall|k: int| p <= k < a implies is_multi_blank(#[trigger] t[k]) by {
            assert(t[k] == s[k]);
        }
        lemma_scan_blank_run(t, p, a);
        lemma_scan_shifted(s, t, b, d, b);
        if let Some((rest, c)) = scan(Shape::PackageList, s, b) {
            let st = seq![q] + rest;
            assert(st.subrange(0, 0) + seq![q] + rest =~= st);
            assert(st.subrange(0, 0) + rest.map_values(|x: int| x + d) =~= rest.map_values(|x: int| x + d));
        }
    } else {
        lemma_skip_multi_blank_agree(s, t, a, p);
        assert(t[q1] == s[q1]);
        if s[q1] == ']' {
            assert(!Seq::<int>::empty().contains(q));
        } else if is_path_char(s[q1]) {
            lemma_package_entry_agree(s, t, a, q1);
            let e1 = package_entry_end(s, q1);
            if let Some((st1, _)) = scan(Shape::PackageList, s, e1) {
                assert((seq![q1] + st1).contains(q));
                let j = choose|j: int| 0 <= j < (seq![q1] + st1).len() && (seq![q1] + st1)[j] == q;
                assert(j > 0);
                assert(st1[j - 1] == q);
                assert(st1.contains(q));
            }
            lemma_scan_with_removed(s, t, a, b, q, e1);
            if let Some((st1, c)) = scan(Shape::PackageList, s, e1) {
                let rest = scan(Shape::PackageList, s, b)->Some_0.0;
                let pre1 = st1.subrange(0, st1.len() - rest.len() - 1);
                let st = seq![q1] + st1;
                assert(st.subrange(0, st.len() - rest.len() - 1) =~= seq![q1] + pre1);
                assert(st =~= (seq![q1] + pre1) + seq![q] + rest);
                assert(seq![q1] + (pre1 + rest.map_values(|x: int| x + d)) =~= (seq![q1] + pre1) + rest.map_values(|x: int| x + d));
                assert forall|k: int| 0 <= k < st.len() - rest.len() - 1 implies #[trigger] st[k] < a by {
                    if k > 0 {
                        assert(st[k] == st1[k - 1]);
                        assert(st1[k - 1] == pre1[k - 1]);
                    }
                }
            }
        } else {
            lemma_line_end(s, q1);
            lemma_line_end_stops(s, q1, a - 1);
            lemma_line_end_agree(s, t, a, q1);
            let k = line_end(s, q1);
            lemma_scan_with_removed(s, t, a, b, q, k + 1);
        }
    }
}

/// The package list is well formed for an addition: its body holds a line
/// break, the closing line holds only blanks before `]`, and the
/// indentation is made of blanks.
pub open spec fn well_formed_for_add(sec: PackagesSection, s: Seq<char>) -> bool {
    let ip = sec.insertion_point(s);
    &&& sec._list_start < ip
    &&& s[ip - 1] == '\n'
    &&& forall|k: int| ip <= k < sec.list_end ==> is_blank(#[trigger] s[k])
    &&& sec.indentation@.len() > 0
    &&& forall|k: int| 0 <= k < sec.indentation@.len() ==> is_blank(#[trigger] sec.indentation@[k])
}

/// `name` can be written as a package: a non-empty attribute path.
pub open spec fn is_package_name(name: Seq<char>) -> bool {
    name.len() > 0 && forall|k: int| 0 <= k < name.len() ==> is_path_char(#[trigger] name[k])
}

/// `comment` can stand after a package: it holds no line feed.
pub open spec fn is_inline_comment(comment: Option<Seq<char>>) -> bool {
    match comment {
        Some(c) => forall|k: int| 0 <= k < c.len() ==> #[trigger] c[k] != '\n',
        None => true,
    }
}

pub(crate) proof fn lemma_find_in_agree(s: Seq<char>, t: Seq<char>, n: int, pat: Seq<char>, from: int, i: int)
    requires
        agree(s, t, n),
        0 <= from <= i,
        find_in(s, pat, from, s.len() as int) == Some(i),
        i + pat.len() <= n,
    ensures
        find_in(t, pat, from, t.len() as int) == Some(i),
    decreases i - from,
{
    assert(t.subrange(from, from + pat.len()) =~= s.subrange(from, from + pat.len()));
    assert(matches_at(t, pat, from) == matches_at(s, pat, from));
    if from < i {
        assert(!matches_at(s, pat, from));
        lemma_find_in_agree(s, t, n, pat, from + 1, i);
        assert(find_in(t, pat, from + 1, t.len() as int) == Some(i));
    } else {
        lemma_find_in_bounds(s, pat, from + 1, s.len() as int);
    }
}

/// The entry written by `add_package` reads back as `name`, and ends where
/// the written line ends.
proof fn lemma_added_entry(t: Seq<char>, ip: int, indent: Seq<char>, name: Seq<char>, comment: Option<Seq<char>>)
    requires
        0 <= ip,
        ip + package_line(indent, name, comment).len() <= t.len(),
        t.subrange(ip, ip + package_line(indent, name, comment).len()) == package_line(indent, name, comment),
        is_package_name(name),
        is_inline_comment(comment),
    ensures
        path_end(t, ip + indent.len()) == ip + indent.len() + name.len(),
        package_entry_end(t, ip + indent.len()) == ip + package_line(indent, name, comment).len(),
        is_path_char(t[ip + indent.len()]),
{
    reveal_strlit("\n");
    reveal_strlit(" # ");
    let line = package_line(indent, name, comment);
    let qs = ip + indent.len();
    let ne = qs + name.len();
    assert forall|k: int| 0 <= k < line.len() implies t[ip + k] == #[trigger] line[k] by {
        assert(t.subrange(ip, ip + line.len())[k] == t[ip + k]);
    }
    assert forall|k: int| qs <= k < ne implies is_path_char(#[trigger] t[k]) by {
        assert(t[ip + (k - ip)] == line[k - ip]);
        assert(line[k - ip] == name[k - qs]);
    }
    assert(t[qs] == line[indent.len() as int]);
    match comment {
        None => {
            assert(t[ne] == line[ne - ip]);
            assert(t[ne] == '\n');
            lemma_path_end_run(t, qs, ne);
            lemma_skip_blank_run(t, ne, ne);
            assert(comment_span(t, ne) is None);
        },
        Some(c) => {
            assert(t[ne] == line[ne - ip]);
            assert(t[ne + 1] == line[ne + 1 - ip]);
            assert(t[ne + 2] == line[ne + 2 - ip]);
            assert(t[ne] == ' ');
            assert(t[ne + 1] == '#');
            lemma_path_end_run(t, qs, ne);
            lemma_skip_blank_run(t, ne, ne + 1);
            let le = ne + 3 + c.len();
            assert(t[le] == line[le - ip]);
            assert(t[le] == '\n');
            assert forall|k: int| ne + 2 <= k < le implies #[trigger] t[k] != '\n' by {
                assert(t[ip + (k - ip)] == line[k - ip]);
                if k > ne + 2 {
                    assert(line[k - ip] == c[k - ne - 3]);
                }
            }
            lemma_line_end_run(t, ne + 2, le);
        },
    }
}

/// What a text with `ins` put in at `ip` holds where.
pub(crate) proof fn lemma_splice_facts(s: Seq<char>, ip: int, ins: Seq<char>)
    requires
        0 <= ip <= s.len(),
    ensures
        agree(s, splice(s, ip, ip, ins), ip),
        shifted(s, splice(s, ip, ip, ins), ip, ins.len() as int),
        splice(s, ip, ip, ins).subrange(ip, ip + ins.len()) == ins,
{
    let t = splice(s, ip, ip, ins);
    let d = ins.len() as int;
    assert forall|k: int| ip <= k < s.len() implies t[k + d] == s[k] by {}
    assert(t.subrange(ip, ip + d) =~= ins);
}

/// A text that agrees with `s` up to past the opening bracket of its
/// package list finds the introducer and the bracket at the same places.
proof fn lemma_intro_agree(s: Seq<char>, t: Seq<char>, n: int, start: int, ob: int)
    requires
        agree(s, t, n),
        find_in(s, intro(Shape::PackageList), 0, s.len() as int) == Some(start),
        ob == open_pos(Shape::PackageList, s, start + intro(Shape::PackageList).len()),
        ob < n,
        s[ob] == '[',
    ensures
        find_in(t, intro(Shape::PackageList), 0, t.len() as int) == Some(start),
        open_pos(Shape::PackageList, t, start + intro(Shape::PackageList).len()) == ob,
{
    let pf = start + intro(Shape::PackageList).len();
    reveal_strlit("packages =");
    reveal_strlit("with pkgs;");
    lemma_find_in_bounds(s, intro(Shape::PackageList), 0, s.len() as int);
    lemma_skip_blank(s, pf);
    let lead = skip_blank(s, pf);
    if matches_at(s, with_pkgs(), lead) {
        lemma_skip_blank(s, lead + 10);
        assert(t.subrange(lead, lead + 10) =~= s.subrange(lead, lead + 10));
        lemma_skip_blank_agree(s, t, n, lead + 10);
    } else {
        assert(lead == ob);
        if lead + 10 <= t.len() {
            assert(t.subrange(lead, lead + 10)[0] == t[lead]);
        }
    }
    lemma_skip_blank_agree(s, t, n, pf);
    lemma_find_in_agree(s, t, n, intro(Shape::PackageList), 0, start);
}

/// Adding a package to a well-formed list leaves a text whose package list
/// parses, with the new package as its last entry.
#[verifier::rlimit(100)]
pub proof fn lemma_add_then_parse(sec: PackagesSection, s: Seq<char>, name: Seq<char>, comment: Option<Seq<char>>)
    requires
        sec.parsed_from(s),
        sec.fits(s.len() as int),
        well_formed_for_add(sec, s),
        is_package_name(name),
        is_inline_comment(comment),
    ensures
        ({
            let ip = sec.insertion_point(s);
            let line = package_line(sec.indentation@, name, comment);
            let t = splice(s, ip, ip, line);
            let qs = ip + sec.indentation@.len();
            layout(Shape::PackageList, t) matches Ok((_, _, starts, _, _)) && starts.len() > 0
                && starts.last() == qs && t.subrange(qs, path_end(t, qs)) == name
        }),
{
    let ip = sec.insertion_point(s);
    let (start, ob, starts, c, end) = layout(Shape::PackageList, s)->Ok_0;
    lemma_scan_bounds(Shape::PackageList, s, ob + 1);
    crate::text::lemma_rfind_in_bounds(s, seq!['\n'], sec._list_start as int, sec.list_end as int);
    assert(s[ob] == '[') by {
        assert(layout(Shape::PackageList, s) is Ok);
    }
    assert(ob >= 0) by {
        let pf = start + intro(Shape::PackageList).len();
        lemma_find_in_bounds(s, intro(Shape::PackageList), 0, s.len() as int);
        lemma_skip_blank(s, pf);
        if matches_at(s, with_pkgs(), skip_blank(s, pf)) {
            lemma_skip_blank(s, skip_blank(s, pf) + with_pkgs().len());
        }
    }
    lemma_add_core(s, ip, sec.indentation@, name, comment, start, ob, starts, c, end);
}

#[verifier::rlimit(100)]
proof fn lemma_add_core(
    s: Seq<char>,
    ip: int,
    indent: Seq<char>,
    name: Seq<char>,
    comment: Option<Seq<char>>,
    start: int,
    ob: int,
    starts: Seq<int>,
    c: int,
    end: int,
)
    requires
        layout(Shape::PackageList, s) == Ok::<(int, int, Seq<int>, int, int), crate::error::EditError>(
            (start, ob, starts, c, end),
        ),
        0 <= ob,
        ob + 1 < ip <= c < s.len(),
        s[ob] == '[',
        s[c] == ']',
        s[ip - 1] == '\n',
        forall|k: int| ip <= k < c ==> is_blank(#[trigger] s[k]),
        indent.len() > 0,
        forall|k: int| 0 <= k < indent.len() ==> is_blank(#[trigger] indent[k]),
        is_package_name(name),
        is_inline_comment(comment),
    ensures
        ({
            let line = package_line(indent, name, comment);
            let t = splice(s, ip, ip, line);
            let qs = ip + indent.len();
            layout(Shape::PackageList, t) matches Ok((_, _, starts, _, _)) && starts.len() > 0
                && starts.last() == qs && t.subrange(qs, path_end(t, qs)) == name
        }),
{
    let line = package_line(indent, name, comment);
    let d = line.len() as int;
    let t = splice(s, ip, ip, line);
    let qs = ip + indent.len();
    lemma_splice_facts(s, ip, line);
    lemma_added_entry(t, ip, indent, name, comment);
    assert forall|k: int| ip <= k < qs implies is_multi_blank(#[trigger] t[k]) by {
        assert(t[k] == line[k - ip]);
        assert(line[k - ip] == indent[k - ip]);
    }
    lemma_scan_with_added(s, t, ip, qs, d, c, ob + 1);
    lemma_intro_agree(s, t, ip, start, ob);
    lemma_skip_blank_shifted(s, t, ip, d, c + 1);
    lemma_skip_blank(s, c + 1);
    let semi = skip_blank(s, c + 1);
    assert(t[semi + d] == s[semi]);
    assert(t[ob] == s[ob]);
    assert(layout(Shape::PackageList, t) == Ok::<(int, int, Seq<int>, int, int), crate::error::EditError>(
        (start, ob, starts.push(qs), c + d, semi + 1 + d),
    ));
    assert(t.subrange(qs, qs + name.len()) =~= name) by {
        assert forall|k: int| 0 <= k < name.len() implies t[qs + k] == #[trigger] name[k] by {
            assert(t[qs + k] == line[indent.len() + k]);
        }
    }
}

/// Adding a package that is not in a well-formed list, then parsing the
/// result, finds the package: `add(X)` followed by `exists(X)` holds.
pub proof fn lemma_add_then_exists(
    sec: PackagesSection,
    s: Seq<char>,
    name: Seq<char>,
    comment: Option<Seq<char>>,
    sec2: PackagesSection,
)
    requires
        sec.parsed_from(s),
        sec.fits(s.len() as int),
        well_formed_for_add(sec, s),
        is_package_name(name),
        is_inline_comment(comment),
        sec2.parsed_from(
            crate::section::line_added(
                s,
                sec._list_start as int,
                sec.list_end as int,
                package_line(sec.indentation@, name, comment),
            ),
        ),
    ensures
        sec2.has_package(name),
{
    assert(crate::section::line_added(
        s,
        sec._list_start as int,
        sec.list_end as int,
        package_line(sec.indentation@, name, comment),
    ) == splice(s, sec.insertion_point(s), sec.insertion_point(s), package_line(sec.indentation@, name, comment)))
        by {
        lemma_rfind_in_none(s, seq!['\n'], sec._list_start as int, sec.list_end as int);
        let ip = sec.insertion_point(s);
        if crate::text::rfind_in(s, seq!['\n'], sec._list_start as int, sec.list_end as int) is None {
            assert(s.subrange(ip - 1, ip) =~= seq!['\n']);
            assert(matches_at(s, seq!['\n'], ip - 1));
        }
    }
    lemma_add_then_parse(sec, s, name, comment);
    let t = splice(s, sec.insertion_point(s), sec.insertion_point(s), package_line(sec.indentation@, name, comment));
    let (_, _, starts, _, _) = layout(Shape::PackageList, t)->Ok_0;
    let i = starts.len() - 1;
    assert(crate::packages::entry_at(t, starts[i], sec2.entries[i]));
    assert(crate::packages::package_matches(sec2.entries[i].name@, name));
}

proof fn lemma_agree_subrange(s: Seq<char>, t: Seq<char>, n: int, x: int, y: int)
    requires
        agree(s, t, n),
        0 <= x <= y <= n,
    ensures
        t.subrange(x, y) == s.subrange(x, y),
{
    assert(t.subrange(x, y) =~= s.subrange(x, y));
}

/// What a text with `a..b` cut out holds where.
pub(crate) proof fn lemma_cut_facts(s: Seq<char>, a: int, b: int)
    requires
        0 <= a <= b <= s.len(),
    ensures
        agree(s, splice(s, a, b, seq![]), a),
        shifted(s, splice(s, a, b, seq![]), b, a - b),
{
    let t = splice(s, a, b, seq![]);
    assert forall|k: int| b <= k < s.len() implies t[k + (a - b)] == s[k] by {}
}

/// The entries a scan finds start in increasing order.
proof fn lemma_starts_increasing(s: Seq<char>, p: int, starts: Seq<int>, c: int, j: int, k: int)
    requires
        scan_ordered(Shape::PackageList, s, p, starts, c),
        0 <= j < k < starts.len(),
    ensures
        starts[j] < starts[k],
    decreases k - j,
{
    assert(crate::section::entry_placed(Shape::PackageList, s, p, starts, c, j));
    if j + 1 < k {
        lemma_starts_increasing(s, p, starts, c, j + 1, k);
    }
}

/// The line of the `i`-th entry can be cut whole: a line break comes before
/// it inside the list, and only blanks stand between that break and the
/// entry.
pub open spec fn well_formed_for_remove(sec: PackagesSection, s: Seq<char>, i: int) -> bool {
    let q = sec.entries[i].start_pos as int;
    let a = line_start(s, sec._list_start as int, q);
    &&& crate::text::rfind_in(s, seq!['\n'], sec._list_start as int, q) is Some
    &&& forall|k: int| a <= k < q ==> is_blank(#[trigger] s[k])
}

#[verifier::rlimit(100)]
proof fn lemma_remove_core(
    s: Seq<char>,
    a: int,
    b: int,
    q: int,
    i: int,
    start: int,
    ob: int,
    starts: Seq<int>,
    c: int,
    end: int,
)
    requires
        layout(Shape::PackageList, s) == Ok::<(int, int, Seq<int>, int, int), crate::error::EditError>(
            (start, ob, starts, c, end),
        ),
        scan_ordered(Shape::PackageList, s, ob + 1, starts, c),
        0 <= ob,
        s[ob] == '[',
        0 <= i < starts.len(),
        starts[i] == q,
        ob + 1 < a <= q < b <= c,
        s[a - 1] == '\n',
        forall|k: int| a <= k < q ==> is_blank(#[trigger] s[k]),
        is_path_char(s[q]),
        package_entry_end(s, q) <= b,
        forall|k: int| package_entry_end(s, q) <= k < b ==> is_multi_blank(#[trigger] s[k]),
    ensures
        scan(Shape::PackageList, s, b) matches Some((rest, c2)) && c2 == c && starts == starts.subrange(0, i)
            + seq![q] + rest && layout(Shape::PackageList, splice(s, a, b, seq![])) == Ok::<
            (int, int, Seq<int>, int, int),
            crate::error::EditError,
        >(
            (start, ob, starts.subrange(0, i) + rest.map_values(|x: int| x + (a - b)), c + (a - b), end + (a - b)),
        ),
{
    let t = splice(s, a, b, seq![]);
    let d = a - b;
    lemma_cut_facts(s, a, b);
    assert(starts[i] == q);
    assert(starts.contains(q));
    lemma_scan_with_removed(s, t, a, b, q, ob + 1);
    lemma_intro_agree(s, t, a, start, ob);
    lemma_skip_blank_shifted(s, t, b, d, c + 1);
    lemma_skip_blank(s, c + 1);
    let semi = skip_blank(s, c + 1);
    assert(t[semi + d] == s[semi]);
    assert(t[ob] == s[ob]);
    let rest = scan(Shape::PackageList, s, b)->Some_0.0;
    let pre = starts.subrange(0, starts.len() - rest.len() - 1);
    assert(pre.len() == i) by {
        if pre.len() < i {
            lemma_starts_increasing(s, ob + 1, starts, c, pre.len() as int, i);
            assert(starts[pre.len() as int] == q);
        } else if pre.len() > i {
            assert(starts[i] == pre[i]);
            assert(pre[i] < a);
        }
    }
    assert(pre == starts.subrange(0, i));
}

/// Removing the only entry that stands for `name`, on a line of its own,
/// then parsing the result: no entry stands for `name` any more, and the
/// other entries are still there, in the same order (`remove(X)` followed
/// by `exists(X)` is false; removing `Y` leaves `X` alone).
/// The plain facts about a removal that the proofs below use.
#[verifier::rlimit(100)]
proof fn lemma_removal_setup(sec: PackagesSection, s: Seq<char>, i: int)
    requires
        sec.parsed_from(s),
        sec.fits(s.len() as int),
        0 <= i < sec.entries.len(),
        well_formed_for_remove(sec, s, i),
    ensures
        ({
            let q = sec.entries[i].start_pos as int;
            let a = line_start(s, sec._list_start as int, q);
            let b = cut_end(s, q, sec.entries[i].end_pos as int);
            layout(Shape::PackageList, s) matches Ok((start, ob, starts, c, end)) && {
                &&& sec._list_start == ob + 1
                &&& sec.list_end == c
                &&& 0 <= ob
                &&& s[ob] == '['
                &&& scan_ordered(Shape::PackageList, s, ob + 1, starts, c)
                &&& starts.len() == sec.entries.len()
                &&& starts[i] == q
                &&& ob + 1 < a <= q < b <= c
                &&& s[a - 1] == '\n'
                &&& (forall|k: int| a <= k < q ==> is_blank(#[trigger] s[k]))
                &&& is_path_char(s[q])
                &&& package_entry_end(s, q) <= b
                &&& (forall|k: int| package_entry_end(s, q) <= k < b ==> is_multi_blank(#[trigger] s[k]))
            }
        }),
{
    let q = sec.entries[i].start_pos as int;
    let a = line_start(s, sec._list_start as int, q);
    let b = cut_end(s, q, sec.entries[i].end_pos as int);
    let t = splice(s, a, b, seq![]);
    let d = a - b;
    lemma_remove_package_keeps_outside(sec, s, i);
    let (start, ob, starts, c, end) = layout(Shape::PackageList, s)->Ok_0;
    lemma_scan_bounds(Shape::PackageList, s, ob + 1);
    assert(starts[i] == q);
    assert(crate::section::entry_placed(Shape::PackageList, s, ob + 1, starts, c, i));
    let e = package_entry_end(s, q);
    assert(sec.entries[i].end_pos == e);
    crate::text::lemma_rfind_in_bounds(s, seq!['\n'], sec._list_start as int, q);
    let kk = crate::text::rfind_in(s, seq!['\n'], sec._list_start as int, q)->Some_0;
    assert(s.subrange(kk, kk + 1)[0] == s[kk]);
    assert(s[a - 1] == '\n');
    // what lies between the entry's end and the cut is blank
    assert forall|k: int| e <= k < b implies is_multi_blank(#[trigger] s[k]) by {
        if !(q < e && s[e - 1] == '\n') {
            lemma_skip_blank(s, e);
            let sb = skip_blank(s, e);
            if k < sb {
                assert(is_blank(s[k]));
            }
        }
    }
    assert(s[ob] == '[') by {
        assert(layout(Shape::PackageList, s) is Ok);
    }
    assert(ob >= 0) by {
        let pf = start + intro(Shape::PackageList).len();
        lemma_find_in_bounds(s, intro(Shape::PackageList), 0, s.len() as int);
        lemma_skip_blank(s, pf);
        if matches_at(s, with_pkgs(), skip_blank(s, pf)) {
            lemma_skip_blank(s, skip_blank(s, pf) + with_pkgs().len());
        }
    }
    lemma_skip_blank(s, e);
    assert(e <= b);
    assert(sec._list_start == ob + 1);
    assert(sec.list_end == c);
    assert(ob + 1 < a);
    assert(b <= c);
    assert(starts.len() == sec.entries.len());
}

#[verifier::rlimit(100)]
pub proof fn lemma_remove_then_absent(sec: PackagesSection, s: Seq<char>, name: Seq<char>, i: int, sec2: PackagesSection)
    requires
        sec.parsed_from(s),
        sec.fits(s.len() as int),
        0 <= i < sec.entries.len(),
        crate::packages::package_matches(sec.entries[i].name@, name),
        forall|j: int|
            0 <= j < sec.entries.len() && crate::packages::package_matches(#[trigger] sec.entries[j].name@, name)
                ==> j == i,
        well_formed_for_remove(sec, s, i),
        sec2.parsed_from(
            splice(
                s,
                line_start(s, sec._list_start as int, sec.entries[i].start_pos as int),
                cut_end(s, sec.entries[i].start_pos as int, sec.entries[i].end_pos as int),
                seq![],
            ),
        ),
    ensures
        sec.first_match(name) == i,
        !sec2.has_package(name),
        forall|j: int| 0 <= j < sec.entries.len() && j != i ==> sec2.has_entry((#[trigger] sec.entries[j]).name@),
        sec2.entries.len() == sec.entries.len() - 1,
        forall|k: int|
            0 <= k < sec2.entries.len() ==> (#[trigger] sec2.entries[k]).name@ == sec.entries[if k < i {
                k
            } else {
                k + 1
            }].name@,
{
    let q = sec.entries[i].start_pos as int;
    let a = line_start(s, sec._list_start as int, q);
    let b = cut_end(s, q, sec.entries[i].end_pos as int);
    let t = splice(s, a, b, seq![]);
    let d = a - b;
    // the entry the removal takes
    assert(sec.first_match(name) == i) by {
        assert(0 <= i < sec.entries.len() && crate::packages::package_matches(sec.entries[i].name@, name)
            && forall|j: int| 0 <= j < i ==> !crate::packages::package_matches(#[trigger] sec.entries[j].name@, name));
    }
    lemma_removal_setup(sec, s, i);
    let (start, ob, starts, c, end) = layout(Shape::PackageList, s)->Ok_0;
    assert(ob + 1 < a && b <= c);
    lemma_remove_core(s, a, b, q, i, start, ob, starts, c, end);
    lemma_cut_facts(s, a, b);
    lemma_scan_bounds(Shape::PackageList, s, b);
    let rest = scan(Shape::PackageList, s, b)->Some_0.0;
    let st2 = starts.subrange(0, i) + rest.map_values(|x: int| x + d);
    // each entry of the new list is an old entry other than the removed one
    assert forall|k: int| 0 <= k < st2.len() implies #[trigger] sec2.entries[k].name@ == sec.entries[if k < i {
        k
    } else {
        k + 1
    }].name@ by {
        assert(crate::packages::entry_at(t, st2[k], sec2.entries[k]));
        if k < i {
            assert(st2[k] == starts[k]);
            assert(crate::section::entry_placed(Shape::PackageList, s, ob + 1, starts, c, k));
            lemma_starts_increasing(s, ob + 1, starts, c, k, i);
            assert(is_path_char(s[starts[k]]));
            if starts[k] >= a {
                assert(is_blank(s[starts[k]]));
            }
            assert(starts[k] < a);
            lemma_package_entry_agree(s, t, a, starts[k]);
            lemma_path_end(s, starts[k]);
            lemma_agree_subrange(s, t, a, starts[k], path_end(s, starts[k]));
        } else {
            let r = rest[k - i];
            assert(st2[k] == r + d);
            assert(starts[k + 1] == r);
            assert(crate::section::entry_placed(Shape::PackageList, s, b, rest, c, k - i));
            lemma_package_entry_shifted(s, t, b, d, r);
        }
    }
    assert forall|k: int| 0 <= k < sec2.entries.len() implies !crate::packages::package_matches(
        #[trigger] sec2.entries[k].name@,
        name,
    ) by {
        let j = if k < i {
            k
        } else {
            k + 1
        };
        assert(sec2.entries[k].name@ == sec.entries[j].name@);
    }
    assert forall|j: int| 0 <= j < sec.entries.len() && j != i implies sec2.has_entry((#[trigger] sec.entries[j]).name@) by {
        let k = if j < i {
            j
        } else {
            j - 1
        };
        assert(sec2.entries[k].name@ == sec.entries[j].name@);
    }
}

} // verus!
