//! The normalizer: a pure, total function from a raw video title and channel
//! name to an `(artist, title)` candidate pair.
//!
//! Titles are cleaned in stages: `[...]` spans are removed; `(...)` spans are
//! kept only when they mark a meaningful alternate version (remix / edit /
//! vip); everything from the first `|` on is trailing metadata and dropped;
//! stray quote characters are removed; the result is trimmed.  Artists are
//! cleaned by removing `[...]` spans, discarding any leading channel-handle
//! prefix up to the first `-` or `|`, and trimming.

use vstd::prelude::*;
use vstd::string::*;
use crate::text::contains_ci;
use crate::text::contains_ci_range;
use crate::text::find_char_from;
use crate::text::find_either_char;
use crate::text::find_sub;
use crate::text::is_space;
use crate::text::lemma_find_bounds;
use crate::text::lemma_find_either_bounds;
use crate::text::lemma_find_sub_bounds;
use crate::text::lemma_trim_idx_bounds;
use crate::text::lower_char;
use crate::text::match_at;
use crate::text::matches_ci_at;
use crate::text::matches_at;
use crate::text::spec_find;
use crate::text::spec_find_either;
use crate::text::spec_find_sub;
use crate::text::spec_trim;
use crate::text::trim_end_idx;
use crate::text::trim_start_idx;
use crate::text::trim_str;

verus! {

/// Ghost image of an in-progress scan: the start index of a span opened by a
/// bracket that has not been closed yet.
pub open spec fn opt_int(p: Option<usize>) -> Option<int> {
    match p {
        Some(k) => Some(k as int),
        None => None,
    }
}

/// Left-to-right removal of `[...]` spans, starting at `i`.  `pend` is the
/// index of the `[` that opened the current span, if one is open.  A span
/// runs to the first `]` after its `[`; a `[` that is never closed keeps its
/// text verbatim.
pub open spec fn sb_scan(s: Seq<char>, i: int, pend: Option<int>) -> Seq<char>
    decreases s.len() - i when 0 <= i <= s.len()
{
    if i >= s.len() {
        match pend {
            None => Seq::empty(),
            Some(k) => s.skip(k),
        }
    } else {
        match pend {
            None => if s[i] == '[' {
                sb_scan(s, i + 1, Some(i))
            } else {
                seq![s[i]] + sb_scan(s, i + 1, None)
            },
            Some(k) => if s[i] == ']' {
                sb_scan(s, i + 1, None)
            } else {
                sb_scan(s, i + 1, Some(k))
            },
        }
    }
}

/// `s` with every `[...]` span removed.
pub open spec fn spec_strip_brackets(s: Seq<char>) -> Seq<char> {
    sb_scan(s, 0, None)
}

/// Removes every `[...]` span, shortest spans first, scanning left to right.
pub fn strip_brackets(s: &str) -> (r: String)
    ensures
        r@ == spec_strip_brackets(s@),
{
    let n = s.unicode_len();
    let mut out = String::new();
    let mut pend: Option<usize> = None;
    let mut i: usize = 0;
    while i < n
        invariant
            0 <= i <= n,
            n == s@.len(),
            match pend {
                Some(k) => k < i,
                None => true,
            },
            spec_strip_brackets(s@) == out@ + sb_scan(s@, i as int, opt_int(pend)),
        decreases n - i,
    {
        let c = s.get_char(i);
        match pend {
            None => {
                if c == '[' {
                    pend = Some(i);
                } else {
                    out.append(s.substring_char(i, i + 1));
                    proof {
                        assert(s@.subrange(i as int, i + 1) =~= seq![s@[i as int]]);
                        assert(out@ + sb_scan(s@, i + 1, None) =~= spec_strip_brackets(s@));
                    }
                }
            },
            Some(_) => {
                if c == ']' {
                    pend = None;
                }
            },
        }
        i = i + 1;
    }
    if let Some(k) = pend {
        out.append(s.substring_char(k, n));
    }
    out
}

/// A parenthesized span is kept only when it names a meaningful alternate
/// version of the recording.
pub open spec fn keep_paren(span: Seq<char>) -> bool {
    contains_ci(span, "remix"@) || contains_ci(span, "edit"@) || contains_ci(span, "vip"@)
}

fn keep_paren_span(s: &str, from: usize, to: usize) -> (r: bool)
    requires
        from <= to <= s@.len(),
    ensures
        r == keep_paren(s@.subrange(from as int, to as int)),
{
    contains_ci_range(s, from, to, "remix") || contains_ci_range(s, from, to, "edit")
        || contains_ci_range(s, from, to, "vip")
}

/// Left-to-right filtering of `(...)` spans, starting at `i`: a span runs
/// from `(` to the first `)` after it and survives only if `keep_paren`
/// holds of it; a `(` that is never closed keeps its text verbatim.
pub open spec fn cp_scan(s: Seq<char>, i: int, pend: Option<int>) -> Seq<char>
    decreases s.len() - i when 0 <= i <= s.len()
{
    if i >= s.len() {
        match pend {
            None => Seq::empty(),
            Some(k) => s.skip(k),
        }
    } else {
        match pend {
            None => if s[i] == '(' {
                cp_scan(s, i + 1, Some(i))
            } else {
                seq![s[i]] + cp_scan(s, i + 1, None)
            },
            Some(k) => if s[i] == ')' {
                (if keep_paren(s.subrange(k, i + 1)) {
                    s.subrange(k, i + 1)
                } else {
                    Seq::empty()
                }) + cp_scan(s, i + 1, None)
            } else {
                cp_scan(s, i + 1, Some(k))
            },
        }
    }
}

/// `s` with every `(...)` span dropped unless it marks an alternate version.
pub open spec fn spec_clean_parens(s: Seq<char>) -> Seq<char> {
    cp_scan(s, 0, None)
}

/// Drops every `(...)` span whose content does not mark an alternate version.
pub fn clean_parens(s: &str) -> (r: String)
    ensures
        r@ == spec_clean_parens(s@),
{
    let n = s.unicode_len();
    let mut out = String::new();
    let mut pend: Option<usize> = None;
    let mut i: usize = 0;
    while i < n
        invariant
            0 <= i <= n,
            n == s@.len(),
            match pend {
                Some(k) => k < i,
                None => true,
            },
            spec_clean_parens(s@) == out@ + cp_scan(s@, i as int, opt_int(pend)),
        decreases n - i,
    {
        let c = s.get_char(i);
        match pend {
            None => {
                if c == '(' {
                    pend = Some(i);
                } else {
                    out.append(s.substring_char(i, i + 1));
                    proof {
                        assert(s@.subrange(i as int, i + 1) =~= seq![s@[i as int]]);
                        assert(out@ + cp_scan(s@, i + 1, None) =~= spec_clean_parens(s@));
                    }
                }
            },
            Some(k) => {
                if c == ')' {
                    if keep_paren_span(s, k, i + 1) {
                        out.append(s.substring_char(k, i + 1));
                        proof {
                            assert(out@ + cp_scan(s@, i + 1, None) =~= spec_clean_parens(s@));
                        }
                    }
                    pend = None;
                }
            },
        }
        i = i + 1;
    }
    if let Some(k) = pend {
        out.append(s.substring_char(k, n));
    }
    out
}

/// `s` truncated at the first `|`, if any: everything from the `|` on is
/// trailing metadata.
pub open spec fn spec_cut_pipe(s: Seq<char>) -> Seq<char> {
    s.subrange(0, spec_find(s, '|', 0))
}

/// Deletes everything from the first `|` to the end.
pub fn cut_pipe(s: &str) -> (r: String)
    ensures
        r@ == spec_cut_pipe(s@),
{
    let k = find_char_from(s, 0, '|');
    proof {
        lemma_find_bounds(s@, '|', 0);
    }
    String::from_str(s.substring_char(0, k))
}

/// `s` with every `"` character removed, scanning from `i`.
pub open spec fn rq_from(s: Seq<char>, i: int) -> Seq<char>
    decreases s.len() - i when 0 <= i <= s.len()
{
    if i >= s.len() {
        Seq::empty()
    } else if s[i] == '"' {
        rq_from(s, i + 1)
    } else {
        seq![s[i]] + rq_from(s, i + 1)
    }
}

pub open spec fn spec_remove_quotes(s: Seq<char>) -> Seq<char> {
    rq_from(s, 0)
}

/// Removes stray quote characters.
pub fn remove_quotes(s: &str) -> (r: String)
    ensures
        r@ == spec_remove_quotes(s@),
{
    let n = s.unicode_len();
    let mut out = String::new();
    let mut i: usize = 0;
    while i < n
        invariant
            0 <= i <= n,
            n == s@.len(),
            spec_remove_quotes(s@) == out@ + rq_from(s@, i as int),
        decreases n - i,
    {
        let c = s.get_char(i);
        if c != '"' {
            out.append(s.substring_char(i, i + 1));
            proof {
                assert(s@.subrange(i as int, i + 1) =~= seq![s@[i as int]]);
                assert(out@ + rq_from(s@, i + 1) =~= spec_remove_quotes(s@));
            }
        }
        i = i + 1;
    }
    out
}

/// Full title cleaning: brackets, parenthesized spans, trailing `|` metadata,
/// stray quotes, then a trim.
pub open spec fn spec_clean_title(s: Seq<char>) -> Seq<char> {
    spec_trim(spec_remove_quotes(spec_cut_pipe(spec_clean_parens(spec_strip_brackets(s)))))
}

/// Cleans a raw title into the text that will be queried and printed.
/// Total: every input, including the empty string, yields a value.
pub fn clean_title(input: &str) -> (r: String)
    ensures
        r@ == spec_clean_title(input@),
{
    let a = strip_brackets(input);
    let b = clean_parens(a.as_str());
    let c = cut_pipe(b.as_str());
    let d = remove_quotes(c.as_str());
    trim_str(d.as_str())
}

/// `s` with everything up to and including the first `-` or `|` removed,
/// discarding a leading channel-handle prefix.
pub open spec fn spec_cut_handle(s: Seq<char>) -> Seq<char> {
    let k = spec_find_either(s, '-', '|', 0);
    if k < s.len() {
        s.skip(k + 1)
    } else {
        s
    }
}

/// Full artist cleaning: brackets, handle prefix, then a trim.
pub open spec fn spec_clean_artist(s: Seq<char>) -> Seq<char> {
    spec_trim(spec_cut_handle(spec_strip_brackets(s)))
}

/// Cleans an artist segment or channel name.  Total, like `clean_title`.
pub fn clean_artist(input: &str) -> (r: String)
    ensures
        r@ == spec_clean_artist(input@),
{
    let a = strip_brackets(input);
    let n = a.as_str().unicode_len();
    let k = find_either_char(a.as_str(), '-', '|');
    proof {
        lemma_find_either_bounds(a@, '-', '|', 0);
    }
    let cut = if k < n {
        String::from_str(a.as_str().substring_char(k + 1, n))
    } else {
        a
    };
    proof {
        assert(cut@ == spec_cut_handle(spec_strip_brackets(input@)));
    }
    trim_str(cut.as_str())
}

/// A channel name with a trailing " - Topic" suffix stripped.
pub open spec fn spec_strip_topic(s: Seq<char>) -> Seq<char> {
    if s.len() >= 8 && matches_at(s, " - Topic"@, s.len() - 8) {
        s.subrange(0, s.len() - 8)
    } else {
        s
    }
}

fn strip_topic(channel: &str) -> (r: String)
    ensures
        r@ == spec_strip_topic(channel@),
{
    let n = channel.unicode_len();
    proof {
        reveal_strlit(" - Topic");
    }
    if n >= 8 && match_at(channel, n - 8, " - Topic") {
        String::from_str(channel.substring_char(0, n - 8))
    } else {
        String::from_str(channel)
    }
}

/// The normalizer's result on a raw title and channel name: if the title
/// contains the separator " - ", its first occurrence splits it into an
/// artist segment and a title segment; otherwise the artist comes from the
/// channel name (with a trailing " - Topic" suffix stripped first) and the
/// title from the whole raw title.
pub open spec fn spec_normalize_artist(raw: Seq<char>, channel: Seq<char>) -> Seq<char> {
    match spec_find_sub(raw, " - "@, 0) {
        Some(k) => spec_clean_artist(raw.subrange(0, k)),
        None => spec_clean_artist(spec_strip_topic(channel)),
    }
}

pub open spec fn spec_normalize_title(raw: Seq<char>, channel: Seq<char>) -> Seq<char> {
    match spec_find_sub(raw, " - "@, 0) {
        Some(k) => spec_clean_title(raw.skip(k + 3)),
        None => spec_clean_title(raw),
    }
}

/// Normalizes one raw entry into an `(artist, title)` candidate pair.
/// Deterministic, no I/O, never fails; empty results are valid and simply
/// make the entry unmatchable downstream.
pub fn normalize(raw_title: &str, channel_name: &str) -> (r: (String, String))
    ensures
        r.0@ == spec_normalize_artist(raw_title@, channel_name@),
        r.1@ == spec_normalize_title(raw_title@, channel_name@),
{
    proof {
        reveal_strlit(" - ");
    }
    match find_sub(raw_title, " - ") {
        Some(k) => {
            proof {
                lemma_find_sub_bounds(raw_title@, " - "@, 0);
            }
            let n = raw_title.unicode_len();
            let left = raw_title.substring_char(0, k);
            let right = raw_title.substring_char(k + 3, n);
            proof {
                assert(right@ =~= raw_title@.skip(k + 3));
            }
            let artist = clean_artist(left);
            let title = clean_title(right);
            (artist, title)
        },
        None => {
            let base = strip_topic(channel_name);
            let artist = clean_artist(base.as_str());
            let title = clean_title(raw_title);
            (artist, title)
        },
    }
}

/// No `[` is followed by a later `]`, so bracket removal has nothing to do.
pub open spec fn no_bracket_pair(s: Seq<char>) -> bool {
    forall|p: int, q: int| 0 <= p < q < s.len() ==> !((#[trigger] s[p]) == '[' && (#[trigger] s[q])
        == ']')
}

/// Scanning from `i` (with an open span started at some `k` when `pend` says
/// so), every parenthesized span that closes is one the cleaner keeps.
pub open spec fn pc_ok_scan(s: Seq<char>, i: int, pend: Option<int>) -> bool
    decreases s.len() - i when 0 <= i <= s.len()
{
    if i >= s.len() {
        true
    } else {
        match pend {
            None => if s[i] == '(' {
                pc_ok_scan(s, i + 1, Some(i))
            } else {
                pc_ok_scan(s, i + 1, None)
            },
            Some(k) => if s[i] == ')' {
                keep_paren(s.subrange(k, i + 1)) && pc_ok_scan(s, i + 1, None)
            } else {
                pc_ok_scan(s, i + 1, Some(k))
            },
        }
    }
}

/// Every parenthesized span of `s` marks an alternate version, so span
/// filtering keeps all of them.
pub open spec fn parens_clean(s: Seq<char>) -> bool {
    pc_ok_scan(s, 0, None)
}

/// A title on which every cleaning stage is the identity: no removable
/// bracket span, only keep-worthy parenthesized spans, no trailing-metadata
/// bar, no stray quote, and no whitespace at the edges.  This is the shape
/// of the cleaner's own output.
pub open spec fn title_is_clean(s: Seq<char>) -> bool {
    no_bracket_pair(s) && parens_clean(s) && (forall|j: int|
        0 <= j < s.len() ==> (#[trigger] s[j]) != '|') && (forall|j: int|
        0 <= j < s.len() ==> (#[trigger] s[j]) != '"') && (s.len() == 0 || (!is_space(s[0])
        && !is_space(s.last())))
}

proof fn lemma_sb_open_span_runs_out(s: Seq<char>, i: int, k: int)
    requires
        0 <= k <= i <= s.len(),
        forall|j: int| i <= j < s.len() ==> (#[trigger] s[j]) != ']',
    ensures
        sb_scan(s, i, Some(k)) == s.skip(k),
    decreases s.len() - i,
{
    if i < s.len() {
        lemma_sb_open_span_runs_out(s, i + 1, k);
    }
}

proof fn lemma_sb_identity_from(s: Seq<char>, i: int)
    requires
        0 <= i <= s.len(),
        forall|p: int, q: int| i <= p < q < s.len() ==> !((#[trigger] s[p]) == '[' && (
        #[trigger] s[q]) == ']'),
    ensures
        sb_scan(s, i, None) == s.skip(i),
    decreases s.len() - i,
{
    if i < s.len() {
        if s[i] == '[' {
            assert forall|j: int| i + 1 <= j < s.len() implies (#[trigger] s[j]) != ']' by {
                assert(!(s[i] == '[' && s[j] == ']'));
            }
            lemma_sb_open_span_runs_out(s, i + 1, i);
        } else {
            lemma_sb_identity_from(s, i + 1);
            assert(seq![s[i]] + s.skip(i + 1) =~= s.skip(i));
        }
    } else {
        assert(Seq::<char>::empty() =~= s.skip(i));
    }
}

proof fn lemma_cp_identity_from(s: Seq<char>, i: int, pend: Option<int>)
    requires
        0 <= i <= s.len(),
        match pend {
            Some(k) => 0 <= k <= i,
            None => true,
        },
        pc_ok_scan(s, i, pend),
    ensures
        cp_scan(s, i, pend) == (match pend {
            None => s.skip(i),
            Some(k) => s.skip(k),
        }),
    decreases s.len() - i,
{
    if i < s.len() {
        match pend {
            None => {
                if s[i] == '(' {
                    lemma_cp_identity_from(s, i + 1, Some(i));
                } else {
                    lemma_cp_identity_from(s, i + 1, None);
                    assert(seq![s[i]] + s.skip(i + 1) =~= s.skip(i));
                }
            },
            Some(k) => {
                if s[i] == ')' {
                    lemma_cp_identity_from(s, i + 1, None);
                    assert(s.subrange(k, i + 1) + s.skip(i + 1) =~= s.skip(k));
                } else {
                    lemma_cp_identity_from(s, i + 1, Some(k));
                }
            },
        }
    } else {
        match pend {
            None => {
                assert(Seq::<char>::empty() =~= s.skip(i));
            },
            Some(k) => {
            },
        }
    }
}

proof fn lemma_cut_pipe_identity(s: Seq<char>)
    requires
        forall|j: int| 0 <= j < s.len() ==> (#[trigger] s[j]) != '|',
    ensures
        spec_cut_pipe(s) == s,
{
    lemma_find_bounds(s, '|', 0);
    assert(spec_find(s, '|', 0) == s.len());
    assert(s.subrange(0, s.len() as int) =~= s);
}

proof fn lemma_rq_identity_from(s: Seq<char>, i: int)
    requires
        0 <= i <= s.len(),
        forall|j: int| i <= j < s.len() ==> (#[trigger] s[j]) != '"',
    ensures
        rq_from(s, i) == s.skip(i),
    decreases s.len() - i,
{
    if i < s.len() {
        lemma_rq_identity_from(s, i + 1);
        assert(seq![s[i]] + s.skip(i + 1) =~= s.skip(i));
    } else {
        assert(Seq::<char>::empty() =~= s.skip(i));
    }
}

proof fn lemma_trim_identity(s: Seq<char>)
    requires
        s.len() == 0 || (!is_space(s[0]) && !is_space(s.last())),
    ensures
        spec_trim(s) == s,
{
    assert(s.subrange(0, s.len() as int) =~= s);
}

proof fn lemma_rq_shift(s: Seq<char>, i: int)
    requires
        0 <= i <= s.len(),
    ensures
        rq_from(s, i) == rq_from(s.skip(i), 0),
    decreases s.len() - i,
{
    let t = s.skip(i);
    if i < s.len() {
        assert(t[0] == s[i]);
        lemma_rq_shift(s, i + 1);
        assert(t.skip(1) =~= s.skip(i + 1));
        lemma_rq_shift(t, 1);
    } else {
        assert(t.len() == 0);
    }
}

proof fn lemma_rq_concat(a: Seq<char>, b: Seq<char>)
    ensures
        rq_from(a + b, 0) == rq_from(a, 0) + rq_from(b, 0),
    decreases a.len(),
{
    let s = a + b;
    if a.len() == 0 {
        assert(s =~= b);
        assert(rq_from(a, 0).len() == 0);
        assert(rq_from(a, 0) + rq_from(b, 0) =~= rq_from(b, 0));
    } else {
        assert(s[0] == a[0]);
        lemma_rq_shift(s, 1);
        assert(s.skip(1) =~= a.skip(1) + b);
        lemma_rq_concat(a.skip(1), b);
        lemma_rq_shift(a, 1);
        if a[0] == '"' {
            assert(rq_from(s, 0) == rq_from(a, 0) + rq_from(b, 0));
        } else {
            assert(rq_from(s, 0) == seq![a[0]] + (rq_from(a.skip(1), 0) + rq_from(b, 0)));
            assert(rq_from(a, 0) == seq![a[0]] + rq_from(a.skip(1), 0));
            assert(rq_from(s, 0) =~= rq_from(a, 0) + rq_from(b, 0));
        }
    }
}

proof fn lemma_contains_ci_rq(h: Seq<char>, p: Seq<char>)
    requires
        contains_ci(h, p),
        forall|j: int| 0 <= j < p.len() ==> p[j] != '"',
    ensures
        contains_ci(rq_from(h, 0), p),
{
    let i0 = choose|i0: int| 0 <= i0 && i0 + p.len() <= h.len() && #[trigger] matches_ci_at(
        h,
        p,
        i0,
    );
    let u = h.subrange(0, i0);
    let occ = h.subrange(i0, i0 + p.len());
    let w = h.skip(i0 + p.len());
    assert(h =~= (u + occ) + w);
    assert forall|j: int| 0 <= j < occ.len() implies occ[j] != '"' by {
        assert(occ[j] == h[i0 + j]);
        assert(lower_char(h[i0 + j]) == p[j]);
    }
    lemma_rq_concat(u + occ, w);
    lemma_rq_concat(u, occ);
    lemma_rq_identity_from(occ, 0);
    assert(occ.skip(0) =~= occ);
    let rh = rq_from(h, 0);
    assert(rh == (rq_from(u, 0) + occ) + rq_from(w, 0));
    let i1 = rq_from(u, 0).len() as int;
    assert forall|j: int| 0 <= j < p.len() implies lower_char(rh[i1 + j]) == #[trigger] p[j] by {
        assert(rh[i1 + j] == occ[j]);
        assert(occ[j] == h[i0 + j]);
    }
    assert(matches_ci_at(rh, p, i1));
    assert(0 <= i1 && i1 + p.len() <= rh.len());
}

/// Removing quote characters cannot lose the keyword that keeps a span: the
/// keyword letters are never quotes, so their run survives contiguously.
proof fn lemma_keep_paren_rq(span: Seq<char>)
    requires
        keep_paren(span),
    ensures
        keep_paren(rq_from(span, 0)),
{
    proof_keyword_quote_free();
    if contains_ci(span, "remix"@) {
        lemma_contains_ci_rq(span, "remix"@);
    } else if contains_ci(span, "edit"@) {
        lemma_contains_ci_rq(span, "edit"@);
    } else {
        lemma_contains_ci_rq(span, "vip"@);
    }
}

proof fn proof_keyword_quote_free()
    ensures
        forall|j: int| 0 <= j < "remix"@.len() ==> #[trigger] "remix"@[j] != '"',
        forall|j: int| 0 <= j < "edit"@.len() ==> #[trigger] "edit"@[j] != '"',
        forall|j: int| 0 <= j < "vip"@.len() ==> #[trigger] "vip"@[j] != '"',
{
    reveal_strlit("remix");
    reveal_strlit("edit");
    reveal_strlit("vip");
    assert forall|j: int| 0 <= j < "remix"@.len() implies #[trigger] "remix"@[j] != '"' by {
        if j == 0 {
            assert("remix"@[0] == 'r');
        } else if j == 1 {
            assert("remix"@[1] == 'e');
        } else if j == 2 {
            assert("remix"@[2] == 'm');
        } else if j == 3 {
            assert("remix"@[3] == 'i');
        } else {
            assert("remix"@[4] == 'x');
        }
    }
    assert forall|j: int| 0 <= j < "edit"@.len() implies #[trigger] "edit"@[j] != '"' by {
        if j == 0 {
            assert("edit"@[0] == 'e');
        } else if j == 1 {
            assert("edit"@[1] == 'd');
        } else if j == 2 {
            assert("edit"@[2] == 'i');
        } else {
            assert("edit"@[3] == 't');
        }
    }
    assert forall|j: int| 0 <= j < "vip"@.len() implies #[trigger] "vip"@[j] != '"' by {
        if j == 0 {
            assert("vip"@[0] == 'v');
        } else if j == 1 {
            assert("vip"@[1] == 'i');
        } else {
            assert("vip"@[2] == 'p');
        }
    }
}

/// Removing quote characters from a parens-clean string leaves it
/// parens-clean: spans keep their shape (quotes are neither parenthesis),
/// and a kept span still names its keyword.
proof fn lemma_rq_pc(s: Seq<char>, i: int)
    requires
        0 <= i <= s.len(),
        pc_ok_scan(s, i, None),
    ensures
        pc_ok_scan(rq_from(s, i), 0, None),
    decreases s.len() - i,
{
    let out = rq_from(s, i);
    if i >= s.len() {
    } else if s[i] == '"' {
        assert(out == rq_from(s, i + 1));
        lemma_rq_pc(s, i + 1);
    } else if s[i] != '(' {
        lemma_rq_pc(s, i + 1);
        let rest = rq_from(s, i + 1);
        assert(out == seq![s[i]] + rest);
        assert(out[0] == s[i]);
        lemma_pc_shift(seq![s[i]], rest, 0, None);
    } else {
        let j = spec_find(s, ')', i + 1);
        lemma_find_bounds(s, ')', i + 1);
        let rest = rq_from(s, i + 1);
        assert(out == seq!['('] + rest);
        if j >= s.len() {
            lemma_rq_no_char(s, i + 1, ')');
            assert(out[0] == '(');
            assert forall|p: int| 1 <= p < out.len() implies out[p] != ')' by {
                assert(out[p] == rest[p - 1]);
            }
            lemma_pc_no_close(out, 1, 0);
        } else {
            lemma_pc_walk_nonclose(s, i + 1, j, i);
            let span = s.subrange(i, j + 1);
            assert(keep_paren(span) && pc_ok_scan(s, j + 1, None));
            lemma_rq_pc(s, j + 1);
            let tail = rq_from(s, j + 1);

            let mid = s.subrange(i + 1, j);
            assert(span =~= (seq!['('] + mid) + seq![')']);
            lemma_rq_shift(s, i);
            assert(s.skip(i) =~= span + s.skip(j + 1));
            lemma_rq_concat(span, s.skip(j + 1));
            lemma_rq_shift(s, j + 1);
            let spanq = rq_from(span, 0);
            assert(out == spanq + tail);

            lemma_rq_concat(seq!['('] + mid, seq![')']);
            lemma_rq_concat(seq!['('], mid);
            lemma_rq_identity_from(seq!['('], 0);
            assert(seq!['('].skip(0) =~= seq!['(']);
            lemma_rq_identity_from(seq![')'], 0);
            assert(seq![')'].skip(0) =~= seq![')']);
            let midq = rq_from(mid, 0);
            assert(spanq == (seq!['('] + midq) + seq![')']);

            let m = spanq.len() as int;
            assert(m == midq.len() + 2);
            assert(out[0] == '(');
            assert(out[m - 1] == ')');
            assert forall|j2: int| 0 <= j2 < mid.len() implies mid[j2] != ')' by {
                assert(mid[j2] == s[i + 1 + j2]);
            }
            lemma_rq_no_char(mid, 0, ')');
            assert forall|p: int| 1 <= p < m - 1 implies out[p] != ')' by {
                assert(out[p] == spanq[p]);
                assert(spanq[p] == midq[p - 1]);
            }
            lemma_keep_paren_rq(span);
            assert(out.subrange(0, m) =~= spanq);
            lemma_pc_shift(spanq, tail, 0, None);
            assert(pc_ok_scan(out, m, None));
            assert(pc_ok_scan(out, m - 1, Some(0)));
            lemma_pc_walk_nonclose(out, 1, m - 1, 0);
            assert(pc_ok_scan(out, 0, None));
        }
    }
}

/// A parens-clean string stays parens-clean when cut to a prefix: a span
/// split by the cut is left open and an open span is always acceptable.
proof fn lemma_pc_prefix(s: Seq<char>, m: int, i: int, pend: Option<int>)
    requires
        0 <= i <= m <= s.len(),
        match pend {
            Some(k) => 0 <= k <= i && k < m,
            None => true,
        },
        pc_ok_scan(s, i, pend),
    ensures
        pc_ok_scan(s.subrange(0, m), i, pend),
    decreases m - i,
{
    let pre = s.subrange(0, m);
    if i < m {
        assert(pre[i] == s[i]);
        match pend {
            None => {
                if s[i] == '(' {
                    lemma_pc_prefix(s, m, i + 1, Some(i));
                } else {
                    lemma_pc_prefix(s, m, i + 1, None);
                }
            },
            Some(k) => {
                if s[i] == ')' {
                    assert(pre.subrange(k, i + 1) =~= s.subrange(k, i + 1));
                    lemma_pc_prefix(s, m, i + 1, None);
                } else {
                    lemma_pc_prefix(s, m, i + 1, pend);
                }
            },
        }
    }
}

proof fn lemma_nbp_subrange(s: Seq<char>, a: int, b: int)
    requires
        no_bracket_pair(s),
        0 <= a <= b <= s.len(),
    ensures
        no_bracket_pair(s.subrange(a, b)),
{
    let t = s.subrange(a, b);
    assert forall|p: int, q: int| 0 <= p < q < t.len() implies !((#[trigger] t[p]) == '[' && (
    #[trigger] t[q]) == ']') by {
        assert(t[p] == s[a + p]);
        assert(t[q] == s[a + q]);
    }
}

proof fn lemma_trim_start_spaces(s: Seq<char>, from: int)
    requires
        0 <= from <= s.len(),
    ensures
        forall|p: int| from <= p < trim_start_idx(s, from) ==> is_space(#[trigger] s[p]),
    decreases s.len() - from,
{
    if from < s.len() && is_space(s[from]) {
        lemma_trim_start_spaces(s, from + 1);
    }
}

/// The title cleaner is the identity on every already-clean title: cleaning
/// is pure and idempotent, so feeding the normalizer's own title output back
/// in returns it unchanged.
pub proof fn lemma_clean_title_identity(s: Seq<char>)
    requires
        title_is_clean(s),
    ensures
        spec_clean_title(s) == s,
{
    lemma_sb_identity_from(s, 0);
    assert(s.skip(0) =~= s);
    assert(spec_strip_brackets(s) == s);
    lemma_cp_identity_from(s, 0, None);
    assert(spec_clean_parens(s) == s);
    lemma_cut_pipe_identity(s);
    lemma_rq_identity_from(s, 0);
    assert(spec_remove_quotes(s) == s);
    lemma_trim_identity(s);
}

proof fn lemma_sb_output_nbp(s: Seq<char>, i: int, pend: Option<int>)
    requires
        0 <= i <= s.len(),
        match pend {
            Some(k) => 0 <= k <= i && (forall|j: int| k < j < i ==> s[j] != ']'),
            None => true,
        },
    ensures
        no_bracket_pair(sb_scan(s, i, pend)),
    decreases s.len() - i,
{
    if i >= s.len() {
    } else {
        match pend {
            None => {
                if s[i] == '[' {
                    lemma_sb_output_nbp(s, i + 1, Some(i));
                } else {
                    lemma_sb_output_nbp(s, i + 1, None);
                    let rest = sb_scan(s, i + 1, None);
                    let out = seq![s[i]] + rest;
                    assert forall|p: int, q: int| 0 <= p < q < out.len() implies !((
                    #[trigger] out[p]) == '[' && (#[trigger] out[q]) == ']') by {
                        if p == 0 {
                            assert(out[p] == s[i]);
                        } else {
                            assert(out[p] == rest[p - 1]);
                            assert(out[q] == rest[q - 1]);
                        }
                    }
                }
            },
            Some(_) => {
                if s[i] == ']' {
                    lemma_sb_output_nbp(s, i + 1, None);
                } else {
                    lemma_sb_output_nbp(s, i + 1, pend);
                }
            },
        }
    }
}

proof fn lemma_cp_no_char(s: Seq<char>, i: int, pend: Option<int>, c: char)
    requires
        0 <= i <= s.len(),
        match pend {
            Some(k) => 0 <= k <= i && (forall|j: int| k <= j < s.len() ==> s[j] != c),
            None => forall|j: int| i <= j < s.len() ==> s[j] != c,
        },
    ensures
        forall|t: int| 0 <= t < cp_scan(s, i, pend).len() ==> (#[trigger] cp_scan(s, i, pend)[t])
            != c,
    decreases s.len() - i,
{
    let out = cp_scan(s, i, pend);
    if i >= s.len() {
        match pend {
            None => {
            },
            Some(k) => {
                assert(out == s.skip(k));
                assert forall|t: int| 0 <= t < out.len() implies (#[trigger] out[t]) != c by {
                    assert(out[t] == s[k + t]);
                }
            },
        }
    } else {
        match pend {
            None => {
                if s[i] == '(' {
                    lemma_cp_no_char(s, i + 1, Some(i), c);
                    let rest = cp_scan(s, i + 1, Some(i));
                    assert(out == rest);
                    assert forall|t: int| 0 <= t < out.len() implies (#[trigger] out[t]) != c by {
                        assert(out[t] == rest[t]);
                    }
                } else {
                    lemma_cp_no_char(s, i + 1, None, c);
                    let rest = cp_scan(s, i + 1, None);
                    assert(out == seq![s[i]] + rest);
                    assert forall|t: int| 0 <= t < out.len() implies (#[trigger] out[t]) != c by {
                        if t == 0 {
                            assert(out[0] == s[i]);
                        } else {
                            assert(out[t] == rest[t - 1]);
                        }
                    }
                }
            },
            Some(k) => {
                if s[i] == ')' {
                    lemma_cp_no_char(s, i + 1, None, c);
                    let rest = cp_scan(s, i + 1, None);
                    if keep_paren(s.subrange(k, i + 1)) {
                        let span = s.subrange(k, i + 1);
                        assert(out == span + rest);
                        assert forall|t: int| 0 <= t < out.len() implies (#[trigger] out[t])
                            != c by {
                            if t < span.len() {
                                assert(out[t] == s[k + t]);
                            } else {
                                assert(out[t] == rest[t - span.len()]);
                            }
                        }
                    } else {
                        assert(out =~= rest);
                        assert forall|t: int| 0 <= t < out.len() implies (#[trigger] out[t])
                            != c by {
                            assert(out[t] == rest[t]);
                        }
                    }
                } else {
                    lemma_cp_no_char(s, i + 1, pend, c);
                    let rest = cp_scan(s, i + 1, pend);
                    assert(out == rest);
                    assert forall|t: int| 0 <= t < out.len() implies (#[trigger] out[t]) != c by {
                        assert(out[t] == rest[t]);
                    }
                }
            },
        }
    }
}

proof fn lemma_cp_output_nbp(s: Seq<char>, i: int, pend: Option<int>)
    requires
        0 <= i <= s.len(),
        match pend {
            Some(k) => 0 <= k <= i,
            None => true,
        },
        forall|p: int, q: int|
            (match pend {
                Some(k) => k,
                None => i,
            }) <= p < q < s.len() ==> !((#[trigger] s[p]) == '[' && (#[trigger] s[q]) == ']'),
    ensures
        no_bracket_pair(cp_scan(s, i, pend)),
    decreases s.len() - i,
{
    if i >= s.len() {
    } else {
        match pend {
            None => {
                if s[i] == '(' {
                    lemma_cp_output_nbp(s, i + 1, Some(i));
                } else {
                    lemma_cp_output_nbp(s, i + 1, None);
                    let rest = cp_scan(s, i + 1, None);
                    let out = seq![s[i]] + rest;
                    assert forall|p: int, q: int| 0 <= p < q < out.len() implies !((
                    #[trigger] out[p]) == '[' && (#[trigger] out[q]) == ']') by {
                        if p == 0 {
                            if s[i] == '[' {
                                assert forall|j: int| i + 1 <= j < s.len() implies s[j] != ']' by {
                                    assert(!(s[i] == '[' && s[j] == ']'));
                                }
                                lemma_cp_no_char(s, i + 1, None, ']');
                                assert(out[q] == rest[q - 1]);
                            }
                        } else {
                            assert(out[p] == rest[p - 1]);
                            assert(out[q] == rest[q - 1]);
                        }
                    }
                }
            },
            Some(k) => {
                if s[i] == ')' {
                    lemma_cp_output_nbp(s, i + 1, None);
                    let rest = cp_scan(s, i + 1, None);
                    if keep_paren(s.subrange(k, i + 1)) {
                        let span = s.subrange(k, i + 1);
                        let out = span + rest;
                        assert forall|p: int, q: int| 0 <= p < q < out.len() implies !((
                        #[trigger] out[p]) == '[' && (#[trigger] out[q]) == ']') by {
                            if q < span.len() {
                                assert(out[p] == s[k + p]);
                                assert(out[q] == s[k + q]);
                            } else if p < span.len() {
                                assert(out[p] == s[k + p]);
                                if s[k + p] == '[' {
                                    assert forall|j: int| i + 1 <= j < s.len() implies s[j]
                                        != ']' by {
                                        assert(!(s[k + p] == '[' && s[j] == ']'));
                                    }
                                    lemma_cp_no_char(s, i + 1, None, ']');
                                    assert(out[q] == rest[q - span.len()]);
                                }
                            } else {
                                assert(out[p] == rest[p - span.len()]);
                                assert(out[q] == rest[q - span.len()]);
                            }
                        }
                    }
                } else {
                    lemma_cp_output_nbp(s, i + 1, pend);
                }
            },
        }
    }
}

proof fn lemma_rq_no_char(s: Seq<char>, i: int, c: char)
    requires
        0 <= i <= s.len(),
        forall|j: int| i <= j < s.len() ==> s[j] != c,
    ensures
        forall|t: int| 0 <= t < rq_from(s, i).len() ==> (#[trigger] rq_from(s, i)[t]) != c,
    decreases s.len() - i,
{
    if i < s.len() {
        lemma_rq_no_char(s, i + 1, c);
        if s[i] == '"' {
            let out = rq_from(s, i);
            let rest = rq_from(s, i + 1);
            assert(out == rest);
            assert forall|t: int| 0 <= t < out.len() implies (#[trigger] out[t]) != c by {
                assert(out[t] == rest[t]);
            }
        }
        if s[i] != '"' {
            let out = rq_from(s, i);
            let rest = rq_from(s, i + 1);
            assert(out == seq![s[i]] + rest);
            assert forall|t: int| 0 <= t < out.len() implies (#[trigger] out[t]) != c by {
                if t == 0 {
                    assert(out[0] == s[i]);
                } else {
                    assert(out[t] == rest[t - 1]);
                }
            }
        }
    }
}

proof fn lemma_rq_output_no_quote(s: Seq<char>, i: int)
    requires
        0 <= i <= s.len(),
    ensures
        forall|t: int| 0 <= t < rq_from(s, i).len() ==> (#[trigger] rq_from(s, i)[t]) != '"',
    decreases s.len() - i,
{
    if i < s.len() {
        lemma_rq_output_no_quote(s, i + 1);
        if s[i] == '"' {
            let out = rq_from(s, i);
            let rest = rq_from(s, i + 1);
            assert(out == rest);
            assert forall|t: int| 0 <= t < out.len() implies (#[trigger] out[t]) != '"' by {
                assert(out[t] == rest[t]);
            }
        }
        if s[i] != '"' {
            let out = rq_from(s, i);
            let rest = rq_from(s, i + 1);
            assert(out == seq![s[i]] + rest);
            assert forall|t: int| 0 <= t < out.len() implies (#[trigger] out[t]) != '"' by {
                if t == 0 {
                    assert(out[0] == s[i]);
                } else {
                    assert(out[t] == rest[t - 1]);
                }
            }
        }
    }
}

proof fn lemma_rq_output_nbp(s: Seq<char>, i: int)
    requires
        0 <= i <= s.len(),
        forall|p: int, q: int| i <= p < q < s.len() ==> !((#[trigger] s[p]) == '[' && (
        #[trigger] s[q]) == ']'),
    ensures
        no_bracket_pair(rq_from(s, i)),
    decreases s.len() - i,
{
    if i < s.len() {
        lemma_rq_output_nbp(s, i + 1);
        if s[i] != '"' {
            let rest = rq_from(s, i + 1);
            let out = seq![s[i]] + rest;
            assert forall|p: int, q: int| 0 <= p < q < out.len() implies !((#[trigger] out[p])
                == '[' && (#[trigger] out[q]) == ']') by {
                if p == 0 {
                    if s[i] == '[' {
                        assert forall|j: int| i + 1 <= j < s.len() implies s[j] != ']' by {
                            assert(!(s[i] == '[' && s[j] == ']'));
                        }
                        lemma_rq_no_char(s, i + 1, ']');
                        assert(out[q] == rest[q - 1]);
                    }
                } else {
                    assert(out[p] == rest[p - 1]);
                    assert(out[q] == rest[q - 1]);
                }
            }
        }
    }
}

proof fn lemma_pc_shift(u: Seq<char>, t: Seq<char>, i: int, pend: Option<int>)
    requires
        0 <= i <= t.len(),
        match pend {
            Some(k) => 0 <= k <= i,
            None => true,
        },
    ensures
        pc_ok_scan(
            u + t,
            u.len() + i,
            match pend {
                Some(k) => Some(u.len() + k),
                None => None,
            },
        ) == pc_ok_scan(t, i, pend),
    decreases t.len() - i,
{
    let s = u + t;
    if i < t.len() {
        assert(s[u.len() + i] == t[i]);
        match pend {
            None => {
                if t[i] == '(' {
                    lemma_pc_shift(u, t, i + 1, Some(i));
                } else {
                    lemma_pc_shift(u, t, i + 1, None);
                }
            },
            Some(k) => {
                if t[i] == ')' {
                    assert(s.subrange(u.len() + k, u.len() + i + 1) =~= t.subrange(k, i + 1));
                    lemma_pc_shift(u, t, i + 1, None);
                } else {
                    lemma_pc_shift(u, t, i + 1, pend);
                }
            },
        }
    }
}

proof fn lemma_pc_walk_nonclose(t: Seq<char>, m: int, j: int, k: int)
    requires
        0 <= k <= m <= j <= t.len(),
        forall|p: int| m <= p < j ==> t[p] != ')',
    ensures
        pc_ok_scan(t, m, Some(k)) == pc_ok_scan(t, j, Some(k)),
    decreases j - m,
{
    if m < j {
        lemma_pc_walk_nonclose(t, m + 1, j, k);
    }
}

proof fn lemma_pc_no_close(t: Seq<char>, m: int, k: int)
    requires
        0 <= k <= m <= t.len(),
        forall|p: int| m <= p < t.len() ==> t[p] != ')',
    ensures
        pc_ok_scan(t, m, Some(k)),
    decreases t.len() - m,
{
    if m < t.len() {
        lemma_pc_no_close(t, m + 1, k);
    }
}

proof fn lemma_pc_advance_none(t: Seq<char>, m: int, j: int)
    requires
        0 <= m <= j <= t.len(),
        forall|p: int| m <= p < j ==> t[p] != '(',
    ensures
        pc_ok_scan(t, m, None) == pc_ok_scan(t, j, None),
    decreases j - m,
{
    if m < j {
        lemma_pc_advance_none(t, m + 1, j);
    }
}

proof fn lemma_cp_open_runs_out(s: Seq<char>, m: int, k: int)
    requires
        0 <= k <= m <= s.len(),
        forall|j: int| m <= j < s.len() ==> s[j] != ')',
    ensures
        cp_scan(s, m, Some(k)) == s.skip(k),
    decreases s.len() - m,
{
    if m < s.len() {
        lemma_cp_open_runs_out(s, m + 1, k);
    }
}

proof fn lemma_cp_walk(s: Seq<char>, m: int, j: int, k: int)
    requires
        0 <= k <= m <= j <= s.len(),
        forall|p: int| m <= p < j ==> s[p] != ')',
    ensures
        cp_scan(s, m, Some(k)) == cp_scan(s, j, Some(k)),
    decreases j - m,
{
    if m < j {
        lemma_cp_walk(s, m + 1, j, k);
    }
}

/// The output of the span filter never holds a span that would be dropped:
/// filtering parenthesized spans leaves a parens-clean string.
proof fn lemma_cp_output_pc(s: Seq<char>, i: int)
    requires
        0 <= i <= s.len(),
    ensures
        pc_ok_scan(cp_scan(s, i, None), 0, None),
    decreases s.len() - i,
{
    let out = cp_scan(s, i, None);
    if i >= s.len() {
    } else if s[i] != '(' {
        lemma_cp_output_pc(s, i + 1);
        let rest = cp_scan(s, i + 1, None);
        assert(out == seq![s[i]] + rest);
        assert(out[0] == s[i]);
        lemma_pc_shift(seq![s[i]], rest, 0, None);
        assert(seq![s[i]] + rest == out);
    } else {
        let j = spec_find(s, ')', i + 1);
        lemma_find_bounds(s, ')', i + 1);
        if j >= s.len() {
            // The span never closes: the tail is kept verbatim.
            lemma_cp_open_runs_out(s, i + 1, i);
            assert(out == s.skip(i));
            assert(out[0] == '(');
            assert forall|p: int| 1 <= p < out.len() implies out[p] != ')' by {
                assert(out[p] == s[i + p]);
            }
            lemma_pc_no_close(out, 1, 0);
        } else {
            lemma_cp_walk(s, i + 1, j, i);
            let span = s.subrange(i, j + 1);
            let rest = cp_scan(s, j + 1, None);
            assert(cp_scan(s, i, None) == cp_scan(s, j, Some(i)));
            lemma_cp_output_pc(s, j + 1);
            if keep_paren(span) {
                assert(out == span + rest);
                let m = span.len() as int;
                assert(out[0] == s[i]);
                assert(out[m - 1] == s[j]);
                assert forall|p: int| 1 <= p < m - 1 implies out[p] != ')' by {
                    assert(out[p] == s[i + p]);
                }
                lemma_pc_shift(span, rest, 0, None);
                assert(pc_ok_scan(out, m, None));
                assert(out.subrange(0, m) =~= span);
                assert(pc_ok_scan(out, m - 1, Some(0)));
                lemma_pc_walk_nonclose(out, 1, m - 1, 0);
                assert(pc_ok_scan(out, 0, None));
            } else {
                assert(out =~= rest);
                assert(pc_ok_scan(rest, 0, None));
            }
        }
    }
}

proof fn lemma_trim_start_stops(s: Seq<char>, from: int)
    requires
        0 <= from <= s.len(),
    ensures
        trim_start_idx(s, from) < s.len() ==> !is_space(s[trim_start_idx(s, from)]),
    decreases s.len() - from,
{
    if from < s.len() && is_space(s[from]) {
        lemma_trim_start_stops(s, from + 1);
    }
}

proof fn lemma_trim_end_stops(s: Seq<char>, from: int)
    requires
        0 <= from <= s.len(),
    ensures
        trim_end_idx(s, from) > 0 ==> !is_space(s[trim_end_idx(s, from) - 1]),
    decreases from,
{
    if from > 0 && is_space(s[from - 1]) {
        lemma_trim_end_stops(s, from - 1);
    }
}

/// Every output of the title cleaner is itself clean: one pass reaches a
/// fixed point of all five stages.
pub proof fn lemma_clean_title_output_clean(s: Seq<char>)
    ensures
        title_is_clean(spec_clean_title(s)),
{
    let y1 = spec_strip_brackets(s);
    let y2 = spec_clean_parens(y1);
    let f = spec_find(y2, '|', 0);
    let y3 = spec_cut_pipe(y2);
    let y4 = spec_remove_quotes(y3);
    let a = trim_start_idx(y4, 0);
    let b = trim_end_idx(y4, y4.len() as int);
    let t = spec_clean_title(s);

    lemma_find_bounds(y2, '|', 0);
    assert(y3 == y2.subrange(0, f));
    lemma_trim_idx_bounds(y4);

    lemma_sb_output_nbp(s, 0, None);
    lemma_cp_output_nbp(y1, 0, None);
    lemma_nbp_subrange(y2, 0, f);
    lemma_rq_output_nbp(y3, 0);
    if a <= b {
        assert(t == y4.subrange(a, b));
        lemma_nbp_subrange(y4, a, b);
    } else {
        assert(t.len() == 0);
    }
    assert(no_bracket_pair(t));

    lemma_cp_output_pc(y1, 0);
    lemma_pc_prefix(y2, f, 0, None);
    lemma_rq_pc(y3, 0);
    if a <= b {
        let w = y4.subrange(0, b);
        lemma_pc_prefix(y4, b, 0, None);
        lemma_trim_start_spaces(y4, 0);
        assert forall|p: int| 0 <= p < a implies w[p] != '(' by {
            assert(w[p] == y4[p]);
            assert(is_space(y4[p]));
        }
        lemma_pc_advance_none(w, 0, a);
        let u = w.subrange(0, a);
        let tail = w.skip(a);
        assert(u + tail =~= w);
        lemma_pc_shift(u, tail, 0, None);
        assert(pc_ok_scan(w, a, None) == pc_ok_scan(tail, 0, None));
        assert(t =~= tail);
        assert(parens_clean(t));
    } else {
        assert(parens_clean(t));
    }

    assert forall|j: int| 0 <= j < y3.len() implies (#[trigger] y3[j]) != '|' by {
        assert(y3[j] == y2[j]);
    }
    lemma_rq_no_char(y3, 0, '|');
    assert forall|j: int| 0 <= j < t.len() implies (#[trigger] t[j]) != '|' by {
        if a <= b {
            assert(t[j] == y4[a + j]);
        }
    }

    lemma_rq_output_no_quote(y3, 0);
    assert forall|j: int| 0 <= j < t.len() implies (#[trigger] t[j]) != '"' by {
        if a <= b {
            assert(t[j] == y4[a + j]);
        }
    }

    lemma_trim_start_stops(y4, 0);
    lemma_trim_end_stops(y4, y4.len() as int);
    if t.len() > 0 {
        assert(t[0] == y4[a]);
        assert(t.last() == y4[b - 1]);
    }
    assert(title_is_clean(t));
}

/// The title cleaner is idempotent: on every input, a second pass returns
/// the first pass's output unchanged.
pub proof fn lemma_clean_title_idempotent(s: Seq<char>)
    ensures
        spec_clean_title(spec_clean_title(s)) == spec_clean_title(s),
{
    lemma_clean_title_output_clean(s);
    lemma_clean_title_identity(spec_clean_title(s));
}

/// The normalizer is pure and idempotent on titles: fed back as a raw
/// title, a normalized title comes out unchanged, whatever channel names
/// accompany either call.  The one exception is a normalized title that
/// itself contains the separator " - ": the normalizer would split such a
/// title into a new artist and title pair, so those inputs are excluded.
pub proof fn lemma_normalize_title_idempotent(
    raw: Seq<char>,
    channel: Seq<char>,
    channel2: Seq<char>,
)
    requires
        spec_find_sub(spec_normalize_title(raw, channel), " - "@, 0) is None,
    ensures
        spec_normalize_title(spec_normalize_title(raw, channel), channel2) == spec_normalize_title(
            raw,
            channel,
        ),
{
    let t = spec_normalize_title(raw, channel);
    match spec_find_sub(raw, " - "@, 0) {
        Some(k) => {
            lemma_clean_title_output_clean(raw.skip(k + 3));
        },
        None => {
            lemma_clean_title_output_clean(raw);
        },
    }
    lemma_clean_title_identity(t);
}

} // verus!
