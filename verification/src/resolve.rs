//! The recording resolver's pure half: given the candidate array a lookup
//! query returned, drop candidates without a usable release date, extract the
//! release year, build the canonical title, and sort the survivors ascending
//! by `(year, canonical_title)` so the earliest, first-alphabetical match is
//! presented first.  The HTTP transfer itself lives outside the library; its
//! outcome is handed in as data.

use vstd::prelude::*;
use vstd::string::*;
use crate::text::find_char_from;
use crate::text::lemma_find_bounds;
use crate::text::lemma_seq_le_total;
use crate::text::lemma_seq_le_trans;
use crate::text::parse_i32_str;
use crate::text::seq_le;
use crate::text::spec_find;
use crate::text::spec_join;
use crate::text::spec_parse_i32;
use crate::text::join_strings;

verus! {

/// One raw candidate from the recording lookup response, already reduced to
/// plain values: the release date string (absent when the field was null),
/// the credited artist names in order, the recording title, and the optional
/// disambiguation note.
#[derive(Debug)]
pub struct RawCandidate {
    pub release_date: Option<String>,
    pub artist_names: Vec<String>,
    pub title: String,
    pub disambiguation: Option<String>,
}

/// One ranked answer of the resolver.
#[derive(Debug)]
pub struct RecordingMatch {
    pub year: i32,
    pub canonical_title: String,
    pub disambiguation: Option<String>,
}

/// How a resolver call fails: the service was unreachable or answered with
/// an error, or no candidate had a usable release date.
#[derive(Clone, Copy, PartialEq, Eq, Structural, Debug)]
pub enum ResolveError {
    TransportFailure,
    NotFound,
}

/// Ghost image of a `RecordingMatch`.
pub ghost struct MatchView {
    pub year: i32,
    pub title: Seq<char>,
    pub disambiguation: Option<Seq<char>>,
}

pub open spec fn match_view(m: RecordingMatch) -> MatchView {
    MatchView {
        year: m.year,
        title: m.canonical_title@,
        disambiguation: match m.disambiguation {
            Some(d) => Some(d@),
            None => None,
        },
    }
}

pub open spec fn mviews(ms: Seq<RecordingMatch>) -> Seq<MatchView> {
    ms.map_values(|m: RecordingMatch| match_view(m))
}

/// Year of a release date string: the prefix before the first `-` (the whole
/// string when there is no `-`), read as a decimal number.
pub open spec fn spec_year_of_date(d: Seq<char>) -> Option<i32> {
    spec_parse_i32(d.subrange(0, spec_find(d, '-', 0)))
}

/// Extracts the year from a release date string, if it parses.
pub fn year_of_date(d: &str) -> (r: Option<i32>)
    ensures
        r == spec_year_of_date(d@),
{
    let k = find_char_from(d, 0, '-');
    proof {
        lemma_find_bounds(d@, '-', 0);
    }
    parse_i32_str(d.substring_char(0, k))
}

/// `s` with every right single quotation mark straightened to `'`.
pub open spec fn straighten_from(s: Seq<char>, i: int) -> Seq<char>
    decreases s.len() - i when 0 <= i <= s.len()
{
    if i >= s.len() {
        Seq::empty()
    } else if s[i] == '\u{2019}' {
        seq!['\''] + straighten_from(s, i + 1)
    } else {
        seq![s[i]] + straighten_from(s, i + 1)
    }
}

pub open spec fn spec_straighten_quotes(s: Seq<char>) -> Seq<char> {
    straighten_from(s, 0)
}

/// Replaces typographic apostrophes with plain ones.
pub fn straighten_quotes(s: &str) -> (r: String)
    ensures
        r@ == spec_straighten_quotes(s@),
{
    let n = s.unicode_len();
    let mut out = String::new();
    let mut i: usize = 0;
    while i < n
        invariant
            0 <= i <= n,
            n == s@.len(),
            spec_straighten_quotes(s@) == out@ + straighten_from(s@, i as int),
        decreases n - i,
    {
        let c = s.get_char(i);
        if c == '\u{2019}' {
            out.append("'");
            proof {
                reveal_strlit("'");
                assert("'"@ =~= seq!['\'']);
                assert(out@ + straighten_from(s@, i + 1) =~= spec_straighten_quotes(s@));
            }
        } else {
            out.append(s.substring_char(i, i + 1));
            proof {
                assert(s@.subrange(i as int, i + 1) =~= seq![s@[i as int]]);
                assert(out@ + straighten_from(s@, i + 1) =~= spec_straighten_quotes(s@));
            }
        }
        i = i + 1;
    }
    out
}

/// Canonical title of a candidate: the credited artist names joined with
/// ", ", then " - ", then the recording title, with apostrophes straightened.
pub open spec fn spec_canonical_title(names: Seq<Seq<char>>, title: Seq<char>) -> Seq<char> {
    spec_straighten_quotes(spec_join(names, ", "@) + " - "@ + title)
}

/// Builds the canonical display title for a candidate.
pub fn canonical_title(names: &Vec<String>, title: &str) -> (r: String)
    ensures
        r@ == spec_canonical_title(names@.map_values(|n: String| n@), title@),
{
    let mut joined = join_strings(names, ", ");
    joined.append(" - ");
    joined.append(title);
    straighten_quotes(joined.as_str())
}

/// Year of a candidate, when its release date is present and parseable.
pub open spec fn cand_year(c: RawCandidate) -> Option<i32> {
    match c.release_date {
        Some(d) => spec_year_of_date(d@),
        None => None,
    }
}

/// Ghost image of the match a usable candidate turns into.
pub open spec fn cand_view(c: RawCandidate) -> MatchView {
    MatchView {
        year: cand_year(c).unwrap(),
        title: spec_canonical_title(c.artist_names@.map_values(|n: String| n@), c.title@),
        disambiguation: match c.disambiguation {
            Some(d) => Some(d@),
            None => None,
        },
    }
}

/// The matches the usable candidates yield, in response order: a candidate
/// with a null release date, or one whose date does not parse to a year,
/// contributes nothing.
pub open spec fn usable_matches(cands: Seq<RawCandidate>) -> Seq<MatchView>
    decreases cands.len(),
{
    if cands.len() == 0 {
        Seq::empty()
    } else {
        let rest = usable_matches(cands.drop_first());
        if cand_year(cands.first()) is Some {
            seq![cand_view(cands.first())] + rest
        } else {
            rest
        }
    }
}

/// A candidate with a null release date never appears in resolver output:
/// every match of a result list drawn from the usable candidates stems from
/// a candidate whose release date was present and parseable.
pub proof fn lemma_output_stems_from_dated_candidates(
    cands: Seq<RawCandidate>,
    ms: Seq<RecordingMatch>,
)
    requires
        mviews(ms).to_multiset() == usable_matches(cands).to_multiset(),
    ensures
        forall|t: int| 0 <= t < ms.len() ==> exists|j: int|
            0 <= j < cands.len() && cand_year(#[trigger] cands[j]) is Some && match_view(
                #[trigger] ms[t],
            ) == cand_view(cands[j]),
{
    broadcast use vstd::seq_lib::group_to_multiset_ensures;

    let usable = usable_matches(cands);
    lemma_no_null_date_in_output(cands);
    assert forall|t: int| 0 <= t < ms.len() implies exists|j: int|
        0 <= j < cands.len() && cand_year(#[trigger] cands[j]) is Some && match_view(
            #[trigger] ms[t],
        ) == cand_view(cands[j]) by {
        let v = match_view(ms[t]);
        assert(mviews(ms)[t] == v);
        assert(mviews(ms).contains(v));
        assert(mviews(ms).to_multiset().count(v) > 0);
        assert(usable.to_multiset().count(v) > 0);
        assert(usable.contains(v));
        let t2 = choose|t2: int| 0 <= t2 < usable.len() && usable[t2] == v;
        assert(usable[t2] == v);
    }
}

/// Every usable match stems from a candidate whose release date was present:
/// a candidate with a null release date never appears in resolver output.
pub proof fn lemma_no_null_date_in_output(cands: Seq<RawCandidate>)
    ensures
        forall|t: int| 0 <= t < usable_matches(cands).len() ==> exists|j: int|
            0 <= j < cands.len() && cand_year(#[trigger] cands[j]) is Some
                && #[trigger] usable_matches(cands)[t] == cand_view(cands[j]),
    decreases cands.len(),
{
    if cands.len() > 0 {
        lemma_no_null_date_in_output(cands.drop_first());
        let rest = usable_matches(cands.drop_first());
        let whole = usable_matches(cands);
        assert forall|t: int| 0 <= t < whole.len() implies exists|j: int|
            0 <= j < cands.len() && cand_year(#[trigger] cands[j]) is Some
                && #[trigger] whole[t] == cand_view(cands[j]) by {
            if cand_year(cands.first()) is Some {
                if t == 0 {
                    assert(cands[0] == cands.first());
                    assert(whole[0] == cand_view(cands[0]));
                } else {
                    let tr = t - 1;
                    assert(whole[t] == rest[tr]);
                    let j0 = choose|j0: int|
                        0 <= j0 < cands.drop_first().len() && cand_year(
                            #[trigger] cands.drop_first()[j0],
                        ) is Some && rest[tr] == cand_view(cands.drop_first()[j0]);
                    assert(cands.drop_first()[j0] == cands[j0 + 1]);
                }
            } else {
                let j0 = choose|j0: int|
                    0 <= j0 < cands.drop_first().len() && cand_year(
                        #[trigger] cands.drop_first()[j0],
                    ) is Some && rest[t] == cand_view(cands.drop_first()[j0]);
                assert(cands.drop_first()[j0] == cands[j0 + 1]);
            }
        }
    }
}

/// Resolver order: ascending year, ties broken alphabetically by canonical
/// title.
pub open spec fn view_le(a: MatchView, b: MatchView) -> bool {
    a.year < b.year || (a.year == b.year && seq_le(a.title, b.title))
}

pub proof fn lemma_view_le_total(a: MatchView, b: MatchView)
    ensures
        view_le(a, b) || view_le(b, a),
{
    if a.year == b.year {
        lemma_seq_le_total(a.title, b.title);
    }
}

pub proof fn lemma_view_le_trans(a: MatchView, b: MatchView, c: MatchView)
    requires
        view_le(a, b),
        view_le(b, c),
    ensures
        view_le(a, c),
{
    if a.year == b.year && b.year == c.year {
        lemma_seq_le_trans(a.title, b.title, c.title);
    }
}

/// The sequence is sorted ascending by `(year, canonical_title)`.
pub open spec fn sorted_matches(ms: Seq<RecordingMatch>) -> bool {
    forall|i: int, j: int| 0 <= i <= j < ms.len() ==> view_le(
        match_view(#[trigger] ms[i]),
        match_view(#[trigger] ms[j]),
    )
}

/// Adjacent reading of the resolver order: next to each other, years never
/// decrease, and equal years are alphabetical by canonical title.
pub proof fn lemma_sorted_adjacent(ms: Seq<RecordingMatch>)
    requires
        sorted_matches(ms),
    ensures
        forall|i: int| 0 <= i < ms.len() - 1 ==> (#[trigger] ms[i]).year <= ms[i + 1].year,
        forall|i: int| 0 <= i < ms.len() - 1 && (#[trigger] ms[i]).year == ms[i + 1].year
            ==> seq_le(ms[i].canonical_title@, ms[i + 1].canonical_title@),
{
    assert forall|i: int| 0 <= i < ms.len() - 1 implies (#[trigger] ms[i]).year <= ms[i
        + 1].year by {
        assert(view_le(match_view(ms[i]), match_view(ms[i + 1])));
    }
    assert forall|i: int| 0 <= i < ms.len() - 1 && (#[trigger] ms[i]).year == ms[i + 1].year
        implies seq_le(ms[i].canonical_title@, ms[i + 1].canonical_title@) by {
        assert(view_le(match_view(ms[i]), match_view(ms[i + 1])));
    }
}

fn match_le(a: &RecordingMatch, b: &RecordingMatch) -> (r: bool)
    ensures
        r == view_le(match_view(*a), match_view(*b)),
{
    if a.year < b.year {
        true
    } else if a.year > b.year {
        false
    } else {
        crate::text::str_le(a.canonical_title.as_str(), b.canonical_title.as_str())
    }
}

/// Sorts matches ascending by `(year, canonical_title)`, keeping exactly the
/// same collection of matches.
pub fn sort_matches(v: &mut Vec<RecordingMatch>)
    ensures
        sorted_matches(final(v)@),
        mviews(final(v)@).to_multiset() == mviews(old(v)@).to_multiset(),
        final(v)@.len() == old(v)@.len(),
{
    broadcast use vstd::seq_lib::group_to_multiset_ensures;

    let ghost m0 = mviews(old(v)@);
    proof {
        if v@.len() > 0 {
            lemma_view_le_total(match_view(v@[0]), match_view(v@[0]));
            assert(v@.subrange(0, 1)[0] == v@[0]);
        }
    }
    let mut k: usize = 1;
    while k < v.len()
        invariant
            1 <= k,
            k <= v.len() || v.len() == 0,
            v@.len() == old(v)@.len(),
            mviews(v@).to_multiset() == m0.to_multiset(),
            m0 == mviews(old(v)@),
            sorted_matches(v@.subrange(0, k as int)) || v@.len() == 0,
        decreases v.len() - k,
    {
        let ghost before = v@;
        // Position of the first sorted-prefix element not below v[k].
        let mut j: usize = 0;
        while j < k
            invariant
                0 <= j <= k < v@.len(),
                v@ == before,
                forall|t: int| 0 <= t < j ==> !view_le(
                    match_view(v@[k as int]),
                    match_view(#[trigger] v@[t]),
                ),
            ensures
                0 <= j <= k < v@.len(),
                v@ == before,
                forall|t: int| 0 <= t < j ==> !view_le(
                    match_view(v@[k as int]),
                    match_view(#[trigger] v@[t]),
                ),
                j < k ==> view_le(match_view(v@[k as int]), match_view(v@[j as int])),
            decreases k - j,
        {
            if match_le(&v[k], &v[j]) {
                break;
            }
            j = j + 1;
        }
        let x = v.remove(k);
        v.insert(j, x);
        proof {
            let after = v@;
            assert(after =~= before.remove(k as int).insert(j as int, before[k as int]));
            lemma_sorted_insert(before, k as int, j as int);
            assert(mviews(after).to_multiset() == mviews(before).to_multiset()) by {
                lemma_mviews_remove_insert(before, k as int, j as int);
            }
        }
        k = k + 1;
    }
    proof {
        if v@.len() > 0 {
            assert(v@.subrange(0, v@.len() as int) =~= v@);
        }
    }
}

/// Moving element `k` of a sequence with a sorted prefix `[0, k)` to the
/// position `j` found by the scan keeps the multiset of views and sorts the
/// prefix `[0, k]`.
proof fn lemma_mviews_remove_insert(s: Seq<RecordingMatch>, k: int, j: int)
    requires
        0 <= j <= k < s.len(),
    ensures
        mviews(s.remove(k).insert(j, s[k])).to_multiset() == mviews(s).to_multiset(),
{
    broadcast use vstd::seq_lib::group_to_multiset_ensures;

    let removed = s.remove(k);
    let inserted = removed.insert(j, s[k]);
    assert(mviews(removed) =~= mviews(s).remove(k));
    assert(mviews(inserted) =~= mviews(removed).insert(j, match_view(s[k])));
    assert(mviews(s).remove(k).to_multiset() == mviews(s).to_multiset().remove(
        mviews(s)[k],
    ));
    assert(mviews(removed).insert(j, match_view(s[k])).to_multiset() == mviews(
        removed,
    ).to_multiset().insert(match_view(s[k])));
    assert(mviews(s).to_multiset().remove(mviews(s)[k]).insert(mviews(s)[k]) =~= mviews(
        s,
    ).to_multiset());
}

proof fn lemma_sorted_insert(s: Seq<RecordingMatch>, k: int, j: int)
    requires
        0 <= j <= k < s.len(),
        sorted_matches(s.subrange(0, k)),
        forall|t: int| 0 <= t < j ==> !view_le(match_view(s[k]), match_view(#[trigger] s[t])),
        j < k ==> view_le(match_view(s[k]), match_view(s[j])),
    ensures
        sorted_matches(s.remove(k).insert(j, s[k]).subrange(0, k + 1)),
{
    let res = s.remove(k).insert(j, s[k]);
    let pre = res.subrange(0, k + 1);
    let pref = s.subrange(0, k);
    let x = match_view(s[k]);
    assert forall|a: int, b: int| 0 <= a <= b < pre.len() implies view_le(
        match_view(pre[a]),
        match_view(pre[b]),
    ) by {
        lemma_remove_insert_index(s, k, j, a);
        lemma_remove_insert_index(s, k, j, b);
        assert(pre[a] == res[a]);
        assert(pre[b] == res[b]);
        if a == b {
            lemma_view_le_total(match_view(pre[a]), match_view(pre[a]));
        } else if b < j {
            assert(pref[a] == s[a]);
            assert(pref[b] == s[b]);
            assert(view_le(match_view(pref[a]), match_view(pref[b])));
        } else if a < j && b == j {
            assert(!view_le(x, match_view(s[a])));
            lemma_view_le_total(match_view(s[a]), x);
        } else if a < j && b > j {
            assert(pref[a] == s[a]);
            assert(pref[b - 1] == s[b - 1]);
            assert(view_le(match_view(pref[a]), match_view(pref[b - 1])));
        } else if a == j && b > j {
            assert(view_le(x, match_view(s[j])));
            if j < b - 1 {
                assert(pref[j] == s[j]);
                assert(pref[b - 1] == s[b - 1]);
                assert(view_le(match_view(pref[j]), match_view(pref[b - 1])));
                lemma_view_le_trans(x, match_view(s[j]), match_view(s[b - 1]));
            }
        } else {
            assert(pref[a - 1] == s[a - 1]);
            assert(pref[b - 1] == s[b - 1]);
            assert(view_le(match_view(pref[a - 1]), match_view(pref[b - 1])));
        }
    }
}

/// Index correspondence for moving element `k` down to position `j <= k`:
/// positions below `j` are unchanged, position `j` holds the moved element,
/// and positions in `(j, k]` hold the element one place earlier.
proof fn lemma_remove_insert_index(s: Seq<RecordingMatch>, k: int, j: int, a: int)
    requires
        0 <= j <= k < s.len(),
        0 <= a <= k,
    ensures
        a < j ==> s.remove(k).insert(j, s[k])[a] == s[a],
        a == j ==> s.remove(k).insert(j, s[k])[a] == s[k],
        a > j ==> s.remove(k).insert(j, s[k])[a] == s[a - 1],
{
    let removed = s.remove(k);
    removed.insert_ensures(j, s[k]);
}

/// Post-processes one lookup response.  The result is exactly the usable
/// candidates — those with a present, year-parseable release date — turned
/// into matches and sorted ascending by `(year, canonical_title)`; when no
/// candidate is usable the call reports `NotFound`.
pub fn resolve_candidates(cands: &Vec<RawCandidate>) -> (r: Result<
    Vec<RecordingMatch>,
    ResolveError,
>)
    ensures
        match r {
            Ok(ms) => usable_matches(cands@).len() > 0 && sorted_matches(ms@) && mviews(
                ms@,
            ).to_multiset() == usable_matches(cands@).to_multiset() && ms@.len()
                == usable_matches(cands@).len(),
            Err(e) => e == ResolveError::NotFound && usable_matches(cands@).len() == 0,
        },
{
    broadcast use vstd::seq_lib::group_to_multiset_ensures;

    let mut out: Vec<RecordingMatch> = Vec::new();
    let mut i: usize = 0;
    while i < cands.len()
        invariant
            0 <= i <= cands@.len(),
            mviews(out@) == usable_matches(cands@.subrange(0, i as int)),
        decreases cands@.len() - i,
    {
        let ghost done = cands@.subrange(0, i as int);
        let c = &cands[i];
        match &c.release_date {
            Some(d) => {
                match year_of_date(d.as_str()) {
                    Some(y) => {
                        let title = canonical_title(&c.artist_names, c.title.as_str());
                        let dis = match &c.disambiguation {
                            Some(t) => Some(String::from_str(t.as_str())),
                            None => None,
                        };
                        let ghost prev = out@;
                        out.push(RecordingMatch { year: y, canonical_title: title, disambiguation: dis });
                        proof {
                            assert(mviews(out@) =~= mviews(prev).push(match_view(out@.last())));
                            assert(match_view(out@.last()) == cand_view(cands@[i as int]));
                        }
                    },
                    None => {
                    },
                }
            },
            None => {
            },
        }
        proof {
            lemma_usable_snoc(done, cands@[i as int]);
            assert(done.push(cands@[i as int]) =~= cands@.subrange(0, i + 1));
            assert(mviews(out@) =~= usable_matches(cands@.subrange(0, i + 1)));
        }
        i = i + 1;
    }
    proof {
        assert(cands@.subrange(0, cands@.len() as int) =~= cands@);
    }
    if out.len() == 0 {
        proof {
            assert(usable_matches(cands@).len() == mviews(out@).len());
        }
        Err(ResolveError::NotFound)
    } else {
        let ghost unsorted = mviews(out@);
        sort_matches(&mut out);
        proof {
            assert(unsorted.to_multiset().len() == unsorted.len());
        }
        Ok(out)
    }
}

/// Appending one candidate extends the usable matches by its view exactly
/// when its release date yields a year.
proof fn lemma_usable_snoc(s: Seq<RawCandidate>, c: RawCandidate)
    ensures
        usable_matches(s.push(c)) == usable_matches(s) + (if cand_year(c) is Some {
            seq![cand_view(c)]
        } else {
            Seq::<MatchView>::empty()
        }),
    decreases s.len(),
{
    let whole = s.push(c);
    if s.len() == 0 {
        assert(whole.drop_first() =~= Seq::<RawCandidate>::empty());
        assert(usable_matches(whole.drop_first()).len() == 0);
        assert(usable_matches(s).len() == 0);
        assert(whole.first() == c);
        if cand_year(c) is Some {
            assert(usable_matches(whole) =~= usable_matches(s) + seq![cand_view(c)]);
        } else {
            assert(usable_matches(whole) =~= usable_matches(s));
        }
    } else {
        assert(whole.drop_first() =~= s.drop_first().push(c));
        lemma_usable_snoc(s.drop_first(), c);
        assert(usable_matches(whole.drop_first()) == usable_matches(s.drop_first()) + (
        if cand_year(c) is Some {
            seq![cand_view(c)]
        } else {
            Seq::<MatchView>::empty()
        }));
        assert(whole.first() == s.first());
        if cand_year(s.first()) is Some {
            assert(usable_matches(whole) == seq![cand_view(whole.first())] + usable_matches(
                whole.drop_first(),
            ));
            assert(usable_matches(s) == seq![cand_view(s.first())] + usable_matches(
                s.drop_first(),
            ));
        } else {
            assert(usable_matches(whole) == usable_matches(whole.drop_first()));
            assert(usable_matches(s) == usable_matches(s.drop_first()));
        }
        if cand_year(c) is Some {
            assert(usable_matches(whole) =~= usable_matches(s) + seq![cand_view(c)]);
        } else {
            assert(usable_matches(whole) =~= usable_matches(s));
        }
    }
}

/// Maps the transport outcome and the decoded candidate array to the
/// resolver's result: a failed transfer is a `TransportFailure`, a successful
/// one resolves the candidates.
pub fn resolve_outcome(transport_ok: bool, cands: &Vec<RawCandidate>) -> (r: Result<
    Vec<RecordingMatch>,
    ResolveError,
>)
    ensures
        !transport_ok ==> r == Err::<Vec<RecordingMatch>, ResolveError>(
            ResolveError::TransportFailure,
        ),
        transport_ok ==> match r {
            Ok(ms) => usable_matches(cands@).len() > 0 && sorted_matches(ms@) && mviews(
                ms@,
            ).to_multiset() == usable_matches(cands@).to_multiset() && ms@.len()
                == usable_matches(cands@).len(),
            Err(e) => e == ResolveError::NotFound && usable_matches(cands@).len() == 0,
        },
{
    if !transport_ok {
        Err(ResolveError::TransportFailure)
    } else {
        resolve_candidates(cands)
    }
}

} // verus!
