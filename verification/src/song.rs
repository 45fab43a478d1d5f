//! The data model: an `Entry` as it comes from the source feed, and the
//! mutable working `Song` record tracked through normalization, resolution,
//! review and browsing.  `raw_title` and `source_id` are write-once; every
//! other field changes only through the explicit actions below.

use vstd::prelude::*;
use vstd::string::*;
use crate::resolve::RecordingMatch;

verus! {

/// One raw item from the external source feed, immutable once fetched.
#[derive(Debug)]
pub struct Entry {
    pub id: String,
    pub raw_title: String,
    pub channel_name: String,
    pub published_year: i32,
}

/// The working record for one accepted entry.  `release_year` is the value
/// that will be printed; `fallback_year` is the source's publish year, always
/// available as a safe default; `matched_title` is the resolver's best
/// canonical title and stays `None` unless resolution succeeded.
#[derive(Debug)]
pub struct Song {
    pub artist: String,
    pub title: String,
    pub release_year: i32,
    pub fallback_year: i32,
    pub source_id: String,
    pub raw_title: String,
    pub matched_title: Option<String>,
}

/// Every field of the two songs agrees except possibly `release_year`.
pub open spec fn same_except_year(a: Song, b: Song) -> bool {
    a.artist == b.artist && a.title == b.title && a.fallback_year == b.fallback_year
        && a.source_id == b.source_id && a.raw_title == b.raw_title && a.matched_title
        == b.matched_title
}

/// Every field agrees except possibly `release_year` and `matched_title`.
pub open spec fn same_except_resolution(a: Song, b: Song) -> bool {
    a.artist == b.artist && a.title == b.title && a.fallback_year == b.fallback_year
        && a.source_id == b.source_id && a.raw_title == b.raw_title
}

impl Song {
    /// Creates the song for one entry from its normalized query fields and
    /// the outcome of the first resolver attempt: on a match, the earliest
    /// candidate's year and canonical title are adopted; otherwise the
    /// publish year stands in and the entry is left for review.
    pub fn build(
        entry: &Entry,
        artist: String,
        title: String,
        best: Option<&RecordingMatch>,
    ) -> (s: Song)
        ensures
            s.artist == artist,
            s.title == title,
            s.fallback_year == entry.published_year,
            s.source_id@ == entry.id@,
            s.raw_title@ == entry.raw_title@,
            match best {
                Some(m) => s.release_year == m.year && match s.matched_title {
                    Some(t) => t@ == m.canonical_title@,
                    None => false,
                },
                None => s.release_year == entry.published_year && s.matched_title is None,
            },
    {
        let (release_year, matched_title) = match best {
            Some(m) => (m.year, Some(String::from_str(m.canonical_title.as_str()))),
            None => (entry.published_year, None),
        };
        Song {
            artist,
            title,
            release_year,
            fallback_year: entry.published_year,
            source_id: String::from_str(entry.id.as_str()),
            raw_title: String::from_str(entry.raw_title.as_str()),
            matched_title,
        }
    }

    /// Decides this entry with the safe default: the source publish year.
    pub fn decide_fallback(&mut self)
        ensures
            same_except_year(*old(self), *final(self)),
            final(self).release_year == old(self).fallback_year,
    {
        self.release_year = self.fallback_year;
    }

    /// Decides this entry with a year the user entered.
    pub fn decide_year(&mut self, year: i32)
        ensures
            same_except_year(*old(self), *final(self)),
            final(self).release_year == year,
    {
        self.release_year = year;
    }

    /// Adopts one resolver match: its year becomes the release year and its
    /// canonical title is recorded as the matched title.
    pub fn adopt_match(&mut self, m: &RecordingMatch)
        ensures
            same_except_resolution(*old(self), *final(self)),
            final(self).release_year == m.year,
            match final(self).matched_title {
                Some(t) => t@ == m.canonical_title@,
                None => false,
            },
    {
        self.release_year = m.year;
        self.matched_title = Some(String::from_str(m.canonical_title.as_str()));
    }

    /// Replaces the editable artist text.
    pub fn set_artist(&mut self, artist: String)
        ensures
            *final(self) == (Song { artist, ..*old(self) }),
    {
        self.artist = artist;
    }

    /// Replaces the editable title text.
    pub fn set_title(&mut self, title: String)
        ensures
            *final(self) == (Song { title, ..*old(self) }),
    {
        self.title = title;
    }
}

/// Songs in ascending `release_year` order.
pub open spec fn sorted_by_year(songs: Seq<Song>) -> bool {
    forall|i: int, j: int| 0 <= i <= j < songs.len() ==> (#[trigger] songs[i]).release_year
        <= (#[trigger] songs[j]).release_year
}

/// Sorts the accepted set ascending by release year before export, keeping
/// exactly the same songs.
pub fn sort_songs_by_year(v: &mut Vec<Song>)
    ensures
        sorted_by_year(final(v)@),
        final(v)@.to_multiset() == old(v)@.to_multiset(),
        final(v)@.len() == old(v)@.len(),
{
    broadcast use vstd::seq_lib::group_to_multiset_ensures;

    let mut k: usize = 1;
    while k < v.len()
        invariant
            1 <= k,
            k <= v.len() || v.len() == 0,
            v@.len() == old(v)@.len(),
            v@.to_multiset() == old(v)@.to_multiset(),
            sorted_by_year(v@.subrange(0, k as int)) || v@.len() == 0,
        decreases v.len() - k,
    {
        let ghost before = v@;
        let mut j: usize = 0;
        while j < k
            invariant
                0 <= j <= k < v@.len(),
                v@ == before,
                forall|t: int| 0 <= t < j ==> (#[trigger] v@[t]).release_year
                    <= v@[k as int].release_year,
            ensures
                0 <= j <= k < v@.len(),
                v@ == before,
                forall|t: int| 0 <= t < j ==> (#[trigger] v@[t]).release_year
                    <= v@[k as int].release_year,
                j < k ==> v@[k as int].release_year < v@[j as int].release_year,
            decreases k - j,
        {
            if v[k].release_year < v[j].release_year {
                break;
            }
            j = j + 1;
        }
        let x = v.remove(k);
        v.insert(j, x);
        proof {
            let after = v@;
            assert(after =~= before.remove(k as int).insert(j as int, before[k as int]));
            lemma_year_sorted_insert(before, k as int, j as int);
            lemma_songs_remove_insert_multiset(before, k as int, j as int);
        }
        k = k + 1;
    }
    proof {
        if v@.len() > 0 {
            assert(v@.subrange(0, v@.len() as int) =~= v@);
        }
    }
}

/// Moving element `k` down to position `j` keeps the multiset of songs.
proof fn lemma_songs_remove_insert_multiset(s: Seq<Song>, k: int, j: int)
    requires
        0 <= j <= k < s.len(),
    ensures
        s.remove(k).insert(j, s[k]).to_multiset() == s.to_multiset(),
{
    broadcast use vstd::seq_lib::group_to_multiset_ensures;

    let removed = s.remove(k);
    let inserted = removed.insert(j, s[k]);
    assert(removed.to_multiset() == s.to_multiset().remove(s[k]));
    assert(inserted.to_multiset() == removed.to_multiset().insert(s[k]));
    assert(s.contains(s[k]));
    assert(s.to_multiset().remove(s[k]).insert(s[k]) =~= s.to_multiset());
}

proof fn lemma_year_sorted_insert(s: Seq<Song>, k: int, j: int)
    requires
        0 <= j <= k < s.len(),
        sorted_by_year(s.subrange(0, k)),
        forall|t: int| 0 <= t < j ==> (#[trigger] s[t]).release_year <= s[k].release_year,
        j < k ==> s[k].release_year < s[j].release_year,
    ensures
        sorted_by_year(s.remove(k).insert(j, s[k]).subrange(0, k + 1)),
{
    let res = s.remove(k).insert(j, s[k]);
    let pre = res.subrange(0, k + 1);
    let pref = s.subrange(0, k);
    assert forall|a: int, b: int| 0 <= a <= b < pre.len() implies (#[trigger] pre[a]).release_year
        <= (#[trigger] pre[b]).release_year by {
        lemma_song_remove_insert_index(s, k, j, a);
        lemma_song_remove_insert_index(s, k, j, b);
        assert(pre[a] == res[a]);
        assert(pre[b] == res[b]);
        if a == b {
        } else if b < j {
            assert(pref[a] == s[a]);
            assert(pref[b] == s[b]);
            assert(pref[a].release_year <= pref[b].release_year);
        } else if a < j && b == j {
        } else if a < j && b > j {
            assert(pref[a] == s[a]);
            assert(pref[b - 1] == s[b - 1]);
            assert(pref[a].release_year <= pref[b - 1].release_year);
        } else if a == j && b > j {
            if j < k {
                if j < b - 1 {
                    assert(pref[j] == s[j]);
                    assert(pref[b - 1] == s[b - 1]);
                    assert(pref[j].release_year <= pref[b - 1].release_year);
                }
            }
        } else {
            assert(pref[a - 1] == s[a - 1]);
            assert(pref[b - 1] == s[b - 1]);
            assert(pref[a - 1].release_year <= pref[b - 1].release_year);
        }
    }
}

#[verifier::rlimit(50)]
proof fn lemma_song_remove_insert_index(s: Seq<Song>, k: int, j: int, a: int)
    requires
        0 <= j <= k < s.len(),
        0 <= a <= k,
    ensures
        a < j ==> s.remove(k).insert(j, s[k])[a] == s[a],
        a == j ==> s.remove(k).insert(j, s[k])[a] == s[k],
        a > j ==> s.remove(k).insert(j, s[k])[a] == s[a - 1],
{
    let removed = s.remove(k);
    removed.insert_ensures(j, s[k]);
}

} // verus!
