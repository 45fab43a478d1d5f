//! The resume format: one line per song, fields joined by the non-printable
//! unit separator, in the fixed order `artist, title, release_year,
//! fallback_year, source_id, raw_title, matched_title`, the last rendered as
//! an explicit present/absent marker.  Re-parsing rejects a line with the
//! wrong field count or unreadable years, so a damaged line is skipped
//! rather than aborting the load.

use vstd::prelude::*;
use vstd::string::*;
use crate::song::Song;
use crate::text::i32_to_string;
use crate::text::match_at;
use crate::text::matches_at;
use crate::text::parse_i32_str;
use crate::text::spec_i32_chars;
use crate::text::spec_parse_i32;
use crate::text::spec_split;
use crate::text::split_char;

verus! {

/// The field separator: the ASCII unit separator byte.
pub open spec fn unit_sep() -> char {
    '\u{1f}'
}

/// Ghost image of a song: every field by value.
pub ghost struct SongView {
    pub artist: Seq<char>,
    pub title: Seq<char>,
    pub release_year: i32,
    pub fallback_year: i32,
    pub source_id: Seq<char>,
    pub raw_title: Seq<char>,
    pub matched_title: Option<Seq<char>>,
}

pub open spec fn song_view(s: Song) -> SongView {
    SongView {
        artist: s.artist@,
        title: s.title@,
        release_year: s.release_year,
        fallback_year: s.fallback_year,
        source_id: s.source_id@,
        raw_title: s.raw_title@,
        matched_title: match s.matched_title {
            Some(t) => Some(t@),
            None => None,
        },
    }
}

/// The present/absent marker for the matched title.
pub open spec fn spec_marker(mt: Option<Seq<char>>) -> Seq<char> {
    match mt {
        Some(t) => "Some(\""@ + t + "\")"@,
        None => "None"@,
    }
}

/// The serialized line of a song.
pub open spec fn spec_song_line(v: SongView) -> Seq<char> {
    v.artist + seq![unit_sep()] + v.title + seq![unit_sep()] + spec_i32_chars(
        v.release_year as int,
    ) + seq![unit_sep()] + spec_i32_chars(v.fallback_year as int) + seq![unit_sep()]
        + v.source_id + seq![unit_sep()] + v.raw_title + seq![unit_sep()] + spec_marker(
        v.matched_title,
    )
}

/// Serializes one song for the resume file.
pub fn song_to_line(s: &Song) -> (r: String)
    ensures
        r@ == spec_song_line(song_view(*s)),
{
    proof {
        reveal_strlit("\u{1f}");
        assert("\u{1f}"@ =~= seq![unit_sep()]);
    }
    let mut out = String::from_str(s.artist.as_str());
    out.append("\u{1f}");
    out.append(s.title.as_str());
    out.append("\u{1f}");
    out.append(i32_to_string(s.release_year).as_str());
    out.append("\u{1f}");
    out.append(i32_to_string(s.fallback_year).as_str());
    out.append("\u{1f}");
    out.append(s.source_id.as_str());
    out.append("\u{1f}");
    out.append(s.raw_title.as_str());
    out.append("\u{1f}");
    match &s.matched_title {
        Some(t) => {
            out.append("Some(\"");
            out.append(t.as_str());
            out.append("\")");
        },
        None => {
            out.append("None");
        },
    }
    out
}

/// What the matched-title marker denotes: the text between `Some("` and
/// `")`, or nothing for any other shape.
pub open spec fn spec_parse_option(s: Seq<char>) -> Option<Seq<char>> {
    if s.len() >= 8 && matches_at(s, "Some(\""@, 0) && matches_at(s, "\")"@, s.len() - 2) {
        Some(s.subrange(6, s.len() - 2))
    } else {
        None
    }
}

/// Reads the present/absent marker of a matched title back: the text inside
/// a well-formed `Some("...")` marker, and nothing for every other input.
pub fn parse_option_string(input: &str) -> (r: Option<String>)
    ensures
        match r {
            Some(t) => Some(t@) == spec_parse_option(input@),
            None => spec_parse_option(input@) is None,
        },
{
    let n = input.unicode_len();
    proof {
        reveal_strlit("Some(\"");
        reveal_strlit("\")");
    }
    if n >= 8 && match_at(input, 0, "Some(\"") && match_at(input, n - 2, "\")") {
        Some(String::from_str(input.substring_char(6, n - 2)))
    } else {
        None
    }
}

/// What a resume line denotes: a song when the line has exactly seven
/// fields and both year fields read as numbers, nothing otherwise.
pub open spec fn spec_parse_song_line(s: Seq<char>) -> Option<SongView> {
    let parts = spec_split(s, unit_sep());
    if parts.len() != 7 {
        None
    } else {
        match (spec_parse_i32(parts[2]), spec_parse_i32(parts[3])) {
            (Some(ry), Some(fy)) => Some(
                SongView {
                    artist: parts[0],
                    title: parts[1],
                    release_year: ry,
                    fallback_year: fy,
                    source_id: parts[4],
                    raw_title: parts[5],
                    matched_title: spec_parse_option(parts[6]),
                },
            ),
            _ => None,
        }
    }
}

/// Parses one resume line.  A line with a wrong field count or unreadable
/// years yields nothing, so the caller skips it and loads the rest.
pub fn parse_song_line(line: &str) -> (r: Option<Song>)
    ensures
        match r {
            Some(s) => Some(song_view(s)) == spec_parse_song_line(line@),
            None => spec_parse_song_line(line@) is None,
        },
{
    let parts = split_char(line, '\u{1f}');
    let ghost sparts = spec_split(line@, unit_sep());
    proof {
        assert(parts@.map_values(|p: String| p@) == sparts);
        assert(forall|k: int| 0 <= k < parts@.len() ==> (#[trigger] parts@[k])@ == sparts[k]);
    }
    if parts.len() != 7 {
        return None;
    }
    let release_year = match parse_i32_str(parts[2].as_str()) {
        Some(y) => y,
        None => {
            return None;
        },
    };
    let fallback_year = match parse_i32_str(parts[3].as_str()) {
        Some(y) => y,
        None => {
            return None;
        },
    };
    let matched_title = parse_option_string(parts[6].as_str());
    Some(
        Song {
            artist: String::from_str(parts[0].as_str()),
            title: String::from_str(parts[1].as_str()),
            release_year,
            fallback_year,
            source_id: String::from_str(parts[4].as_str()),
            raw_title: String::from_str(parts[5].as_str()),
            matched_title,
        },
    )
}

/// The text contains no unit separator, so it survives as one field.
pub open spec fn sep_free(s: Seq<char>) -> bool {
    forall|j: int| 0 <= j < s.len() ==> (#[trigger] s[j]) != unit_sep()
}

proof fn lemma_year_chars_sep_free(y: i32)
    ensures
        sep_free(spec_i32_chars(y as int)),
{
    let s = spec_i32_chars(y as int);
    if y < 0 {
        crate::text::lemma_nat_digits_shape(-(y as int));
        let ds = crate::text::spec_nat_digits(-(y as int));
        assert forall|j: int| 0 <= j < s.len() implies (#[trigger] s[j]) != unit_sep() by {
            if j > 0 {
                assert(s[j] == ds[j - 1]);
                assert(crate::text::is_digit(ds[j - 1]));
            }
        }
    } else {
        crate::text::lemma_nat_digits_shape(y as int);
        assert forall|j: int| 0 <= j < s.len() implies (#[trigger] s[j]) != unit_sep() by {
            assert(crate::text::is_digit(s[j]));
        }
    }
}

proof fn lemma_marker_sep_free(mt: Option<Seq<char>>)
    requires
        match mt {
            Some(t) => sep_free(t),
            None => true,
        },
    ensures
        sep_free(spec_marker(mt)),
{
    reveal_strlit("Some(\"");
    reveal_strlit("\")");
    reveal_strlit("None");
    match mt {
        Some(t) => {
            let mk = "Some(\""@ + t + "\")"@;
            assert forall|j: int| 0 <= j < mk.len() implies (#[trigger] mk[j]) != unit_sep() by {
                if j < 6 {
                    assert(mk[j] == "Some(\""@[j]);
                } else if j < 6 + t.len() {
                    assert(mk[j] == t[j - 6]);
                } else {
                    assert(mk[j] == "\")"@[j - 6 - t.len()]);
                }
            }
        },
        None => {
        },
    }
}

/// Reading the matched-title marker back gives exactly what was written.
proof fn lemma_marker_round_trip(mt: Option<Seq<char>>)
    ensures
        spec_parse_option(spec_marker(mt)) == mt,
{
    reveal_strlit("Some(\"");
    reveal_strlit("\")");
    reveal_strlit("None");
    match mt {
        Some(t) => {
            let mk = "Some(\""@ + t + "\")"@;
            assert(mk.len() == t.len() + 8);
            assert(matches_at(mk, "Some(\""@, 0)) by {
                assert(forall|j: int| 0 <= j < 6 ==> mk[j] == #[trigger] "Some(\""@[j]);
            }
            assert(matches_at(mk, "\")"@, mk.len() - 2)) by {
                assert(forall|j: int| 0 <= j < 2 ==> mk[mk.len() - 2 + j] == #[trigger] "\")"@[j]);
            }
            assert(mk.subrange(6, mk.len() - 2) =~= t);
        },
        None => {
            assert("None"@.len() == 4);
        },
    }
}

/// The resume format round-trips: a line written for a song parses back to
/// exactly that song, provided no text field contains the unit separator
/// itself (the one character the format reserves).
#[verifier::rlimit(80)]
pub proof fn lemma_song_line_round_trip(v: SongView)
    requires
        sep_free(v.artist),
        sep_free(v.title),
        sep_free(v.source_id),
        sep_free(v.raw_title),
        match v.matched_title {
            Some(t) => sep_free(t),
            None => true,
        },
    ensures
        spec_parse_song_line(spec_song_line(v)) == Some(v),
{
    let u = seq![unit_sep()];
    let ry = spec_i32_chars(v.release_year as int);
    let fy = spec_i32_chars(v.fallback_year as int);
    let mk = spec_marker(v.matched_title);
    lemma_year_chars_sep_free(v.release_year);
    lemma_year_chars_sep_free(v.fallback_year);
    lemma_marker_sep_free(v.matched_title);

    let r5 = v.raw_title + u + mk;
    let r4 = v.source_id + u + r5;
    let r3 = fy + u + r4;
    let r2 = ry + u + r3;
    let r1 = v.title + u + r2;
    let line = spec_song_line(v);
    assert(line =~= v.artist + u + r1);
    crate::text::lemma_split_concat(v.artist, r1, unit_sep());
    assert(spec_split(line, unit_sep()) == seq![v.artist] + spec_split(r1, unit_sep()));
    crate::text::lemma_split_concat(v.title, r2, unit_sep());
    assert(spec_split(r1, unit_sep()) == seq![v.title] + spec_split(r2, unit_sep()));
    crate::text::lemma_split_concat(ry, r3, unit_sep());
    assert(spec_split(r2, unit_sep()) == seq![ry] + spec_split(r3, unit_sep()));
    crate::text::lemma_split_concat(fy, r4, unit_sep());
    assert(spec_split(r3, unit_sep()) == seq![fy] + spec_split(r4, unit_sep()));
    crate::text::lemma_split_concat(v.source_id, r5, unit_sep());
    assert(spec_split(r4, unit_sep()) == seq![v.source_id] + spec_split(r5, unit_sep()));
    crate::text::lemma_split_concat(v.raw_title, mk, unit_sep());
    assert(spec_split(r5, unit_sep()) == seq![v.raw_title] + spec_split(mk, unit_sep()));
    crate::text::lemma_split_whole(mk, unit_sep());
    let parts = spec_split(line, unit_sep());
    assert(parts =~= seq![v.artist, v.title, ry, fy, v.source_id, v.raw_title, mk]);
    assert(parts.len() == 7);
    crate::text::lemma_i32_chars_parse_round_trip(v.release_year);
    crate::text::lemma_i32_chars_parse_round_trip(v.fallback_year);
    lemma_marker_round_trip(v.matched_title);
}

} // verus!
