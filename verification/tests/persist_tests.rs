use carnister::persist::parse_option_string;
use carnister::persist::parse_song_line;
use carnister::persist::song_to_line;
use carnister::song::Song;

fn sample_song() -> Song {
    Song {
        artist: "The Artist".to_string(),
        title: "The Title".to_string(),
        release_year: 1987,
        fallback_year: 2012,
        source_id: "vid123".to_string(),
        raw_title: "The Artist - The Title [Official]".to_string(),
        matched_title: Some("The Artist - The Title".to_string()),
    }
}

#[test]
fn line_fields_are_joined_by_unit_separator() {
    let line = song_to_line(&sample_song());
    let expected = format!(
        "The Artist{us}The Title{us}1987{us}2012{us}vid123{us}The Artist - The Title [Official]{us}Some(\"The Artist - The Title\")",
        us = char::from(31),
    );
    assert_eq!(line, expected);
}

#[test]
fn line_round_trips_through_the_parser() {
    let song = sample_song();
    let line = song_to_line(&song);
    let back = parse_song_line(&line).unwrap();
    assert_eq!(back.artist, song.artist);
    assert_eq!(back.title, song.title);
    assert_eq!(back.release_year, song.release_year);
    assert_eq!(back.fallback_year, song.fallback_year);
    assert_eq!(back.source_id, song.source_id);
    assert_eq!(back.raw_title, song.raw_title);
    assert_eq!(back.matched_title, song.matched_title);
}

#[test]
fn absent_matched_title_round_trips() {
    let mut song = sample_song();
    song.matched_title = None;
    let line = song_to_line(&song);
    let back = parse_song_line(&line).unwrap();
    assert_eq!(back.matched_title, None);
    assert_eq!(back.release_year, 1987);
}

#[test]
fn negative_years_round_trip() {
    let mut song = sample_song();
    song.release_year = -27;
    let line = song_to_line(&song);
    let back = parse_song_line(&line).unwrap();
    assert_eq!(back.release_year, -27);
}

#[test]
fn wrong_field_count_is_rejected() {
    let us = char::from(31);
    assert_eq!(parse_song_line(&format!("a{us}b{us}1999")).map(|s| s.artist), None);
    assert_eq!(parse_song_line("no separators at all").map(|s| s.artist), None);
    let eight = format!("a{us}b{us}1{us}2{us}c{us}d{us}None{us}extra");
    assert_eq!(parse_song_line(&eight).map(|s| s.artist), None);
}

#[test]
fn unreadable_year_is_rejected() {
    let us = char::from(31);
    let line = format!("a{us}b{us}199x{us}2000{us}c{us}d{us}None");
    assert_eq!(parse_song_line(&line).map(|s| s.artist), None);
}

#[test]
fn option_markers_parse_exactly() {
    assert_eq!(parse_option_string("Some(\"hello\")"), Some("hello".to_string()));
    assert_eq!(parse_option_string("Some(\"\")"), Some("".to_string()));
    assert_eq!(parse_option_string("None"), None);
    assert_eq!(parse_option_string("Some(hello)"), None);
    assert_eq!(parse_option_string(""), None);
}
