use carnister::normalize::clean_artist;
use carnister::normalize::clean_title;
use carnister::normalize::normalize;

#[test]
fn radio_edit_parenthetical_is_kept() {
    let (artist, title) = normalize(
        "Artist Name - Song Title (Radio Edit) [Official Video]",
        "SomeChannel",
    );
    assert_eq!(artist, "Artist Name");
    assert_eq!(title, "Song Title (Radio Edit)");
}

#[test]
fn topic_channel_supplies_artist() {
    let (artist, title) = normalize("Cool Song [Lyrics]", "SomeArtist - Topic");
    assert_eq!(artist, "SomeArtist");
    assert_eq!(title, "Cool Song");
}

#[test]
fn plain_parenthetical_is_dropped() {
    assert_eq!(clean_title("Song Title (Official Video)"), "Song Title");
}

#[test]
fn remix_and_vip_parentheticals_survive() {
    assert_eq!(clean_title("Tune (Artist Remix)"), "Tune (Artist Remix)");
    assert_eq!(clean_title("Tune (VIP)"), "Tune (VIP)");
    assert_eq!(clean_title("Tune (RADIO EDIT)"), "Tune (RADIO EDIT)");
}

#[test]
fn pipe_cuts_trailing_metadata() {
    assert_eq!(clean_title("Song Name | Label Upload 2020"), "Song Name");
}

#[test]
fn quotes_are_removed() {
    assert_eq!(clean_title("\"Song Name\""), "Song Name");
}

#[test]
fn unclosed_bracket_is_kept_verbatim() {
    assert_eq!(clean_title("Song [unfinished"), "Song [unfinished");
}

#[test]
fn nested_bracket_span_ends_at_first_close() {
    assert_eq!(clean_title("[a[b]c]"), "c]");
}

#[test]
fn artist_handle_prefix_is_discarded() {
    assert_eq!(clean_artist("SomeHandle | The Artist"), "The Artist");
    assert_eq!(clean_artist("[Promo] Channel - Real Name"), "Real Name");
}

#[test]
fn artist_without_separator_is_only_trimmed() {
    assert_eq!(clean_artist("  Plain Artist  "), "Plain Artist");
}

#[test]
fn split_happens_at_first_separator_only() {
    let (artist, title) = normalize("A - B - C", "chan");
    assert_eq!(artist, "A");
    // The right segment keeps its own " - "; artist cleaning of it is not applied.
    assert_eq!(title, "B - C");
}

#[test]
fn cleaning_a_clean_title_changes_nothing() {
    let first = clean_title("Song Title (Radio Edit) [Official Video] | upload");
    let second = clean_title(&first);
    assert_eq!(second, first);

    let a1 = clean_artist("Chan - Artist Name");
    let a2 = clean_artist(&a1);
    // A cleaned artist may still contain '-'; a second pass is not expected
    // to preserve it in general, but on this fixture it does.
    assert_eq!(a2, a1);
}

#[test]
fn normalizer_is_total_on_empty_input() {
    let (artist, title) = normalize("", "");
    assert_eq!(artist, "");
    assert_eq!(title, "");
}
