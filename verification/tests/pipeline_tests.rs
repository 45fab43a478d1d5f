use carnister::normalize::normalize;
use carnister::resolve::RawCandidate;
use carnister::resolve::resolve_candidates;
use carnister::review::fallback_remaining;
use carnister::song::Entry;
use carnister::song::Song;
use carnister::song::sort_songs_by_year;

fn entry(id: &str, raw_title: &str, channel: &str, published: i32) -> Entry {
    Entry {
        id: id.to_string(),
        raw_title: raw_title.to_string(),
        channel_name: channel.to_string(),
        published_year: published,
    }
}

fn candidates_for(artist: &str) -> Vec<RawCandidate> {
    // A small stand-in for the lookup service: two known artists resolve,
    // everything else comes back empty.
    match artist {
        "First Band" => vec![RawCandidate {
            release_date: Some("1979-11-30".to_string()),
            artist_names: vec!["First Band".to_string()],
            title: "Opening Song".to_string(),
            disambiguation: None,
        }],
        "Second Band" => vec![
            RawCandidate {
                release_date: Some("2003-01-01".to_string()),
                artist_names: vec!["Second Band".to_string()],
                title: "Closing Song".to_string(),
                disambiguation: None,
            },
            RawCandidate {
                release_date: None,
                artist_names: vec!["Second Band".to_string()],
                title: "Closing Song".to_string(),
                disambiguation: Some("unreleased".to_string()),
            },
        ],
        _ => Vec::new(),
    }
}

#[test]
fn full_pass_accepts_all_entries_sorted_by_year() {
    let entries = vec![
        entry("v1", "Second Band - Closing Song [Official Video]", "Second Band", 2004),
        entry("v2", "Mystery Song", "Unknown Artist - Topic", 1996),
        entry("v3", "First Band - Opening Song", "First Band", 2010),
    ];

    let mut accepted: Vec<Song> = Vec::new();
    let mut unresolved: Vec<Song> = Vec::new();

    for e in &entries {
        let (artist, title) = normalize(&e.raw_title, &e.channel_name);
        match resolve_candidates(&candidates_for(&artist)) {
            Ok(matches) => {
                let song = Song::build(e, artist, title, Some(&matches[0]));
                accepted.push(song);
            }
            Err(_) => {
                let song = Song::build(e, artist, title, None);
                unresolved.push(song);
            }
        }
    }

    assert_eq!(accepted.len(), 2);
    assert_eq!(unresolved.len(), 1);
    assert_eq!(unresolved[0].source_id, "v2");

    // The review pass decides the unresolved entry with its fallback year.
    fallback_remaining(&mut unresolved, 0);
    accepted.append(&mut unresolved);

    sort_songs_by_year(&mut accepted);

    assert_eq!(accepted.len(), 3);
    for w in accepted.windows(2) {
        assert!(w[0].release_year <= w[1].release_year);
    }
    assert_eq!(accepted[0].release_year, 1979);
    assert_eq!(accepted[0].matched_title.as_deref(), Some("First Band - Opening Song"));
    assert_eq!(accepted[1].release_year, 1996);
    assert!(accepted[1].matched_title.is_none());
    assert_eq!(accepted[2].release_year, 2003);
}
