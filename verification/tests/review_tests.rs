use carnister::resolve::RecordingMatch;
use carnister::review::BulkMode;
use carnister::review::EntryDecision;
use carnister::review::ReviewChoice;
use carnister::review::ReviewDirective;
use carnister::review::accept_input;
use carnister::review::apply_choice;
use carnister::review::choice_of_num;
use carnister::review::entry_directive;
use carnister::review::fallback_remaining;
use carnister::review::select_match;
use carnister::song::Song;

fn unresolved(id: &str, fallback: i32) -> Song {
    Song {
        artist: format!("artist {id}"),
        title: format!("title {id}"),
        release_year: fallback,
        fallback_year: fallback,
        source_id: id.to_string(),
        raw_title: format!("raw {id}"),
        matched_title: None,
    }
}

#[test]
fn out_of_range_input_is_rejected_not_coerced() {
    assert_eq!(accept_input(0, 1, 5), None);
    assert_eq!(accept_input(6, 1, 5), None);
    assert_eq!(accept_input(3, 1, 5), Some(3));
    assert_eq!(accept_input(1, 1, 5), Some(1));
    assert_eq!(accept_input(5, 1, 5), Some(5));
}

#[test]
fn menu_numbers_map_to_actions() {
    assert_eq!(choice_of_num(1), Some(ReviewChoice::UseFallback));
    assert_eq!(choice_of_num(2), Some(ReviewChoice::EnterYear));
    assert_eq!(choice_of_num(3), Some(ReviewChoice::Requery));
    assert_eq!(choice_of_num(4), Some(ReviewChoice::FallbackAll));
    assert_eq!(choice_of_num(5), Some(ReviewChoice::ManualAll));
    assert_eq!(choice_of_num(0), None);
    assert_eq!(choice_of_num(6), None);
}

#[test]
fn bulk_fallback_decides_all_remaining_without_prompts() {
    let mut queue = vec![unresolved("a", 2001), unresolved("b", 1993), unresolved("c", 2010)];

    // The user reviews the first entry interactively and picks
    // "use fallback for all remaining".
    let mut mode = BulkMode::Interactive;
    assert_eq!(entry_directive(mode), ReviewDirective::ShowMenu);
    let decision = apply_choice(&mut mode, ReviewChoice::FallbackAll);
    assert_eq!(decision, EntryDecision::WithFallback);
    assert_eq!(mode, BulkMode::AlwaysFallback);

    // From now on no entry shows a prompt...
    assert_eq!(entry_directive(mode), ReviewDirective::DecideFallback);

    // ...and every remaining entry gets its fallback year.
    fallback_remaining(&mut queue, 0);
    assert_eq!(queue.len(), 3);
    for song in &queue {
        assert_eq!(song.release_year, song.fallback_year);
        assert!(song.matched_title.is_none());
    }
    assert_eq!(queue[1].release_year, 1993);
}

#[test]
fn manual_mode_still_prompts_for_a_year() {
    let mut mode = BulkMode::Interactive;
    let decision = apply_choice(&mut mode, ReviewChoice::ManualAll);
    assert_eq!(decision, EntryDecision::WithPromptedYear);
    assert_eq!(mode, BulkMode::AlwaysManualPrompt);
    assert_eq!(entry_directive(mode), ReviewDirective::PromptYear);

    let mut song = unresolved("d", 2005);
    song.decide_year(1988);
    assert_eq!(song.release_year, 1988);
    assert_eq!(song.fallback_year, 2005);
}

#[test]
fn plain_choices_leave_the_mode_alone() {
    let mut mode = BulkMode::Interactive;
    assert_eq!(apply_choice(&mut mode, ReviewChoice::UseFallback), EntryDecision::WithFallback);
    assert_eq!(mode, BulkMode::Interactive);
    assert_eq!(apply_choice(&mut mode, ReviewChoice::EnterYear), EntryDecision::WithPromptedYear);
    assert_eq!(mode, BulkMode::Interactive);
    assert_eq!(apply_choice(&mut mode, ReviewChoice::Requery), EntryDecision::WithQuery);
    assert_eq!(mode, BulkMode::Interactive);
}

#[test]
fn requery_adoption_updates_year_and_matched_title() {
    let results = vec![
        RecordingMatch {
            year: 1971,
            canonical_title: "Band - Tune".to_string(),
            disambiguation: None,
        },
        RecordingMatch {
            year: 1999,
            canonical_title: "Band - Tune (Remaster)".to_string(),
            disambiguation: Some("remaster".to_string()),
        },
    ];

    // Row len + 1 is the "back" row: nothing selected.
    assert!(select_match(&results, 3).is_none());
    assert!(select_match(&results, 0).is_none());

    let picked = select_match(&results, 1).unwrap();
    let mut song = unresolved("e", 2015);
    song.adopt_match(picked);
    assert_eq!(song.release_year, 1971);
    assert_eq!(song.matched_title.as_deref(), Some("Band - Tune"));
    assert_eq!(song.fallback_year, 2015);
}
