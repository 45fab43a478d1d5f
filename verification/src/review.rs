//! The review state machine: after bulk ingestion, every entry whose lookup
//! failed sits in an unresolved queue.  One pass over that queue decides a
//! release year for each entry, either interactively or under a sticky bulk
//! mode that answers all remaining entries the same way.

use vstd::prelude::*;
use crate::resolve::RecordingMatch;
use crate::song::Song;
use crate::song::same_except_year;

verus! {

/// Sticky override chosen by the user during the review pass.  Once a
/// "for all remaining" action is taken, the mode never returns to
/// `Interactive` for the rest of the pass.
#[derive(Clone, Copy, PartialEq, Eq, Structural, Debug)]
pub enum BulkMode {
    Interactive,
    AlwaysFallback,
    AlwaysManualPrompt,
}

/// What the driver must do for the next pending entry, determined by the
/// bulk mode alone, before any prompt is shown.
#[derive(Clone, Copy, PartialEq, Eq, Structural, Debug)]
pub enum ReviewDirective {
    DecideFallback,
    PromptYear,
    ShowMenu,
}

pub open spec fn spec_entry_directive(mode: BulkMode) -> ReviewDirective {
    match mode {
        BulkMode::Interactive => ReviewDirective::ShowMenu,
        BulkMode::AlwaysFallback => ReviewDirective::DecideFallback,
        BulkMode::AlwaysManualPrompt => ReviewDirective::PromptYear,
    }
}

/// First step for a pending entry: under a bulk mode the entry is decided
/// without a menu; only `Interactive` ever shows the action menu.
pub fn entry_directive(mode: BulkMode) -> (d: ReviewDirective)
    ensures
        d == spec_entry_directive(mode),
{
    match mode {
        BulkMode::Interactive => ReviewDirective::ShowMenu,
        BulkMode::AlwaysFallback => ReviewDirective::DecideFallback,
        BulkMode::AlwaysManualPrompt => ReviewDirective::PromptYear,
    }
}

/// Validates one numeric prompt answer.  An in-range value is returned
/// exactly as entered (never coerced); anything else is rejected so the
/// caller re-prompts.
pub fn accept_input(raw: i32, lo: i32, hi: i32) -> (r: Option<i32>)
    ensures
        r == (if lo <= raw && raw <= hi {
            Some(raw)
        } else {
            None::<i32>
        }),
{
    if lo <= raw && raw <= hi {
        Some(raw)
    } else {
        None
    }
}

/// The five actions of the review menu, in menu order: accept the fallback
/// year, enter a year, re-run the resolver on edited text, or take one of
/// the two "for all remaining" actions.
#[derive(Clone, Copy, PartialEq, Eq, Structural, Debug)]
pub enum ReviewChoice {
    UseFallback,
    EnterYear,
    Requery,
    FallbackAll,
    ManualAll,
}

pub open spec fn spec_choice_of(n: i32) -> Option<ReviewChoice> {
    if n == 1 {
        Some(ReviewChoice::UseFallback)
    } else if n == 2 {
        Some(ReviewChoice::EnterYear)
    } else if n == 3 {
        Some(ReviewChoice::Requery)
    } else if n == 4 {
        Some(ReviewChoice::FallbackAll)
    } else if n == 5 {
        Some(ReviewChoice::ManualAll)
    } else {
        None
    }
}

/// Maps a menu number to its action; anything outside the menu range is
/// rejected so the caller re-prompts.
pub fn choice_of_num(n: i32) -> (r: Option<ReviewChoice>)
    ensures
        r == spec_choice_of(n),
{
    if n == 1 {
        Some(ReviewChoice::UseFallback)
    } else if n == 2 {
        Some(ReviewChoice::EnterYear)
    } else if n == 3 {
        Some(ReviewChoice::Requery)
    } else if n == 4 {
        Some(ReviewChoice::FallbackAll)
    } else if n == 5 {
        Some(ReviewChoice::ManualAll)
    } else {
        None
    }
}

/// How the current entry is decided after a menu choice.
#[derive(Clone, Copy, PartialEq, Eq, Structural, Debug)]
pub enum EntryDecision {
    WithFallback,
    WithPromptedYear,
    WithQuery,
}

/// The bulk mode after a choice: the two "for all remaining" actions set it,
/// sticky for the rest of the pass; every other choice leaves it alone.
pub open spec fn spec_mode_after(mode: BulkMode, c: ReviewChoice) -> BulkMode {
    match c {
        ReviewChoice::FallbackAll => BulkMode::AlwaysFallback,
        ReviewChoice::ManualAll => BulkMode::AlwaysManualPrompt,
        _ => mode,
    }
}

pub open spec fn spec_decision_of(c: ReviewChoice) -> EntryDecision {
    match c {
        ReviewChoice::UseFallback => EntryDecision::WithFallback,
        ReviewChoice::FallbackAll => EntryDecision::WithFallback,
        ReviewChoice::EnterYear => EntryDecision::WithPromptedYear,
        ReviewChoice::ManualAll => EntryDecision::WithPromptedYear,
        ReviewChoice::Requery => EntryDecision::WithQuery,
    }
}

/// Applies one validated menu choice: updates the sticky bulk mode and says
/// how this entry is decided.  The "for all remaining" actions also decide
/// the current entry the same way.
pub fn apply_choice(mode: &mut BulkMode, c: ReviewChoice) -> (d: EntryDecision)
    ensures
        *final(mode) == spec_mode_after(*old(mode), c),
        d == spec_decision_of(c),
{
    match c {
        ReviewChoice::UseFallback => EntryDecision::WithFallback,
        ReviewChoice::EnterYear => EntryDecision::WithPromptedYear,
        ReviewChoice::Requery => EntryDecision::WithQuery,
        ReviewChoice::FallbackAll => {
            *mode = BulkMode::AlwaysFallback;
            EntryDecision::WithFallback
        },
        ReviewChoice::ManualAll => {
            *mode = BulkMode::AlwaysManualPrompt;
            EntryDecision::WithPromptedYear
        },
    }
}

/// Once the bulk mode is `AlwaysFallback`, no later entry of the pass ever
/// sees a prompt: the directive for every pending entry is `DecideFallback`,
/// never the menu and never a year prompt; and no menu choice is taken, so
/// the mode stays `AlwaysFallback` for the rest of the pass.
pub proof fn lemma_always_fallback_never_prompts(mode: BulkMode)
    requires
        mode == BulkMode::AlwaysFallback,
    ensures
        spec_entry_directive(mode) == ReviewDirective::DecideFallback,
        spec_entry_directive(mode) != ReviewDirective::ShowMenu,
        spec_entry_directive(mode) != ReviewDirective::PromptYear,
{
}

/// Finishes a review pass under `AlwaysFallback`: every entry from `start`
/// on is decided with its fallback year, nothing else about any song
/// changes, and entries before `start` are untouched.
pub fn fallback_remaining(queue: &mut Vec<Song>, start: usize)
    requires
        start <= old(queue)@.len(),
    ensures
        final(queue)@.len() == old(queue)@.len(),
        forall|i: int| 0 <= i < start ==> final(queue)@[i] == old(queue)@[i],
        forall|i: int| start <= i < final(queue)@.len() ==> same_except_year(
            old(queue)@[i],
            #[trigger] final(queue)@[i],
        ) && final(queue)@[i].release_year == old(queue)@[i].fallback_year,
{
    let mut i = start;
    while i < queue.len()
        invariant
            start <= i <= queue@.len(),
            queue@.len() == old(queue)@.len(),
            forall|t: int| 0 <= t < start ==> queue@[t] == old(queue)@[t],
            forall|t: int| start <= t < i ==> same_except_year(
                old(queue)@[t],
                #[trigger] queue@[t],
            ) && queue@[t].release_year == old(queue)@[t].fallback_year,
            forall|t: int| i <= t < queue@.len() ==> queue@[t] == #[trigger] old(queue)@[t],
        decreases queue@.len() - i,
    {
        queue[i].decide_fallback();
        i = i + 1;
    }
}

/// Picks one match from a resolver result list by its 1-based row number;
/// any number outside `1..=len` — the menu offers `len + 1` as "back" —
/// selects nothing.
pub fn select_match(results: &Vec<RecordingMatch>, choice: usize) -> (r: Option<&RecordingMatch>)
    ensures
        match r {
            Some(m) => 1 <= choice <= results@.len() && *m == results@[choice - 1],
            None => !(1 <= choice <= results@.len()),
        },
{
    if 1 <= choice && choice <= results.len() {
        Some(&results[choice - 1])
    } else {
        None
    }
}

} // verus!
