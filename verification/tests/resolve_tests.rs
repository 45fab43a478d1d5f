use carnister::resolve::RawCandidate;
use carnister::resolve::ResolveError;
use carnister::resolve::canonical_title;
use carnister::resolve::resolve_candidates;
use carnister::resolve::resolve_outcome;
use carnister::resolve::year_of_date;

fn cand(date: Option<&str>, names: &[&str], title: &str, dis: Option<&str>) -> RawCandidate {
    RawCandidate {
        release_date: date.map(|d| d.to_string()),
        artist_names: names.iter().map(|n| n.to_string()).collect(),
        title: title.to_string(),
        disambiguation: dis.map(|d| d.to_string()),
    }
}

#[test]
fn year_comes_from_date_prefix() {
    assert_eq!(year_of_date("1984-05-02"), Some(1984));
    assert_eq!(year_of_date("1999"), Some(1999));
    assert_eq!(year_of_date("-05-02"), None);
    assert_eq!(year_of_date("19x4"), None);
    assert_eq!(year_of_date(""), None);
}

#[test]
fn year_parse_respects_integer_limits() {
    assert_eq!(year_of_date("2147483647"), Some(i32::MAX));
    assert_eq!(year_of_date("2147483648"), None);
    assert_eq!(year_of_date("99999999999999999999"), None);
    assert_eq!(year_of_date("+2024-01"), Some(2024));
}

#[test]
fn canonical_title_joins_credits() {
    let names = vec!["First Artist".to_string(), "Second Artist".to_string()];
    assert_eq!(
        canonical_title(&names, "The Song"),
        "First Artist, Second Artist - The Song"
    );
}

#[test]
fn canonical_title_straightens_apostrophes() {
    let names = vec!["A\u{2019}B".to_string()];
    assert_eq!(canonical_title(&names, "Don\u{2019}t"), "A'B - Don't");
}

#[test]
fn output_is_sorted_by_year_then_title() {
    let cands = vec![
        cand(Some("1999-01-01"), &["Zed"], "Later Song", None),
        cand(Some("1984-07-01"), &["Bee"], "B Song", None),
        cand(Some("1984"), &["Ay"], "A Song", None),
    ];
    let ms = resolve_candidates(&cands).unwrap();
    assert_eq!(ms.len(), 3);
    for w in ms.windows(2) {
        assert!(w[0].year <= w[1].year);
        if w[0].year == w[1].year {
            assert!(w[0].canonical_title <= w[1].canonical_title);
        }
    }
    assert_eq!(ms[0].canonical_title, "Ay - A Song");
    assert_eq!(ms[1].canonical_title, "Bee - B Song");
    assert_eq!(ms[2].year, 1999);
}

#[test]
fn equal_years_order_prefix_first() {
    let cands = vec![
        cand(Some("1990"), &["Band"], "Song Extended", None),
        cand(Some("1990"), &["Band"], "Song", None),
    ];
    let ms = resolve_candidates(&cands).unwrap();
    assert_eq!(ms[0].canonical_title, "Band - Song");
    assert_eq!(ms[1].canonical_title, "Band - Song Extended");
}

#[test]
fn null_release_date_never_appears() {
    let cands = vec![
        cand(None, &["Ghost"], "Unreleased", None),
        cand(Some("2001-03-04"), &["Real"], "Released", None),
        cand(None, &["Ghost Two"], "Also Unreleased", None),
    ];
    let ms = resolve_candidates(&cands).unwrap();
    assert_eq!(ms.len(), 1);
    assert_eq!(ms[0].year, 2001);
    assert_eq!(ms[0].canonical_title, "Real - Released");
}

#[test]
fn unparseable_date_is_dropped_not_fatal() {
    let cands = vec![
        cand(Some("unknown"), &["A"], "Bad Date", None),
        cand(Some("1975-01-01"), &["B"], "Good Date", None),
    ];
    let ms = resolve_candidates(&cands).unwrap();
    assert_eq!(ms.len(), 1);
    assert_eq!(ms[0].year, 1975);
}

#[test]
fn no_usable_candidate_is_not_found() {
    let all_null = vec![cand(None, &["A"], "X", None), cand(None, &["B"], "Y", None)];
    assert_eq!(resolve_candidates(&all_null).unwrap_err(), ResolveError::NotFound);

    let empty: Vec<RawCandidate> = Vec::new();
    assert_eq!(resolve_candidates(&empty).unwrap_err(), ResolveError::NotFound);
}

#[test]
fn failed_transport_is_its_own_error() {
    let cands = vec![cand(Some("1990"), &["A"], "X", None)];
    assert_eq!(
        resolve_outcome(false, &cands).unwrap_err(),
        ResolveError::TransportFailure
    );
    assert_eq!(resolve_outcome(true, &cands).unwrap().len(), 1);
}

#[test]
fn disambiguation_is_passed_through() {
    let cands = vec![cand(Some("2010"), &["A"], "X", Some("live take"))];
    let ms = resolve_candidates(&cands).unwrap();
    assert_eq!(ms[0].disambiguation.as_deref(), Some("live take"));
}
