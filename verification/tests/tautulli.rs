use etv_station::catalog::{Catalog, Entry, EntrySource, Source, Tags};
use etv_station::score::WatchEvent;
use etv_station::tautulli::{
    credentials, endpoint, is_numeric_id, join, redact_key, resolve, resolve_account_id,
    HistoryRow, HistoryScope, RatingKey,
};

fn entry(id: &str, title: &str, source_id: &str) -> Entry {
    Entry {
        entry_id: id.into(),
        kind: "movie".into(),
        title: title.into(),
        title_sort: None,
        show: None,
        show_id: None,
        season: None,
        episode: None,
        absolute_episode: None,
        edition: None,
        studio: None,
        year: None,
        release_date: None,
        duration_ms: None,
        content_rating: None,
        library: None,
        summary: None,
        artwork_cache_path: None,
        missing: false,
        external: vec![],
        tags: Tags {
            genres: vec![],
            labels: vec![],
            cast: vec![],
            directors: vec![],
            writers: vec![],
            producers: vec![],
            countries: vec![],
        },
        sources: vec![EntrySource {
            source: Source::Plex,
            source_id: source_id.into(),
            playback_path: "/media/alpha.mkv".into(),
            stale: false,
        }],
    }
}

fn catalog(entries: Vec<Entry>) -> Catalog {
    Catalog { entries, collections: vec![], episodes: vec![], queries: vec![], orders: vec![] }
}

fn seeded() -> Catalog {
    catalog(vec![entry("m1", "Alpha", "plex-1")])
}

fn text(key: &str) -> RatingKey {
    RatingKey::Text(key.into())
}

fn row(key: RatingKey, stopped: Option<i64>) -> HistoryRow {
    HistoryRow { rating_key: Some(key), stopped, friendly_name: None, user: None, user_id: None }
}

fn row_by(
    key: RatingKey,
    stopped: Option<i64>,
    friendly_name: Option<&str>,
    user: Option<&str>,
) -> HistoryRow {
    HistoryRow {
        rating_key: Some(key),
        stopped,
        friendly_name: friendly_name.map(str::to_string),
        user: user.map(str::to_string),
        user_id: None,
    }
}

fn row_with_account(user_id: i64) -> HistoryRow {
    HistoryRow {
        rating_key: Some(text("plex-1")),
        stopped: Some(100),
        friendly_name: None,
        user: None,
        user_id: Some(user_id),
    }
}

fn resolved(catalog: &Catalog, rows: Vec<HistoryRow>) -> Vec<WatchEvent> {
    join(catalog, &rows)
}

fn resolve_counting(
    catalog: &Catalog,
    rows: Vec<HistoryRow>,
) -> (Vec<WatchEvent>, (usize, usize, usize)) {
    let joined = resolve(catalog, &rows);
    (joined.events, (joined.rows, joined.keys, joined.matched))
}

#[test]
fn the_friendly_name_is_preferred_over_the_account_name() {
    let got = resolved(
        &seeded(),
        vec![row_by(text("plex-1"), Some(100), Some("Bob Example"), Some("bob"))],
    );
    assert_eq!(got[0].watcher.as_deref(), Some("Bob Example"));
}

#[test]
fn a_blank_friendly_name_falls_through_to_the_username() {
    let got =
        resolved(&seeded(), vec![row_by(text("plex-1"), Some(100), Some("  "), Some("bob"))]);
    assert_eq!(got[0].watcher.as_deref(), Some("bob"));
}

#[test]
fn a_row_naming_nobody_credits_nobody() {
    let got = resolved(&seeded(), vec![row(text("plex-1"), Some(100))]);
    assert_eq!(got[0].watcher, None);
}

#[test]
fn joins_rows_to_entries_by_rating_key() {
    let got = resolved(&seeded(), vec![row(text("plex-1"), Some(100))]);
    assert_eq!(got.len(), 1);
    assert_eq!(got[0].entry_id, "m1");
    assert_eq!(got[0].watched_at, 100);
}

#[test]
fn accepts_a_numeric_rating_key() {
    let c = catalog(vec![entry("m2", "Beta", "4242")]);
    let got = resolved(&c, vec![row(RatingKey::Number(4242), Some(7))]);
    assert_eq!(got.len(), 1, "a numeric ratingKey must still match");
    assert_eq!(got[0].entry_id, "m2");
}

#[test]
fn drops_rows_that_match_nothing_in_the_catalog() {
    assert!(resolved(&seeded(), vec![row(text("gone"), Some(1))]).is_empty());
}

#[test]
fn drops_rows_still_playing() {
    assert!(resolved(&seeded(), vec![row(text("plex-1"), None)]).is_empty());
}

#[test]
fn the_pooled_scope_adds_no_filter() {
    assert_eq!(HistoryScope::AllUsers.query_param(), None);
}

#[test]
fn a_numeric_user_is_an_id_and_a_name_is_a_name() {
    assert_eq!(
        HistoryScope::User("7654321".into()).query_param(),
        Some(("user_id", "7654321")),
        "a value that parses as an integer is a Tautulli user_id",
    );
    assert_eq!(
        HistoryScope::User("carol".into()).query_param(),
        Some(("user", "carol")),
        "anything else is a username",
    );
    assert_eq!(
        HistoryScope::User("Sam + Alex".into()).query_param(),
        Some(("user", "Sam + Alex")),
    );
}

#[test]
fn a_signed_number_is_a_name_not_an_id() {
    for name in ["+5", "-3", " 12", "12 ", "1_2", ""] {
        assert_eq!(
            HistoryScope::User(name.into()).query_param(),
            Some(("user", name)),
            "{name:?} is not a Tautulli user_id",
        );
    }
}

#[test]
fn a_username_with_punctuation_survives_encoding() {
    let scope = HistoryScope::User("Sam + Alex".into());
    let (param, value) = scope.query_param().unwrap();
    let url = ureq::get("http://tautulli.invalid/api/v2")
        .query(param, value)
        .request_url()
        .unwrap()
        .as_url()
        .to_string();
    assert!(
        url.contains("user=Sam+%2B+Alex"),
        "the literal + must be percent-encoded, not left to mean a space: {url}"
    );
}

#[test]
fn the_pooled_scope_resolves_to_no_account() {
    assert_eq!(
        resolve_account_id(&HistoryScope::AllUsers, &vec![row_with_account(501)]),
        Ok(None),
    );
}

#[test]
fn a_digit_scope_resolves_from_the_config_alone() {
    assert_eq!(
        resolve_account_id(&HistoryScope::User("7654321".into()), &vec![]),
        Ok(Some(7654321)),
    );
}

#[test]
fn a_name_scope_resolves_from_the_first_rows_account_id() {
    assert_eq!(
        resolve_account_id(
            &HistoryScope::User("carol".into()),
            &vec![row_with_account(501), row_with_account(501)],
        ),
        Ok(Some(501)),
    );
}

#[test]
fn a_name_scope_with_no_matching_rows_fails_naming_the_user() {
    let err = resolve_account_id(&HistoryScope::User("nobody".into()), &vec![]).unwrap_err();
    assert!(err.contains("nobody"), "the failure must name the user: {err}");
}

#[test]
fn a_name_scope_with_rows_naming_nobody_still_fails() {
    let unattributed = row(text("plex-1"), Some(100));
    let err =
        resolve_account_id(&HistoryScope::User("carol".into()), &vec![unattributed]).unwrap_err();
    assert!(err.contains("carol"));
}

#[test]
fn keeps_the_api_key_out_of_a_failure_message() {
    let key = "s3cr3t-tautulli-key";
    let raw = format!(
        "http://tautulli.invalid:8181/api/v2?apikey={key}&cmd=get_history&length=1000: \
         Connection Failed: Connect error: Connection refused (os error 61)"
    );
    let got = redact_key(&raw, key);
    assert!(!got.contains(key), "the api key must not survive into a log");
    assert!(
        got.contains("apikey=<redacted>"),
        "the rest of the message must survive so the error stays diagnosable: {got}"
    );
}

#[test]
fn an_empty_key_is_left_alone() {
    assert_eq!(redact_key("request failed", ""), "request failed");
}

#[test]
fn logs_one_join_event_carrying_rows_keys_and_matched() {
    let (events, counts) = resolve_counting(
        &seeded(),
        vec![
            row(text("plex-1"), Some(100)),
            row(text("plex-1"), Some(200)),
            row(text("gone"), Some(1)),
            row(text("plex-1"), None),
        ],
    );
    assert_eq!(counts, (4, 2, 1));
    assert_eq!(events.len(), 2);
    assert!(events.iter().all(|e| e.entry_id == "m1"));
}

#[test]
fn a_rewatch_never_pushes_matched_past_the_distinct_key_count() {
    let rows = (0..10).map(|i| row(text("plex-1"), Some(i))).collect::<Vec<_>>();
    let (events, counts) = resolve_counting(&seeded(), rows);
    assert_eq!(counts, (10, 1, 1));
    assert_eq!(events.len(), 10, "every play is still its own event");
}

#[test]
fn logs_the_join_event_even_when_nothing_matched() {
    let (_, counts) = resolve_counting(&seeded(), vec![row(text("gone"), Some(1))]);
    assert_eq!(counts, (1, 1, 0));
}

#[test]
fn an_account_number_that_is_too_large_fails_by_its_text() {
    let got = resolve_account_id(&HistoryScope::User("9223372036854775807".into()), &vec![]);
    assert_eq!(got, Ok(Some(i64::MAX)));
    let err =
        resolve_account_id(&HistoryScope::User("9223372036854775808".into()), &vec![]).unwrap_err();
    assert_eq!(
        err,
        "user \"9223372036854775808\" does not fit a 64-bit account id: number too large to fit \
         in target type"
    );
}

#[test]
fn credentials_need_both_halves() {
    let some = |s: &str| Some(s.to_string());
    assert_eq!(credentials(some("http://t"), some("k")), Some(("http://t".into(), "k".into())));
    assert_eq!(credentials(some(""), some("k")), None);
    assert_eq!(credentials(some("http://t"), some("")), None);
    assert_eq!(credentials(None, some("k")), None);
}

#[test]
fn the_endpoint_drops_trailing_slashes() {
    assert_eq!(
        endpoint("http://t:8181//", "k"),
        "http://t:8181/api/v2?apikey=k&cmd=get_history&length=1000"
    );
}

#[test]
fn a_scope_is_labelled_and_digits_alone_are_a_number() {
    assert_eq!(HistoryScope::AllUsers.label(), "all_users");
    assert_eq!(HistoryScope::User("carol".into()).label(), "carol");
    assert!(is_numeric_id("007"));
    assert!(!is_numeric_id("7a"));
}

#[test]
fn every_occurrence_of_the_key_is_masked() {
    assert_eq!(redact_key("k9 and k9k9", "k9"), "<redacted> and <redacted><redacted>");
    assert_eq!(redact_key("aaa", "aa"), "<redacted>a");
}
