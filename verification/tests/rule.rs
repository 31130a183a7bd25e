use etv_station::item::{GuideFields, ProgramMetadata, ResolvedItem, SourceConfig};
use etv_station::playout::{PlayoutItem, PlayoutSource};
use etv_station::rule::{phase_at, Rule, Sequential};

const SEC: u64 = 1_000_000_000;

fn utc(year: i32, month: time::Month, day: u8, h: u8, m: u8, s: u8) -> i128 {
    time::Date::from_calendar_date(year, month, day)
        .unwrap()
        .with_hms(h, m, s)
        .unwrap()
        .assume_utc()
        .unix_timestamp_nanos()
}

fn april(h: u8, m: u8, s: u8) -> i128 {
    utc(2026, time::Month::April, 13, h, m, s)
}

fn secs(n: u64) -> u64 {
    n * SEC
}

fn no_fields() -> GuideFields {
    GuideFields {
        show: None,
        absolute_episode: None,
        release_date: None,
        studio: None,
        edition: None,
        library: None,
        duration_ms: None,
        cast: vec![],
        directors: vec![],
        writers: vec![],
        countries: vec![],
        genres: vec![],
        summary: None,
    }
}

fn lavfi(id: &str, seconds: u64) -> ResolvedItem {
    ResolvedItem {
        id: id.into(),
        source: SourceConfig::Lavfi { params: format!("src={id}") },
        in_point: Some(0),
        out_point: Some(secs(seconds)),
        program: None,
        catalog_duration: None,
        error_card: false,
        metadata: None,
        guide: None,
        guide_fields: no_fields(),
    }
}

fn ids(list: &[PlayoutItem]) -> Vec<&str> {
    list.iter().map(|i| i.id.as_str()).collect()
}

#[test]
fn empty_window_yields_nothing() {
    let items = vec![lavfi("a", 30)];
    let durs = vec![secs(30)];
    let rule = Sequential::new(&items, &durs);
    let t = april(0, 0, 0);
    assert!(rule.items_covering(t, t, t).is_empty());
}

#[test]
fn covers_a_single_item_window() {
    let items = vec![lavfi("a", 60), lavfi("b", 60)];
    let durs = vec![secs(60), secs(60)];
    let rule = Sequential::new(&items, &durs);
    let start = april(0, 0, 0);
    let result = rule.items_covering(start, start, april(0, 0, 30));
    assert_eq!(result.len(), 1);
    assert_eq!(result[0].id, "a");
    assert_eq!(result[0].start, start);
    assert_eq!(result[0].finish, april(0, 1, 0));
}

#[test]
fn consecutive_generations_of_one_list_are_a_loop() {
    let items = vec![lavfi("a", 60), lavfi("b", 60)];
    let durs = vec![secs(60), secs(60)];
    let rule = Sequential::new(&items, &durs);
    let mut all = Vec::new();
    let mut start = april(0, 0, 0);
    for _ in 0..3 {
        let pass = rule.items_covering(start, start, start + rule.total_duration() as i128);
        start += rule.total_duration() as i128;
        all.extend(pass.into_iter().map(|i| i.id));
    }
    assert_eq!(all, vec!["a", "b", "a", "b", "a", "b"]);
}

#[test]
fn phase_at_starts_at_the_top_without_elapsed_time() {
    let durs = vec![secs(60), secs(60)];
    let t = april(0, 0, 0);
    assert_eq!(phase_at(t, t, &durs), (0, 0));
}

#[test]
fn phase_at_lands_partway_into_an_item() {
    let durs = vec![secs(60), secs(60)];
    let got = phase_at(april(0, 0, 0), april(0, 1, 30), &durs);
    assert_eq!(got, (1, secs(30)));
}

#[test]
fn phase_at_wraps_around_the_list() {
    let durs = vec![secs(60), secs(60)];
    let got = phase_at(april(0, 0, 0), april(2, 30, 30), &durs);
    assert_eq!(got, (0, secs(30)));
}

#[test]
fn phase_at_joins_mid_list_for_a_long_past_anchor() {
    let durs = vec![secs(1800), secs(1800), secs(1800)];
    let got = phase_at(utc(2020, time::Month::January, 1, 0, 0, 0), april(1, 15, 0), &durs);
    assert!(got.0 < 3, "index must be inside the list, got {got:?}");
}

#[test]
fn phase_at_ignores_a_future_anchor_and_an_empty_list() {
    let durs = vec![secs(60)];
    let now = april(0, 0, 0);
    assert_eq!(phase_at(utc(2030, time::Month::January, 1, 0, 0, 0), now, &durs), (0, 0));
    assert_eq!(phase_at(utc(2020, time::Month::January, 1, 0, 0, 0), now, &vec![]), (0, 0));
}

#[test]
fn determinism_byte_equal() {
    let items = vec![lavfi("a", 30), lavfi("b", 45), lavfi("c", 90)];
    let durs = vec![secs(30), secs(45), secs(90)];
    let start = april(0, 0, 0);
    let to = april(3, 30, 0);
    let r1 = Sequential::new(&items, &durs).items_covering(start, start, to);
    let r2 = Sequential::new(&items, &durs).items_covering(start, start, to);
    assert_eq!(format!("{r1:?}"), format!("{r2:?}"));
}

#[test]
fn sequential_plays_the_list_once_and_stops() {
    let items = vec![lavfi("a", 60), lavfi("b", 60)];
    let durs = vec![secs(60), secs(60)];
    let rule = Sequential::new(&items, &durs);
    let start = april(0, 0, 0);
    let result = rule.items_covering(start, start, april(1, 0, 0));
    assert_eq!(ids(&result), vec!["a", "b"]);
    assert_eq!(result[0].start, start);
    assert_eq!(result[1].finish, april(0, 2, 0));
}

#[test]
fn sequential_slices_to_the_requested_window() {
    let items = vec![lavfi("a", 60), lavfi("b", 60), lavfi("c", 60)];
    let durs = vec![secs(60), secs(60), secs(60)];
    let rule = Sequential::new(&items, &durs);
    let start = april(0, 0, 0);
    let result = rule.items_covering(start, april(0, 1, 0), april(0, 2, 0));
    assert_eq!(ids(&result), vec!["b"]);
}

#[test]
fn sequential_emits_a_straddling_item_whole() {
    let items = vec![lavfi("a", 120)];
    let durs = vec![secs(120)];
    let rule = Sequential::new(&items, &durs);
    let start = april(0, 0, 0);
    let result = rule.items_covering(start, april(0, 1, 0), april(0, 3, 0));
    assert_eq!(result.len(), 1);
    assert_eq!(result[0].start, start);
}

#[test]
fn sequential_total_duration_bounds_the_window() {
    let items = vec![lavfi("a", 30), lavfi("b", 90)];
    let durs = vec![secs(30), secs(90)];
    let rule = Sequential::new(&items, &durs);
    assert_eq!(rule.total_duration(), secs(120) as u128);
}

#[test]
fn first_item_can_start_before_window() {
    let items = vec![lavfi("a", 60), lavfi("b", 60)];
    let durs = vec![secs(60), secs(60)];
    let rule = Sequential::new(&items, &durs);
    let anchor = april(0, 0, 0);
    let result = rule.items_covering(anchor, april(0, 0, 30), april(0, 2, 0));
    assert_eq!(result[0].id, "a");
    assert_eq!(result[0].start, anchor);
    assert_eq!(result[0].finish, april(0, 1, 0));
}

#[test]
fn a_window_that_ends_before_it_begins_holds_nothing() {
    let items = vec![lavfi("a", 60)];
    let durs = vec![secs(60)];
    let rule = Sequential::new(&items, &durs);
    assert!(rule.items_covering(april(0, 0, 0), april(0, 0, 40), april(0, 0, 20)).is_empty());
}

#[test]
fn a_scheduled_item_keeps_what_the_guide_says_and_its_overlay() {
    let mut item = lavfi("a", 60);
    item.source = SourceConfig::Local { path: "/m/a.mkv".into() };
    item.in_point = Some(1_500_000_000);
    item.out_point = None;
    let mut program = ProgramMetadata::blank();
    program.title = Some("Alpha".into());
    item.program = Some(program);
    let items = vec![item];
    let durs = vec![secs(60)];
    let rule = Sequential::new(&items, &durs).with_overlay(Some("logo".into()));
    let result = rule.items_covering(0, 0, 1);
    assert_eq!(result[0].overlay.as_deref(), Some("logo"));
    assert_eq!(result[0].program.as_ref().unwrap().title.as_deref(), Some("Alpha"));
    match result[0].source.as_ref().unwrap() {
        PlayoutSource::Local { path, in_point_ms, out_point_ms } => {
            assert_eq!(path, "/m/a.mkv");
            assert_eq!((*in_point_ms, *out_point_ms), (Some(1500), None));
        }
        other => panic!("{other:?}"),
    }
}
