use etv_station::scan::{
    claim, discover, first_coverage_gap, highest_finish, order_files, read_span,
    scan_output_folder, split_start_finish, sweep_window, tally, unreachable_after,
    worth_opening,
    DiscoveredFile, Fate, SweepCounts,
};
use time::OffsetDateTime;

/// How the instants in the name of a playout file are written.
const DATE_FORMAT: &str = "[year][month][day]T[hour][minute][second].[subsecond digits:9][offset_hour sign:mandatory][offset_minute]";

const MINUTE: i128 = 60_000_000_000;
const HOUR: i128 = 60 * MINUTE;
const DAY: i128 = 24 * HOUR;
// 2026-04-20 00:00 UTC
const APRIL_20: i128 = 1_776_643_200_000_000_000;

fn at(hour: i128, minute: i128) -> i128 {
    APRIL_20 + hour * HOUR + minute * MINUTE
}

fn file(name: &str, start: i128, finish: i128) -> DiscoveredFile {
    DiscoveredFile { path: name.into(), start, finish }
}

fn window_name(start: i128, finish: i128) -> String {
    let format = time::format_description::parse_borrowed::<1>(DATE_FORMAT).unwrap();
    let written = |at: i128| {
        OffsetDateTime::from_unix_timestamp_nanos(at).unwrap().format(&format).unwrap()
    };
    format!("{}_{}.json", written(start), written(finish))
}

/// The entries of a folder that holds files of these names.
fn folder(names: &[&str]) -> Vec<(String, String)> {
    names.iter().map(|n| (format!("/playout/{n}"), n.to_string())).collect()
}

/// A file by the span its name claims, and the spans of the items it holds.
type Written = (DiscoveredFile, Vec<(i128, i128)>);

fn written(start: i128, finish: i128, items: Vec<(i128, i128)>) -> Written {
    (file("f.json", start, finish), items)
}

fn gap_in(files: &[Written], now: i128, horizon: i128) -> Option<i128> {
    let spans: Vec<(i128, i128)> = files
        .iter()
        .filter(|(f, _)| worth_opening(f, now))
        .flat_map(|(_, items)| items.iter().copied())
        .collect();
    first_coverage_gap(&spans, now, horizon)
}

#[test]
fn highest_finish_returns_none_for_empty() {
    assert!(highest_finish(&vec![]).is_none());
}

#[test]
fn ignores_non_json_and_garbage() {
    let files = scan_output_folder(DATE_FORMAT, &folder(&["garbage.txt", "not_a_window.json"]));
    assert!(files.is_empty());
}

#[test]
fn a_sidecar_is_no_playout_file() {
    let files = scan_output_folder(DATE_FORMAT, &folder(&[".anchor", ".durations.json"]));
    assert!(files.is_empty());
    assert_eq!(read_span("garbage.txt"), None);
    assert_eq!(read_span(".durations.json"), None);
    let (start, finish) = read_span("not_a_window.json").unwrap();
    assert_eq!((start.as_str(), finish.as_str()), ("not", "a_window"));
}

#[test]
fn no_gap_when_coverage_is_contiguous() {
    let files = [written(
        at(12, 0),
        at(13, 0),
        vec![(at(12, 0), at(12, 30)), (at(12, 30), at(13, 0))],
    )];
    assert_eq!(gap_in(&files, at(12, 0), at(13, 0)), None);
}

#[test]
fn trailing_frontier_is_not_a_gap() {
    let files = [written(at(12, 0), at(12, 30), vec![(at(12, 0), at(12, 30))])];
    assert_eq!(gap_in(&files, at(12, 0), at(18, 0)), None);
}

#[test]
fn interior_hole_is_reported_at_its_start() {
    let files = [
        written(at(12, 0), at(12, 30), vec![(at(12, 0), at(12, 30))]),
        written(at(13, 0), at(13, 30), vec![(at(13, 0), at(13, 30))]),
    ];
    assert_eq!(gap_in(&files, at(12, 0), at(14, 0)), Some(at(12, 30)));
}

#[test]
fn an_over_claiming_name_cannot_hide_a_hole() {
    let files = [
        written(at(12, 0), at(18, 0), vec![(at(12, 0), at(12, 3))]),
        written(at(18, 0), at(18, 30), vec![(at(18, 0), at(18, 30))]),
    ];
    assert_eq!(gap_in(&files, at(12, 0), at(19, 0)), Some(at(12, 3)));
}

#[test]
fn a_horizon_before_the_hole_reports_nothing() {
    let files = [
        written(at(12, 0), at(12, 30), vec![(at(12, 0), at(12, 30))]),
        written(at(13, 0), at(13, 30), vec![(at(13, 0), at(13, 30))]),
    ];
    assert_eq!(gap_in(&files, at(12, 0), at(12, 20)), None);
}

fn swept(files: &Vec<DiscoveredFile>, unreachable: i128, now: i128) -> (Vec<String>, SweepCounts) {
    let removed = sweep_window(files, 7, unreachable, now);
    let counts = tally(&removed);
    (removed.into_iter().map(|(path, _)| path).collect(), counts)
}

#[test]
fn sweep_removes_only_past_retention_files() {
    let now = APRIL_20;
    let mut files = vec![
        file("old", now - 11 * DAY, now - 10 * DAY),
        file("recent", now - 3 * DAY, now - 2 * DAY),
        file("future", now, now + DAY),
    ];
    let unreachable = now + 256 * DAY;
    let (gone, counts) = swept(&files, unreachable, now);
    assert_eq!(counts.elapsed, 1);
    assert_eq!(counts.unreachable, 0);
    assert_eq!(gone, ["old"]);
    files.retain(|f| !gone.contains(&f.path));
    assert_eq!(swept(&files, unreachable, now).1.total(), 0);
}

#[test]
fn sweep_removes_files_beyond_the_forward_window() {
    let now = APRIL_20 + 110 * DAY;
    let unreachable = now + 2 * DAY;
    let mut files = vec![
        file("today", now, now + 6 * HOUR),
        file("straddling", now + 42 * HOUR, now + 54 * HOUR),
        file("at_edge", now + 2 * DAY, now + 54 * HOUR),
        file("runaway", now + 3969 * DAY, now + 3969 * DAY + 6 * HOUR),
    ];
    let (gone, counts) = swept(&files, unreachable, now);
    assert_eq!(counts.unreachable, 2);
    assert_eq!(counts.elapsed, 0);
    assert_eq!(gone, ["at_edge", "runaway"]);
    files.retain(|f| !gone.contains(&f.path));
    assert_eq!(highest_finish(&files), Some(now + 54 * HOUR));
}

#[test]
fn parses_well_formed_filenames() {
    let start = APRIL_20 - 7 * DAY;
    let finish = APRIL_20 - 6 * DAY;
    let name = window_name(start, finish);
    let files = scan_output_folder(DATE_FORMAT, &folder(&[&name]));
    assert_eq!(files.len(), 1);
    assert_eq!(files[0].start, start);
    assert_eq!(files[0].finish, finish);
    assert_eq!(highest_finish(&files), Some(finish));
}

#[test]
fn a_name_gives_the_instants_it_is_written_with() {
    let name = "20260413T000000.000000000+0000_20260413T020000.500000000+0130.json";
    let file = discover(DATE_FORMAT, "/playout/x".into(), name).unwrap();
    assert_eq!(file.path, "/playout/x");
    assert_eq!(file.start, APRIL_20 - 7 * DAY);
    assert_eq!(file.finish, APRIL_20 - 7 * DAY + 30 * MINUTE + 500_000_000);
}

#[test]
fn a_name_in_another_format_is_passed_over() {
    let name = window_name(APRIL_20, APRIL_20 + DAY);
    assert!(discover("[year]", "p".into(), &name).is_none());
    assert!(discover("[no such part", "p".into(), &name).is_none());
    assert!(discover(DATE_FORMAT, "p".into(), "20260413T000000.000000000+0000_later.json").is_none());
    assert!(claim("p".into(), Some(1), None).is_none());
    assert!(claim("p".into(), None, Some(1)).is_none());
    let file = claim("p".into(), Some(1), Some(2)).unwrap();
    assert_eq!((file.path.as_str(), file.start, file.finish), ("p", 1, 2));
}

#[test]
fn a_folder_is_read_in_the_order_its_files_start() {
    let late = window_name(APRIL_20 + DAY, APRIL_20 + 2 * DAY);
    let early = window_name(APRIL_20, APRIL_20 + DAY);
    let files = scan_output_folder(DATE_FORMAT, &folder(&[&late, "notes_on_air.json", &early]));
    let starts: Vec<i128> = files.iter().map(|f| f.start).collect();
    assert_eq!(starts, [APRIL_20, APRIL_20 + DAY]);
    assert_eq!(files[0].path, format!("/playout/{early}"));
}

#[test]
fn a_hole_that_ends_past_the_horizon_is_reported() {
    let files = [
        written(at(12, 0), at(12, 30), vec![(at(12, 0), at(12, 30))]),
        written(at(13, 0), at(13, 30), vec![(at(13, 0), at(13, 30))]),
    ];
    assert_eq!(gap_in(&files, at(12, 0), at(12, 45)), Some(at(12, 30)));
    assert_eq!(gap_in(&files[..1], at(12, 0), at(12, 45)), None);
}

#[test]
fn an_item_that_is_never_on_follows_nothing() {
    assert_eq!(first_coverage_gap(&vec![(0, 10), (20, 20)], 0, 30), None);
    assert_eq!(first_coverage_gap(&vec![(0, 10), (20, 21)], 0, 30), Some(10));
}

#[test]
fn unreachable_edge_sits_two_chunks_past_the_target() {
    // 2026-08-09 in chunks of six hours.
    let day = APRIL_20 + 111 * DAY;
    let starts: Vec<i128> = (0..5).map(|k| day + 6 * k * HOUR).collect();
    let target = day + 7 * HOUR + 30 * MINUTE;
    assert_eq!(unreachable_after(&starts, target), Some(day + 18 * HOUR));
}

#[test]
fn chunks_that_do_not_reach_the_edge_have_none() {
    assert_eq!(unreachable_after(&vec![0, 6, 12, 18], 6), Some(18));
    assert_eq!(unreachable_after(&vec![0, 6, 12, 18], 5), Some(12));
    assert_eq!(unreachable_after(&vec![0, 6, 12, 18], 12), None);
    assert_eq!(unreachable_after(&vec![0, 6, 12, 18], -1), None);
    assert_eq!(unreachable_after(&vec![0, 6], 0), None);
}

#[test]
fn a_stem_parts_at_its_first_underscore() {
    assert_eq!(split_start_finish("a_b_c"), Some(("a".into(), "b_c".into())));
    assert_eq!(split_start_finish("ab"), None);
}

#[test]
fn files_come_in_the_order_in_which_they_start() {
    let files = order_files(vec![file("c", 3, 4), file("a", 1, 9), file("b", 3, 5), file("d", 0, 1)]);
    let names: Vec<&str> = files.iter().map(|f| f.path.as_str()).collect();
    assert_eq!(names, ["d", "a", "c", "b"]);
}

#[test]
fn a_file_that_both_elapsed_and_is_beyond_reach_counts_as_elapsed() {
    let files = vec![file("odd", 10 * DAY, -30 * DAY)];
    assert_eq!(sweep_window(&files, 7, 0, 0), [("odd".to_string(), Fate::Elapsed)]);
}

#[test]
fn a_sweep_accounts_for_every_file_once() {
    let files = vec![
        file("old", -30 * DAY, -20 * DAY),
        file("both", 40 * DAY, -20 * DAY),
        file("kept", 0, DAY),
        file("far", 40 * DAY, 41 * DAY),
    ];
    let (gone, counts) = swept(&files, 30 * DAY, 0);
    assert_eq!(gone, ["old", "both", "far"]);
    assert_eq!(counts, SweepCounts { elapsed: 2, unreachable: 1 });
    assert_eq!(counts.total() + 1, files.len());
    assert_eq!(tally(&vec![]), SweepCounts::none());
    assert_eq!(SweepCounts::none().count(Fate::Keep), SweepCounts::none());
}

#[test]
fn overlapping_items_and_an_empty_horizon_have_no_gap() {
    assert_eq!(first_coverage_gap(&vec![(0, 50), (40, 100), (10, 20)], 0, 100), None);
    assert_eq!(first_coverage_gap(&vec![(5, 6)], 10, 10), None);
    assert_eq!(first_coverage_gap(&vec![(5, 6)], 0, 10), Some(0));
}
