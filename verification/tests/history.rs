use etv_station::history::{
    first_out_of_order, history_lines, migrated_key, sidecar_path, HistoryDb, PlayRecord,
};

const HOUR: i64 = 3_600_000_000_000;
// 2026-07-22 00:00 UTC
const DAY: i64 = 1_784_678_400_000_000_000;

fn at(hour: i64) -> i64 {
    DAY + hour * HOUR
}

fn ep(entry_id: &str, show: &str, hour: i64) -> PlayRecord {
    PlayRecord {
        entry_id: entry_id.into(),
        show_id: Some(show.into()),
        start: at(hour),
        played_at: at(0),
        error_card: false,
    }
}

fn movie(entry_id: &str, hour: i64) -> PlayRecord {
    PlayRecord {
        entry_id: entry_id.into(),
        show_id: None,
        start: at(hour),
        played_at: at(0),
        error_card: false,
    }
}

fn ch(name: &str) -> String {
    name.into()
}

fn get<'a>(table: &'a [(String, String)], key: &str) -> Option<&'a str> {
    table.iter().find(|(k, _)| k == key).map(|(_, v)| v.as_str())
}

fn sorted(mut table: Vec<(String, String)>) -> Vec<(String, String)> {
    table.sort();
    table
}

fn with(channel: &str, records: &Vec<PlayRecord>) -> HistoryDb {
    let mut db = HistoryDb::open_in_memory();
    db.record(&ch(channel), records);
    db
}

fn a_days_airings() -> Vec<PlayRecord> {
    vec![
        ep("got-e1", "show:got", 0),
        ep("inv-e1", "show:inv", 1),
        ep("got-e2", "show:got", 2),
        movie("mov-dune", 3),
        ep("inv-e2", "show:inv", 4),
        ep("got-e3", "show:got", 5),
    ]
}

fn shuffled(records: &[PlayRecord]) -> Vec<PlayRecord> {
    let order = [3usize, 0, 5, 2, 4, 1];
    order.iter().map(|&i| records[i].copy()).collect()
}

#[test]
fn series_key_falls_back_to_the_entry_for_a_movie() {
    assert_eq!(ep("got-e1", "show:got", 0).series_key(), "show:got");
    assert_eq!(movie("mov-dune", 0).series_key(), "mov-dune");
}

#[test]
fn cursor_projects_the_last_airing_of_each_series() {
    let db = with(
        "ch1",
        &vec![
            ep("got-e1", "show:got", 0),
            ep("got-e2", "show:got", 1),
            ep("inv-e1", "show:inv", 2),
            movie("mov-dune", 3),
        ],
    );
    let cursor = db.series_cursor("ch1");
    assert_eq!(get(&cursor, "show:got").unwrap(), "got-e2");
    assert_eq!(get(&cursor, "show:inv").unwrap(), "inv-e1");
    assert_eq!(get(&cursor, "mov-dune").unwrap(), "mov-dune");
    assert_eq!(cursor.len(), 3);
}

#[test]
fn an_empty_ledger_projects_an_empty_cursor() {
    assert!(HistoryDb::open_in_memory().series_cursor("ch1").is_empty());
}

#[test]
fn the_cursor_reads_the_same_whatever_order_the_records_were_inserted_in() {
    let in_order = with("ch1", &a_days_airings());
    let out_of_order = with("ch1", &shuffled(&a_days_airings()));
    assert_eq!(
        sorted(out_of_order.series_cursor("ch1")),
        sorted(in_order.series_cursor("ch1"))
    );
    assert_eq!(get(&in_order.series_cursor("ch1"), "show:got").unwrap(), "got-e3");
}

#[test]
fn the_seam_tail_reads_the_same_whatever_order_the_records_were_inserted_in() {
    let in_order = with("ch1", &a_days_airings());
    let out_of_order = with("ch1", &shuffled(&a_days_airings()));
    for n in 0..=7 {
        assert_eq!(out_of_order.tail("ch1", n), in_order.tail("ch1", n), "tail({n})");
    }
    assert_eq!(in_order.tail("ch1", 2), vec!["inv-e2", "got-e3"]);
}

#[test]
fn two_airings_at_one_instant_resolve_to_the_later_record() {
    let db = with("ch1", &vec![ep("got-e1", "show:got", 0), ep("got-e2", "show:got", 0)]);
    assert_eq!(get(&db.series_cursor("ch1"), "show:got").unwrap(), "got-e2");
    assert_eq!(db.tail("ch1", 1), vec!["got-e2"]);
}

#[test]
fn error_card_airings_count_for_the_cursor_but_not_the_tail() {
    let mut broken = ep("got-e2", "show:got", 1);
    broken.error_card = true;
    let db = with("ch1", &vec![ep("got-e1", "show:got", 0), broken]);
    assert_eq!(get(&db.series_cursor("ch1"), "show:got").unwrap(), "got-e2");
    assert_eq!(db.tail("ch1", 2), vec!["got-e1"]);
}

#[test]
fn truncation_drops_airings_at_or_after_the_instant() {
    let mut db = with(
        "ch1",
        &vec![
            ep("got-e1", "show:got", 0),
            ep("got-e2", "show:got", 6),
            ep("got-e3", "show:got", 12),
        ],
    );
    db.truncate_from("ch1", at(6));
    assert_eq!(db.count("ch1"), 1);
    assert_eq!(get(&db.series_cursor("ch1"), "show:got").unwrap(), "got-e1");
}

#[test]
fn truncation_is_scoped_to_its_own_channel() {
    let mut db = with("ch1", &vec![ep("got-e1", "show:got", 0)]);
    db.record(&ch("ch2"), &vec![ep("got-e1", "show:got", 0)]);
    db.truncate_from("ch1", at(0));
    assert_eq!(db.count("ch1"), 0);
    assert_eq!(db.count("ch2"), 1, "channel 2's row must survive");
}

#[test]
fn the_resume_cursor_is_scoped_to_its_own_channel() {
    let mut db = with("ch1", &vec![ep("got-e1", "show:got", 0)]);
    db.record(&ch("ch2"), &vec![ep("got-e5", "show:got", 5)]);
    assert_eq!(get(&db.series_cursor("ch1"), "show:got").unwrap(), "got-e1");
    assert_eq!(get(&db.series_cursor("ch2"), "show:got").unwrap(), "got-e5");
}

#[test]
fn cross_channel_cursor_finds_the_latest_airing_of_a_show_wherever_it_aired() {
    let mut db =
        with("ch1", &vec![ep("got-e1", "show:got", 0), ep("got-e2", "show:got", 1)]);
    db.record(&ch("ch2"), &vec![ep("got-e5", "show:got", 10)]);
    db.record(&ch("ch1"), &vec![movie("mov-dune", 20)]);
    let cursor = db.cross_channel_show_cursor();
    assert_eq!(get(&cursor, "show:got").unwrap(), "got-e5");
    assert!(get(&cursor, "mov-dune").is_none());
}

#[test]
fn cross_channel_cursor_breaks_a_start_tie_by_insertion_order() {
    let mut db = with("ch1", &vec![ep("got-e1", "show:got", 0)]);
    db.record(&ch("ch2"), &vec![ep("got-e2", "show:got", 0)]);
    assert_eq!(get(&db.cross_channel_show_cursor(), "show:got").unwrap(), "got-e2");
}

#[test]
fn migrating_an_absent_sidecar_inserts_nothing_and_still_marks_done() {
    let mut db = HistoryDb::open_in_memory();
    let stats = db.migrate_channel(&ch("ch1"), &vec![]);
    assert!(!stats.already_done);
    assert_eq!(stats.migrated, 0);
    assert_eq!(stats.skipped, 0);
    assert_eq!(db.count("ch1"), 0);
    let second = db.migrate_channel(&ch("ch1"), &vec![]);
    assert!(second.already_done);
}

fn lines_of(records: Vec<PlayRecord>) -> Vec<Option<PlayRecord>> {
    records.into_iter().map(Some).collect()
}

#[test]
fn migrating_a_jsonl_sidecar_inserts_its_rows_exactly_once() {
    let mut db = HistoryDb::open_in_memory();
    let stats = db.migrate_channel(&ch("ch1"), &lines_of(a_days_airings()));
    assert!(!stats.already_done);
    assert_eq!(stats.migrated, 6);
    assert_eq!(stats.skipped, 0);
    assert_eq!(db.count("ch1"), 6);
    assert_eq!(get(&db.series_cursor("ch1"), "show:got").unwrap(), "got-e3");
    let second = db.migrate_channel(&ch("ch1"), &lines_of(a_days_airings()));
    assert!(second.already_done);
    assert_eq!(db.count("ch1"), 6, "rows must not be doubled");
}

#[test]
fn migration_is_scoped_per_channel() {
    let mut db = HistoryDb::open_in_memory();
    db.migrate_channel(&ch("ch1"), &lines_of(vec![ep("got-e1", "show:got", 0)]));
    db.migrate_channel(&ch("ch2"), &lines_of(vec![ep("got-e9", "show:got", 9)]));
    assert_eq!(db.count("ch1"), 1);
    assert_eq!(db.count("ch2"), 1);
    assert_eq!(get(&db.series_cursor("ch1"), "show:got").unwrap(), "got-e1");
    assert_eq!(get(&db.series_cursor("ch2"), "show:got").unwrap(), "got-e9");
}

#[test]
fn a_torn_line_is_skipped_rather_than_failing_migration() {
    let mut db = HistoryDb::open_in_memory();
    let stats = db.migrate_channel(&ch("ch1"), &vec![Some(ep("got-e1", "show:got", 0)), None]);
    assert_eq!(stats.migrated, 1);
    assert_eq!(stats.skipped, 1);
}

#[test]
fn out_of_order_detection_reports_the_first_offending_index() {
    assert_eq!(first_out_of_order(&a_days_airings()), None);
    assert_eq!(first_out_of_order(&shuffled(&a_days_airings())), Some(1));
    assert_eq!(first_out_of_order(&vec![]), None);
}

#[test]
fn a_repair_inserts_only_what_is_missing() {
    let mut db = with("ch1", &vec![ep("got-e1", "show:got", 0)]);
    let seen = vec![
        ep("got-e1", "show:got", 0),
        ep("got-e2", "show:got", 1),
        ep("got-e2", "show:got", 1),
    ];
    assert_eq!(db.record_missing(&ch("ch1"), &seen), 1);
    assert_eq!(db.record_missing(&ch("ch1"), &seen), 0);
    assert_eq!(db.count("ch1"), 2);
    assert!(db.has_airing("ch1", "got-e2", at(1)));
    assert!(!db.has_airing("ch2", "got-e2", at(1)));
    assert_eq!(db.airing_keys("ch1"), [("got-e1".into(), at(0)), ("got-e2".into(), at(1))]);
}

#[test]
fn a_repair_inserts_what_the_channel_lacks_and_touches_no_other() {
    let mut db = HistoryDb::open_in_memory();
    db.record(&ch("ch1"), &vec![movie("a", 0), movie("b", 1)]);
    db.record(&ch("ch2"), &vec![movie("c", 2)]);
    let given = vec![movie("b", 1), movie("c", 2), movie("b", 3), movie("c", 2), movie("a", 0)];
    assert_eq!(db.record_missing(&ch("ch1"), &given), 2);
    assert_eq!(db.count("ch1"), 4);
    assert_eq!(db.count("ch2"), 1);
    assert!(db.has_airing("ch1", "c", at(2)) && db.has_airing("ch1", "b", at(3)));
    assert_eq!(db.record_missing(&ch("ch1"), &given), 0);
    assert_eq!(db.record_missing(&ch("ch3"), &vec![]), 0);
}

#[test]
fn an_old_ledger_is_taken_apart_into_its_filled_lines() {
    assert_eq!(history_lines("{a}\n\n  \n{b}"), ["{a}", "{b}"]);
    assert!(history_lines("").is_empty());
    assert_eq!(sidecar_path("/out/ch1"), "/out/ch1/.history");
    assert_eq!(migrated_key("ch1"), "migrated:ch1");
}
