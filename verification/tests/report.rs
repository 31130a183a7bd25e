use etv_station::report::{
    compare_passes, find_channel, name_of_channel, report_lines, verdict, Mismatch,
    ReconcileReport,
};

fn names(list: &[&str]) -> Vec<String> {
    list.iter().map(|s| s.to_string()).collect()
}

#[test]
fn a_channel_is_known_by_its_folder_or_its_file() {
    assert_eq!(name_of_channel("/etc/channels/036-the-academy/channel.yaml"), "036-the-academy");
    assert_eq!(name_of_channel("/etc/channels/movies.yaml"), "movies");
    assert_eq!(name_of_channel("/"), "");
}

#[test]
fn a_channel_is_found_or_refused_with_the_names_that_are() {
    let paths = names(&["/c/zeta.yaml", "/c/alpha/channel.yaml", "/d/zeta.yaml"]);
    assert_eq!(find_channel(&paths, "zeta"), Ok(2));
    assert_eq!(find_channel(&paths, "alpha"), Ok(1));
    assert_eq!(
        find_channel(&paths, "beta").unwrap_err(),
        "no channel named \"beta\". Known: alpha, zeta, zeta"
    );
}

#[test]
fn two_passes_that_agree_are_identical() {
    let pass = names(&["a", "b"]);
    assert!(compare_passes(&pass, &pass).is_none());
    assert_eq!(
        verdict("movies", 2, 2, &None),
        "check-determinism: movies — identical (2 items)"
    );
}

#[test]
fn two_passes_part_at_the_first_difference() {
    let a = names(&["a", "b", "c"]);
    let b = names(&["a", "x", "c"]);
    let d = compare_passes(&a, &b);
    assert_eq!(
        verdict("movies", 3, 3, &d),
        "check-determinism: movies — DIFFERS at position 1: pass A = b, pass B = x (lengths 3 vs 3)"
    );
    let d = compare_passes(&names(&["a"]), &names(&["a", "b"]));
    assert_eq!(
        verdict("movies", 1, 2, &d),
        "check-determinism: movies — DIFFERS at position 1: pass A = <none — pass A ended>, \
         pass B = b (lengths 1 vs 2)"
    );
}

#[test]
fn a_report_tells_every_mismatch_and_a_sample_of_the_rest() {
    let row = |k: &str| (k.to_string(), format!("Title {k}"));
    let report = ReconcileReport {
        compared: 3,
        agree: 2,
        mismatches: vec![Mismatch {
            rating_key: "7".into(),
            title: "Heat".into(),
            entry_id: "imdb:tt1".into(),
            item_id: "tmdb:9".into(),
            reason: "guid priority".into(),
        }],
        only_in_etv: vec![row("1"), row("2"), row("3")],
        only_in_plexdb: vec![],
    };
    assert_eq!(report.mismatched(), 1);
    assert_eq!(
        report_lines(&report, 2),
        [
            "compared 3 title(s) present in both stores: 2 agree, 1 differ",
            "  rating_key=7 title=\"Heat\" entry_id=imdb:tt1 item_id=tmdb:9",
            "    reason: guid priority",
            "3 title(s) in etv-station only (plex-db-ex never ingested this rating key from Plex)",
            "  rating_key=1 title=\"Title 1\"",
            "  rating_key=2 title=\"Title 2\"",
            "  … and 1 more",
            "0 title(s) in plex-db-ex only (this repository's walk never saw this rating key)",
        ]
    );
}
