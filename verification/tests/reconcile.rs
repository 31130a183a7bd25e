use etv_station::catalog::{Catalog, Entry, EntrySource, Source, Tags};
use etv_station::item::ProgramMetadata;
use etv_station::playout::{PlayoutItem, PlayoutSource};
use etv_station::reconcile::{
    reconcile_item, reconcile_one_file, write_card_title, ErrorCard, ItemOutcome, ReconcileCounts,
    GONE,
};

const HOUR: i128 = 3_600_000_000_000;
// 2026-08-16 00:00 UTC
const DAY: i128 = 1_786_838_400_000_000_000;

fn at(hour: i128) -> i128 {
    DAY + hour * HOUR
}

/// The instant every test treats as "now". Items before it have aired.
fn now() -> i128 {
    at(12)
}

fn source(path: &str, stale: bool) -> EntrySource {
    EntrySource {
        source: Source::LocalFs,
        source_id: path.into(),
        playback_path: path.into(),
        stale,
    }
}

fn catalog_at(entry_id: &str, path: &str) -> Catalog {
    let entry = Entry {
        entry_id: entry_id.into(),
        kind: "movie".into(),
        title: "Die Hard".into(),
        title_sort: None,
        show: None,
        show_id: None,
        season: None,
        episode: None,
        absolute_episode: None,
        edition: None,
        studio: None,
        year: None,
        release_date: None,
        duration_ms: None,
        content_rating: None,
        library: None,
        summary: None,
        artwork_cache_path: None,
        missing: false,
        external: vec![],
        tags: Tags {
            genres: vec![],
            labels: vec![],
            cast: vec![],
            directors: vec![],
            writers: vec![],
            producers: vec![],
            countries: vec![],
        },
        sources: vec![source(path, false)],
    };
    Catalog {
        entries: vec![entry],
        collections: vec![],
        episodes: vec![],
        queries: vec![],
        orders: vec![],
    }
}

fn item(id: &str, path: &str, start: i128, finish: i128) -> PlayoutItem {
    let mut program = ProgramMetadata::blank();
    program.title = Some("Die Hard".into());
    PlayoutItem {
        id: id.into(),
        start,
        finish,
        source: Some(PlayoutSource::Local {
            path: path.into(),
            in_point_ms: Some(0),
            out_point_ms: Some(7_200_000),
        }),
        program: Some(program),
        overlay: None,
        metadata: None,
    }
}

/// The card of a title, as it is drawn here.
fn drawn(title: String) -> ErrorCard {
    let params = format!("card={title}/{GONE}");
    ErrorCard { title, reason: GONE.into(), params }
}

/// One sweep over one file, named for the span its items cover. Every card it asks for is
/// drawn.
fn sweep(catalog: &Catalog, items: &mut Vec<PlayoutItem>) -> ReconcileCounts {
    let counts = ReconcileCounts::none();
    let finish = items.iter().map(|i| i.finish).max().unwrap();
    if finish <= now() {
        return counts;
    }
    let mut cards = vec![];
    loop {
        match reconcile_one_file(catalog, &cards, items, now()) {
            Ok(changed) => return counts.count_file(changed),
            Err(title) => cards.push(drawn(title)),
        }
    }
}

fn source_path(item: &PlayoutItem) -> Option<&str> {
    match &item.source {
        Some(PlayoutSource::Local { path, .. }) => Some(path),
        _ => None,
    }
}

fn is_card(item: &PlayoutItem) -> bool {
    matches!(item.source, Some(PlayoutSource::Lavfi { .. }))
}

#[test]
fn a_renamed_file_is_patched_in_place() {
    let catalog = catalog_at("imdb:tt1", "/media/Die Hard (1988) [EN] 2.0.mkv");
    let mut items = vec![item("imdb:tt1", "/media/Die Hard (1988).mkv", at(13), at(15))];
    let counts = sweep(&catalog, &mut items);
    assert_eq!(counts.files_examined, 1);
    assert_eq!(counts.files_rewritten, 1);
    assert_eq!(counts.paths_patched, 1);
    assert_eq!(counts.items_carded, 0);
    assert_eq!(source_path(&items[0]), Some("/media/Die Hard (1988) [EN] 2.0.mkv"));
    assert_eq!(items[0].start, at(13));
    assert_eq!(items[0].finish, at(15));
    assert_eq!(items[0].program.as_ref().unwrap().title.as_deref(), Some("Die Hard"));
    assert!(matches!(
        items[0].source,
        Some(PlayoutSource::Local { in_point_ms: Some(0), out_point_ms: Some(7_200_000), .. })
    ));
}

#[test]
fn a_missing_entry_becomes_an_error_card() {
    let mut catalog = catalog_at("imdb:tt1", "/media/Die Hard (1988).mkv");
    catalog.entries[0].missing = true;
    catalog.entries[0].sources[0].stale = true;
    let mut items = vec![item("imdb:tt1", "/media/Die Hard (1988).mkv", at(13), at(15))];
    let counts = sweep(&catalog, &mut items);
    assert_eq!(counts.items_carded, 1);
    assert_eq!(counts.paths_patched, 0);
    assert!(is_card(&items[0]), "a missing title must not stay scheduled");
    assert_eq!(items[0].start, at(13));
    assert_eq!(items[0].finish, at(15));
    assert_eq!(
        items[0].program.as_ref().unwrap().title.as_deref(),
        Some("Die Hard"),
        "the guide still lists what was meant to air",
    );
    let counts = sweep(&catalog, &mut items);
    assert_eq!(counts.files_rewritten, 0);
}

#[test]
fn a_file_that_has_fully_aired_is_left_alone() {
    let catalog = catalog_at("imdb:tt1", "/media/new.mkv");
    let mut items = vec![item("imdb:tt1", "/media/old.mkv", at(8), at(10))];
    let counts = sweep(&catalog, &mut items);
    assert_eq!(counts.files_examined, 0);
    assert_eq!(counts.files_rewritten, 0);
    assert_eq!(source_path(&items[0]), Some("/media/old.mkv"));
}

#[test]
fn an_already_aired_item_in_a_live_file_is_left_alone() {
    let catalog = catalog_at("imdb:tt1", "/media/new.mkv");
    let mut items = vec![
        item("imdb:tt1", "/media/old.mkv", at(8), at(10)),
        item("imdb:tt1", "/media/old.mkv", at(13), at(15)),
    ];
    let counts = sweep(&catalog, &mut items);
    assert_eq!(counts.paths_patched, 1);
    assert_eq!(source_path(&items[0]), Some("/media/old.mkv"));
    assert_eq!(source_path(&items[1]), Some("/media/new.mkv"));
}

#[test]
fn an_item_the_catalog_does_not_know_is_untouched() {
    let catalog = catalog_at("imdb:tt1", "/media/new.mkv");
    let mut items =
        vec![item("inline:bumper", "/media/bumpers/ident.mp4", at(13), at(13) + HOUR / 120)];
    let counts = sweep(&catalog, &mut items);
    assert_eq!(counts.files_examined, 1);
    assert_eq!(counts.files_rewritten, 0);
    assert_eq!(source_path(&items[0]), Some("/media/bumpers/ident.mp4"));
}

#[test]
fn a_stale_source_row_never_wins_over_a_live_one() {
    let mut catalog = catalog_at("imdb:tt1", "/media/a-old.mkv");
    catalog.entries[0].sources[0].stale = true;
    catalog.entries[0].sources.push(source("/media/b-new.mkv", false));
    let mut items = vec![item("imdb:tt1", "/media/a-old.mkv", at(13), at(15))];
    sweep(&catalog, &mut items);
    assert_eq!(source_path(&items[0]), Some("/media/b-new.mkv"));
}

#[test]
fn a_clean_sweep_rewrites_no_files() {
    let catalog = catalog_at("imdb:tt1", "/media/Die Hard (1988).mkv");
    let mut items = vec![item("imdb:tt1", "/media/Die Hard (1988).mkv", at(13), at(15))];
    let counts = sweep(&catalog, &mut items);
    assert_eq!(counts.files_examined, 1);
    assert_eq!(counts.files_rewritten, 0);
    assert!(!counts.changed_anything());
}

#[test]
fn a_card_names_the_item_where_the_guide_does_not() {
    let mut catalog = catalog_at("imdb:tt1", "/media/a.mkv");
    catalog.entries[0].missing = true;
    let mut one = item("imdb:tt1", "/media/a.mkv", at(13), at(15));
    assert_eq!(write_card_title(&one), "Die Hard");
    one.program = None;
    let cards = vec![drawn("Die Hard".into()), drawn("imdb:tt1".into())];
    assert_eq!(reconcile_item(&catalog, &cards, &mut one), ItemOutcome::Carded);
    match one.source {
        Some(PlayoutSource::Lavfi { params }) => {
            assert_eq!(params, "card=imdb:tt1/this title is no longer in the library");
        }
        other => panic!("{other:?}"),
    }
}

#[test]
fn a_card_that_was_not_drawn_is_asked_for_and_nothing_changes() {
    let mut catalog = catalog_at("imdb:tt1", "/media/new.mkv");
    catalog.entries[0].missing = true;
    let mut items = vec![item("imdb:tt1", "/media/old.mkv", at(13), at(15))];
    let other = vec![ErrorCard {
        title: "Die Hard".into(),
        reason: "another reason".into(),
        params: "no".into(),
    }];
    assert_eq!(reconcile_one_file(&catalog, &other, &mut items, now()), Err("Die Hard".into()));
    assert_eq!(source_path(&items[0]), Some("/media/old.mkv"));
    assert_eq!(reconcile_item(&catalog, &other, &mut items[0]), ItemOutcome::Undrawn);
    assert_eq!(source_path(&items[0]), Some("/media/old.mkv"));
}

#[test]
fn an_entry_without_a_source_keeps_its_path() {
    let mut catalog = catalog_at("imdb:tt1", "/media/a.mkv");
    catalog.entries[0].sources.clear();
    let mut one = item("imdb:tt1", "/media/b.mkv", at(13), at(15));
    assert_eq!(reconcile_item(&catalog, &vec![], &mut one), ItemOutcome::Unchanged);
    assert_eq!(source_path(&one), Some("/media/b.mkv"));
}
