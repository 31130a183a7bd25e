use std::cell::RefCell;

use etv_station::catalog::{
    Catalog, Collection, Entry, EntrySource, Ordered, Reply, Source, Tags,
};
use etv_station::channel;
use etv_station::config::{
    Advance, Constraints, Duplicates, Filter, GroupBy, Mode, NoRepeatWithin, OnShort, Order,
    PatternStep, Pool, Rotate, Select, ShowGroup, Take, TakeFrom,
};
use etv_station::fault::ResolveError;
use etv_station::history::{HistoryDb, PlayRecord};
use etv_station::identity::canonical_path;
use etv_station::item::{ItemEntry, ProgramMetadata, ResolvedItem, SourceConfig};
use etv_station::resolve::{
    validate_groups_against_catalog, BlockEntry, BlockInclude, ChannelConfig, Context, Fallback,
    QueryEntry,
};
use etv_station::resume::{GenerationState, ResumeMap};
use etv_station::roll::{splitmix64, CHANCE_WHOLE};

// ---- a stand-in for the catalog's own query and ordering work ----

fn entry(id: &str, kind: &str, title: String) -> Entry {
    Entry {
        entry_id: id.into(),
        kind: kind.into(),
        title,
        title_sort: None,
        show: None,
        show_id: None,
        season: None,
        episode: None,
        absolute_episode: None,
        edition: None,
        studio: None,
        year: None,
        release_date: None,
        duration_ms: None,
        content_rating: None,
        library: None,
        summary: None,
        artwork_cache_path: None,
        missing: false,
        external: vec![],
        tags: Tags {
            genres: vec![],
            labels: vec![],
            cast: vec![],
            directors: vec![],
            writers: vec![],
            producers: vec![],
            countries: vec![],
        },
        sources: vec![EntrySource {
            source: Source::LocalFs,
            source_id: format!("fs-{id}"),
            playback_path: format!("/media/{id}.mkv"),
            stale: false,
        }],
    }
}

fn text_field<'a>(e: &'a Entry, name: &str) -> &'a str {
    match name {
        "type" => &e.kind,
        "title" => &e.title,
        "show" => e.show.as_deref().unwrap_or(""),
        "release_date" => e.release_date.as_deref().unwrap_or(""),
        other => panic!("no such field: {other}"),
    }
}

fn unquoted(s: &str) -> &str {
    s.trim().trim_matches('"')
}

fn atom_holds(e: &Entry, atom: &str) -> bool {
    let atom = atom.trim();
    if let Some((field, value)) = atom.split_once("==") {
        text_field(e, field.trim().strip_prefix("item.").unwrap()) == unquoted(value)
    } else if let Some((field, bound)) = atom.split_once(">=") {
        assert_eq!(field.trim(), "item.year");
        e.year.is_some_and(|year| year >= bound.trim().parse::<i64>().unwrap())
    } else {
        let (field, rest) = atom.split_once(".contains(").unwrap();
        let value = unquoted(rest.strip_suffix(')').unwrap());
        text_field(e, field.strip_prefix("item.").unwrap()).contains(value)
    }
}

fn query_holds(e: &Entry, query: &str) -> bool {
    query.split("||").any(|either| either.split("&&").all(|atom| atom_holds(e, atom)))
}

fn sort_key(e: &Entry, name: &str) -> (i64, String) {
    match name {
        "season" => (e.season.unwrap_or(0), String::new()),
        "episode" => (e.episode.unwrap_or(0), String::new()),
        text => (0, text_field(e, text).to_string()),
    }
}

fn answer_query(catalog: &mut Catalog, query: &str) {
    let mut found: Vec<String> = catalog
        .entries
        .iter()
        .filter(|e| query_holds(e, query))
        .map(|e| e.entry_id.clone())
        .collect();
    found.sort();
    catalog.queries.push((query.to_string(), Reply::Items(found)));
}

fn answer_order(catalog: &mut Catalog, ids: &[String], order: &Order, seed: u64) {
    let mut out = ids.to_vec();
    let asked = match order {
        Order::Manual => Order::Manual,
        Order::Random => {
            let mut state = seed;
            for i in (1..out.len()).rev() {
                let j = splitmix64(&mut state) as usize % (i + 1);
                out.swap(i, j);
            }
            Order::Random
        }
        Order::Sort(fields) => {
            out.retain(|id| catalog.entries.iter().any(|e| e.entry_id == *id));
            for field in fields.split(',').rev() {
                let (name, direction) = field.split_once(':').unwrap();
                let key = |id: &String| {
                    let e = catalog.entries.iter().find(|e| e.entry_id == *id).unwrap();
                    sort_key(e, name)
                };
                if direction == "desc" {
                    out.sort_by(|a, b| key(b).cmp(&key(a)));
                } else {
                    out.sort_by(|a, b| key(a).cmp(&key(b)));
                }
            }
            Order::Sort(fields.clone())
        }
    };
    catalog.orders.push(Ordered {
        ids: ids.to_vec(),
        order: asked,
        seed,
        reply: Reply::Items(out),
    });
}

/// Answers what the library asked for; false where it asked for nothing.
fn answer(catalog: &mut Catalog, error: &ResolveError) -> bool {
    match error {
        ResolveError::UnansweredQuery { query } => {
            let query = query.clone();
            answer_query(catalog, &query);
            true
        }
        ResolveError::UnansweredOrder { ids, order, seed } => {
            answer_order(catalog, ids, order, *seed);
            true
        }
        _ => false,
    }
}

fn sort_by(fields: &str) -> Order {
    Order::Sort(fields.into())
}

fn catalog_of(entries: Vec<Entry>) -> RefCell<Catalog> {
    let mut episodes: Vec<(String, Vec<String>)> = Vec::new();
    for e in &entries {
        if let Some(show) = &e.show {
            match episodes.iter_mut().find(|(name, _)| name == show) {
                Some((_, ids)) => ids.push(e.entry_id.clone()),
                None => episodes.push((show.clone(), vec![e.entry_id.clone()])),
            }
        }
    }
    RefCell::new(Catalog {
        entries,
        collections: vec![],
        episodes,
        queries: vec![],
        orders: vec![],
    })
}

fn secs(n: u64) -> u64 {
    n * 1_000_000_000
}

fn item_entry_secs(id: &str, seconds: u64) -> ItemEntry {
    ItemEntry {
        source: SourceConfig::Lavfi { params: id.into() },
        in_point: None,
        out_point: Some(secs(seconds)),
        program: None,
        guide: None,
    }
}

fn item_entry(id: &str) -> ItemEntry {
    item_entry_secs(id, 30)
}

fn local_entry(path: &str) -> ItemEntry {
    ItemEntry {
        source: SourceConfig::Local { path: path.into() },
        in_point: None,
        out_point: Some(secs(30)),
        program: None,
        guide: None,
    }
}

fn include_with(entries: Vec<BlockEntry>) -> BlockInclude {
    BlockInclude {
        program: None,
        guide: None,
        duplicates: None,
        constraints: None,
        entries,
        fallback: None,
        pools: Vec::new(),
        pattern: Vec::new(),
        cycles: None,
        sequencer: None,
        mode: Mode::All,
        order: Some(Order::Manual),
        filter: None,
    }
}

fn channel(blocks: Vec<BlockInclude>) -> ChannelConfig {
    ChannelConfig {
        seed: None,
        nominal_item_secs: None,
        guide: None,
        groups: Vec::new(),
        blocks,
    }
}

fn constrained(mut inc: BlockInclude, n: usize) -> BlockInclude {
    inc.constraints = Some(Constraints {
        no_repeat_within: Some(NoRepeatWithin::Positions(n)),
        separate_by: None,
        separate_min_gap: None,
    });
    inc
}

fn constrained_within(mut inc: BlockInclude, within: u64) -> BlockInclude {
    inc.constraints = Some(Constraints {
        no_repeat_within: Some(NoRepeatWithin::Duration(within)),
        separate_by: None,
        separate_min_gap: None,
    });
    inc
}

fn aired(tail: &[&str]) -> GenerationState {
    let mut state = GenerationState::empty();
    state.tail = tail.iter().map(|s| s.to_string()).collect();
    state
}

/// When the generations of these tests begin airing.
const T0: i64 = 1_700_000_000;

fn resolve_channel_with_resume(
    config: &ChannelConfig,
    roots: &[String],
    index: Option<&Vec<(String, String)>>,
    catalog: Option<&RefCell<Catalog>>,
    state: &GenerationState,
    fill: Option<u64>,
) -> Result<(Vec<ResolvedItem>, ResumeMap), String> {
    resolve_from(T0, config, roots, index, catalog, state, fill)
}

fn resolve_from(
    from: i64,
    config: &ChannelConfig,
    roots: &[String],
    index: Option<&Vec<(String, String)>>,
    catalog: Option<&RefCell<Catalog>>,
    state: &GenerationState,
    fill: Option<u64>,
) -> Result<(Vec<ResolvedItem>, ResumeMap), String> {
    let roots = roots.to_vec();
    loop {
        let held = catalog.map(|c| c.borrow());
        let out = channel::resolve_channel_with_resume(
            config,
            &Context {
                catalog: held.as_deref(),
                replies: &vec![],
                state,
                seed: 0,
                fill,
                from,
                identity_roots: &roots,
                path_index: index,
                base_dir: "/etc/channels",
            },
        );
        drop(held);
        match out {
            Ok(made) => return Ok(made),
            Err(error) => {
                let answered = match catalog {
                    Some(c) => answer(&mut c.borrow_mut(), &error.error),
                    None => false,
                };
                if !answered {
                    return Err(error.message());
                }
            }
        }
    }
}

fn resolve_channel(
    config: &ChannelConfig,
    roots: &[String],
    index: Option<&Vec<(String, String)>>,
    catalog: Option<&RefCell<Catalog>>,
) -> Result<Vec<ResolvedItem>, String> {
    let roots = roots.to_vec();
    loop {
        let held = catalog.map(|c| c.borrow());
        let out = channel::resolve_channel(
            config,
            held.as_deref(),
            &vec![],
            &roots,
            index,
            "/etc/channels",
            0,
            T0,
        );
        drop(held);
        match out {
            Ok(made) => return Ok(made),
            Err(error) => {
                let answered = match catalog {
                    Some(c) => answer(&mut c.borrow_mut(), &error.error),
                    None => false,
                };
                if !answered {
                    return Err(error.message());
                }
            }
        }
    }
}

fn resolved_ids(blocks: Vec<BlockInclude>) -> Vec<String> {
    resolve_channel(&channel(blocks), &[], None, None)
        .unwrap()
        .iter()
        .map(|i| i.id.clone())
        .collect()
}

fn seeded_catalog() -> RefCell<Catalog> {
    catalog_of(
        [
            ("imdb:tt0120737", "The Fellowship of the Ring", 2001),
            ("imdb:tt0167261", "The Two Towers", 2002),
            ("imdb:tt0167260", "The Return of the King", 2003),
        ]
        .iter()
        .map(|(id, title, year)| {
            let mut e = entry(id, "movie", title.to_string());
            e.year = Some(*year);
            e.release_date = Some(format!("{year}-12-15"));
            e.sources[0].playback_path = format!("/media/lotr/{id}.mkv");
            e
        })
        .collect(),
    )
}

fn query_block(query: &str, order: Order) -> BlockInclude {
    let mut inc =
        include_with(vec![BlockEntry::Query(QueryEntry { query: query.into(), order: None })]);
    inc.order = Some(order);
    inc
}

fn empty_query(order: Option<Order>) -> BlockEntry {
    BlockEntry::Query(QueryEntry { query: "item.title == \"Nonesuch\"".into(), order })
}

/// Three episodes whose identities, numbers and places in the catalog all disagree.
fn out_of_order_episodes_catalog() -> RefCell<Catalog> {
    catalog_of(
        [("id-c", 1, 2), ("id-a", 1, 1), ("id-b", 2, 1)]
            .iter()
            .map(|(id, season, number)| {
                let mut e = entry(id, "episode", id.to_string());
                e.season = Some(*season);
                e.episode = Some(*number);
                e
            })
            .collect(),
    )
}

fn collection(id: &str, name: &str, members: &[&str]) -> Collection {
    Collection {
        collection_id: id.into(),
        name: name.into(),
        members: members.iter().map(|m| m.to_string()).collect(),
    }
}

/// A collection whose order is neither that of release nor that of the identities.
fn catalog_with_marathon() -> RefCell<Catalog> {
    let c = seeded_catalog();
    c.borrow_mut().collections.push(collection(
        "plex:coll:1",
        "Halloween Marathon",
        &["imdb:tt0167260", "imdb:tt0120737", "imdb:tt0167261"],
    ));
    c
}

fn collection_block(name: &str) -> BlockInclude {
    include_with(vec![BlockEntry::Collection(name.into())])
}

/// Two movies, a show of four episodes and a show of two.
fn interleave_catalog() -> RefCell<Catalog> {
    let mut entries = Vec::new();
    let mut put = |id: &str, kind: &str, show: Option<(&str, i64)>| {
        let mut e = entry(id, kind, format!("Title {id}"));
        if let Some((show_id, number)) = show {
            e.show_id = Some(show_id.into());
            e.show = Some(show_id.trim_start_matches("show:").to_string());
            e.season = Some(1);
            e.episode = Some(number);
        }
        entries.push(e);
    };
    put("mov-1", "movie", None);
    put("mov-2", "movie", None);
    for n in 1..=4 {
        put(&format!("got-e{n}"), "episode", Some(("show:got", n)));
    }
    for n in 1..=2 {
        put(&format!("inv-e{n}"), "episode", Some(("show:inv", n)));
    }
    catalog_of(entries)
}

fn pool_of(name: &str, expr: Option<&str>, order: Option<Order>, advance: Advance) -> Pool {
    Pool {
        name: name.into(),
        expr: expr.map(|e| e.into()),
        plugin: None,
        sources: None,
        groups: Vec::new(),
        order,
        bucket_order: None,
        group_by: GroupBy::Show,
        select: Select::RoundRobin,
        rotate: Rotate::Visit,
        advance,
        on_short: OnShort::Next,
        constraints: None,
        config: None,
        capabilities: Vec::new(),
        datastores: Vec::new(),
        guide: None,
    }
}

fn step(pool: &str, take: Take) -> PatternStep {
    PatternStep { pool: pool.into(), take, from: TakeFrom::Start, chance: CHANCE_WHOLE }
}

fn interleave_block(advance: Advance) -> BlockInclude {
    let mut inc = include_with(vec![]);
    inc.pools = vec![
        pool_of("movies", Some("item.type == \"movie\""), Some(sort_by("title:asc")), advance),
        pool_of(
            "shows",
            Some("item.type == \"episode\""),
            Some(sort_by("season:asc,episode:asc")),
            advance,
        ),
    ];
    inc.pattern = vec![step("movies", Take::Count(1)), step("shows", Take::Count(2))];
    inc.cycles = Some(2);
    inc
}

const CHANNEL: &str = "test";

fn record_of(entry_id: &str, show_id: Option<String>, start: i64) -> PlayRecord {
    PlayRecord { entry_id: entry_id.into(), show_id, start, played_at: 0, error_card: false }
}

/// The state a following window starts from: the rotation of this one, and what the ledger
/// says after its airings are recorded.
fn advance_state(
    catalog: &RefCell<Catalog>,
    prev: &GenerationState,
    resume: ResumeMap,
    items: &[ResolvedItem],
) -> GenerationState {
    let mut db = HistoryDb::open_in_memory();
    let seed: Vec<PlayRecord> =
        prev.cursor.iter().map(|(key, id)| record_of(id, Some(key.clone()), 0)).collect();
    db.record(&CHANNEL.to_string(), &seed);
    let airings: Vec<PlayRecord> = items
        .iter()
        .map(|i| record_of(&i.id, catalog.borrow().show_id_for(&i.id), 0))
        .collect();
    db.record(&CHANNEL.to_string(), &airings);
    GenerationState { resume, cursor: db.series_cursor(CHANNEL), tail: db.tail(CHANNEL, 50) }
}

fn get<'a>(table: &'a [(String, String)], key: &str) -> &'a str {
    table.iter().find(|(k, _)| k == key).map(|(_, v)| v.as_str()).unwrap()
}

/// One generation of a list of 30 s items from `at` on.
fn windowed_entries(entries: usize, at: usize, fill: Option<u64>) -> (Vec<String>, usize) {
    let inc = include_with(
        (0..entries).map(|i| BlockEntry::Item(item_entry(&i.to_string()))).collect(),
    );
    let mut state = GenerationState::empty();
    state.resume.position = at;
    let (items, next) =
        resolve_channel_with_resume(&channel(vec![inc]), &[], None, None, &state, fill).unwrap();
    (items.into_iter().map(|i| i.id).collect(), next.position)
}

fn mixed_channel() -> ChannelConfig {
    let pattern_inc = interleave_block(Advance::Restart);
    let entries_inc =
        include_with((0..10).map(|i| BlockEntry::Item(item_entry(&i.to_string()))).collect());
    channel(vec![pattern_inc, entries_inc])
}

const MIXED_PATTERN_IDS: [&str; 6] = ["mov-1", "got-e1", "got-e2", "mov-2", "inv-e1", "inv-e2"];

fn only_title(title: &str) -> ProgramMetadata {
    let mut p = ProgramMetadata::blank();
    p.title = Some(title.into());
    p
}

#[test]
fn flattens_items_in_order() {
    let inc = include_with(vec![
        BlockEntry::Item(item_entry("a")),
        BlockEntry::Item(item_entry("b")),
    ]);
    let items = resolve_channel(&channel(vec![inc]), &[], None, None).unwrap();
    let ids: Vec<&str> = items.iter().map(|i| i.id.as_str()).collect();
    assert_eq!(ids, vec!["lavfi:a", "lavfi:b"]);
}

#[test]
fn concatenates_blocks() {
    let a = include_with(vec![BlockEntry::Item(item_entry("a"))]);
    let b = include_with(vec![BlockEntry::Item(item_entry("b"))]);
    let items = resolve_channel(&channel(vec![a, b]), &[], None, None).unwrap();
    let ids: Vec<&str> = items.iter().map(|i| i.id.as_str()).collect();
    assert_eq!(ids, vec!["lavfi:a", "lavfi:b"]);
}

#[test]
fn no_repeat_within_separates_back_to_back_repeats() {
    let mut inc = include_with(vec![
        BlockEntry::Item(item_entry("a")),
        BlockEntry::Item(item_entry("a")),
        BlockEntry::Item(item_entry("b")),
        BlockEntry::Item(item_entry("c")),
    ]);
    inc.duplicates = Some(Duplicates::Keep);
    let ids = resolved_ids(vec![constrained(inc, 1)]);
    assert_eq!(ids.len(), 4);
    for i in 0..ids.len() {
        assert_ne!(ids[i], ids[(i + 1) % ids.len()], "{ids:?}");
    }
}

#[test]
fn no_repeat_within_holds_across_a_block_join() {
    // `collapse` is block-scoped, so the same title in two blocks survives
    // into the concatenated list — and the channel-level pass is what keeps
    // the join from playing it twice in a row.
    let a = include_with(vec![
        BlockEntry::Item(item_entry("x")),
        BlockEntry::Item(item_entry("a")),
    ]);
    let b = include_with(vec![
        BlockEntry::Item(item_entry("a")),
        BlockEntry::Item(item_entry("y")),
    ]);
    let ids = resolved_ids(vec![constrained(a, 1), constrained(b, 1)]);
    assert_eq!(ids.len(), 4);
    for i in 0..ids.len() {
        assert_ne!(ids[i], ids[(i + 1) % ids.len()], "{ids:?}");
    }
}

#[test]
fn no_repeat_within_holds_across_the_generation_seam() {
    let mut inc = include_with(vec![
        BlockEntry::Item(item_entry("a")),
        BlockEntry::Item(item_entry("b")),
        BlockEntry::Item(item_entry("c")),
    ]);
    inc.duplicates = Some(Duplicates::Keep);
    let state = aired(&["lavfi:a"]);
    let (items, _) = resolve_channel_with_resume(
        &channel(vec![constrained(inc, 1)]),
        &[],
        None,
        None,
        &state,
        None,
    )
    .unwrap();
    let ids: Vec<&str> = items.iter().map(|i| i.id.as_str()).collect();
    assert_ne!(
        ids[0], "lavfi:a",
        "repeated the previously-aired item across the seam: {ids:?}"
    );
}

#[test]
fn no_repeat_within_temporal_separates_short_items() {
    let mut inc = include_with(vec![
        BlockEntry::Item(item_entry_secs("a", 30)),
        BlockEntry::Item(item_entry_secs("a", 30)),
        BlockEntry::Item(item_entry_secs("b", 30)),
        BlockEntry::Item(item_entry_secs("c", 30)),
    ]);
    inc.duplicates = Some(Duplicates::Keep);
    let ids = resolved_ids(vec![constrained_within(inc, secs(40))]);
    assert_eq!(ids.len(), 4);
    for i in 1..ids.len() {
        assert_ne!(ids[i - 1], ids[i], "{ids:?}");
    }
}

#[test]
fn no_repeat_within_temporal_allows_adjacency_when_items_are_long_enough() {
    let mut inc = include_with(vec![
        BlockEntry::Item(item_entry_secs("a", 600)),
        BlockEntry::Item(item_entry_secs("a", 600)),
        BlockEntry::Item(item_entry_secs("b", 600)),
    ]);
    inc.duplicates = Some(Duplicates::Keep);
    let ids = resolved_ids(vec![constrained_within(inc, secs(300))]);
    assert_eq!(
        ids,
        vec!["lavfi:a", "lavfi:a", "lavfi:b"],
        "each item alone already covers the 300s window; a legal list was reordered"
    );
}

#[test]
fn no_repeat_within_temporal_holds_across_the_generation_seam() {
    let inc = include_with(vec![
        BlockEntry::Item(item_entry_secs("a", 600)),
        BlockEntry::Item(item_entry_secs("b", 600)),
    ]);
    let state = aired(&["lavfi:a"]);
    let (items, _) = resolve_channel_with_resume(
        &channel(vec![constrained_within(inc, secs(7200))]),
        &[],
        None,
        None,
        &state,
        None,
    )
    .unwrap();
    let ids: Vec<&str> = items.iter().map(|i| i.id.as_str()).collect();
    assert_ne!(
        ids[0], "lavfi:a",
        "repeated the previously-aired item within the temporal window: {ids:?}"
    );
}

#[test]
fn the_lists_own_ends_are_left_alone() {
    let mut inc = include_with(vec![
        BlockEntry::Item(item_entry("a")),
        BlockEntry::Item(item_entry("b")),
        BlockEntry::Item(item_entry("c")),
        BlockEntry::Item(item_entry("a")),
    ]);
    inc.duplicates = Some(Duplicates::Keep);
    let ids = resolved_ids(vec![constrained(inc, 1)]);
    assert_eq!(
        ids,
        vec!["lavfi:a", "lavfi:b", "lavfi:c", "lavfi:a"],
        "a legal list was reordered"
    );
}

#[test]
fn unsatisfiable_constraint_completes_rather_than_hanging() {
    // One title, "no two in a row": impossible. Generation must finish with
    // every item intact and accept the violation.
    let mut inc = include_with(vec![
        BlockEntry::Item(item_entry("a")),
        BlockEntry::Item(item_entry("a")),
        BlockEntry::Item(item_entry("a")),
    ]);
    inc.duplicates = Some(Duplicates::Keep);
    let ids = resolved_ids(vec![constrained(inc, 1)]);
    assert_eq!(ids, vec!["lavfi:a"; 3]);
}

#[test]
fn unconstrained_channel_keeps_its_resolved_order() {
    let mut inc = include_with(vec![
        BlockEntry::Item(item_entry("a")),
        BlockEntry::Item(item_entry("a")),
        BlockEntry::Item(item_entry("b")),
    ]);
    inc.duplicates = Some(Duplicates::Keep);
    assert_eq!(
        resolved_ids(vec![inc]),
        vec!["lavfi:a", "lavfi:a", "lavfi:b"]
    );
}

#[test]
fn collapse_dedups_by_id() {
    let inc = include_with(vec![
        BlockEntry::Item(item_entry("a")),
        BlockEntry::Item(item_entry("a")),
        BlockEntry::Item(item_entry("b")),
    ]);
    let items = resolve_channel(&channel(vec![inc]), &[], None, None).unwrap();
    let ids: Vec<&str> = items.iter().map(|i| i.id.as_str()).collect();
    assert_eq!(ids, vec!["lavfi:a", "lavfi:b"]);
}

#[test]
fn manual_items_with_same_path_collapse_by_derived_id() {
    // No authored id: two entries pointing at the same file derive the same
    // `fs:` identity and collapse under the default `collapse` policy; a
    // different file keeps its own identity.
    let inc = include_with(vec![
        BlockEntry::Item(local_entry("/media/friends/s01e01.mkv")),
        BlockEntry::Item(local_entry("/media/friends/s01e01.mkv")),
        BlockEntry::Item(local_entry("/media/friends/s01e02.mkv")),
    ]);
    let items = resolve_channel(&channel(vec![inc]), &[], None, None).unwrap();
    assert_eq!(items.len(), 2);
    assert!(items.iter().all(|i| i.id.starts_with("fs:")));
    assert_ne!(items[0].id, items[1].id);
}

#[test]
fn identity_roots_canonicalise_local_identity_across_mounts() {
    // The same file reached under two configured mount roots derives one
    // identity, so the cross-mount duplicate collapses.
    let roots = vec!["/mnt/media".to_string(), "/Volumes/media".to_string()];
    let inc = include_with(vec![
        BlockEntry::Item(local_entry("/mnt/media/friends/s01e01.mkv")),
        BlockEntry::Item(local_entry("/Volumes/media/friends/s01e01.mkv")),
    ]);
    let items = resolve_channel(&channel(vec![inc]), &roots, None, None).unwrap();
    assert_eq!(items.len(), 1);
}

#[test]
fn lavfi_and_http_ids_derive_from_their_defining_field() {
    let lavfi = ItemEntry {
        source: SourceConfig::Lavfi {
            params: "testsrc".into(),
        },
        in_point: None,
        out_point: Some(secs(5)),
        program: None,
        guide: None,
    };
    let http = ItemEntry {
        source: SourceConfig::Http {
            uri: "https://ex/y.mkv".into(),
            headers: vec![],
            user_agent: None,
        },
        in_point: None,
        out_point: Some(secs(5)),
        program: None,
        guide: None,
    };
    let inc = include_with(vec![
        BlockEntry::Item(lavfi),
        BlockEntry::Item(http),
    ]);
    let items = resolve_channel(&channel(vec![inc]), &[], None, None).unwrap();
    let ids: Vec<&str> = items.iter().map(|i| i.id.as_str()).collect();
    assert_eq!(ids, vec!["lavfi:testsrc", "http:https://ex/y.mkv"]);
}

#[test]
fn keep_preserves_duplicates() {
    let mut inc = include_with(vec![
        BlockEntry::Item(item_entry("a")),
        BlockEntry::Item(item_entry("a")),
    ]);
    inc.duplicates = Some(Duplicates::Keep);
    let items = resolve_channel(&channel(vec![inc]), &[], None, None).unwrap();
    assert_eq!(items.len(), 2);
}

#[test]
fn count_mode_truncates_after_dedup() {
    let mut inc = include_with(vec![
        BlockEntry::Item(item_entry("a")),
        BlockEntry::Item(item_entry("b")),
        BlockEntry::Item(item_entry("c")),
    ]);
    inc.mode = Mode::Count(2);
    let items = resolve_channel(&channel(vec![inc]), &[], None, None).unwrap();
    let ids: Vec<&str> = items.iter().map(|i| i.id.as_str()).collect();
    assert_eq!(ids, vec!["lavfi:a", "lavfi:b"]);
}

#[test]
fn block_program_defaults_cascade() {
    let mut inc = include_with(vec![BlockEntry::Item(item_entry("a"))]);
    inc.program = Some(ProgramMetadata {
        categories: Some(vec!["Movie".into()]),
        ..only_title("Default Title")
    });
    let items = resolve_channel(&channel(vec![inc]), &[], None, None).unwrap();
    let p = items[0].program.as_ref().unwrap();
    assert_eq!(p.title.as_deref(), Some("Default Title"));
    assert_eq!(p.categories.as_ref().unwrap(), &vec!["Movie".to_string()]);
}

#[test]
fn item_program_overrides_block_default_field() {
    let mut item = item_entry("a");
    item.program = Some(only_title("Specific"));
    let mut inc = include_with(vec![BlockEntry::Item(item)]);
    inc.program = Some(ProgramMetadata {
        categories: Some(vec!["Movie".into()]),
        ..only_title("Default")
    });
    let items = resolve_channel(&channel(vec![inc]), &[], None, None).unwrap();
    let p = items[0].program.as_ref().unwrap();
    // item title wins; block category fills the gap.
    assert_eq!(p.title.as_deref(), Some("Specific"));
    assert_eq!(p.categories.as_ref().unwrap(), &vec!["Movie".to_string()]);
}

#[test]
fn query_entry_without_catalog_errors() {
    let inc = include_with(vec![BlockEntry::Query(QueryEntry {
        query: "item.type == \"movie\"".into(),
        order: None,
    })]);
    let err = resolve_channel(&channel(vec![inc]), &[], None, None).unwrap_err();
    assert!(format!("{err}").contains("catalog"), "err = {err}");
}

#[test]
fn non_manual_order_without_catalog_errors() {
    let mut inc = include_with(vec![BlockEntry::Item(item_entry("a"))]);
    inc.order = Some(Order::Random);
    let err = resolve_channel(&channel(vec![inc]), &[], None, None).unwrap_err();
    assert!(format!("{err}").contains("catalog"), "err = {err}");
}

#[test]
fn rejects_empty_channel() {
    let err = resolve_channel(&channel(vec![]), &[], None, None).unwrap_err();
    assert!(format!("{err}").contains("zero items"), "err = {err}");
}


#[test]
fn query_resolves_and_orders_by_release_date() {
    let cat = seeded_catalog();
    let inc = query_block(
        "item.title.contains(\"Ring\") || item.title.contains(\"Tower\") || item.title.contains(\"King\")",
        sort_by("release_date:asc"),
    );
    let items = resolve_channel(&channel(vec![inc]), &[], None, Some(&cat)).unwrap();
    let ids: Vec<&str> = items.iter().map(|i| i.id.as_str()).collect();
    assert_eq!(
        ids,
        vec!["imdb:tt0120737", "imdb:tt0167261", "imdb:tt0167260"]
    );
    // Program metadata + playback path came from the catalog.
    assert_eq!(items[0].program.as_ref().unwrap().year, Some(2001));
    match &items[0].source {
        SourceConfig::Local { path } => assert!(path.ends_with("tt0120737.mkv")),
        other => panic!("expected local source, got {other:?}"),
    }
}

#[test]
fn catalog_summary_populates_program_description() {
    let cat = seeded_catalog();
    cat.borrow_mut().entries[0].summary = Some("A hobbit sets out to destroy a ring.".into());
    let inc = query_block(
        "item.title.contains(\"Ring\") || item.title.contains(\"Tower\") || item.title.contains(\"King\")",
        sort_by("release_date:asc"),
    );
    let items = resolve_channel(&channel(vec![inc]), &[], None, Some(&cat)).unwrap();
    let with_summary = items.iter().find(|i| i.id == "imdb:tt0120737").unwrap();
    assert_eq!(
        with_summary
            .program
            .as_ref()
            .unwrap()
            .description
            .as_deref(),
        Some("A hobbit sets out to destroy a ring.")
    );
    let without_summary = items.iter().find(|i| i.id == "imdb:tt0167261").unwrap();
    assert_eq!(without_summary.program.as_ref().unwrap().description, None);
}

#[test]
fn item_fallback_resolves_when_primary_entries_match_nothing() {
    let cat = seeded_catalog();
    let mut inc = include_with(vec![empty_query(None)]);
    inc.fallback = Some(Fallback::Item(item_entry("standby")));
    let items = resolve_channel(&channel(vec![inc]), &[], None, Some(&cat)).unwrap();
    let ids: Vec<&str> = items.iter().map(|i| i.id.as_str()).collect();
    assert_eq!(ids, vec!["lavfi:standby"]);
}

#[test]
fn query_fallback_resolves_and_keeps_its_own_order() {
    let cat = seeded_catalog();
    let mut inc = include_with(vec![empty_query(None)]);
    inc.fallback = Some(Fallback::Query(QueryEntry {
        query: "item.title.contains(\"Ring\") || item.title.contains(\"Tower\") \
                 || item.title.contains(\"King\")"
            .into(),
        order: Some(sort_by("release_date:asc")),
    }));
    let items = resolve_channel(&channel(vec![inc]), &[], None, Some(&cat)).unwrap();
    let ids: Vec<&str> = items.iter().map(|i| i.id.as_str()).collect();
    assert_eq!(
        ids,
        vec!["imdb:tt0120737", "imdb:tt0167261", "imdb:tt0167260"]
    );
}

#[test]
fn fallback_is_ignored_when_primary_entries_resolve_to_something() {
    let cat = seeded_catalog();
    let mut inc = include_with(vec![BlockEntry::Query(QueryEntry {
        query: "item.year >= 2001".into(),
        order: None,
    })]);
    inc.fallback = Some(Fallback::Item(item_entry("standby")));
    let items = resolve_channel(&channel(vec![inc]), &[], None, Some(&cat)).unwrap();
    let ids: Vec<&str> = items.iter().map(|i| i.id.as_str()).collect();
    assert_eq!(items.len(), 3);
    assert!(
        !ids.contains(&"lavfi:standby"),
        "fallback aired despite non-empty primary entries: {ids:?}"
    );
}

#[test]
fn a_block_with_no_fallback_still_resolves_to_empty() {
    let cat = seeded_catalog();
    let inc = include_with(vec![empty_query(None)]);
    let err = resolve_channel(&channel(vec![inc]), &[], None, Some(&cat)).unwrap_err();
    assert!(format!("{err}").contains("zero items"), "err = {err}");
}

#[test]
fn fallback_result_still_goes_through_the_blocks_mode_and_order() {
    let cat = seeded_catalog();
    let mut inc = include_with(vec![empty_query(None)]);
    inc.mode = Mode::Count(2);
    inc.order = Some(sort_by("release_date:asc"));
    inc.fallback = Some(Fallback::Query(QueryEntry {
        query: "item.year >= 2001".into(),
        order: None,
    }));
    let items = resolve_channel(&channel(vec![inc]), &[], None, Some(&cat)).unwrap();
    let ids: Vec<&str> = items.iter().map(|i| i.id.as_str()).collect();
    assert_eq!(ids, vec!["imdb:tt0120737", "imdb:tt0167261"]);
}

#[test]
fn absent_block_order_over_an_all_episode_set_injects_the_season_episode_default() {
    let cat = out_of_order_episodes_catalog();
    let mut inc = include_with(vec![BlockEntry::Query(QueryEntry {
        query: "item.type == \"episode\"".into(),
        order: None,
    })]);
    inc.order = None; // the author wrote nothing at all
    let items = resolve_channel(&channel(vec![inc]), &[], None, Some(&cat)).unwrap();
    let ids: Vec<&str> = items.iter().map(|i| i.id.as_str()).collect();
    assert_eq!(
        ids,
        vec!["id-a", "id-c", "id-b"],
        "season:asc,episode:asc, not entry_id order ({ids:?})"
    );
}

#[test]
fn explicit_manual_order_over_an_all_episode_set_keeps_authored_order() {
    let cat = out_of_order_episodes_catalog();
    // `include_with`'s default order is `Some(Order::Manual)` — the author
    // explicitly wrote `manual`, which must win even though every item is
    // episode-typed.
    let inc = include_with(vec![BlockEntry::Query(QueryEntry {
        query: "item.type == \"episode\"".into(),
        order: None,
    })]);
    assert!(matches!(inc.order, Some(Order::Manual)));
    let items = resolve_channel(&channel(vec![inc]), &[], None, Some(&cat)).unwrap();
    let ids: Vec<&str> = items.iter().map(|i| i.id.as_str()).collect();
    assert_eq!(
        ids,
        vec!["id-a", "id-b", "id-c"],
        "entry_id order from the query, unmoved by the episode default ({ids:?})"
    );
}

#[test]
fn absent_block_order_over_a_non_episode_set_keeps_todays_manual_behavior() {
    let cat = seeded_catalog(); // all "movie" type
    let mut inc = include_with(vec![BlockEntry::Query(QueryEntry {
        query: "item.year >= 2001".into(),
        order: None,
    })]);
    inc.order = None; // the author wrote nothing at all
    let items = resolve_channel(&channel(vec![inc]), &[], None, Some(&cat)).unwrap();
    let ids: Vec<&str> = items.iter().map(|i| i.id.as_str()).collect();
    assert_eq!(
        ids,
        vec!["imdb:tt0120737", "imdb:tt0167260", "imdb:tt0167261"],
        "a non-episode-typed set stays in entry_id order ({ids:?})"
    );
}

#[test]
fn field_order_keeps_non_catalog_items_after_the_sorted_set() {
    let cat = seeded_catalog();
    // A block mixing an inline lavfi item (not in the catalog) with a query,
    // sorted by release_date. The inline item can't be ranked — it must
    // survive, appended after the ranked query results, never dropped.
    let mut inc = include_with(vec![
        BlockEntry::Item(item_entry("bumper")),
        BlockEntry::Query(QueryEntry {
            query: "item.year >= 2001".into(),
            order: None,
        }),
    ]);
    inc.order = Some(sort_by("release_date:asc"));
    let items = resolve_channel(&channel(vec![inc]), &[], None, Some(&cat)).unwrap();
    let ids: Vec<&str> = items.iter().map(|i| i.id.as_str()).collect();
    assert_eq!(
        ids,
        vec![
            "imdb:tt0120737",
            "imdb:tt0167261",
            "imdb:tt0167260",
            "lavfi:bumper"
        ]
    );
}

#[test]
fn filter_seasons_keeps_only_the_matching_season() {
    let cat = out_of_order_episodes_catalog(); // id-c/id-a season 1, id-b season 2
    let mut inc = include_with(vec![BlockEntry::Query(QueryEntry {
        query: "item.type == \"episode\"".into(),
        order: None,
    })]);
    inc.order = None; // let the season/episode default order the survivors
    inc.filter = Some(Filter {
        seasons: Some(vec![1]),
        episode_ids: None,
    });
    let items = resolve_channel(&channel(vec![inc]), &[], None, Some(&cat)).unwrap();
    let ids: Vec<&str> = items.iter().map(|i| i.id.as_str()).collect();
    assert_eq!(
        ids,
        vec!["id-a", "id-c"],
        "season 2's id-b must be filtered out before the season/episode default \
         orders the rest ({ids:?})"
    );
}

#[test]
fn filter_episode_ids_keeps_only_the_named_ids_with_no_catalog() {
    // episode_ids matches the same derived id every other step keys on, so
    // it needs no catalog at all — exercised entirely with inline items.
    let mut inc = include_with(vec![
        BlockEntry::Item(item_entry("a")),
        BlockEntry::Item(item_entry("b")),
        BlockEntry::Item(item_entry("c")),
    ]);
    inc.filter = Some(Filter {
        seasons: None,
        episode_ids: Some(vec!["lavfi:b".into()]),
    });
    let items = resolve_channel(&channel(vec![inc]), &[], None, None).unwrap();
    let ids: Vec<&str> = items.iter().map(|i| i.id.as_str()).collect();
    assert_eq!(ids, vec!["lavfi:b"]);
}

#[test]
fn filter_seasons_without_a_catalog_errors() {
    let mut inc = include_with(vec![BlockEntry::Item(item_entry("a"))]);
    inc.filter = Some(Filter {
        seasons: Some(vec![1]),
        episode_ids: None,
    });
    let err = resolve_channel(&channel(vec![inc]), &[], None, None).unwrap_err();
    assert!(
        format!("{err}").contains("filter.seasons needs the catalog"),
        "err = {err}"
    );
}

#[test]
fn filter_seasons_and_episode_ids_combine_as_an_intersection() {
    let cat = out_of_order_episodes_catalog();
    let mut inc = include_with(vec![BlockEntry::Query(QueryEntry {
        query: "item.type == \"episode\"".into(),
        order: None,
    })]);
    inc.filter = Some(Filter {
        seasons: Some(vec![1]),                 // id-a, id-c
        episode_ids: Some(vec!["id-b".into()]), // season 2 — disjoint from the above
    });
    let err = resolve_channel(&channel(vec![inc]), &[], None, Some(&cat)).unwrap_err();
    assert!(format!("{err}").contains("zero items"), "err = {err}");
}

#[test]
fn empty_filter_table_is_not_applied() {
    let cat = out_of_order_episodes_catalog();
    let mut inc = include_with(vec![BlockEntry::Query(QueryEntry {
        query: "item.type == \"episode\"".into(),
        order: None,
    })]);
    inc.order = None;
    inc.filter = Some(Filter {
        seasons: None,
        episode_ids: None,
    });
    let items = resolve_channel(&channel(vec![inc]), &[], None, Some(&cat)).unwrap();
    assert_eq!(items.len(), 3, "an empty [filter] table restricts nothing");
}

#[test]
fn collection_entry_plays_members_in_authored_position_order() {
    let cat = catalog_with_marathon();
    let inc = collection_block("Halloween Marathon");
    // Block order is left at its `manual` default — the run is already
    // ordered, and nothing re-sorts it.
    let items = resolve_channel(&channel(vec![inc]), &[], None, Some(&cat)).unwrap();
    let ids: Vec<&str> = items.iter().map(|i| i.id.as_str()).collect();
    assert_eq!(
        ids,
        vec!["imdb:tt0167260", "imdb:tt0120737", "imdb:tt0167261"]
    );
    // Catalog-backed like a query result: metadata and playback path resolved.
    assert_eq!(items[0].program.as_ref().unwrap().year, Some(2003));
    match &items[0].source {
        SourceConfig::Local { path } => assert!(path.ends_with("tt0167260.mkv")),
        other => panic!("expected local source, got {other:?}"),
    }
}

#[test]
fn collection_entry_composes_with_other_entries_in_authored_order() {
    // A bumper, then the marathon. The block stays `manual`, so the bumper
    // leads and the collection's internal order survives intact.
    let cat = catalog_with_marathon();
    let inc = include_with(vec![
        BlockEntry::Item(item_entry("bumper")),
        BlockEntry::Collection("Halloween Marathon".into()),
    ]);
    let items = resolve_channel(&channel(vec![inc]), &[], None, Some(&cat)).unwrap();
    let ids: Vec<&str> = items.iter().map(|i| i.id.as_str()).collect();
    assert_eq!(
        ids,
        vec![
            "lavfi:bumper",
            "imdb:tt0167260",
            "imdb:tt0120737",
            "imdb:tt0167261"
        ]
    );
}

#[test]
fn unknown_collection_name_errors() {
    let cat = catalog_with_marathon();
    let inc = collection_block("Nonesuch");
    let err = resolve_channel(&channel(vec![inc]), &[], None, Some(&cat)).unwrap_err();
    assert!(
        format!("{err}").contains("no collection named"),
        "err = {err}"
    );
}

#[test]
fn ambiguous_collection_name_errors() {
    // Two sources each define a collection of the same name — the entry
    // names one collection, so this is a config error, not a merge.
    let cat = catalog_with_marathon();
    cat.borrow_mut().collections.push(collection("plex:coll:2", "Halloween Marathon", &[]));
    let inc = collection_block("Halloween Marathon");
    let err = resolve_channel(&channel(vec![inc]), &[], None, Some(&cat)).unwrap_err();
    assert!(
        format!("{err}").contains("must name exactly one"),
        "err = {err}"
    );
}

#[test]
fn empty_collection_errors_rather_than_vanishing() {
    let cat = catalog_with_marathon();
    cat.borrow_mut().collections.push(collection("plex:coll:empty", "Empty Shelf", &[]));
    let inc = collection_block("Empty Shelf");
    let err = resolve_channel(&channel(vec![inc]), &[], None, Some(&cat)).unwrap_err();
    assert!(format!("{err}").contains("has no members"), "err = {err}");
}

#[test]
fn collection_entry_without_catalog_errors() {
    let inc = collection_block("Halloween Marathon");
    let err = resolve_channel(&channel(vec![inc]), &[], None, None).unwrap_err();
    assert!(format!("{err}").contains("catalog"), "err = {err}");
}

#[test]
fn collapse_runs_before_order_deterministic_under_random() {
    // Two blocks would collapse cross-block; here one block with a dup id.
    let mut inc = include_with(vec![
        BlockEntry::Item(item_entry("a")),
        BlockEntry::Item(item_entry("a")),
        BlockEntry::Item(item_entry("b")),
    ]);
    inc.order = Some(Order::Random);
    let cat = seeded_catalog();
    let mut cfg = channel(vec![inc]);
    cfg.seed = Some(7);
    let first = resolve_channel(&cfg, &[], None, Some(&cat)).unwrap();
    let second = resolve_channel(&cfg, &[], None, Some(&cat)).unwrap();
    let ids1: Vec<&str> = first.iter().map(|i| i.id.as_str()).collect();
    let ids2: Vec<&str> = second.iter().map(|i| i.id.as_str()).collect();
    // Collapsed to unique ids, and the seeded shuffle is reproducible.
    assert_eq!(ids1.len(), 2);
    assert_eq!(ids1, ids2);
}

#[test]
fn keep_with_manual_preserves_duplicate_items() {
    let mut inc = include_with(vec![
        BlockEntry::Item(item_entry("a")),
        BlockEntry::Item(item_entry("a")),
    ]);
    inc.duplicates = Some(Duplicates::Keep);
    let items = resolve_channel(&channel(vec![inc]), &[], None, None).unwrap();
    assert_eq!(items.len(), 2);
}

#[test]
fn manual_local_item_collapses_with_a_query_for_the_same_file() {
    // The payoff of catalog-aware identity: a block holds a manual `local`
    // item pointing at a library file AND a query that returns that same
    // file. The manual item inherits the catalog entry_id, so the two
    // collapse to one under the default policy — three films, not four.
    let cat = seeded_catalog();
    let inc = include_with(vec![
        BlockEntry::Item(local_entry("/media/lotr/imdb:tt0120737.mkv")),
        BlockEntry::Query(QueryEntry {
            query: "item.year >= 2001".into(),
            order: None,
        }),
    ]);
    let index: Vec<(String, String)> = cat
        .borrow()
        .entries
        .iter()
        .map(|e| (canonical_path(&e.sources[0].playback_path, &vec![]), e.entry_id.clone()))
        .collect();
    let items =
        resolve_channel(&channel(vec![inc]), &[], Some(&index), Some(&cat)).unwrap();
    let ids: Vec<&str> = items.iter().map(|i| i.id.as_str()).collect();
    assert_eq!(items.len(), 3);
    assert!(ids.contains(&"imdb:tt0120737"));
}

#[test]
fn pattern_block_resolves_through_the_channel() {
    let cat = interleave_catalog();
    let cfg = channel(vec![interleave_block(Advance::Restart)]);
    let (items, resume) = resolve_channel_with_resume(
        &cfg,
        &[],
        None,
        Some(&cat),
        &GenerationState::empty(),
        None,
    )
    .unwrap();
    let ids: Vec<&str> = items.iter().map(|i| i.id.as_str()).collect();
    assert_eq!(
        ids,
        vec!["mov-1", "got-e1", "got-e2", "mov-2", "inv-e1", "inv-e2"]
    );
    // Catalog-backed like any other resolved item.
    assert_eq!(items[1].program.as_ref().unwrap().episode, Some(1));
    match &items[0].source {
        SourceConfig::Local { path } => assert!(path.ends_with("mov-1.mkv")),
        other => panic!("expected local source, got {other:?}"),
    }
    // Both pools reported their rotation, keyed by pool name; where each
    // series stopped lives in the ledger, not here.
    assert!(resume.pool(&"movies".to_string()).is_some());
    assert!(resume.pool(&"shows".to_string()).is_some());
    let next = advance_state(&cat, &GenerationState::empty(), resume, &items);
    assert_eq!(get(&next.cursor, "show:got"), "got-e2");
}

#[test]
fn resume_carries_progression_across_a_window_seam() {
    let cat = interleave_catalog();
    let cfg = channel(vec![interleave_block(Advance::Resume)]);

    let (first, next) = resolve_channel_with_resume(
        &cfg,
        &[],
        None,
        Some(&cat),
        &GenerationState::empty(),
        None,
    )
    .unwrap();
    let first_ids: Vec<&str> = first.iter().map(|i| i.id.as_str()).collect();
    assert_eq!(
        first_ids,
        vec!["mov-1", "got-e1", "got-e2", "mov-2", "inv-e1", "inv-e2"]
    );

    let next = advance_state(&cat, &GenerationState::empty(), next, &first);
    let (second, _) = resolve_channel_with_resume(
        &cfg,
        &[],
        None,
        Some(&cat),
        &next,
        None,
    )
    .unwrap();
    let second_ids: Vec<&str> = second.iter().map(|i| i.id.as_str()).collect();
    // got continues at e3 (it never restarts because inv is shorter), inv
    // wraps, and the movies pool continues its own rotation.
    assert_eq!(
        second_ids,
        vec!["mov-1", "got-e3", "got-e4", "mov-2", "inv-e1", "inv-e2"]
    );
}

#[test]
fn generation_is_a_pure_function_of_catalog_config_and_resume() {
    let cat = interleave_catalog();
    let cfg = channel(vec![interleave_block(Advance::Resume)]);
    let (first, next) = resolve_channel_with_resume(
        &cfg,
        &[],
        None,
        Some(&cat),
        &GenerationState::empty(),
        None,
    )
    .unwrap();
    let state = advance_state(&cat, &GenerationState::empty(), next, &first);

    let (a, ra) = resolve_channel_with_resume(
        &cfg,
        &[],
        None,
        Some(&cat),
        &state,
        None,
    )
    .unwrap();
    let (b, rb) = resolve_channel_with_resume(
        &cfg,
        &[],
        None,
        Some(&cat),
        &state,
        None,
    )
    .unwrap();
    let ids_a: Vec<&str> = a.iter().map(|i| i.id.as_str()).collect();
    let ids_b: Vec<&str> = b.iter().map(|i| i.id.as_str()).collect();
    assert_eq!(ids_a, ids_b);
    assert_eq!(format!("{ra:?}"), format!("{rb:?}"));
}

#[test]
fn a_show_that_leaves_and_returns_resumes_where_it_stopped() {
    let cat = interleave_catalog();
    let cfg = channel(vec![interleave_block(Advance::Resume)]);

    // Window 1 airs both shows; GoT reaches e2.
    let (first, next) = resolve_channel_with_resume(
        &cfg,
        &[],
        None,
        Some(&cat),
        &GenerationState::empty(),
        None,
    )
    .unwrap();
    let state = advance_state(&cat, &GenerationState::empty(), next, &first);
    assert_eq!(get(&state.cursor, "show:got"), "got-e2");

    // GoT drops out of the resolved set entirely for a while — the pool's
    // expr no longer matches it. Its ledger entries stay.
    let mut narrowed = interleave_block(Advance::Resume);
    for pool in &mut narrowed.pools {
        if pool.name == "shows" {
            pool.expr = Some("item.show == \"inv\"".into());
        }
    }
    let narrowed_cfg = channel(vec![narrowed]);
    let (away, next_away) = resolve_channel_with_resume(
        &narrowed_cfg,
        &[],
        None,
        Some(&cat),
        &state,
        None,
    )
    .unwrap();
    assert!(
        !away.iter().any(|i| i.id.starts_with("got-")),
        "GoT is out of the set for this window"
    );
    let state = advance_state(&cat, &state, next_away, &away);

    // It comes back. It must continue at e3, not restart at e1.
    let (back, _) = resolve_channel_with_resume(
        &cfg,
        &[],
        None,
        Some(&cat),
        &state,
        None,
    )
    .unwrap();
    let first_got = back
        .iter()
        .map(|i| i.id.as_str())
        .find(|id| id.starts_with("got-"))
        .expect("GoT returns to the set");
    assert_eq!(
        first_got, "got-e3",
        "a returning show resumes from its stored position, not S1E1"
    );
}

#[test]
fn every_scheduled_airing_records_exactly_one_row() {


    let cat = interleave_catalog();
    let cfg = channel(vec![interleave_block(Advance::Restart)]);
    let (items, _) = resolve_channel_with_resume(
        &cfg,
        &[],
        None,
        Some(&cat),
        &GenerationState::empty(),
        None,
    )
    .unwrap();

    let mut db = HistoryDb::open_in_memory();
    let records: Vec<PlayRecord> = items
        .iter()
        .enumerate()
        .map(|(i, item)| {
            let show = cat.borrow().show_id_for(&item.id);
            record_of(&item.id, show, i as i64 * 60_000_000_000)
        })
        .collect();
    db.record(&CHANNEL.to_string(), &records);

    assert_eq!(
        db.count(CHANNEL),
        items.len(),
        "one row per airing — the generation aired {} items",
        items.len()
    );
    // A repeat under `wrap = "loop"` is a genuine second airing and gets
    // its own row; the cursor still resolves to the latest one.
    let cursor = db.series_cursor(CHANNEL);
    assert_eq!(get(&cursor, "show:got"), "got-e2");
}

#[test]
fn resolve_channel_ignores_resume_state() {
    let cat = interleave_catalog();
    let cfg = channel(vec![interleave_block(Advance::Resume)]);
    let first = resolve_channel(&cfg, &[], None, Some(&cat)).unwrap();
    let second = resolve_channel(&cfg, &[], None, Some(&cat)).unwrap();
    let ids1: Vec<&str> = first.iter().map(|i| i.id.as_str()).collect();
    let ids2: Vec<&str> = second.iter().map(|i| i.id.as_str()).collect();
    assert_eq!(ids1, ids2);
}

#[test]
fn an_entries_channel_records_its_list_position_and_no_pools() {
    let inc = include_with(vec![BlockEntry::Item(item_entry("a"))]);
    let (_, next) = resolve_channel_with_resume(
        &channel(vec![inc]),
        &[],
        None,
        None,
        &GenerationState::empty(),
        None,
    )
    .unwrap();
    assert!(next.pools.is_empty(), "a flat channel has no pools");
    // One item, laid whole, wrapping straight back to the top.
    assert_eq!(next.position, 0);
}

#[test]
fn a_windowed_entries_generation_stops_at_the_window() {
    let (ids, next) = windowed_entries(10, 0, Some(secs(90)));
    assert_eq!(ids, vec!["lavfi:0", "lavfi:1", "lavfi:2"]);
    assert_eq!(next, 3, "the next generation continues at item 3");
}

#[test]
fn two_windowed_generations_continue_with_no_gap_and_no_repeat() {
    let window = Some(secs(90));
    let (first, after_first) = windowed_entries(10, 0, window);
    let (second, _) = windowed_entries(10, after_first, window);

    let played: Vec<String> = first.iter().chain(second.iter()).cloned().collect();
    assert_eq!(
        played,
        (0..6).map(|i| format!("lavfi:{i}")).collect::<Vec<_>>(),
        "the two generations must concatenate to the authored order"
    );
}

#[test]
fn an_entries_channel_wraps_to_the_top_at_the_end_of_its_list() {
    let (ids, next) = windowed_entries(4, 3, Some(secs(30)));
    assert_eq!(ids, vec!["lavfi:3"]);
    assert_eq!(next, 0);
}

#[test]
fn a_missing_resume_starts_an_entries_channel_at_the_top() {
    let (ids, _) = windowed_entries(4, 0, Some(secs(30)));
    assert_eq!(ids, vec!["lavfi:0"]);
}

#[test]
fn a_window_shorter_than_one_item_still_lays_one() {
    let (ids, next) = windowed_entries(4, 0, Some(secs(1)));
    assert_eq!(ids, vec!["lavfi:0"]);
    assert_eq!(next, 1);
}

#[test]
fn an_unbounded_entries_resolve_still_lays_the_whole_list() {
    let (ids, next) = windowed_entries(10, 0, None);
    assert_eq!(ids.len(), 10);
    assert_eq!(next, 0);
}

#[test]
fn a_position_past_the_end_of_an_edited_list_folds_back_into_it() {
    let (ids, next) = windowed_entries(3, 100, Some(secs(30)));
    assert_eq!(ids, vec!["lavfi:1"], "100 % 3 is item 1");
    assert_eq!(next, 2);
}

#[test]
fn a_pattern_channel_keeps_resolving_after_playing_everything() {
    let cat = interleave_catalog();
    let mut inc = interleave_block(Advance::Resume);
    inc.cycles = Some(20); // long enough to run past every series' end
    let cfg = channel(vec![inc]);

    let (played, next) = resolve_channel_with_resume(
        &cfg,
        &[],
        None,
        Some(&cat),
        &GenerationState::empty(),
        None,
    )
    .unwrap();
    assert!(!played.is_empty());

    // Second window, after everything has aired at least once: still full.
    let state = advance_state(&cat, &GenerationState::empty(), next, &played);
    let (items, _) = resolve_channel_with_resume(
        &cfg,
        &[],
        None,
        Some(&cat),
        &state,
        None,
    )
    .unwrap();
    assert!(
        !items.is_empty(),
        "a channel that played everything must keep going, not run dry"
    );
}

#[test]
fn a_pattern_channel_that_never_played_still_errors_on_zero_items() {
    let cat = interleave_catalog();
    let mut inc = interleave_block(Advance::Resume);
    for pool in &mut inc.pools {
        pool.expr = Some("item.type == \"nonesuch\"".into());
    }
    let err = resolve_channel(&channel(vec![inc]), &[], None, Some(&cat)).unwrap_err();
    assert!(format!("{err}").contains("zero items"), "err = {err}");
}

#[test]
fn pattern_block_without_catalog_errors() {
    let cfg = channel(vec![interleave_block(Advance::Restart)]);
    let err = resolve_channel(&cfg, &[], None, None).unwrap_err();
    assert!(format!("{err}").contains("catalog"), "err = {err}");
}

#[test]
fn count_mode_truncates_a_pattern_block() {
    let cat = interleave_catalog();
    let mut inc = interleave_block(Advance::Restart);
    inc.mode = Mode::Count(3);
    let items = resolve_channel(&channel(vec![inc]), &[], None, Some(&cat)).unwrap();
    let ids: Vec<&str> = items.iter().map(|i| i.id.as_str()).collect();
    assert_eq!(ids, vec!["mov-1", "got-e1", "got-e2"]);
}

#[test]
fn a_mixed_channels_entries_block_is_cut_to_the_window_while_its_pattern_block_is_untouched() {
    let cat = interleave_catalog();
    let (items, resume) = resolve_channel_with_resume(
        &mixed_channel(),
        &[],
        None,
        Some(&cat),
        &GenerationState::empty(),
        Some(secs(90)),
    )
    .unwrap();

    let ids: Vec<&str> = items.iter().map(|i| i.id.as_str()).collect();
    let mut expected: Vec<&str> = MIXED_PATTERN_IDS.to_vec();
    expected.extend(["lavfi:0", "lavfi:1", "lavfi:2"]);
    assert_eq!(
        ids, expected,
        "the pattern block's full interleave, then only as much of the \
         entries block as a 90s window covers — not its whole 10-item list"
    );
    assert_eq!(
        resume.position, 3,
        "the entries cursor advances by what it laid, same as a lone entries channel"
    );
    // The pattern block's own resume mechanism is untouched by the
    // entries cut living alongside it.
    assert!(resume.pool(&"movies".to_string()).is_some());
    assert!(resume.pool(&"shows".to_string()).is_some());
}

#[test]
fn two_generations_of_a_mixed_channel_continue_its_entries_block_with_no_gap_or_repeat() {
    let cat = interleave_catalog();
    let generation = |at: usize| {
        let mut state = GenerationState::empty();
        state.resume.position = at;
        resolve_channel_with_resume(
            &mixed_channel(),
            &[],
            None,
            Some(&cat),
            &state,
            Some(secs(90)),
        )
        .unwrap()
    };

    let (first, next) = generation(0);
    let (second, _) = generation(next.position);

    for (items, expected_entries_tail) in [
        (&first, ["lavfi:0", "lavfi:1", "lavfi:2"]),
        (&second, ["lavfi:3", "lavfi:4", "lavfi:5"]),
    ] {
        let ids: Vec<&str> = items.iter().map(|i| i.id.as_str()).collect();
        assert_eq!(&ids[..MIXED_PATTERN_IDS.len()], &MIXED_PATTERN_IDS[..]);
        assert_eq!(&ids[MIXED_PATTERN_IDS.len()..], &expected_entries_tail[..]);
    }
}

#[test]
fn two_entries_blocks_alongside_a_pattern_block_errors_rather_than_guessing() {
    let cat = interleave_catalog();
    let pattern_inc = interleave_block(Advance::Restart);
    let entries_a = include_with(vec![BlockEntry::Item(item_entry("a"))]);
    let entries_b = include_with(vec![BlockEntry::Item(item_entry("b"))]);
    let cfg = channel(vec![entries_a, pattern_inc, entries_b]);

    let err = resolve_channel_with_resume(
        &cfg,
        &[],
        None,
        Some(&cat),
        &GenerationState::empty(),
        Some(secs(90)),
    )
    .unwrap_err();
    assert!(format!("{err}").contains("entries blocks"), "err = {err}");
}

#[test]
fn per_entry_query_order_is_applied() {
    let cat = seeded_catalog();
    // Block is manual; the query entry carries its own descending order.
    let inc = include_with(vec![BlockEntry::Query(QueryEntry {
        query: "item.year >= 2001".into(),
        order: Some(sort_by("release_date:desc")),
    })]);
    let items = resolve_channel(&channel(vec![inc]), &[], None, Some(&cat)).unwrap();
    let ids: Vec<&str> = items.iter().map(|i| i.id.as_str()).collect();
    assert_eq!(
        ids,
        vec!["imdb:tt0167260", "imdb:tt0167261", "imdb:tt0120737"]
    );
}

#[test]
fn a_groups_sourced_pool_resolves_through_the_whole_pipeline() {

    let cat = interleave_catalog();
    let mut inc = include_with(vec![]);
    let mut shows = pool_of("shows", None, None, Advance::Restart);
    shows.groups = vec!["franchise".into()];
    inc.pools = vec![shows];
    inc.pattern = vec![step("shows", Take::All)];

    let mut cfg = channel(vec![inc]);
    cfg.groups = vec![ShowGroup {
        name: "franchise".into(),
        shows: vec!["got".into(), "inv".into()],
    }];

    let items = resolve_channel(&cfg, &[], None, Some(&cat)).unwrap();
    let ids: Vec<&str> = items.iter().map(|i| i.id.as_str()).collect();
    assert_eq!(
        ids,
        vec!["got-e1", "got-e2", "got-e3", "got-e4", "inv-e1", "inv-e2"],
        "a `groups` pool must draw every member show's episodes"
    );
}

#[test]
fn validate_groups_against_catalog_names_the_show_and_the_group() {
    let cat = interleave_catalog();
    let groups = vec![ShowGroup {
        name: "franchise".into(),
        shows: vec!["got".into(), "Nonexistent Show".into()],
    }];
    let err = validate_groups_against_catalog(&cat.borrow(), &groups).unwrap_err();
    let msg = err.message();
    assert!(msg.contains("franchise"), "err = {msg}");
    assert!(msg.contains("Nonexistent Show"), "err = {msg}");
}

#[test]
fn validate_groups_against_catalog_passes_when_every_member_has_episodes() {
    let cat = interleave_catalog();
    let groups = vec![ShowGroup {
        name: "franchise".into(),
        shows: vec!["got".into(), "inv".into()],
    }];
    assert!(validate_groups_against_catalog(&cat.borrow(), &groups).is_ok());
}

#[test]
fn the_start_of_the_window_changes_nothing_without_a_sequencer() {
    let cat = interleave_catalog();
    let config = mixed_channel();
    let run = |from: i64| {
        let (items, resume) = resolve_from(
            from,
            &config,
            &[],
            None,
            Some(&cat),
            &GenerationState::empty(),
            Some(secs(3600)),
        )
        .unwrap();
        let pools: Vec<String> = resume.pools.iter().map(|p| format!("{p:?}")).collect();
        (items.into_iter().map(|i| i.id).collect::<Vec<_>>(), resume.position, pools)
    };
    assert_eq!(run(T0), run(T0 + 86_400));
    assert_eq!(run(T0), run(0));
}

#[test]
fn a_rule_reorders_and_loses_nothing() {
    let list = |constrain: bool| {
        let mut inc = include_with(
            ["a", "a", "a", "b", "c", "b"]
                .iter()
                .map(|id| BlockEntry::Item(item_entry(id)))
                .collect(),
        );
        inc.duplicates = Some(Duplicates::Keep);
        resolved_ids(vec![if constrain { constrained(inc, 1) } else { inc }])
    };
    let (plain, kept) = (list(false), list(true));
    assert_ne!(plain, kept);
    assert!(kept.windows(2).all(|w| w[0] != w[1]), "{kept:?}");
    let sorted = |mut ids: Vec<String>| {
        ids.sort();
        ids
    };
    assert_eq!(sorted(plain), sorted(kept));
}
