use std::cell::RefCell;

use etv_station::catalog::{Catalog, Entry, EntrySource, Ordered, Reply, Source, Tags};
use etv_station::config::{
    Advance, Constraints, GroupBy, NoRepeatWithin, OnShort, Order, PatternStep, Pool, Rotate,
    Select, ShowGroup, Take, TakeFrom,
};
use etv_station::fault::{ResolveError, MAX_CYCLES};
use etv_station::names::put_entry;
use etv_station::pattern;
use etv_station::pool::pool_runtime;
use etv_station::resume::{GenerationState, PoolResume, ResumeMap};
use etv_station::roll::{splitmix64, RollKey, CHANCE_WHOLE};

// ---- a stand-in for the catalog's own query and ordering work ----

fn entry(id: &str, kind: &str, title: String) -> Entry {
    Entry {
        entry_id: id.into(),
        kind: kind.into(),
        title,
        title_sort: None,
        show: None,
        show_id: None,
        season: None,
        episode: None,
        absolute_episode: None,
        edition: None,
        studio: None,
        year: None,
        release_date: None,
        duration_ms: None,
        content_rating: None,
        library: None,
        summary: None,
        artwork_cache_path: None,
        missing: false,
        external: vec![],
        tags: Tags {
            genres: vec![],
            labels: vec![],
            cast: vec![],
            directors: vec![],
            writers: vec![],
            producers: vec![],
            countries: vec![],
        },
        sources: vec![EntrySource {
            source: Source::LocalFs,
            source_id: format!("fs-{id}"),
            playback_path: format!("/media/{id}.mkv"),
            stale: false,
        }],
    }
}

fn text_field<'a>(e: &'a Entry, name: &str) -> &'a str {
    match name {
        "type" => &e.kind,
        "title" => &e.title,
        "show" => e.show.as_deref().unwrap_or(""),
        "release_date" => e.release_date.as_deref().unwrap_or(""),
        other => panic!("no such field: {other}"),
    }
}

fn unquoted(s: &str) -> &str {
    s.trim().trim_matches('"')
}

fn atom_holds(e: &Entry, atom: &str) -> bool {
    let atom = atom.trim();
    if let Some((field, value)) = atom.split_once("==") {
        text_field(e, field.trim().strip_prefix("item.").unwrap()) == unquoted(value)
    } else if let Some((field, bound)) = atom.split_once(">=") {
        assert_eq!(field.trim(), "item.year");
        e.year.is_some_and(|year| year >= bound.trim().parse::<i64>().unwrap())
    } else {
        let (field, rest) = atom.split_once(".contains(").unwrap();
        let value = unquoted(rest.strip_suffix(')').unwrap());
        text_field(e, field.strip_prefix("item.").unwrap()).contains(value)
    }
}

fn query_holds(e: &Entry, query: &str) -> bool {
    query.split("||").any(|either| either.split("&&").all(|atom| atom_holds(e, atom)))
}

fn sort_key(e: &Entry, name: &str) -> (i64, String) {
    match name {
        "season" => (e.season.unwrap_or(0), String::new()),
        "episode" => (e.episode.unwrap_or(0), String::new()),
        text => (0, text_field(e, text).to_string()),
    }
}

fn answer_query(catalog: &mut Catalog, query: &str) {
    let mut found: Vec<String> = catalog
        .entries
        .iter()
        .filter(|e| query_holds(e, query))
        .map(|e| e.entry_id.clone())
        .collect();
    found.sort();
    catalog.queries.push((query.to_string(), Reply::Items(found)));
}

fn answer_order(catalog: &mut Catalog, ids: &[String], order: &Order, seed: u64) {
    let mut out = ids.to_vec();
    let asked = match order {
        Order::Manual => Order::Manual,
        Order::Random => {
            let mut state = seed;
            for i in (1..out.len()).rev() {
                let j = splitmix64(&mut state) as usize % (i + 1);
                out.swap(i, j);
            }
            Order::Random
        }
        Order::Sort(fields) => {
            out.retain(|id| catalog.entries.iter().any(|e| e.entry_id == *id));
            for field in fields.split(',').rev() {
                let (name, direction) = field.split_once(':').unwrap();
                let key = |id: &String| {
                    let e = catalog.entries.iter().find(|e| e.entry_id == *id).unwrap();
                    sort_key(e, name)
                };
                if direction == "desc" {
                    out.sort_by(|a, b| key(b).cmp(&key(a)));
                } else {
                    out.sort_by(|a, b| key(a).cmp(&key(b)));
                }
            }
            Order::Sort(fields.clone())
        }
    };
    catalog.orders.push(Ordered {
        ids: ids.to_vec(),
        order: asked,
        seed,
        reply: Reply::Items(out),
    });
}

/// Answers what the library asked for; false where it asked for nothing.
fn answer(catalog: &mut Catalog, error: &ResolveError) -> bool {
    match error {
        ResolveError::UnansweredQuery { query } => {
            let query = query.clone();
            answer_query(catalog, &query);
            true
        }
        ResolveError::UnansweredOrder { ids, order, seed } => {
            answer_order(catalog, ids, order, *seed);
            true
        }
        _ => false,
    }
}

fn sort_by(fields: &str) -> Order {
    Order::Sort(fields.into())
}

fn catalog_of(entries: Vec<Entry>) -> RefCell<Catalog> {
    let mut episodes: Vec<(String, Vec<String>)> = Vec::new();
    for e in &entries {
        if let Some(show) = &e.show {
            match episodes.iter_mut().find(|(name, _)| name == show) {
                Some((_, ids)) => ids.push(e.entry_id.clone()),
                None => episodes.push((show.clone(), vec![e.entry_id.clone()])),
            }
        }
    }
    RefCell::new(Catalog {
        entries,
        collections: vec![],
        episodes,
        queries: vec![],
        orders: vec![],
    })
}

fn episode(id: &str, show_id: &str, season: i64, number: i64) -> Entry {
    let mut e = entry(id, "episode", format!("Title {id}"));
    e.show_id = Some(show_id.to_string());
    e.show = Some(show_id.trim_start_matches("show:").to_string());
    e.season = Some(season);
    e.episode = Some(number);
    e
}

fn movie(id: &str, duration_ms: Option<i64>) -> Entry {
    let mut e = entry(id, "movie", format!("Title {id}"));
    e.duration_ms = duration_ms;
    e
}

/// Three movies, a show of six episodes and a show of three.
fn catalog() -> RefCell<Catalog> {
    let mut entries = Vec::new();
    for n in 1..=3 {
        entries.push(movie(&format!("mov-{n}"), None));
    }
    for n in 1..=6 {
        entries.push(episode(&format!("got-e{n}"), "show:got", 1, n));
    }
    for n in 1..=3 {
        entries.push(episode(&format!("inv-e{n}"), "show:inv", 1, n));
    }
    catalog_of(entries)
}

/// A show of two seasons, and a show of one.
fn seasons_catalog() -> RefCell<Catalog> {
    let mut entries = Vec::new();
    for n in 1..=4 {
        entries.push(episode(&format!("got-s1e{n}"), "show:got", 1, n));
    }
    for n in 1..=2 {
        entries.push(episode(&format!("got-s2e{n}"), "show:got", 2, n));
    }
    for n in 1..=3 {
        entries.push(episode(&format!("inv-s1e{n}"), "show:inv", 1, n));
    }
    catalog_of(entries)
}

/// Two sibling shows whose titles sort in the order they were broadcast.
fn franchise_catalog() -> RefCell<Catalog> {
    let row = |id: &str, show: &str, season: i64, number: i64, rank: &str| {
        let mut e = entry(id, "episode", format!("{rank} {id}"));
        e.show = Some(show.to_string());
        e.show_id = Some(format!("show:{show}"));
        e.season = Some(season);
        e.episode = Some(number);
        e
    };
    catalog_of(vec![
        row("dr-s9e1", "RuPaul's Drag Race", 9, 1, "1"),
        row("dr-s9e2", "RuPaul's Drag Race", 9, 2, "1"),
        row("as-s3e1", "RuPaul's Drag Race All Stars", 3, 1, "2"),
        row("as-s3e2", "RuPaul's Drag Race All Stars", 3, 2, "2"),
        row("dr-s10e1", "RuPaul's Drag Race", 10, 1, "3"),
        row("dr-s10e2", "RuPaul's Drag Race", 10, 2, "3"),
    ])
}

/// Twenty-four movies of an hour each, the first `measured` of them measured.
fn hourly_movies(measured: usize) -> RefCell<Catalog> {
    catalog_of(
        (1..=24)
            .map(|n| movie(&format!("mov-{n:02}"), (n <= measured).then_some(3_600_000)))
            .collect(),
    )
}

/// Three movies of which one alone is measured, at three hours.
fn movies_with_a_long_one() -> RefCell<Catalog> {
    catalog_of(vec![
        movie("mov-1", Some(3 * 60 * 60 * 1000)),
        movie("mov-2", None),
        movie("mov-3", None),
    ])
}

fn pool_of(name: &str, expr: &str, order: &str, group_by: GroupBy) -> Pool {
    Pool {
        name: name.into(),
        expr: Some(expr.into()),
        plugin: None,
        sources: None,
        groups: Vec::new(),
        order: Some(sort_by(order)),
        bucket_order: None,
        group_by,
        select: Select::RoundRobin,
        rotate: Rotate::Visit,
        advance: Advance::Restart,
        on_short: OnShort::Next,
        constraints: None,
        config: None,
        capabilities: Vec::new(),
        datastores: Vec::new(),
        guide: None,
    }
}

fn movies_pool() -> Pool {
    pool_of("movies", "item.type == \"movie\"", "title:asc", GroupBy::Show)
}

fn random_movies() -> Pool {
    let mut movies = movies_pool();
    movies.select = Select::Random;
    movies.constraints = Some(no_repeat(1));
    movies
}

fn shows_pool() -> Pool {
    pool_of("shows", "item.type == \"episode\"", "season:asc,episode:asc", GroupBy::Show)
}

fn shows_pool_resumed() -> Pool {
    let mut p = shows_pool();
    p.advance = Advance::Resume;
    p
}

fn episodes_pool(group_by: GroupBy) -> Pool {
    pool_of("shows", "item.type == \"episode\"", "season:asc,episode:asc", group_by)
}

fn rupaul_group() -> ShowGroup {
    ShowGroup {
        name: "rupaul".into(),
        shows: vec!["RuPaul's Drag Race".into(), "RuPaul's Drag Race All Stars".into()],
    }
}

fn rupaul_pool() -> Pool {
    Pool {
        name: "rupaul".into(),
        expr: None,
        plugin: None,
        sources: None,
        groups: vec!["rupaul".into()],
        order: None,
        bucket_order: Some(sort_by("title:asc")),
        group_by: GroupBy::Season,
        select: Select::RoundRobin,
        rotate: Rotate::Visit,
        advance: Advance::Restart,
        on_short: OnShort::Next,
        constraints: None,
        config: None,
        capabilities: Vec::new(),
        datastores: Vec::new(),
        guide: None,
    }
}

fn resuming_pool() -> Pool {
    let mut p = rupaul_pool();
    p.advance = Advance::Resume;
    p
}

fn step_from(pool: &str, take: usize, from: TakeFrom) -> PatternStep {
    PatternStep { pool: pool.into(), take: Take::Count(take), from, chance: CHANCE_WHOLE }
}

fn step(pool: &str, take: usize) -> PatternStep {
    step_from(pool, take, TakeFrom::Start)
}

fn step_all(pool: &str) -> PatternStep {
    PatternStep {
        pool: pool.into(),
        take: Take::All,
        from: TakeFrom::Start,
        chance: CHANCE_WHOLE,
    }
}

fn slices(chance: f64) -> u64 {
    (chance * CHANCE_WHOLE as f64).ceil() as u64
}

fn secs(n: u64) -> u64 {
    n * 1_000_000_000
}

fn no_repeat(n: usize) -> Constraints {
    Constraints {
        no_repeat_within: Some(NoRepeatWithin::Positions(n)),
        separate_by: None,
        separate_min_gap: None,
    }
}

fn no_repeat_within(nanos: u64) -> Constraints {
    Constraints {
        no_repeat_within: Some(NoRepeatWithin::Duration(nanos)),
        separate_by: None,
        separate_min_gap: None,
    }
}

/// The state in which exactly these aired before, oldest first.
fn aired(tail: &[&str]) -> GenerationState {
    let mut state = GenerationState::empty();
    state.tail = tail.iter().map(|s| s.to_string()).collect();
    state
}

type Made = (Vec<String>, Vec<(String, PoolResume)>);

fn build(
    catalog: &RefCell<Catalog>,
    pools: Vec<Pool>,
    groups: Vec<ShowGroup>,
    pattern: Vec<PatternStep>,
    cycles: Option<usize>,
    block: Option<&Constraints>,
    state: &GenerationState,
    seed: u64,
    fill: Option<u64>,
) -> Result<Made, String> {
    loop {
        let out = pattern::build(
            &catalog.borrow(),
            &pools,
            &groups,
            &vec![],
            &pattern,
            cycles,
            block,
            state,
            seed,
            fill,
        );
        match out {
            Ok(made) => return Ok(made),
            Err(error) => {
                if !answer(&mut catalog.borrow_mut(), &error) {
                    return Err(error.message());
                }
            }
        }
    }
}

/// The state that a following generation starts from.
fn state_after(
    catalog: &RefCell<Catalog>,
    before: &GenerationState,
    made: Made,
) -> (Vec<String>, GenerationState) {
    let (ids, pools) = made;
    let mut resume = ResumeMap::new();
    resume.pools = pools;
    let mut cursor = before.cursor.clone();
    for id in &ids {
        let key = catalog.borrow().show_id_for(id).unwrap_or_else(|| id.clone());
        put_entry(&mut cursor, key, id.clone());
    }
    let tail = ids.clone();
    (ids, GenerationState { resume, cursor, tail })
}

fn build_seasons(
    pool: Pool,
    pattern: Vec<PatternStep>,
    cycles: Option<usize>,
    state: &GenerationState,
) -> Vec<String> {
    build(&seasons_catalog(), vec![pool], vec![], pattern, cycles, None, state, 7, None)
        .expect("pattern builds")
        .0
}

fn build_grouped(
    pools: Vec<Pool>,
    groups: Vec<ShowGroup>,
    pattern: Vec<PatternStep>,
    cycles: Option<usize>,
    state_in: &GenerationState,
    seed: u64,
) -> (Vec<String>, GenerationState) {
    let cat = franchise_catalog();
    let made = build(&cat, pools, groups, pattern, cycles, None, state_in, seed, None)
        .expect("pattern builds");
    state_after(&cat, state_in, made)
}

fn build_with(
    pools: Vec<Pool>,
    pattern: Vec<PatternStep>,
    cycles: Option<usize>,
    state_in: &GenerationState,
    seed: u64,
) -> (Vec<String>, GenerationState) {
    let cat = catalog();
    let made = build(&cat, pools, vec![], pattern, cycles, None, state_in, seed, None)
        .expect("pattern builds");
    state_after(&cat, state_in, made)
}

fn fill_movies(
    cat: &RefCell<Catalog>,
    cycles: Option<usize>,
    state: &GenerationState,
    fill: Option<u64>,
) -> Made {
    let mut movies = movies_pool();
    movies.advance = Advance::Resume;
    build(cat, vec![movies], vec![], vec![step("movies", 1)], cycles, None, state, 0, fill)
        .expect("pattern builds")
}

fn build_pools(
    pools: Vec<Pool>,
    pattern: Vec<PatternStep>,
    cycles: Option<usize>,
    block: Option<&Constraints>,
    state: &GenerationState,
) -> Vec<String> {
    build(&catalog(), pools, vec![], pattern, cycles, block, state, 0, None)
        .expect("pattern builds")
        .0
}

#[test]
fn a_season_grouped_take_all_airs_exactly_one_season() {
    let ids = build_seasons(
        episodes_pool(GroupBy::Season),
        vec![step_all("shows")],
        Some(1),
        &GenerationState::empty(),
    );
    assert_eq!(
        ids,
        vec!["got-s1e1", "got-s1e2", "got-s1e3", "got-s1e4"],
        "a season-grouped visit must air one season end to end and stop"
    );
}

#[test]
fn a_show_grouped_take_all_airs_the_whole_show() {
    let ids = build_seasons(
        episodes_pool(GroupBy::Show),
        vec![step_all("shows")],
        Some(1),
        &GenerationState::empty(),
    );
    assert_eq!(
        ids,
        vec![
            "got-s1e1", "got-s1e2", "got-s1e3", "got-s1e4", "got-s2e1", "got-s2e2"
        ],
    );
}

#[test]
fn successive_take_all_visits_walk_the_seasons() {
    let ids = build_seasons(
        episodes_pool(GroupBy::Season),
        vec![step_all("shows")],
        Some(3),
        &GenerationState::empty(),
    );
    assert_eq!(
        ids,
        vec![
            "got-s1e1", "got-s1e2", "got-s1e3", "got-s1e4", // got, season 1
            "inv-s1e1", "inv-s1e2", "inv-s1e3", // inv, season 1
            "got-s2e1", "got-s2e2", // got, season 2
        ],
    );
}

#[test]
fn a_season_resumes_inside_its_own_season() {
    let mut pool = episodes_pool(GroupBy::Season);
    pool.advance = Advance::Resume;

    let mut state = GenerationState::empty();
    state.cursor.push(("show:got".into(), "got-s1e2".to_string()));

    let ids = build_seasons(pool, vec![step_all("shows")], Some(3), &state);
    assert_eq!(
        ids,
        vec![
            // got season 1 picks up after the episode the ledger last aired…
            "got-s1e3", "got-s1e4", //
            // …a show the cursor says nothing about is untouched…
            "inv-s1e1", "inv-s1e2", "inv-s1e3", //
            // …and got season 2, which never played, starts at its top
            // rather than inheriting its show's cursor.
            "got-s2e1", "got-s2e2",
        ],
    );
}

#[test]
fn a_movie_is_its_own_bucket_however_the_pool_is_grouped() {
    let mut pool = movies_pool();
    pool.group_by = GroupBy::Season;
    let (ids, _) = build_with(
        vec![pool],
        vec![step_all("movies")],
        Some(2),
        &GenerationState::empty(),
        7,
    );
    assert_eq!(ids, vec!["mov-1", "mov-2"], "one movie per visit");
}

#[test]
fn take_from_end_airs_the_last_episodes_in_order() {
    let ids = build_seasons(
        episodes_pool(GroupBy::Season),
        vec![step_from("shows", 3, TakeFrom::End)],
        Some(1),
        &GenerationState::empty(),
    );
    assert_eq!(ids, vec!["got-s1e2", "got-s1e3", "got-s1e4"]);
}

#[test]
fn take_from_end_of_a_short_series_is_the_whole_series() {
    let ids = build_seasons(
        episodes_pool(GroupBy::Season),
        vec![step_from("shows", 9, TakeFrom::End)],
        Some(1),
        &GenerationState::empty(),
    );
    assert_eq!(ids[0], "got-s1e1", "nowhere later to start: {ids:?}");
}

#[test]
fn take_from_random_is_consecutive_in_order_and_reproducible() {
    let run = || {
        build_seasons(
            episodes_pool(GroupBy::Season),
            vec![step_from("shows", 2, TakeFrom::Random)],
            Some(1),
            &GenerationState::empty(),
        )
    };
    let ids = run();
    assert_eq!(ids.len(), 2);
    assert_eq!(ids, run(), "same seed, same cut");
    // Whatever offset came up, the two are adjacent episodes of season 1.
    let pairs = [
        ["got-s1e1", "got-s1e2"],
        ["got-s1e2", "got-s1e3"],
        ["got-s1e3", "got-s1e4"],
    ];
    assert!(
        pairs.iter().any(|p| p[..] == ids[..]),
        "not a consecutive in-order pair: {ids:?}"
    );
}

#[test]
fn bucket_order_sequences_series_without_reordering_their_items() {
    let mut pool = episodes_pool(GroupBy::Season);
    pool.bucket_order = Some(sort_by("season:desc,episode:desc"));
    let ids = build_seasons(
        pool,
        vec![step_all("shows")],
        Some(2),
        &GenerationState::empty(),
    );
    assert_eq!(
        ids,
        vec![
            // `season:desc` puts got's season 2 ahead of every season 1,
            // so it is the first series up…
            "got-s2e1", "got-s2e2", //
            // …and got's season 1 next, since `episode:desc` places its e4
            // ahead of inv's e3. Both still play their own items in
            // `order`'s ascending sequence — the descending sort chose
            // which season came up, not how it plays.
            "got-s1e1", "got-s1e2", "got-s1e3", "got-s1e4",
        ],
    );
}

#[test]
fn derived_cycles_drain_every_season_once() {
    let ids = build_seasons(
        episodes_pool(GroupBy::Season),
        vec![step_all("shows")],
        None,
        &GenerationState::empty(),
    );
    assert_eq!(ids.len(), 9, "all three seasons aired once: {ids:?}");
}

#[test]
fn a_named_group_rotates_seasons_across_sibling_shows() {
    let (ids, _) = build_grouped(
        vec![rupaul_pool()],
        vec![rupaul_group()],
        vec![step_all("rupaul")],
        Some(3),
        &GenerationState::empty(),
        0,
    );
    assert_eq!(
        ids,
        vec![
            "dr-s9e1", "dr-s9e2", //
            "as-s3e1", "as-s3e2", //
            "dr-s10e1", "dr-s10e2",
        ],
        "rotate: visit must move to the sibling show's season next, not \
         back to the same show's next season: {ids:?}"
    );
}

#[test]
fn a_sibling_returning_around_the_group_resumes_at_its_own_position() {
    let (first, resume) = build_grouped(
        vec![resuming_pool()],
        vec![rupaul_group()],
        vec![step("rupaul", 3)],
        Some(1),
        &GenerationState::empty(),
        0,
    );
    assert_eq!(first, vec!["dr-s9e1", "dr-s9e2", "as-s3e1"]);

    let (second, _) = build_grouped(
        vec![resuming_pool()],
        vec![rupaul_group()],
        vec![step("rupaul", 3)],
        Some(1),
        &resume,
        0,
    );
    assert_eq!(
        second,
        vec!["as-s3e2", "dr-s10e1", "dr-s10e2"],
        "All Stars must resume at its own next episode, and Drag Race \
         season 10 — never touched — at its own top: {second:?}"
    );
}

#[test]
fn a_pool_referencing_an_undeclared_group_is_an_error() {
    let cat = franchise_catalog();
    let mut pool = rupaul_pool();
    pool.groups = vec!["nonesuch".into()];
    let err = build(
        &cat,
        vec![pool],
        vec![],
        vec![step_all("rupaul")],
        Some(1),
        None,
        &GenerationState::empty(),
        0,
        None,
    )
    .unwrap_err();
    assert!(err.contains("nonesuch"), "err = {err}");
}

#[test]
fn a_group_naming_a_show_not_in_the_catalog_is_an_error() {
    let cat = franchise_catalog();
    let group = ShowGroup {
        name: "rupaul".into(),
        shows: vec!["RuPaul's Drag Race".into(), "A Show Nobody Ingested".into()],
    };
    let mut pool = rupaul_pool();
    pool.groups = vec!["rupaul".into()];
    let err = build(
        &cat,
        vec![pool],
        vec![group],
        vec![step_all("rupaul")],
        Some(1),
        None,
        &GenerationState::empty(),
        0,
        None,
    )
    .unwrap_err();
    assert!(err.contains("A Show Nobody Ingested"), "err = {err}");
}

#[test]
fn one_movie_then_three_episodes_repeated() {
    let (ids, _) = build_with(
        vec![movies_pool(), shows_pool()],
        vec![step("movies", 1), step("shows", 3)],
        Some(3),
        &GenerationState::empty(),
        0,
    );
    assert_eq!(
        ids,
        vec![
            "mov-1", "got-e1", "got-e2", "got-e3", // cycle 1
            "mov-2", "inv-e1", "inv-e2", "inv-e3", // cycle 2 — rotated show
            "mov-3", "got-e4", "got-e5", "got-e6", // cycle 3 — got continues
        ]
    );
}

#[test]
fn a_movie_pool_plays_in_order_and_loops() {
    let (ids, _) = build_with(
        vec![movies_pool()],
        vec![step("movies", 1)],
        Some(5),
        &GenerationState::empty(),
        0,
    );
    assert_eq!(ids, vec!["mov-1", "mov-2", "mov-3", "mov-1", "mov-2"]);
}

#[test]
fn derived_cycles_drain_the_largest_pool() {
    let (ids, _) = build_with(
        vec![movies_pool(), shows_pool()],
        vec![step("movies", 1), step("shows", 3)],
        None,
        &GenerationState::empty(),
        0,
    );
    assert_eq!(ids.len(), 12);
    for n in 1..=6 {
        assert!(ids.contains(&format!("got-e{n}")), "missing got-e{n}");
    }
    for n in 1..=3 {
        assert!(ids.contains(&format!("inv-e{n}")), "missing inv-e{n}");
    }
}

#[test]
fn resume_continues_each_show_independently_across_windows() {
    let pools = || vec![movies_pool(), shows_pool_resumed()];
    let (first, resume) = build_with(
        pools(),
        vec![step("movies", 1), step("shows", 3)],
        Some(2),
        &GenerationState::empty(),
        0,
    );
    assert_eq!(
        first,
        vec![
            "mov-1", "got-e1", "got-e2", "got-e3", "mov-2", "inv-e1", "inv-e2", "inv-e3"
        ]
    );

    // Window 2 picks up where each show left off — got at E4, inv having
    // wrapped — without either resetting the other.
    let (second, _) = build_with(
        pools(),
        vec![step("movies", 1), step("shows", 3)],
        Some(2),
        &resume,
        0,
    );
    assert_eq!(
        second,
        vec![
            "mov-1", "got-e4", "got-e5", "got-e6", "mov-2", "inv-e1", "inv-e2", "inv-e3"
        ]
    );
}

#[test]
fn restart_ignores_the_resume_map() {
    let (_, resume) = build_with(
        vec![shows_pool()],
        vec![step("shows", 3)],
        Some(1),
        &GenerationState::empty(),
        0,
    );
    let (again, _) = build_with(
        vec![shows_pool()],
        vec![step("shows", 3)],
        Some(1),
        &resume,
        0,
    );
    assert_eq!(again, vec!["got-e1", "got-e2", "got-e3"]);
}

#[test]
fn a_vanished_cursor_restarts_only_its_own_show() {
    let mut p = shows_pool();
    p.advance = Advance::Resume;
    let mut resume = ResumeMap::new();
    resume.pools.push((
        "shows".into(),
        PoolResume { next: Some("show:inv".into()) },
    ));
    // The ledger remembers an airing whose entry has since left the
    // catalog — the id no longer resolves to anything in got's series.
    let state = GenerationState {
        resume,
        tail: Vec::new(),
        cursor: vec![
            ("show:got".to_string(), "got-e99-deleted".to_string()),
            ("show:inv".to_string(), "inv-e2".to_string()),
        ],
    };

    let (ids, _) = build_with(vec![p], vec![step("shows", 2)], Some(2), &state, 0);
    // inv continues after e2; got — its cursor gone — starts over at e1.
    assert_eq!(ids, vec!["inv-e3", "got-e1", "got-e2", "got-e3"]);
}

#[test]
fn wrap_loop_restarts_an_exhausted_show() {
    let mut p = shows_pool();
    p.expr = Some("item.show == \"inv\"".into());
    let (ids, _) = build_with(
        vec![p],
        vec![step("shows", 2)],
        Some(3),
        &GenerationState::empty(),
        0,
    );
    // 3 episodes, drawn 2 at a time, looping: e1 e2 | e3 e1 | e2 e3.
    assert_eq!(
        ids,
        vec!["inv-e1", "inv-e2", "inv-e3", "inv-e1", "inv-e2", "inv-e3"]
    );
}

#[test]
fn a_pool_played_past_its_end_starts_over_rather_than_running_dry() {
    let mut p = shows_pool();
    p.on_short = OnShort::Short;
    let (ids, _) = build_with(
        vec![p],
        vec![step("shows", 3)],
        Some(6),
        &GenerationState::empty(),
        0,
    );
    // got has 6 episodes, inv has 3. Six visits of 3 fill every slot:
    // both shows loop back to their own start instead of dropping out.
    assert_eq!(ids.len(), 18, "every visit must be filled: {ids:?}");
    assert_eq!(
        &ids[0..9],
        &[
            "got-e1", "got-e2", "got-e3", "inv-e1", "inv-e2", "inv-e3", "got-e4", "got-e5",
            "got-e6"
        ]
    );
    // The seventh visit is got's turn again and it restarts from e1.
    assert_eq!(&ids[12..15], &["got-e1", "got-e2", "got-e3"]);
}

#[test]
fn on_short_next_fills_from_the_following_show_and_continues_it() {
    let mut p = shows_pool();
    p.on_short = OnShort::Next;
    let (ids, _) = build_with(
        vec![p],
        vec![step("shows", 4)],
        Some(2),
        &GenerationState::empty(),
        0,
    );
    // got has 6: e1-4, then e5,e6 + 2 filled from inv. inv then continues
    // at e3 next visit, not back at e1.
    assert_eq!(
        ids,
        vec![
            "got-e1", "got-e2", "got-e3", "got-e4", "inv-e1", "inv-e2", "inv-e3", "got-e5"
        ]
    );
}

#[test]
fn on_short_wrap_loops_the_same_show() {
    let mut p = shows_pool();
    p.expr = Some("item.show == \"inv\"".into());
    p.on_short = OnShort::Wrap;
    let (ids, _) = build_with(
        vec![p],
        vec![step("shows", 4)],
        Some(1),
        &GenerationState::empty(),
        0,
    );
    assert_eq!(ids, vec!["inv-e1", "inv-e2", "inv-e3", "inv-e1"]);
}

#[test]
fn on_short_wrap_fills_a_take_far_larger_than_the_series() {
    let mut p = shows_pool();
    p.expr = Some("item.show == \"inv\"".into());
    p.on_short = OnShort::Wrap;
    let (ids, _) = build_with(
        vec![p],
        vec![step("shows", 10)],
        Some(1),
        &GenerationState::empty(),
        0,
    );
    assert_eq!(ids.len(), 10, "a wrap-filled visit must still emit `take`");
    assert_eq!(&ids[0..4], &["inv-e1", "inv-e2", "inv-e3", "inv-e1"]);
}

#[test]
fn on_short_short_emits_a_shorter_visit() {
    let mut p = shows_pool();
    p.expr = Some("item.show == \"inv\"".into());
    p.on_short = OnShort::Short;
    let (ids, _) = build_with(
        vec![p],
        vec![step("shows", 4)],
        Some(1),
        &GenerationState::empty(),
        0,
    );
    assert_eq!(ids, vec!["inv-e1", "inv-e2", "inv-e3"]);
}

#[test]
fn rotate_slot_spreads_a_visit_across_shows() {
    let mut p = shows_pool();
    p.rotate = Rotate::Slot;
    let (ids, _) = build_with(
        vec![p],
        vec![step("shows", 4)],
        Some(1),
        &GenerationState::empty(),
        0,
    );
    assert_eq!(ids, vec!["got-e1", "inv-e1", "got-e2", "inv-e2"]);
}

#[test]
fn select_random_preserves_each_shows_resume_point() {
    let pool = || {
        let mut p = shows_pool();
        p.select = Select::Random;
        p.advance = Advance::Resume;
        p
    };

    let (first, resume) = build_with(
        vec![pool()],
        vec![step("shows", 3)],
        Some(2),
        &GenerationState::empty(),
        7,
    );
    let (second, _) = build_with(vec![pool()], vec![step("shows", 3)], Some(2), &resume, 7);

    // Whatever the draws were, no episode from the first window repeats in
    // the second unless its show wrapped — i.e. each show continued.
    let both: Vec<&String> = first.iter().chain(second.iter()).collect();
    assert_eq!(both.len(), 12);
    let got_order: Vec<&&String> = both.iter().filter(|id| id.starts_with("got-")).collect();
    let expected: Vec<String> = (1..=got_order.len())
        .map(|n| format!("got-e{}", ((n - 1) % 6) + 1))
        .collect();
    assert_eq!(
        got_order.iter().map(|s| s.as_str()).collect::<Vec<_>>(),
        expected.iter().map(|s| s.as_str()).collect::<Vec<_>>(),
        "got must advance in order across both windows, never reset"
    );
}

#[test]
fn select_random_is_reproducible_for_a_pinned_seed() {
    let pool = || {
        let mut p = shows_pool();
        p.select = Select::Random;
        p
    };
    let (a, _) = build_with(
        vec![pool()],
        vec![step("shows", 2)],
        Some(4),
        &GenerationState::empty(),
        42,
    );
    let (b, _) = build_with(
        vec![pool()],
        vec![step("shows", 2)],
        Some(4),
        &GenerationState::empty(),
        42,
    );
    assert_eq!(a, b);
}

#[test]
fn chance_is_reproducible_and_a_skip_consumes_nothing() {
    let pattern = || {
        vec![
            step("movies", 1),
            PatternStep {
                pool: "shows".into(),
                take: Take::Count(3),
                from: TakeFrom::Start,
                chance: slices(0.3),
            },
        ]
    };
    let (a, ra) = build_with(
        vec![movies_pool(), shows_pool()],
        pattern(),
        Some(10),
        &GenerationState::empty(),
        99,
    );
    let (b, rb) = build_with(
        vec![movies_pool(), shows_pool()],
        pattern(),
        Some(10),
        &GenerationState::empty(),
        99,
    );
    assert_eq!(a, b, "a pinned seed must reproduce the skip/fire sequence");
    assert_eq!(format!("{ra:?}"), format!("{rb:?}"));

    // Some cycles fired and some skipped — otherwise this proves nothing.
    let episodes = a.iter().filter(|id| id.contains("-e")).count();
    assert!(
        episodes > 0,
        "no step ever fired at chance 0.3 over 10 cycles"
    );
    assert!(
        episodes < 30,
        "every step fired; chance = 0.3 is not being applied"
    );
    // Every movie slot still aired: a skipped `shows` step leaves the
    // movies pool alone, and the episodes that did air are a prefix of the
    // show order — a skip consumed no cursor.
    assert_eq!(a.iter().filter(|id| id.starts_with("mov-")).count(), 10);
}

#[test]
fn an_unknown_pool_in_a_step_is_an_error() {
    let cat = catalog();
    let err = build(
        &cat,
        vec![movies_pool()],
        vec![],
        vec![step("shows", 1)],
        Some(1),
        None,
        &GenerationState::empty(),
        0,
        None,
    )
    .unwrap_err();
    assert!(err.contains("unknown pool"), "err = {err}");
}

#[test]
fn an_explicit_cycles_beyond_the_cap_is_an_error() {
    let cat = catalog();
    let err = build(
        &cat,
        vec![movies_pool()],
        vec![],
        vec![step("movies", 1)],
        Some(MAX_CYCLES + 1),
        None,
        &GenerationState::empty(),
        0,
        None,
    )
    .unwrap_err();
    assert!(err.contains("maximum"), "err = {err}");
}

#[test]
fn an_empty_pool_yields_nothing() {
    let mut p = movies_pool();
    p.expr = Some("item.type == \"nonesuch\"".into());
    let cat = catalog();
    let (ids, _) = build(
        &cat,
        vec![p],
        vec![],
        vec![step("movies", 1)],
        None,
        None,
        &GenerationState::empty(),
        0,
        None,
    )
    .unwrap();
    assert!(ids.is_empty());
}

#[test]
fn a_derived_generation_stops_once_the_window_is_covered() {
    let cat = hourly_movies(24);
    let (unbounded, _) = fill_movies(&cat, None, &GenerationState::empty(), None);
    assert_eq!(unbounded.len(), 24, "drain-once is still the ceiling");

    let (bounded, _) = fill_movies(
        &cat,
        None,
        &GenerationState::empty(),
        Some(secs(4 * 3600)),
    );
    assert_eq!(
        bounded,
        vec!["mov-01", "mov-02", "mov-03", "mov-04"],
        "four hours of window should buy four hours of schedule",
    );
}

#[test]
fn an_unmeasured_item_still_spends_the_window() {
    let cat = hourly_movies(12);
    let (bounded, _) = fill_movies(
        &cat,
        None,
        &GenerationState::empty(),
        Some(secs(4 * 3600)),
    );
    assert_eq!(bounded.len(), 4, "got {bounded:?}");
}

#[test]
fn a_pool_with_no_recorded_runtimes_falls_back_to_draining_once() {
    let cat = hourly_movies(0);
    let (bounded, _) = fill_movies(
        &cat,
        None,
        &GenerationState::empty(),
        Some(secs(4 * 3600)),
    );
    assert_eq!(bounded.len(), 24, "got {bounded:?}");
}

#[test]
fn an_authored_cycle_count_ignores_the_window() {
    let cat = hourly_movies(24);
    let (ids, _) = fill_movies(
        &cat,
        Some(10),
        &GenerationState::empty(),
        Some(secs(3600)),
    );
    assert_eq!(ids.len(), 10, "got {ids:?}");
}

#[test]
fn a_bounded_generation_resumes_where_the_last_one_stopped() {
    let cat = hourly_movies(24);
    let four_hours = Some(secs(4 * 3600));

    let (first, pools) = fill_movies(&cat, None, &GenerationState::empty(), four_hours);
    let mut resume = ResumeMap::new();
    resume.pools = pools;
    // What the daemon hands the next generation: the pools' rotation from
    // the resolver, and each series' last-played id projected from the
    // play-history ledger. Every movie is its own series of one.
    let cursor = first.iter().map(|id| (id.clone(), id.clone())).collect();
    let state = GenerationState {
        resume,
        cursor,
        tail: first.clone(),
    };

    let (second, _) = fill_movies(&cat, None, &state, four_hours);

    let mut joined = first.clone();
    joined.extend(second.iter().cloned());
    assert_eq!(
        joined,
        vec![
            "mov-01", "mov-02", "mov-03", "mov-04", "mov-05", "mov-06", "mov-07", "mov-08",
        ],
        "the seam repeated or skipped: {first:?} then {second:?}",
    );
}

#[test]
fn a_pool_constraint_holds_across_the_generation_seam() {
    let mut movies = movies_pool();
    movies.constraints = Some(no_repeat(1));
    let ids = build_pools(
        vec![movies],
        vec![step("movies", 1)],
        Some(3),
        None,
        &aired(&["mov-1"]),
    );
    assert_ne!(ids[0], "mov-1", "the seam repeats: {ids:?}");
    let mut sorted = ids.clone();
    sorted.sort();
    assert_eq!(
        sorted,
        vec!["mov-1", "mov-2", "mov-3"],
        "the pass reorders, it does not drop: {ids:?}"
    );
}

#[test]
fn a_temporal_pool_constraint_holds_across_the_generation_seam() {
    let mut movies = movies_pool();
    movies.constraints = Some(no_repeat_within(secs(3600)));
    let ids = build_pools(
        vec![movies],
        vec![step("movies", 1)],
        Some(3),
        None,
        &aired(&["mov-1"]),
    );
    assert_ne!(ids[0], "mov-1", "the seam repeats: {ids:?}");
    let mut sorted = ids.clone();
    sorted.sort();
    assert_eq!(
        sorted,
        vec!["mov-1", "mov-2", "mov-3"],
        "the pass reorders, it does not drop: {ids:?}"
    );
}

#[test]
fn a_temporal_gap_lets_the_seam_repeat_once_the_tail_item_alone_covers_it() {
    let cat = movies_with_a_long_one();
    let mut movies = movies_pool();
    movies.constraints = Some(no_repeat_within(secs(90 * 60)));
    let (ids, _) = build(
        &cat,
        vec![movies],
        vec![],
        vec![step("movies", 1)],
        Some(3),
        None,
        &aired(&["mov-1"]),
        0,
        None,
    )
    .unwrap();
    assert_eq!(
        ids[0], "mov-1",
        "the 3h tail item alone already covers a 90m window; the list was needlessly reordered: {ids:?}"
    );
}

#[test]
fn a_pool_constraint_leaves_the_pattern_shape_intact() {
    let mut movies = movies_pool();
    movies.constraints = Some(no_repeat(3));
    let ids = build_pools(
        vec![movies, shows_pool()],
        vec![step("movies", 2), step("shows", 3)],
        Some(2),
        None,
        &aired(&["mov-1", "mov-2"]),
    );
    assert_eq!(ids.len(), 10, "{ids:?}");
    for (i, chunk) in ids.chunks(5).enumerate() {
        assert!(
            chunk[0..2].iter().all(|id| id.starts_with("mov-")),
            "cycle {i} should open with two movies: {chunk:?}"
        );
        assert!(
            chunk[2..5].iter().all(|id| !id.starts_with("mov-")),
            "cycle {i} should continue with three episodes: {chunk:?}"
        );
    }
}

#[test]
fn a_block_constraint_is_inherited_by_a_pool_that_declares_none() {
    let ids = build_pools(
        vec![movies_pool()],
        vec![step("movies", 1)],
        Some(3),
        Some(&no_repeat(1)),
        &aired(&["mov-1"]),
    );
    assert_ne!(
        ids[0], "mov-1",
        "the block default did not reach the pool: {ids:?}"
    );
}

#[test]
fn a_pool_table_replaces_the_block_default_rather_than_merging() {
    let mut movies = movies_pool();
    movies.constraints = Some(Constraints {
        no_repeat_within: None,
        separate_by: Some("genres".into()),
        separate_min_gap: Some(1),
    });
    let ids = build_pools(
        vec![movies],
        vec![step("movies", 1)],
        Some(3),
        Some(&no_repeat(1)),
        &aired(&["mov-1"]),
    );
    assert_eq!(ids, vec!["mov-1", "mov-2", "mov-3"], "{ids:?}");
}

#[test]
fn an_unconstrained_pool_keeps_its_own_order() {
    let ids = build_pools(
        vec![movies_pool()],
        vec![step("movies", 1)],
        Some(3),
        None,
        &aired(&["mov-1"]),
    );
    assert_eq!(ids, vec!["mov-1", "mov-2", "mov-3"]);
}

#[test]
fn a_pool_constraint_stops_the_rotation_replaying_a_series() {
    let plain = build_pools(
        vec![movies_pool()],
        vec![step("movies", 2)],
        Some(2),
        None,
        &GenerationState::empty(),
    );
    // Baseline: the parking rule really does replay mov-2 back-to-back, so
    // the assertion below is testing something that would otherwise fail.
    assert!(
        plain.windows(2).any(|w| w[0] == w[1]),
        "expected the unconstrained rotation to repeat: {plain:?}"
    );

    let mut movies = movies_pool();
    movies.constraints = Some(no_repeat(1));
    let ids = build_pools(
        vec![movies],
        vec![step("movies", 2)],
        Some(2),
        None,
        &GenerationState::empty(),
    );
    assert_eq!(ids.len(), plain.len(), "the visit still fills: {ids:?}");
    assert!(
        ids.windows(2).all(|w| w[0] != w[1]),
        "a draw repeats under no_repeat_within = 1: {ids:?}"
    );
}

#[test]
fn a_wider_gap_spaces_the_draw_sequence_further() {
    let mut movies = movies_pool();
    movies.constraints = Some(no_repeat(3));
    let ids = build_pools(
        vec![movies],
        vec![step("movies", 1)],
        Some(3),
        None,
        &GenerationState::empty(),
    );
    let mut sorted = ids.clone();
    sorted.sort();
    assert_eq!(sorted, vec!["mov-1", "mov-2", "mov-3"], "{ids:?}");
}

#[test]
fn a_pool_that_cannot_satisfy_its_constraint_still_airs() {
    let mut movies = movies_pool();
    movies.expr = Some("item.title == \"Title mov-1\"".into());
    movies.order = None;
    movies.constraints = Some(no_repeat(1));
    let ids = build_pools(
        vec![movies],
        vec![step("movies", 2)],
        Some(2),
        None,
        &GenerationState::empty(),
    );
    assert_eq!(ids, vec!["mov-1", "mov-1", "mov-1", "mov-1"], "{ids:?}");
}

#[test]
fn a_random_pool_rerolls_rather_than_sliding_to_the_neighbour() {
    let ids = build_pools(
        vec![random_movies()],
        vec![step("movies", 1)],
        Some(6),
        None,
        &GenerationState::empty(),
    );
    assert_eq!(ids.len(), 6, "{ids:?}");
    assert!(
        ids.windows(2).all(|w| w[0] != w[1]),
        "a random draw repeats back-to-back: {ids:?}"
    );
    let again = build_pools(
        vec![random_movies()],
        vec![step("movies", 1)],
        Some(6),
        None,
        &GenerationState::empty(),
    );
    assert_eq!(ids, again, "the reroll is not reproducible");
}

#[test]
fn the_draw_check_reads_the_generation_seam() {
    let mut movies = movies_pool();
    movies.constraints = Some(no_repeat(2));
    let ids = build_pools(
        vec![movies],
        vec![step("movies", 1)],
        Some(1),
        None,
        &aired(&["mov-3", "mov-1"]),
    );
    assert_eq!(ids, vec!["mov-2"], "{ids:?}");
}

#[test]
fn the_seam_ignores_aired_items_from_other_pools() {
    let mut movies = movies_pool();
    movies.constraints = Some(no_repeat(1));
    let ids = build_pools(
        vec![movies],
        vec![step("movies", 1)],
        Some(3),
        None,
        &aired(&["got-e1"]),
    );
    assert_eq!(ids, vec!["mov-1", "mov-2", "mov-3"]);
}

#[test]
fn a_window_takes_whole_cycles_of_the_schedule_without_one() {
    let hour = 60 * 60 * 1000;
    let cat = catalog_of((1..=8).map(|i| movie(&format!("mov-{i}"), Some(hour))).collect());
    for rule in [None, Some(no_repeat(2)), Some(no_repeat_within(secs(7200)))] {
        let run = |fill: Option<u64>| {
            let mut pool = movies_pool();
            pool.constraints = match &rule {
                Some(Constraints { no_repeat_within: Some(NoRepeatWithin::Positions(n)), .. }) => {
                    Some(no_repeat(*n))
                }
                Some(_) => Some(no_repeat_within(secs(7200))),
                None => None,
            };
            let steps = vec![step("movies", 2)];
            build(&cat, vec![pool], vec![], steps, None, None, &GenerationState::empty(), 3, fill)
                .unwrap()
                .0
        };
        let whole = run(None);
        assert_eq!(whole.len(), 8);
        assert_eq!(run(Some(0)).len(), 0);
        assert_eq!(run(Some(1)), whole[..2]);
        assert_eq!(run(Some(secs(7200))), whole[..2]);
        assert_eq!(run(Some(secs(7201))), whole[..4]);
        assert_eq!(run(Some(secs(1_000_000))), whole);
    }
}

#[test]
fn a_serving_of_nothing_moves_nothing() {
    let cat = movies_with_a_long_one();
    let pool = movies_pool();
    let ids: Vec<String> = ["mov-1", "mov-2", "mov-3"].iter().map(|s| s.to_string()).collect();
    let catalog = cat.borrow();
    let mut run =
        pool_runtime(&catalog, &pool, ids, None, &GenerationState::empty(), false).unwrap();
    let roll = RollKey { seed: 1, cycle: 0, step: 0 };
    run.rotation = 1;
    assert!(run.serve(Take::Count(0), TakeFrom::Start, &roll, 0).is_empty());
    assert_eq!(run.rotation, 1);
    assert!(run.series.iter().all(|s| s.cursor == 0));
    assert!(run.serve(Take::Count(0), TakeFrom::End, &roll, 0).is_empty());
    assert!(run.series.iter().all(|s| s.cursor < s.ids.len()));
    assert_eq!(run.serve(Take::Count(1), TakeFrom::Start, &roll, 0), ["mov-2"]);
    assert_eq!(run.rotation, 2);
}
