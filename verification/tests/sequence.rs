use etv_station::arrange::build_from_script;
use etv_station::catalog::{Catalog, Entry, EntrySource, Ordered, Reply, Source, Tags};
use etv_station::config::{
    Advance, Constraints, GroupBy, OnShort, Order, Pool, Rotate, Select,
};
use etv_station::fault::ResolveError;
use etv_station::resume::{GenerationState, PoolResume, ResumeMap};
use etv_station::roll::splitmix64;
use etv_station::score::SourceRead;
use etv_station::sequence::Window;

const SEC: u64 = 1_000_000_000;

// ---- a stand-in for the catalog's own query and ordering work ----

fn entry(id: &str, kind: &str, title: String) -> Entry {
    Entry {
        entry_id: id.into(),
        kind: kind.into(),
        title,
        title_sort: None,
        show: None,
        show_id: None,
        season: None,
        episode: None,
        absolute_episode: None,
        edition: None,
        studio: None,
        year: None,
        release_date: None,
        duration_ms: None,
        content_rating: None,
        library: None,
        summary: None,
        artwork_cache_path: None,
        missing: false,
        external: vec![],
        tags: Tags {
            genres: vec![],
            labels: vec![],
            cast: vec![],
            directors: vec![],
            writers: vec![],
            producers: vec![],
            countries: vec![],
        },
        sources: vec![EntrySource {
            source: Source::LocalFs,
            source_id: format!("fs-{id}"),
            playback_path: format!("/media/{id}.mkv"),
            stale: false,
        }],
    }
}

fn text_field<'a>(e: &'a Entry, name: &str) -> &'a str {
    match name {
        "type" => &e.kind,
        "title" => &e.title,
        "show" => e.show.as_deref().unwrap_or(""),
        "release_date" => e.release_date.as_deref().unwrap_or(""),
        other => panic!("no such field: {other}"),
    }
}

fn unquoted(s: &str) -> &str {
    s.trim().trim_matches('"')
}

fn atom_holds(e: &Entry, atom: &str) -> bool {
    let atom = atom.trim();
    if let Some((field, value)) = atom.split_once("==") {
        text_field(e, field.trim().strip_prefix("item.").unwrap()) == unquoted(value)
    } else if let Some((field, bound)) = atom.split_once(">=") {
        assert_eq!(field.trim(), "item.year");
        e.year.is_some_and(|year| year >= bound.trim().parse::<i64>().unwrap())
    } else {
        let (field, rest) = atom.split_once(".contains(").unwrap();
        let value = unquoted(rest.strip_suffix(')').unwrap());
        text_field(e, field.strip_prefix("item.").unwrap()).contains(value)
    }
}

fn query_holds(e: &Entry, query: &str) -> bool {
    query.split("||").any(|either| either.split("&&").all(|atom| atom_holds(e, atom)))
}

fn sort_key(e: &Entry, name: &str) -> (i64, String) {
    match name {
        "season" => (e.season.unwrap_or(0), String::new()),
        "episode" => (e.episode.unwrap_or(0), String::new()),
        text => (0, text_field(e, text).to_string()),
    }
}

fn answer_query(catalog: &mut Catalog, query: &str) {
    let mut found: Vec<String> = catalog
        .entries
        .iter()
        .filter(|e| query_holds(e, query))
        .map(|e| e.entry_id.clone())
        .collect();
    found.sort();
    catalog.queries.push((query.to_string(), Reply::Items(found)));
}

fn answer_order(catalog: &mut Catalog, ids: &[String], order: &Order, seed: u64) {
    let mut out = ids.to_vec();
    let asked = match order {
        Order::Manual => Order::Manual,
        Order::Random => {
            let mut state = seed;
            for i in (1..out.len()).rev() {
                let j = splitmix64(&mut state) as usize % (i + 1);
                out.swap(i, j);
            }
            Order::Random
        }
        Order::Sort(fields) => {
            out.retain(|id| catalog.entries.iter().any(|e| e.entry_id == *id));
            for field in fields.split(',').rev() {
                let (name, direction) = field.split_once(':').unwrap();
                let key = |id: &String| {
                    let e = catalog.entries.iter().find(|e| e.entry_id == *id).unwrap();
                    sort_key(e, name)
                };
                if direction == "desc" {
                    out.sort_by(|a, b| key(b).cmp(&key(a)));
                } else {
                    out.sort_by(|a, b| key(a).cmp(&key(b)));
                }
            }
            Order::Sort(fields.clone())
        }
    };
    catalog.orders.push(Ordered {
        ids: ids.to_vec(),
        order: asked,
        seed,
        reply: Reply::Items(out),
    });
}

/// Answers what the library asked for; false where it asked for nothing.
fn answer(catalog: &mut Catalog, error: &ResolveError) -> bool {
    match error {
        ResolveError::UnansweredQuery { query } => {
            let query = query.clone();
            answer_query(catalog, &query);
            true
        }
        ResolveError::UnansweredOrder { ids, order, seed } => {
            answer_order(catalog, ids, order, *seed);
            true
        }
        _ => false,
    }
}

fn sort_by(fields: &str) -> Order {
    Order::Sort(fields.into())
}

fn catalog() -> Catalog {
    let mut entries = Vec::new();
    let mut put = |id: &str, kind: &str, show: Option<(&str, i64, i64)>, ms: i64| {
        let mut e = entry(id, kind, format!("Title {id}"));
        e.duration_ms = Some(ms);
        if let Some((show_id, season, episode)) = show {
            e.show_id = Some(show_id.to_string());
            e.show = Some(show_id.trim_start_matches("show:").to_string());
            e.season = Some(season);
            e.episode = Some(episode);
        }
        entries.push(e);
    };
    for n in 1..=2 {
        put(&format!("mov-{n}"), "movie", None, 30_000);
    }
    for n in 1..=4 {
        put(&format!("got-e{n}"), "episode", Some(("show:got", 1, n)), 30_000);
    }
    for n in 1..=4 {
        put(&format!("inv-e{n}"), "episode", Some(("show:inv", 1, n)), 30_000);
    }
    Catalog { entries, collections: vec![], episodes: vec![], queries: vec![], orders: vec![] }
}

fn pool(name: &str, expr: &str) -> Pool {
    Pool {
        name: name.into(),
        expr: Some(expr.into()),
        plugin: None,
        sources: None,
        groups: Vec::new(),
        order: Some(sort_by("title:asc")),
        bucket_order: None,
        group_by: GroupBy::Show,
        select: Select::RoundRobin,
        rotate: Rotate::Visit,
        advance: Advance::Restart,
        on_short: OnShort::Next,
        constraints: None,
        config: None,
        capabilities: Vec::new(),
        datastores: Vec::new(),
        guide: None,
    }
}

type Resumes = Vec<(String, PoolResume)>;

fn build(
    catalog: &mut Catalog,
    pools: &Vec<Pool>,
    block: Option<&Constraints>,
    script: &str,
    state: &GenerationState,
    window: Window,
) -> Result<(Vec<String>, Resumes), String> {
    let path = "/plugins/sequencer.rhai".to_string();
    let read = SourceRead::Text(script.to_string());
    loop {
        let out = build_from_script(
            catalog,
            pools,
            &vec![],
            &vec![],
            block,
            &path,
            &read,
            state,
            window,
            0,
        );
        match out {
            Ok(made) => return Ok(made),
            Err(error) => {
                if !answer(catalog, &error) {
                    return Err(error.message());
                }
            }
        }
    }
}

fn next_of<'a>(resumes: &'a Resumes, pool: &str) -> &'a PoolResume {
    &resumes.iter().find(|(name, _)| name == pool).unwrap().1
}

#[test]
fn arrange_decides_the_order() {
    let script = r#"
fn hooks() { ["sequencer"] }
fn arrange(ctx) {
    let ids = [];
    for item in ctx.pools.movies { ids.push(item.entry_id); }
    ids.reverse();
    ids
}
"#;
    let mut cat = catalog();
    let pools = vec![pool("movies", "item.type == \"movie\"")];
    let (ids, _) = build(
        &mut cat,
        &pools,
        None,
        script,
        &GenerationState::empty(),
        Window { from: 0, fill: None },
    )
    .unwrap();
    assert_eq!(ids, vec!["mov-2", "mov-1"]);
}

#[test]
fn item_maps_carry_duration_and_window_carries_the_clock() {
    let script = r#"
fn hooks() { ["sequencer"] }
fn arrange(ctx) {
    let item = ctx.pools.movies[0];
    if item.duration_ms != 30000 { throw "duration missing: " + item.duration_ms; }
    if ctx.window.from != 12345 { throw "window.from missing"; }
    if ctx.window.fill_secs != 600 { throw "window.fill_secs missing"; }
    ["mov-1"]
}
"#;
    let mut cat = catalog();
    let pools = vec![pool("movies", "item.type == \"movie\"")];
    let (ids, _) = build(
        &mut cat,
        &pools,
        None,
        script,
        &GenerationState::empty(),
        Window { from: 12345, fill: Some(600 * SEC) },
    )
    .unwrap();
    assert_eq!(ids, vec!["mov-1"]);
}

#[test]
fn two_pools_advance_differently_under_one_sequencer() {
    let script = r#"
fn hooks() { ["sequencer"] }
fn arrange(ctx) {
    // `movies` always restarts: ignore ctx.resume/ctx.cursor entirely.
    let out = [];
    for item in ctx.pools.movies { out.push(item.entry_id); }
    // `shows` resumes: start after whatever the ledger last recorded for
    // this series, ignoring the freshly-resolved top.
    let last = ctx.cursor["show:got"];
    let started = last == ();
    for item in ctx.pools.shows {
        if started { out.push(item.entry_id); }
        if item.entry_id == last { started = true; }
    }
    out
}
"#;
    let mut cat = catalog();
    let pools = vec![pool("movies", "item.type == \"movie\""), {
        let mut p = pool("shows", "item.type == \"episode\" && item.show == \"got\"");
        p.order = Some(sort_by("season:asc,episode:asc"));
        p
    }];
    let mut state = GenerationState::empty();
    state.cursor.push(("show:got".into(), "got-e2".to_string()));

    let (ids, _) = build(
        &mut cat,
        &pools,
        None,
        script,
        &state,
        Window { from: 0, fill: None },
    )
    .unwrap();
    // movies restarted from the top; shows resumed after got-e2.
    assert_eq!(ids, vec!["mov-1", "mov-2", "got-e3", "got-e4"]);
}

#[test]
fn an_item_outside_every_pool_fails_and_names_the_item() {
    let script = r#"
fn hooks() { ["sequencer"] }
fn arrange(ctx) { ["nonexistent-id"] }
"#;
    let mut cat = catalog();
    let pools = vec![pool("movies", "item.type == \"movie\"")];
    let err = build(
        &mut cat,
        &pools,
        None,
        script,
        &GenerationState::empty(),
        Window { from: 0, fill: None },
    )
    .unwrap_err();
    assert!(err.contains("nonexistent-id"), "got {err}");
    assert!(err.contains("not in any"), "got {err}");
}

#[test]
fn a_short_timeline_is_returned_as_is() {
    let script = r#"
fn hooks() { ["sequencer"] }
fn arrange(ctx) { ["mov-1"] }
"#;
    let mut cat = catalog();
    let pools = vec![pool("movies", "item.type == \"movie\"")];
    let (ids, _) = build(
        &mut cat,
        &pools,
        None,
        script,
        &GenerationState::empty(),
        Window { from: 0, fill: Some(3600 * SEC) },
    )
    .unwrap();
    assert_eq!(ids, vec!["mov-1"]);
}

#[test]
fn an_overrunning_timeline_is_truncated_at_the_boundary() {
    let script = r#"
fn hooks() { ["sequencer"] }
fn arrange(ctx) {
    let ids = [];
    for item in ctx.pools.shows { ids.push(item.entry_id); }
    ids
}
"#;
    let mut cat = catalog();
    let pools = vec![{
        let mut p = pool("shows", "item.type == \"episode\" && item.show == \"got\"");
        p.order = Some(sort_by("season:asc,episode:asc"));
        p
    }];
    // Every episode is 30s; a 65s window fits two whole episodes and
    // then the one that crosses the boundary — three, not all four.
    let (ids, _) = build(
        &mut cat,
        &pools,
        None,
        script,
        &GenerationState::empty(),
        Window { from: 0, fill: Some(65 * SEC) },
    )
    .unwrap();
    assert_eq!(ids, vec!["got-e1", "got-e2", "got-e3"]);
}

#[test]
fn resume_reports_the_series_after_the_last_one_drawn() {
    let script = r#"
fn hooks() { ["sequencer"] }
fn arrange(ctx) {
    // Draw one episode from the `got` series only.
    ["got-e1"]
}
"#;
    let mut cat = catalog();
    let pools = vec![{
        let mut p = pool("shows", "item.type == \"episode\"");
        p.order = Some(sort_by("show:asc,season:asc,episode:asc"));
        p
    }];
    let (_, resume) = build(
        &mut cat,
        &pools,
        None,
        script,
        &GenerationState::empty(),
        Window { from: 0, fill: None },
    )
    .unwrap();
    // Two series in the pool: got and inv. Having drawn from got, the
    // successor series is inv.
    assert_eq!(
        next_of(&resume, "shows").next.as_deref(),
        Some("show:inv")
    );
}

#[test]
fn an_undrawn_pool_reports_no_resume_state() {
    let script = r#"
fn hooks() { ["sequencer"] }
fn arrange(ctx) { ["mov-1"] }
"#;
    let mut cat = catalog();
    let pools = vec![
        pool("movies", "item.type == \"movie\""),
        pool("shows", "item.type == \"episode\""),
    ];
    let (_, resume) = build(
        &mut cat,
        &pools,
        None,
        script,
        &GenerationState::empty(),
        Window { from: 0, fill: None },
    )
    .unwrap();
    assert!(next_of(&resume, "shows").next.is_none());
}

#[test]
fn resume_next_reaches_arrange_as_ctx_resume() {
    let script = r#"
fn hooks() { ["sequencer"] }
fn arrange(ctx) {
    if ctx.resume.movies.next != "show:whatever" { throw "resume.next missing"; }
    ["mov-1"]
}
"#;
    let mut cat = catalog();
    let pools = vec![pool("movies", "item.type == \"movie\"")];
    let mut resume_map = ResumeMap::new();
    resume_map.pools.push((
        "movies".into(),
        PoolResume { next: Some("show:whatever".into()) },
    ));
    let state = GenerationState {
        resume: resume_map,
        cursor: Vec::new(),
        tail: Vec::new(),
    };
    let (ids, _) = build(
        &mut cat,
        &pools,
        None,
        script,
        &state,
        Window { from: 0, fill: None },
    )
    .unwrap();
    assert_eq!(ids, vec!["mov-1"]);
}
