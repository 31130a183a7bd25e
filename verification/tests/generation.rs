use std::cell::RefCell;
use std::sync::Arc;

use etv_station::catalog::{Catalog, Entry, EntrySource, Ordered, Reply, Source, Tags};
use etv_station::config::{
    Advance, Constraints, Filter, GroupBy, Mode, OnShort, Order, PatternStep, Pool, Rotate,
    Select, Take, TakeFrom,
};
use etv_station::datastore::{Answered, EnrichmentFact, Question};
use etv_station::fault::ResolveError;
use etv_station::generate;
use etv_station::item::{GuideConfig, ItemEntry, ResolvedItem, SourceConfig};
use etv_station::pattern::PluginReply;
use etv_station::rank::{hand_on, rank_pools, Ranking};
use etv_station::resolve::{
    BlockEntry, BlockInclude, ChannelConfig, Context, Fallback, QueryEntry, Replies,
};
use etv_station::resume::{GenerationState, ResumeMap};
use etv_station::roll::{splitmix64, CHANCE_WHOLE};
use etv_station::score::{DatastoreGrant, ScoreEnv, ScoreInputs, SourceRead};
use etv_station::script::ScriptValue;
use etv_station::sequence::Window;
use etv_station::sources::PoolSources;

// ---- a stand-in for the catalog's own query and ordering work ----

fn entry(id: &str, kind: &str, title: String) -> Entry {
    Entry {
        entry_id: id.into(),
        kind: kind.into(),
        title,
        title_sort: None,
        show: None,
        show_id: None,
        season: None,
        episode: None,
        absolute_episode: None,
        edition: None,
        studio: None,
        year: None,
        release_date: None,
        duration_ms: None,
        content_rating: None,
        library: None,
        summary: None,
        artwork_cache_path: None,
        missing: false,
        external: vec![],
        tags: Tags {
            genres: vec![],
            labels: vec![],
            cast: vec![],
            directors: vec![],
            writers: vec![],
            producers: vec![],
            countries: vec![],
        },
        sources: vec![EntrySource {
            source: Source::LocalFs,
            source_id: format!("fs-{id}"),
            playback_path: format!("/media/{id}.mkv"),
            stale: false,
        }],
    }
}

fn text_field<'a>(e: &'a Entry, name: &str) -> &'a str {
    match name {
        "type" => &e.kind,
        "title" => &e.title,
        "show" => e.show.as_deref().unwrap_or(""),
        "release_date" => e.release_date.as_deref().unwrap_or(""),
        other => panic!("no such field: {other}"),
    }
}

fn unquoted(s: &str) -> &str {
    s.trim().trim_matches('"')
}

fn atom_holds(e: &Entry, atom: &str) -> bool {
    let atom = atom.trim();
    if let Some((field, value)) = atom.split_once("==") {
        text_field(e, field.trim().strip_prefix("item.").unwrap()) == unquoted(value)
    } else if let Some((field, bound)) = atom.split_once(">=") {
        assert_eq!(field.trim(), "item.year");
        e.year.is_some_and(|year| year >= bound.trim().parse::<i64>().unwrap())
    } else {
        let (field, rest) = atom.split_once(".contains(").unwrap();
        let value = unquoted(rest.strip_suffix(')').unwrap());
        text_field(e, field.strip_prefix("item.").unwrap()).contains(value)
    }
}

fn query_holds(e: &Entry, query: &str) -> bool {
    query.split("||").any(|either| either.split("&&").all(|atom| atom_holds(e, atom)))
}

fn sort_key(e: &Entry, name: &str) -> (i64, String) {
    match name {
        "season" => (e.season.unwrap_or(0), String::new()),
        "episode" => (e.episode.unwrap_or(0), String::new()),
        text => (0, text_field(e, text).to_string()),
    }
}

fn answer_query(catalog: &mut Catalog, query: &str) {
    let mut found: Vec<String> = catalog
        .entries
        .iter()
        .filter(|e| query_holds(e, query))
        .map(|e| e.entry_id.clone())
        .collect();
    found.sort();
    catalog.queries.push((query.to_string(), Reply::Items(found)));
}

fn answer_order(catalog: &mut Catalog, ids: &[String], order: &Order, seed: u64) {
    let mut out = ids.to_vec();
    let asked = match order {
        Order::Manual => Order::Manual,
        Order::Random => {
            let mut state = seed;
            for i in (1..out.len()).rev() {
                let j = splitmix64(&mut state) as usize % (i + 1);
                out.swap(i, j);
            }
            Order::Random
        }
        Order::Sort(fields) => {
            out.retain(|id| catalog.entries.iter().any(|e| e.entry_id == *id));
            for field in fields.split(',').rev() {
                let (name, direction) = field.split_once(':').unwrap();
                let key = |id: &String| {
                    let e = catalog.entries.iter().find(|e| e.entry_id == *id).unwrap();
                    sort_key(e, name)
                };
                if direction == "desc" {
                    out.sort_by(|a, b| key(b).cmp(&key(a)));
                } else {
                    out.sort_by(|a, b| key(a).cmp(&key(b)));
                }
            }
            Order::Sort(fields.clone())
        }
    };
    catalog.orders.push(Ordered {
        ids: ids.to_vec(),
        order: asked,
        seed,
        reply: Reply::Items(out),
    });
}

/// Answers what the library asked for; false where it asked for nothing.
fn answer(catalog: &mut Catalog, error: &ResolveError) -> bool {
    match error {
        ResolveError::UnansweredQuery { query } => {
            let query = query.clone();
            answer_query(catalog, &query);
            true
        }
        ResolveError::UnansweredOrder { ids, order, seed } => {
            answer_order(catalog, ids, order, *seed);
            true
        }
        _ => false,
    }
}

fn sort_by(fields: &str) -> Order {
    Order::Sort(fields.into())
}

fn catalog_of(entries: Vec<Entry>) -> RefCell<Catalog> {
    let mut episodes: Vec<(String, Vec<String>)> = Vec::new();
    for e in &entries {
        if let Some(show) = &e.show {
            match episodes.iter_mut().find(|(name, _)| name == show) {
                Some((_, ids)) => ids.push(e.entry_id.clone()),
                None => episodes.push((show.clone(), vec![e.entry_id.clone()])),
            }
        }
    }
    RefCell::new(Catalog {
        entries,
        collections: vec![],
        episodes,
        queries: vec![],
        orders: vec![],
    })
}

fn item_entry_secs(id: &str, seconds: u64) -> ItemEntry {
    ItemEntry {
        source: SourceConfig::Lavfi { params: id.into() },
        in_point: None,
        out_point: Some(secs(seconds)),
        program: None,
        guide: None,
    }
}

fn item_entry(id: &str) -> ItemEntry {
    item_entry_secs(id, 30)
}

fn include_with(entries: Vec<BlockEntry>) -> BlockInclude {
    BlockInclude {
        program: None,
        guide: None,
        duplicates: None,
        constraints: None,
        entries,
        fallback: None,
        pools: Vec::new(),
        pattern: Vec::new(),
        cycles: None,
        sequencer: None,
        mode: Mode::All,
        order: Some(Order::Manual),
        filter: None,
    }
}

fn channel(blocks: Vec<BlockInclude>) -> ChannelConfig {
    ChannelConfig {
        seed: None,
        nominal_item_secs: None,
        guide: None,
        groups: Vec::new(),
        blocks,
    }
}

/// Two movies, a show of four episodes and a show of two.
fn interleave_catalog() -> RefCell<Catalog> {
    let mut entries = Vec::new();
    let mut put = |id: &str, kind: &str, show: Option<(&str, i64)>| {
        let mut e = entry(id, kind, format!("Title {id}"));
        if let Some((show_id, number)) = show {
            e.show_id = Some(show_id.into());
            e.show = Some(show_id.trim_start_matches("show:").to_string());
            e.season = Some(1);
            e.episode = Some(number);
        }
        entries.push(e);
    };
    put("mov-1", "movie", None);
    put("mov-2", "movie", None);
    for n in 1..=4 {
        put(&format!("got-e{n}"), "episode", Some(("show:got", n)));
    }
    for n in 1..=2 {
        put(&format!("inv-e{n}"), "episode", Some(("show:inv", n)));
    }
    catalog_of(entries)
}

fn pool_of(name: &str, expr: Option<&str>, order: Option<Order>, advance: Advance) -> Pool {
    Pool {
        name: name.into(),
        expr: expr.map(|e| e.into()),
        plugin: None,
        sources: None,
        groups: Vec::new(),
        order,
        bucket_order: None,
        group_by: GroupBy::Show,
        select: Select::RoundRobin,
        rotate: Rotate::Visit,
        advance,
        on_short: OnShort::Next,
        constraints: None,
        config: None,
        capabilities: Vec::new(),
        datastores: Vec::new(),
        guide: None,
    }
}

fn step(pool: &str, take: Take) -> PatternStep {
    PatternStep { pool: pool.into(), take, from: TakeFrom::Start, chance: CHANCE_WHOLE }
}

fn secs(n: u64) -> u64 {
    n * 1_000_000_000
}

const BASE: &str = "/etc/channels";

fn inputs() -> ScoreInputs {
    ScoreInputs {
        target_count: 10,
        history: vec![],
        recent: vec![],
        now: 1_700_000_000,
        stores: vec![],
    }
}

fn window(fill: Option<u64>) -> Window {
    Window { from: 1_700_000_000, fill }
}

fn script(path: &str, text: &str) -> (String, SourceRead) {
    (path.to_string(), SourceRead::Text(text.to_string()))
}

/// What the datastore of these tests knows of an item: its own identity, as its mood.
fn mood_of(question: &Question) -> Answered {
    match question.clone() {
        Question::EnrichmentFor { item_id, namespace } => {
            let fact = EnrichmentFact {
                namespace: namespace.clone(),
                key: "tone".into(),
                value: ScriptValue::Text(item_id.clone()),
                fetched_at: ScriptValue::Unit,
            };
            Answered::EnrichmentFor { item_id, namespace, reply: Ok(vec![fact]) }
        }
        Question::PooledTasteVector => {
            Answered::PooledTasteVector { reply: Err("no such table".into()) }
        }
        other => panic!("{other:?}"),
    }
}

/// One generation, with what it asks for handed to it from `catalog` and `on_disk`.
fn run(
    config: &ChannelConfig,
    catalog: Option<&RefCell<Catalog>>,
    on_disk: &[(String, SourceRead)],
    state: &GenerationState,
    fill: Option<u64>,
) -> Result<(Vec<ResolvedItem>, ResumeMap), String> {
    let mut inputs = inputs();
    let mut scripts: Vec<(String, SourceRead)> = vec![];
    loop {
        let env = ScoreEnv { inputs: &inputs, base_dir: BASE };
        let held = catalog.map(|c| c.borrow());
        let out = generate::generate(
            config,
            held.as_deref(),
            &env,
            &scripts,
            state,
            7,
            window(fill),
            &vec![],
            None,
        );
        drop(held);
        let error = match out {
            Ok(made) => return Ok(made),
            Err(error) => error,
        };
        let served = match (&error.error, catalog) {
            (ResolveError::UnreadScript { path }, _) => {
                let read = match on_disk.iter().find(|(p, _)| p == path) {
                    Some((_, SourceRead::Text(text))) => SourceRead::Text(text.clone()),
                    Some((_, SourceRead::Failed(why))) => SourceRead::Failed(why.clone()),
                    None => SourceRead::Failed("no such file".into()),
                };
                scripts.push((path.clone(), read));
                true
            }
            (ResolveError::UnansweredDatastore { store, question }, _) => {
                assert_eq!(error.block, Some(0));
                let answered = mood_of(question);
                match inputs.stores.iter_mut().find(|(at, _)| at == store) {
                    Some((_, known)) => Arc::get_mut(known).unwrap().push(answered),
                    None => inputs.stores.push((store.clone(), Arc::new(vec![answered]))),
                }
                true
            }
            (_, Some(c)) => answer(&mut c.borrow_mut(), &error.error),
            _ => false,
        };
        if !served {
            return Err(error.message());
        }
    }
}

fn ids(items: &[ResolvedItem]) -> Vec<&str> {
    items.iter().map(|i| i.id.as_str()).collect()
}

fn plugin_pool(name: &str, plugin: &str) -> Pool {
    let mut pool = pool_of(name, None, None, Advance::Restart);
    pool.plugin = Some(plugin.into());
    pool.capabilities = vec!["catalog_read".into()];
    pool
}

fn drawn(pools: Vec<Pool>, pattern: Vec<PatternStep>, cycles: usize) -> BlockInclude {
    let mut inc = include_with(vec![]);
    inc.pools = pools;
    inc.pattern = pattern;
    inc.cycles = Some(cycles);
    inc
}

const REVERSED: &str = r#"
fn hooks() { ["pick"] }
fn sources() { #{ "films": "item.type == \"movie\"" } }
fn pick(ctx) {
    let out = [];
    for item in ctx.sets.films { out.push(item.entry_id); }
    out.reverse();
    out
}
"#;

#[test]
fn a_plugin_ranks_its_pool() {
    let cat = interleave_catalog();
    let block = drawn(
        vec![plugin_pool("films", "rank.rhai")],
        vec![step("films", Take::Count(1))],
        2,
    );
    let disk = [script("/etc/channels/rank.rhai", REVERSED)];
    let (items, resume) =
        run(&channel(vec![block]), Some(&cat), &disk, &GenerationState::empty(), None).unwrap();
    assert_eq!(ids(&items), vec!["mov-2", "mov-1"]);
    assert!(items.iter().all(|i| i.metadata.is_none()));
    assert!(resume.pool(&"films".to_string()).is_some());
}

#[test]
fn what_a_plugin_attaches_rides_on_the_item() {
    let text = r#"
fn hooks() { ["pick"] }
fn sources() { #{} }
fn pick(ctx) { [#{ entry_id: "mov-2", metadata: #{ reason: "rain" } }, "mov-1"] }
"#;
    let cat = interleave_catalog();
    let block = drawn(
        vec![plugin_pool("films", "/plugins/rank.rhai")],
        vec![step("films", Take::Count(1))],
        2,
    );
    let disk = [script("/plugins/rank.rhai", text)];
    let (items, _) =
        run(&channel(vec![block]), Some(&cat), &disk, &GenerationState::empty(), None).unwrap();
    assert_eq!(ids(&items), vec!["mov-2", "mov-1"]);
    match items[0].metadata.as_deref() {
        Some(ScriptValue::Table(fields)) => {
            assert_eq!(fields.len(), 1);
            assert_eq!(fields[0].name, "reason");
            assert!(matches!(&fields[0].value, ScriptValue::Text(t) if t == "rain"));
        }
        other => panic!("expected a table, got {other:?}"),
    }
    assert!(items[1].metadata.is_none());
}

#[test]
fn two_blocks_that_name_a_pool_alike_rank_it_each_for_itself() {
    let text = r#"
fn hooks() { ["pick"] }
fn sources() { #{} }
fn pick(ctx) { [ctx.config.pick] }
"#;
    let configured = |id: &str| {
        let mut pool = plugin_pool("films", "rank.rhai");
        pool.config = Some(Arc::new(ScriptValue::of_table(vec![etv_station::script::Field {
            name: "pick".into(),
            value: ScriptValue::Text(id.into()),
        }])));
        drawn(vec![pool], vec![step("films", Take::Count(1))], 1)
    };
    let cat = interleave_catalog();
    let disk = [script("/etc/channels/rank.rhai", text)];
    let config = channel(vec![configured("mov-2"), configured("mov-1")]);
    let (items, _) = run(&config, Some(&cat), &disk, &GenerationState::empty(), None).unwrap();
    assert_eq!(ids(&items), vec!["mov-2", "mov-1"]);
}

#[test]
fn a_pool_brings_the_queries_its_plugin_reads() {
    let text = r#"
fn hooks() { ["pick"] }
fn sources() { throw "not called" }
fn pick(ctx) {
    let out = [];
    for item in ctx.sets.mine { out.push(item.entry_id); }
    out
}
"#;
    let mut pool = plugin_pool("shows", "rank.rhai");
    let table = PoolSources::new().insert("mine".into(), "item.show == \"inv\"".into());
    pool.sources = Some(table);
    let cat = interleave_catalog();
    let block = drawn(vec![pool], vec![step("shows", Take::All)], 1);
    let disk = [script("/etc/channels/rank.rhai", text)];
    let (items, _) =
        run(&channel(vec![block]), Some(&cat), &disk, &GenerationState::empty(), None).unwrap();
    assert_eq!(ids(&items), vec!["inv-e1", "inv-e2"]);
}

#[test]
fn a_failing_plugin_fails_its_block_by_the_pools_name() {
    let cat = interleave_catalog();
    let failing = |text: &str| {
        let block = drawn(
            vec![plugin_pool("films", "rank.rhai")],
            vec![step("films", Take::Count(1))],
            1,
        );
        let disk = [script("/etc/channels/rank.rhai", text)];
        run(&channel(vec![block]), Some(&cat), &disk, &GenerationState::empty(), None).unwrap_err()
    };
    assert_eq!(
        failing("fn hooks() { [\"pick\"] } fn sources() { #{} } fn pick(ctx) { [] }"),
        "block #0: pool \"films\": scorer plugin /etc/channels/rank.rhai picked nothing — an empty pool would silently shorten the channel"
    );
    let uncompiled = failing("fn pick(ctx) {");
    assert!(
        uncompiled.starts_with(
            "block #0: pool \"films\": compile scorer plugin /etc/channels/rank.rhai: "
        ),
        "{uncompiled}"
    );
    let thrown = failing(
        "fn hooks() { [\"pick\"] } fn sources() { #{} } fn pick(ctx) { throw \"no\" }",
    );
    assert!(
        thrown.starts_with(
            "block #0: pool \"films\": scorer plugin /etc/channels/rank.rhai: pick(): "
        ),
        "{thrown}"
    );
}

#[test]
fn a_plugin_that_cannot_be_read_fails_its_pool() {
    let cat = interleave_catalog();
    let block = drawn(
        vec![plugin_pool("films", "gone.rhai")],
        vec![step("films", Take::Count(1))],
        1,
    );
    let err = run(&channel(vec![block]), Some(&cat), &[], &GenerationState::empty(), None)
        .unwrap_err();
    assert_eq!(
        err,
        "block #0: pool \"films\": read scorer plugin /etc/channels/gone.rhai: no such file"
    );
}

#[test]
fn a_plugin_ranks_by_what_its_datastore_answers() {
    let mut pool = plugin_pool("films", "rank.rhai");
    pool.datastores = vec![DatastoreGrant {
        name: "tastes".into(),
        path: "/data/tastes.db".into(),
        failure: None,
    }];
    let cat = interleave_catalog();
    let block = drawn(vec![pool], vec![step("films", Take::Count(2))], 1);
    let ranked = r#"
fn hooks() { ["pool_provider"] }
fn sources() { #{} }
fn pick(ctx) {
    let db = ctx.datastore("tastes");
    ["mov-2", "mov-1"].map(|id| db.enrichment_for(id, "mood")[0].value)
}"#;
    let disk = [script("/etc/channels/rank.rhai", ranked)];
    let config = channel(vec![block]);
    let (items, _) = run(&config, Some(&cat), &disk, &GenerationState::empty(), None).unwrap();
    let ids: Vec<&str> = items.iter().map(|i| i.id.as_str()).collect();
    assert_eq!(ids, ["mov-2", "mov-1"]);
    let failing = r#"
fn hooks() { ["pool_provider"] }
fn sources() { #{} }
fn pick(ctx) { ctx.datastore("tastes").pooled_taste_vector(); ["mov-1"] }"#;
    let disk = [script("/etc/channels/rank.rhai", failing)];
    let err = run(&config, Some(&cat), &disk, &GenerationState::empty(), None).unwrap_err();
    assert!(err.contains("datastore: pooled_taste_vector(): no such table"), "{err}");
}

#[test]
fn a_datastore_that_did_not_open_fails_the_pool() {
    let mut pool = plugin_pool("films", "rank.rhai");
    pool.datastores = vec![DatastoreGrant {
        name: "tastes".into(),
        path: "/data/tastes.db".into(),
        failure: Some("locked".into()),
    }];
    let cat = interleave_catalog();
    let block = drawn(vec![pool], vec![step("films", Take::Count(1))], 1);
    let disk = [script("/etc/channels/rank.rhai", REVERSED)];
    let err = run(&channel(vec![block]), Some(&cat), &disk, &GenerationState::empty(), None)
        .unwrap_err();
    assert!(err.starts_with("block #0: pool \"films\": datastore \"tastes\" at "), "{err}");
    assert!(err.contains("locked"), "{err}");
}

#[test]
fn a_script_that_was_not_read_is_asked_for_before_anything_runs() {
    let inputs = inputs();
    let env = ScoreEnv { inputs: &inputs, base_dir: BASE };
    let cat = interleave_catalog();
    let pools = vec![
        pool_of("plain", Some("item.type == \"movie\""), None, Advance::Restart),
        plugin_pool("films", "rank.rhai"),
    ];
    let err = rank_pools(&cat.borrow(), &env, 7, &vec![], &pools).unwrap_err();
    assert_eq!(err.message(), "plugin /etc/channels/rank.rhai was not read");
    let scripts = vec![script("/etc/channels/rank.rhai", REVERSED)];
    let err = rank_pools(&cat.borrow(), &env, 7, &scripts, &pools).unwrap_err();
    assert_eq!(err.message(), "the catalog was not asked for \"item.type == \\\"movie\\\"\"");
    answer(&mut cat.borrow_mut(), &err);
    let rankings = rank_pools(&cat.borrow(), &env, 7, &scripts, &pools).unwrap();
    assert_eq!(rankings.len(), 1, "only the plugin pool is ranked");
    assert!(matches!(&rankings[0].1, Ranking::Picked(Ok(list)) if list.len() == 2));
    let (picks, metadata) = hand_on(rankings);
    assert_eq!(picks[0].0, "films");
    assert!(matches!(&picks[0].1, PluginReply::Items(ids) if *ids == ["mov-2", "mov-1"]));
    assert!(metadata.is_empty());
}

#[test]
fn a_sequencer_is_run_on_the_way() {
    let text = r#"
fn hooks() { ["sequencer"] }
fn arrange(ctx) {
    if ctx.now != 1700000000 { throw "now missing"; }
    ["got-e2", "mov-1"]
}
"#;
    let mut block = drawn(
        vec![
            pool_of("films", Some("item.type == \"movie\""), None, Advance::Restart),
            pool_of("shows", Some("item.type == \"episode\""), None, Advance::Restart),
        ],
        vec![],
        1,
    );
    block.cycles = None;
    block.sequencer = Some("arrange.rhai".into());
    let cat = interleave_catalog();
    let disk = [script("/etc/channels/arrange.rhai", text)];
    let config = channel(vec![block]);
    let (items, resume) =
        run(&config, Some(&cat), &disk, &GenerationState::empty(), None).unwrap();
    assert_eq!(ids(&items), vec!["got-e2", "mov-1"]);
    assert_eq!(
        resume.pool(&"shows".to_string()).unwrap().next.as_deref(),
        Some("show:inv")
    );
    let failing = [script("/etc/channels/arrange.rhai", "fn arrange(ctx) { throw \"no\" }")];
    let err =
        run(&config, Some(&cat), &failing, &GenerationState::empty(), None).unwrap_err();
    assert!(
        err.starts_with("block #0: sequencer plugin /etc/channels/arrange.rhai: arrange(): "),
        "{err}"
    );
    let stranger = [script("/etc/channels/arrange.rhai", "fn arrange(ctx) { [\"nobody\"] }")];
    assert_eq!(
        run(&config, Some(&cat), &stranger, &GenerationState::empty(), None).unwrap_err(),
        "block #0: sequencer plugin /etc/channels/arrange.rhai: arrange() returned \"nobody\", which is not in any of this block's pools"
    );
}

#[test]
fn a_pools_templates_count_over_the_blocks() {
    let guide = |title: &str| GuideConfig {
        title: Some(title.into()),
        sub_title: None,
        description: None,
        categories: None,
    };
    let mut films = pool_of("films", Some("item.type == \"movie\""), None, Advance::Restart);
    films.guide = Some(guide("of the pool"));
    let shows = pool_of("shows", Some("item.type == \"episode\""), None, Advance::Restart);
    let mut block = drawn(
        vec![films, shows],
        vec![step("films", Take::Count(1)), step("shows", Take::Count(1))],
        1,
    );
    block.guide = Some(guide("of the block"));
    let cat = interleave_catalog();
    let (items, _) =
        run(&channel(vec![block]), Some(&cat), &[], &GenerationState::empty(), None).unwrap();
    assert_eq!(ids(&items), vec!["mov-1", "got-e1"]);
    assert_eq!(items[0].guide.as_ref().unwrap().title.as_deref(), Some("of the pool"));
    assert_eq!(items[1].guide.as_ref().unwrap().title.as_deref(), Some("of the block"));
}

#[test]
fn a_channel_without_scripts_generates_as_it_resolves() {
    let inc = include_with(vec![
        BlockEntry::Item(item_entry("a")),
        BlockEntry::Item(item_entry("b")),
    ]);
    let config = channel(vec![inc]);
    let (items, next) =
        run(&config, None, &[], &GenerationState::empty(), Some(secs(30))).unwrap();
    assert_eq!(ids(&items), vec!["lavfi:a"]);
    assert_eq!(next.position, 1);
}

fn alone(block: BlockInclude, catalog: Option<&RefCell<Catalog>>) -> String {
    run(&channel(vec![block]), catalog, &[], &GenerationState::empty(), None).unwrap_err()
}

#[test]
fn what_needs_the_catalog_says_so() {
    let mut sequenced = include_with(vec![]);
    sequenced.sequencer = Some("arrange.rhai".into());
    assert_eq!(
        alone(sequenced, None),
        "block #0: a sequencer block needs the catalog, which is not available"
    );
    let patterned = drawn(vec![], vec![step("films", Take::All)], 1);
    assert_eq!(
        alone(patterned, None),
        "block #0: a pattern block needs the catalog, which is not available"
    );
    let query = || QueryEntry { query: "item.type == \"movie\"".into(), order: None };
    assert_eq!(
        alone(include_with(vec![BlockEntry::Query(query())]), None),
        "block #0: a query entry needs the catalog, which is not available"
    );
    assert_eq!(
        alone(include_with(vec![BlockEntry::Collection("Noir".into())]), None),
        "block #0: a collection entry needs the catalog, which is not available"
    );
    let mut standby = include_with(vec![]);
    standby.fallback = Some(Fallback::Query(query()));
    assert_eq!(
        alone(standby, None),
        "block #0: fallback: a query fallback needs the catalog, which is not available"
    );
    let mut filtered = include_with(vec![BlockEntry::Item(item_entry("a"))]);
    filtered.filter = Some(Filter { seasons: Some(vec![1]), episode_ids: None });
    assert_eq!(
        alone(filtered, None),
        "block #0: filter.seasons needs the catalog, which is not available"
    );
    let mut shuffled = include_with(vec![BlockEntry::Item(item_entry("a"))]);
    shuffled.order = Some(Order::Random);
    assert_eq!(
        alone(shuffled, None),
        "block #0: order Random needs the catalog, which is not available"
    );
    let mut apart = include_with(vec![BlockEntry::Item(item_entry("a"))]);
    apart.constraints = Some(Constraints {
        no_repeat_within: None,
        separate_by: Some("genres".into()),
        separate_min_gap: None,
    });
    assert_eq!(
        alone(apart, None),
        "separate_by = \"genres\" needs the catalog, which is not available"
    );
}

#[test]
fn an_unknown_field_to_separate_by_is_refused() {
    let table = || Constraints {
        no_repeat_within: None,
        separate_by: Some("mood".into()),
        separate_min_gap: None,
    };
    let cat = interleave_catalog();
    let mut apart = include_with(vec![BlockEntry::Item(item_entry("a"))]);
    apart.constraints = Some(table());
    assert_eq!(alone(apart, Some(&cat)), "separate_by does not know the field \"mood\"");
    let mut films = pool_of("films", Some("item.type == \"movie\""), None, Advance::Restart);
    films.constraints = Some(table());
    assert_eq!(
        alone(drawn(vec![films], vec![step("films", Take::All)], 1), Some(&cat)),
        "block #0: pool \"films\": separate_by does not know the field \"mood\""
    );
}

#[test]
fn a_pool_names_exactly_one_source() {
    let mut films = pool_of("films", Some("item.type == \"movie\""), None, Advance::Restart);
    films.groups = vec!["franchise".into()];
    let cat = interleave_catalog();
    assert_eq!(
        alone(drawn(vec![films], vec![step("films", Take::All)], 1), Some(&cat)),
        "block #0: pool \"films\" must set exactly one of `expr`, `plugin`, or `groups`"
    );
}

#[test]
fn what_the_catalog_failed_at_is_told() {
    let cat = interleave_catalog();
    cat.borrow_mut()
        .queries
        .push(("item.year > 1".into(), Reply::Failed("no such column".into())));
    let entries = || {
        include_with(vec![BlockEntry::Query(QueryEntry {
            query: "item.year > 1".into(),
            order: None,
        })])
    };
    assert_eq!(alone(entries(), Some(&cat)), "block #0: no such column");
    let mut films = pool_of("films", Some("item.type == \"movie\""), None, Advance::Restart);
    films.bucket_order = Some(sort_by("mood:asc"));
    cat.borrow_mut().orders.push(Ordered {
        ids: vec!["mov-1".into(), "mov-2".into()],
        order: sort_by("mood:asc"),
        seed: 0,
        reply: Reply::Failed("no such field".into()),
    });
    assert_eq!(
        alone(drawn(vec![films], vec![step("films", Take::All)], 1), Some(&cat)),
        "block #0: pool \"films\": bucket_order: no such field"
    );
}

#[test]
fn an_item_that_left_the_catalog_is_named() {
    let cat = interleave_catalog();
    cat.borrow_mut()
        .queries
        .push(("item.lost".into(), Reply::Items(vec!["gone-1".into()])));
    let entries = include_with(vec![BlockEntry::Query(QueryEntry {
        query: "item.lost".into(),
        order: None,
    })]);
    assert_eq!(
        alone(entries, Some(&cat)),
        "block #0: resolved entry gone-1 vanished from the catalog"
    );
    let mut block = drawn(
        vec![pool_of("lost", Some("item.lost"), None, Advance::Restart)],
        vec![],
        1,
    );
    block.cycles = None;
    block.sequencer = Some("arrange.rhai".into());
    assert_eq!(
        alone(block, Some(&cat)),
        "block #0: pool \"lost\": entry \"gone-1\" vanished from the catalog mid-resolution"
    );
}

#[test]
fn a_block_inside_a_block_is_refused() {
    assert_eq!(
        alone(include_with(vec![BlockEntry::Nested]), None),
        "block #0: include entries are not implemented yet (#69)"
    );
}

#[test]
fn what_was_not_run_is_asked_for() {
    let cat = interleave_catalog();
    let resolve = |block: BlockInclude| {
        etv_station::channel::resolve_channel_with_resume(
            &channel(vec![block]),
            &Context {
                catalog: Some(&cat.borrow()),
                replies: &vec![Replies::none()],
                state: &GenerationState::empty(),
                seed: 7,
                fill: None,
                from: 0,
                identity_roots: &vec![],
                path_index: None,
                base_dir: BASE,
            },
        )
        .unwrap_err()
        .message()
    };
    assert_eq!(
        resolve(drawn(vec![plugin_pool("films", "rank.rhai")], vec![step("films", Take::All)], 1)),
        "block #0: pool \"films\" was not ranked by its plugin"
    );
    let mut sequenced = include_with(vec![]);
    sequenced.sequencer = Some("arrange.rhai".into());
    assert_eq!(
        resolve(sequenced),
        "block #0: sequencer plugin /etc/channels/arrange.rhai did not arrange the pools"
    );
    let mut films = pool_of("films", Some("item.type == \"movie\""), None, Advance::Restart);
    films.order = Some(sort_by("title:asc"));
    answer_query(&mut cat.borrow_mut(), "item.type == \"movie\"");
    assert_eq!(
        resolve(drawn(vec![films], vec![step("films", Take::All)], 1)),
        "block #0: the catalog was not asked to order 2 items by Sort(\"title:asc\")"
    );
}

#[test]
fn a_continued_pool_goes_on_from_the_ledger_alone() {
    let cat = interleave_catalog();
    let config = channel(vec![drawn(
        vec![pool_of(
            "shows",
            Some("item.type == \"episode\""),
            Some(sort_by("show:asc,episode:asc")),
            Advance::Resume,
        )],
        vec![step("shows", Take::Count(1))],
        3,
    )]);
    let (first, resume) =
        run(&config, Some(&cat), &[], &GenerationState::empty(), None).unwrap();
    assert_eq!(ids(&first), vec!["got-e1", "inv-e1", "got-e2"]);
    let state = GenerationState {
        resume,
        cursor: vec![
            ("show:got".into(), "got-e2".into()),
            ("show:inv".into(), "inv-e1".into()),
        ],
        tail: vec![],
    };
    let (second, _) = run(&config, Some(&cat), &[], &state, None).unwrap();
    assert_eq!(ids(&second), vec!["inv-e2", "got-e3", "inv-e1"]);
    let lost = GenerationState {
        resume: ResumeMap::new(),
        cursor: vec![
            ("show:got".into(), "got-e9-deleted".into()),
            ("show:inv".into(), "inv-e1".into()),
        ],
        tail: vec![],
    };
    let (third, _) = run(&config, Some(&cat), &[], &lost, None).unwrap();
    assert_eq!(ids(&third), vec!["got-e1", "inv-e2", "got-e2"]);
}
