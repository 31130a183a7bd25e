use std::sync::Arc;

use etv_station::catalog::{Catalog, Entry, EntrySource, Reply, Source, Tags};
use etv_station::datastore::{
    edge_to_dynamic, enrichment_fact_to_dynamic, enrichment_ids, taste_vector_to_dynamic, Answered,
    Datastore, Edge, EnrichmentFact, Question, Stop, TasteAttribute, TasteVector,
};
use etv_station::engine::compile;
use etv_station::identity::fnv1a_64;
use etv_station::pattern::{PluginReply, MAX_TAKE};
use etv_station::roll::mix_seed;
use etv_station::score::{
    declared_capabilities, declared_hooks, mixed_seed, pick, pick_reply, resolve_plugin_path,
    Capability, DatastoreGrant, GrantedCapabilities, Halt, PickedItem,
    ScoreCache, ScoreEnv, ScoreInputs, SourceRead, WatchEvent,
};
use etv_station::script::{find_field, Field, ScriptValue};
use etv_station::sources::PoolSources;

const PATH: &str = "/plugins/plugin.rhai";
const MOVIES: &str = r#"item.type == "movie""#;

fn text(source: &str) -> SourceRead {
    SourceRead::Text(source.into())
}

fn inputs() -> ScoreInputs {
    ScoreInputs { target_count: 0, history: vec![], recent: vec![], now: 0, stores: vec![] }
}

fn all_granted() -> GrantedCapabilities {
    GrantedCapabilities { catalog_read: true, watch_history: true, datastores: vec![] }
}

fn entry(id: &str, title: &str) -> Entry {
    Entry {
        entry_id: id.into(),
        kind: "movie".into(),
        title: title.into(),
        title_sort: None,
        show: None,
        show_id: None,
        season: None,
        episode: None,
        absolute_episode: None,
        edition: None,
        studio: None,
        year: None,
        release_date: None,
        duration_ms: None,
        content_rating: None,
        library: None,
        summary: None,
        artwork_cache_path: None,
        missing: false,
        external: vec![],
        tags: Tags {
            genres: vec![],
            labels: vec![],
            cast: vec![],
            directors: vec![],
            writers: vec![],
            producers: vec![],
            countries: vec![],
        },
        sources: vec![EntrySource {
            source: Source::Plex,
            source_id: id.into(),
            playback_path: format!("/media/{id}.mkv"),
            stale: false,
        }],
    }
}

fn answered(entries: Vec<Entry>, queries: Vec<(&str, Vec<&str>)>) -> Catalog {
    Catalog {
        entries,
        collections: vec![],
        episodes: vec![],
        queries: queries
            .into_iter()
            .map(|(q, ids)| {
                (q.to_string(), Reply::Items(ids.into_iter().map(str::to_string).collect()))
            })
            .collect(),
        orders: vec![],
    }
}

fn catalog() -> Catalog {
    let mut entries = vec![entry("m1", "Alpha"), entry("m2", "Beta")];
    entries[0].year = Some(2001);
    entries[1].year = Some(2002);
    entries[0].tags.genres.push("Fantasy".into());
    answered(entries, vec![(MOVIES, vec!["m1", "m2"])])
}

fn failure(halt: Halt) -> String {
    match halt {
        Halt::Failed(why) => why,
        Halt::Unasked(query) => panic!("the catalog was not asked for {query}"),
    }
}

fn run_in(
    cache: &mut ScoreCache,
    catalog: &Catalog,
    source: &str,
    inputs: &ScoreInputs,
    pool: &str,
    config: Option<&Arc<ScriptValue>>,
) -> Result<Vec<String>, String> {
    cache.prepare(catalog, PATH, &text(source), None).map_err(failure)?;
    pick(cache, PATH, None, inputs, 0, pool, config, &all_granted())
        .map(|items| items.into_iter().map(|p| p.id).collect())
        .map_err(|stop| stop.message())
}

fn run(
    catalog: &Catalog,
    source: &str,
    inputs: &ScoreInputs,
    config: Option<&Arc<ScriptValue>>,
) -> Result<Vec<String>, String> {
    run_in(&mut ScoreCache::new(), catalog, source, inputs, "test", config)
}

fn prepared(source: &str) -> ScoreCache {
    let mut cache = ScoreCache::new();
    cache.prepare(&catalog(), PATH, &text(source), None).map_err(failure).unwrap();
    cache
}

fn pick_ungranted(source: &str) -> Result<Vec<PickedItem>, String> {
    let cache = prepared(source);
    pick(&cache, PATH, None, &inputs(), 0, "test", None, &GrantedCapabilities::none())
        .map_err(|stop| stop.message())
}

fn str_value(s: &str) -> ScriptValue {
    ScriptValue::Text(s.into())
}

fn table(fields: Vec<(&str, ScriptValue)>) -> ScriptValue {
    ScriptValue::Table(
        fields.into_iter().map(|(name, value)| Field { name: name.into(), value }).collect(),
    )
}

fn field<'a>(value: &'a ScriptValue, name: &str) -> &'a ScriptValue {
    let ScriptValue::Table(fields) = value else { panic!("not a table: {value:?}") };
    find_field(fields, name).unwrap()
}

#[test]
fn config_arrives_nested_with_types_intact() {
    let source = r#"
fn sources() { #{ movies: `item.type == "movie"` } }
fn pick(ctx) {
    let c = ctx.config;
    // Three levels down, through a map, a map, and an array — and the scalars
    // must still be their own types, not strings.
    let deep = c.weights.nested.values;
    if deep[0] != 42 { throw "int did not survive: " + deep[0]; }
    if deep[1] != 1.5 { throw "float did not survive: " + deep[1]; }
    if deep[2] != true { throw "bool did not survive: " + deep[2]; }
    if deep[3] != "four" { throw "string did not survive: " + deep[3]; }
    if c.weights.affinity != 3.0 { throw "nested float wrong"; }
    if c.name != "taste" { throw "top-level string wrong"; }
    [c.first, c.second]
}
"#;
    let values = ScriptValue::List(vec![
        ScriptValue::Int(42),
        ScriptValue::Float("1.5".into(), true),
        ScriptValue::Bool(true),
        str_value("four"),
    ]);
    let config = Arc::new(table(vec![
        ("name", str_value("taste")),
        ("first", str_value("m2")),
        ("second", str_value("m1")),
        (
            "weights",
            table(vec![
                ("affinity", ScriptValue::Float("3".into(), true)),
                ("nested", table(vec![("values", values)])),
            ]),
        ),
    ]));
    let got = run(&catalog(), source, &inputs(), Some(&config)).unwrap();
    assert_eq!(got, vec!["m2", "m1"]);
}

#[test]
fn item_maps_carry_the_library() {
    let mut entries = vec![entry("m1", "m1"), entry("m2", "m2")];
    entries[0].library = Some("4K Movies".into());
    let c = answered(entries, vec![(MOVIES, vec!["m1", "m2"])]);
    let source = r#"
fn sources() { #{ movies: `item.type == "movie"` } }
fn pick(ctx) {
    let ids = [];
    for item in ctx.sets.movies {
        if item.library == "4K Movies" { ids.push(item.entry_id); }
    }
    // A column with no value arrives as unit, same as every other absent one.
    for item in ctx.sets.movies {
        if item.entry_id == "m2" && item.library != () { throw "expected unit"; }
    }
    ids
}
"#;
    assert_eq!(run(&c, source, &inputs(), None).unwrap(), vec!["m1"]);
}

#[test]
fn an_absent_config_is_an_empty_map_not_a_missing_key() {
    let source = r#"
fn sources() { #{ movies: `item.type == "movie"` } }
fn pick(ctx) {
    // Reading straight through an unset config must yield unit rather than
    // erroring, so a script never has to guard before looking.
    if ctx.config.anything != () { throw "expected unit"; }
    if ctx.config.len() != 0 { throw "expected an empty map"; }
    ["m1"]
}
"#;
    assert_eq!(run(&catalog(), source, &inputs(), None).unwrap(), vec!["m1"]);
}

#[test]
fn an_unrecognised_key_is_not_an_error() {
    let source = r#"
fn sources() { #{ movies: `item.type == "movie"` } }
fn pick(ctx) { ["m1"] }
"#;
    let config = Arc::new(table(vec![
        ("afinity_window_days", ScriptValue::Int(14)),
        ("utter_nonsense", ScriptValue::List(vec![ScriptValue::Int(1), ScriptValue::Int(2)])),
    ]));
    assert_eq!(run(&catalog(), source, &inputs(), Some(&config)).unwrap(), vec!["m1"]);
}

#[test]
fn each_pool_gets_its_own_config_from_one_script() {
    let source = r#"
fn sources() { #{ movies: `item.type == "movie"` } }
fn pick(ctx) { [ctx.config.want] }
"#;
    let mut cache = ScoreCache::new();
    let movies = Arc::new(table(vec![("want", str_value("m1"))]));
    let shows = Arc::new(table(vec![("want", str_value("m2"))]));
    let cat = catalog();
    assert_eq!(
        run_in(&mut cache, &cat, source, &inputs(), "movies", Some(&movies)).unwrap(),
        ["m1"]
    );
    assert_eq!(
        run_in(&mut cache, &cat, source, &inputs(), "shows", Some(&shows)).unwrap(),
        ["m2"]
    );
}

#[test]
fn picks_in_the_order_the_script_returns() {
    let source = r#"
fn sources() { #{ movies: `item.type == "movie"` } }
fn pick(ctx) {
    let ids = [];
    for item in ctx.sets.movies { ids.push(item.entry_id); }
    ids.reverse();
    ids
}
"#;
    assert_eq!(run(&catalog(), source, &inputs(), None).unwrap(), vec!["m2", "m1"]);
}

#[test]
fn items_carry_columns_and_tags() {
    let source = r#"
fn sources() { #{ movies: `item.type == "movie"` } }
fn pick(ctx) {
    let out = [];
    for item in ctx.sets.movies {
        if item.year == 2001 && item.genres.contains("Fantasy") && item.season == () {
            out.push(item.entry_id);
        }
    }
    out
}
"#;
    assert_eq!(run(&catalog(), source, &inputs(), None).unwrap(), ["m1"]);
}

#[test]
fn inputs_reach_the_script() {
    let source = r#"
fn sources() { #{ movies: `item.type == "movie"` } }
fn pick(ctx) {
    let out = [];
    for item in ctx.sets.movies {
        if !ctx.recent.contains(item.entry_id) { out.push(item.entry_id); }
    }
    out.truncate(ctx.target_count);
    out
}
"#;
    let given = ScoreInputs { target_count: 1, recent: vec!["m1".into()], ..inputs() };
    assert_eq!(run(&catalog(), source, &given, None).unwrap(), ["m2"]);
}

#[test]
fn a_bad_source_expression_names_the_source() {
    let mut c = catalog();
    c.queries.push(("item.nope == 1".into(), Reply::Failed("no such field".into())));
    let source = "fn sources() { #{ broken: `item.nope == 1` } }\nfn pick(ctx) { [] }\n";
    let e = run(&c, source, &inputs(), None).unwrap_err();
    assert!(e.contains("broken"), "got {e}");
}

#[test]
fn an_empty_pick_is_an_error() {
    let source = "fn sources() { #{} }\nfn pick(ctx) { [] }\n";
    let e = run(&catalog(), source, &inputs(), None).unwrap_err();
    assert!(e.contains("picked nothing"), "got {e}");
}

#[test]
fn a_duplicate_pick_is_an_error() {
    let source = "fn sources() { #{} }\nfn pick(ctx) { [\"m1\", \"m1\"] }\n";
    let e = run(&catalog(), source, &inputs(), None).unwrap_err();
    assert!(e.contains("more than once"), "got {e}");
}

#[test]
fn a_missing_pick_function_names_the_plugin() {
    let e = run(&catalog(), "fn sources() { #{} }\n", &inputs(), None).unwrap_err();
    assert!(e.contains("pick()"), "got {e}");
}

#[test]
fn declared_hooks_reads_pool_provider() {
    let source = text(r#"fn hooks() { ["pool_provider"] }"#);
    assert_eq!(declared_hooks(PATH, &source).unwrap(), vec!["pool_provider"]);
}

#[test]
fn declared_hooks_reads_more_than_one() {
    let source = text(r#"fn hooks() { ["pool_provider", "sequencer"] }"#);
    assert_eq!(declared_hooks(PATH, &source).unwrap(), vec!["pool_provider", "sequencer"]);
}

#[test]
fn declared_hooks_rejects_an_empty_declaration() {
    let e = declared_hooks(PATH, &text("fn hooks() { [] }")).unwrap_err();
    assert!(e.contains("declares no hooks"), "got {e}");
    assert!(e.contains("pool_provider"), "got {e}");
}

#[test]
fn declared_hooks_rejects_an_unknown_name() {
    let e = declared_hooks(PATH, &text(r#"fn hooks() { ["scoreboard"] }"#)).unwrap_err();
    assert!(e.contains("scoreboard"), "got {e}");
    assert!(e.contains("pool_provider"), "got {e}");
    assert!(e.contains("sequencer"), "got {e}");
}

#[test]
fn declared_hooks_names_the_script_when_hooks_is_missing() {
    let e = declared_hooks(PATH, &text("fn sources() { #{} }\n")).unwrap_err();
    assert!(e.contains("hooks()"), "got {e}");
    assert!(e.contains(PATH), "got {e}");
}

#[test]
fn declared_hooks_never_runs_sources_or_pick() {
    let source = text(
        r#"
fn hooks() { ["pool_provider"] }
fn sources() { throw "sources must not run"; }
fn pick(ctx) { throw "pick must not run"; }
"#,
    );
    assert_eq!(declared_hooks(PATH, &source).unwrap(), vec!["pool_provider"]);
}

#[test]
fn declared_capabilities_reads_simple_names() {
    let source = text(r#"fn capabilities() { ["catalog_read", "watch_history"] }"#);
    assert_eq!(
        declared_capabilities(PATH, &source).unwrap(),
        vec![Capability::CatalogRead, Capability::WatchHistory]
    );
}

#[test]
fn declared_capabilities_reads_a_named_datastore() {
    let source = text(r#"fn capabilities() { ["catalog_read", #{ datastore: "taste_db" }] }"#);
    assert_eq!(
        declared_capabilities(PATH, &source).unwrap(),
        vec![Capability::CatalogRead, Capability::Datastore("taste_db".into())]
    );
}

#[test]
fn declared_capabilities_defaults_to_empty_when_the_function_is_absent() {
    let source = text(r#"fn hooks() { ["pool_provider"] }"#);
    assert_eq!(declared_capabilities(PATH, &source).unwrap(), Vec::new());
}

#[test]
fn declared_capabilities_accepts_an_explicit_empty_array() {
    let source = text("fn capabilities() { [] }");
    assert_eq!(declared_capabilities(PATH, &source).unwrap(), Vec::new());
}

#[test]
fn declared_capabilities_rejects_an_unknown_name() {
    let e =
        declared_capabilities(PATH, &text(r#"fn capabilities() { ["telepathy"] }"#)).unwrap_err();
    assert!(e.contains("telepathy"), "got {e}");
    assert!(e.contains("catalog_read"), "got {e}");
    assert!(e.contains("watch_history"), "got {e}");
}

#[test]
fn declared_capabilities_rejects_a_datastore_entry_with_an_empty_name() {
    let source = text(r#"fn capabilities() { [#{ datastore: "" }] }"#);
    let e = declared_capabilities(PATH, &source).unwrap_err();
    assert!(e.contains("empty"), "got {e}");
}

#[test]
fn declared_capabilities_rejects_an_unrecognized_map_shape() {
    let source = text(r#"fn capabilities() { [#{ wat: "taste_db" }] }"#);
    let e = declared_capabilities(PATH, &source).unwrap_err();
    assert!(e.contains("not a recognized capability"), "got {e}");
    assert!(e.contains("{\"wat\": \"taste_db\"}"), "got {e}");
}

#[test]
fn declared_capabilities_never_runs_sources_or_pick() {
    let source = text(
        r#"
fn capabilities() { ["catalog_read"] }
fn sources() { throw "sources must not run"; }
fn pick(ctx) { throw "pick must not run"; }
"#,
    );
    assert_eq!(declared_capabilities(PATH, &source).unwrap(), vec![Capability::CatalogRead]);
}

#[test]
fn reaching_for_an_ungranted_watch_history_fails_naming_it() {
    let err = pick_ungranted(
        r#"
fn sources() { #{} }
fn pick(ctx) {
    let out = [];
    for e in ctx.history { out.push(e.entry_id); }
    out
}
"#,
    )
    .unwrap_err();
    assert!(err.contains("watch_history"), "got {err}");
}

#[test]
fn reaching_for_ungranted_catalog_read_fails_naming_it() {
    let err = pick_ungranted(
        r#"
fn sources() { #{ movies: `item.type == "movie"` } }
fn pick(ctx) {
    let out = [];
    for item in ctx.sets.movies { out.push(item.entry_id); }
    out
}
"#,
    )
    .unwrap_err();
    assert!(err.contains("catalog_read"), "got {err}");
}

#[test]
fn ungated_fields_stay_available_with_no_capabilities_granted() {
    let cache = prepared(
        r#"
fn sources() { #{} }
fn pick(ctx) {
    if ctx.pool != "test" { throw "pool wrong"; }
    if ctx.target_count != 3 { throw "target_count wrong"; }
    if ctx.now != 42 { throw "now wrong"; }
    if ctx.recent.len != 1 { throw "recent wrong"; }
    if ctx.config.want != "m1" { throw "config wrong"; }
    [ctx.config.want]
}
"#,
    );
    let given =
        ScoreInputs { target_count: 3, recent: vec!["m2".into()], now: 42, ..inputs() };
    let config = Arc::new(table(vec![("want", str_value("m1"))]));
    let got = pick(
        &cache,
        PATH,
        None,
        &given,
        0,
        "test",
        Some(&config),
        &GrantedCapabilities::none(),
    )
    .unwrap();
    assert_eq!(got.into_iter().map(|p| p.id).collect::<Vec<_>>(), vec!["m1"]);
}

fn seed_pick(seed: u64, pool_name: &str) -> String {
    let cache = prepared("fn sources() { #{} }\nfn pick(ctx) { [ctx.seed.to_string()] }\n");
    let got = pick(
        &cache,
        PATH,
        None,
        &inputs(),
        seed,
        pool_name,
        None,
        &GrantedCapabilities::none(),
    )
    .unwrap();
    got.into_iter().next().unwrap().id
}

#[test]
fn ctx_seed_differs_by_pool_name() {
    assert_ne!(seed_pick(42, "movies"), seed_pick(42, "shows"));
}

#[test]
fn ctx_seed_is_stable_across_two_calls() {
    assert_eq!(seed_pick(42, "movies"), seed_pick(42, "movies"));
}

#[test]
fn ctx_seed_differs_when_the_channel_seed_differs() {
    assert_ne!(seed_pick(42, "movies"), seed_pick(43, "movies"));
}

#[test]
fn ctx_seed_is_the_channel_seed_mixed_with_the_pool_name() {
    let mixed = mix_seed(42, fnv1a_64("movies"));
    let expected = (mixed & (i64::MAX as u64)) as i64;
    assert_eq!(seed_pick(42, "movies"), expected.to_string());
    assert_eq!(mixed_seed(42, "movies"), expected);
}

#[test]
fn a_bare_id_carries_no_metadata_or_take_override() {
    let got = pick_ungranted("fn sources() { #{} }\nfn pick(ctx) { [\"m1\"] }\n").unwrap();
    assert_eq!(got.len(), 1);
    assert_eq!(got[0].id, "m1");
    assert!(got[0].metadata.is_none());
    assert!(got[0].take_override.is_none());
}

#[test]
fn a_records_metadata_arrives_nested_with_types_intact() {
    let got = pick_ungranted(
        r#"
fn sources() { #{} }
fn pick(ctx) {
    [#{ entry_id: "m1", metadata: #{ reason: "won an Oscar", score: 3.5, tags: ["a", "b"] } }]
}
"#,
    )
    .unwrap();
    let meta = got[0].metadata.as_ref().unwrap();
    assert!(matches!(field(meta, "reason"), ScriptValue::Text(t) if t == "won an Oscar"));
    assert!(matches!(field(meta, "score"), ScriptValue::Float(t, true) if t == "3.5"));
    let ScriptValue::List(tags) = field(meta, "tags") else { panic!("tags") };
    assert!(matches!(&tags[1], ScriptValue::Text(t) if t == "b"));
}

#[test]
fn a_records_take_override_arrives_and_bare_ids_still_carry_none() {
    let got = pick_ungranted(
        r#"
fn sources() { #{} }
fn pick(ctx) { [#{ entry_id: "m1", take: 3 }, "m2"] }
"#,
    )
    .unwrap();
    assert_eq!(got[0].take_override, Some(3));
    assert!(got[0].metadata.is_none());
    assert_eq!(got[1].id, "m2");
    assert!(got[1].take_override.is_none());
}

#[test]
fn a_non_finite_float_in_a_records_metadata_fails_and_names_the_key() {
    let err = pick_ungranted(
        r#"
fn sources() { #{} }
fn pick(ctx) { [#{ entry_id: "m1", metadata: #{ weight: 1.0 / 0.0 } }] }
"#,
    )
    .unwrap_err();
    assert!(err.contains("weight"), "got {err}");
    assert!(err.contains("finite"), "got {err}");
    assert!(err.contains("m1"), "got {err}");
}

#[test]
fn a_zero_or_negative_take_override_fails_and_names_the_entry() {
    for take in ["0", "-1"] {
        let err = pick_ungranted(&format!(
            "fn sources() {{ #{{}} }}\nfn pick(ctx) {{ [#{{ entry_id: \"m1\", take: {take} }}] }}\n"
        ))
        .unwrap_err();
        assert!(err.contains("m1"), "take={take}, got {err}");
        assert!(err.contains("positive"), "take={take}, got {err}");
    }
}

#[test]
fn a_take_override_past_the_maximum_fails_and_names_the_entry() {
    let err = pick_ungranted(&format!(
        "fn sources() {{ #{{}} }}\nfn pick(ctx) {{ [#{{ entry_id: \"m1\", take: {} }}] }}\n",
        MAX_TAKE + 1
    ))
    .unwrap_err();
    assert!(err.contains("m1"), "got {err}");
    assert!(err.contains("maximum"), "got {err}");
}

#[test]
fn a_record_with_no_entry_id_is_refused() {
    let err =
        pick_ungranted("fn sources() { #{} }\nfn pick(ctx) { [#{ metadata: #{ x: 1 } }] }\n")
            .unwrap_err();
    assert!(err.contains("#0"), "got {err}");
    assert!(err.contains("entry_id"), "got {err}");
}

#[test]
fn duplicate_detection_still_works_across_mixed_bare_and_record_shapes() {
    let err = pick_ungranted(
        r#"fn sources() { #{} }
fn pick(ctx) { ["m1", #{ entry_id: "m1" }] }
"#,
    )
    .unwrap_err();
    assert!(err.contains("more than once"), "got {err}");
}

const NARROWED: &str =
    r#"item.type == "movie" && item.library != "Concerts" && item.library != "Power Hours""#;
const FEATURES: &str = r#"item.library == "Movies""#;
const CONCERTS: &str = r#"item.library == "Concerts""#;

fn library_catalog() -> Catalog {
    let mut entries = Vec::new();
    for (id, title, library) in [
        ("m1", "Alpha", "Movies"),
        ("m2", "Beta", "Movies"),
        ("c1", "Live at Wembley", "Concerts"),
        ("p1", "Power Hour Vol. 1", "Power Hours"),
    ] {
        let mut e = entry(id, title);
        e.library = Some(library.into());
        entries.push(e);
    }
    answered(
        entries,
        vec![
            (MOVIES, vec!["c1", "m1", "m2", "p1"]),
            (NARROWED, vec!["m1", "m2"]),
            (FEATURES, vec!["m1", "m2"]),
            (CONCERTS, vec!["c1"]),
        ],
    )
}

const ECHO_SET: &str = r#"fn hooks() { ["pool_provider"] }
fn capabilities() { ["catalog_read"] }
fn sources() { #{ movies: `item.type == "movie"` } }
fn pick(ctx) {
    let out = [];
    for item in ctx.sets.movies { out.push(item.entry_id); }
    out
}
"#;

fn sources(pairs: &[(&str, &str)]) -> PoolSources {
    pairs
        .iter()
        .fold(PoolSources::new(), |table, (k, v)| table.insert((*k).to_string(), (*v).to_string()))
}

fn prepare(cache: &mut ScoreCache, source: &str, table: Option<&PoolSources>) {
    cache.prepare(&library_catalog(), PATH, &text(source), table).map_err(failure).unwrap();
}

fn echo(cache: &ScoreCache, src: Option<&PoolSources>) -> Vec<String> {
    let granted =
        GrantedCapabilities { catalog_read: true, watch_history: false, datastores: vec![] };
    pick(cache, PATH, src, &inputs(), 0, "movies", None, &granted)
        .unwrap()
        .into_iter()
        .map(|p| p.id)
        .collect()
}

#[test]
fn a_pool_authored_sources_table_replaces_the_scripts_own() {
    let narrowed = sources(&[("movies", NARROWED)]);
    let mut cache = ScoreCache::new();
    prepare(&mut cache, ECHO_SET, Some(&narrowed));
    assert_eq!(
        echo(&cache, Some(&narrowed)),
        vec!["m1", "m2"],
        "the concert and the power hour are not candidates"
    );
}

#[test]
fn a_pool_authored_table_leaves_the_scripts_sources_uncalled() {
    let source = r#"fn sources() { throw "sources() must not run when the pool authored its own" }
fn pick(ctx) {
    let out = [];
    for item in ctx.sets.features { out.push(item.entry_id); }
    out
}
"#;
    let table = sources(&[("features", FEATURES)]);
    let mut cache = ScoreCache::new();
    prepare(&mut cache, source, Some(&table));
    assert_eq!(echo(&cache, Some(&table)), vec!["m1", "m2"]);
}

#[test]
fn two_pools_naming_one_script_keep_their_own_sources() {
    let features = sources(&[("movies", FEATURES)]);
    let concerts = sources(&[("movies", CONCERTS)]);
    let mut cache = ScoreCache::new();
    prepare(&mut cache, ECHO_SET, Some(&features));
    prepare(&mut cache, ECHO_SET, Some(&concerts));
    prepare(&mut cache, ECHO_SET, None);
    assert_eq!(echo(&cache, Some(&features)), vec!["m1", "m2"]);
    assert_eq!(echo(&cache, Some(&concerts)), vec!["c1"]);
    assert_eq!(echo(&cache, None), vec!["c1", "m1", "m2", "p1"]);
}

#[test]
fn the_same_table_written_twice_resolves_once() {
    let one = sources(&[("movies", FEATURES), ("extra", CONCERTS)]);
    let other = sources(&[("extra", CONCERTS), ("movies", FEATURES)]);
    let mut cache = ScoreCache::new();
    prepare(&mut cache, ECHO_SET, Some(&one));
    prepare(&mut cache, ECHO_SET, Some(&other));
    assert_eq!(cache.entries.len(), 1);
}

#[test]
fn a_bad_channel_authored_source_names_the_set_and_not_the_script() {
    let mut c = library_catalog();
    c.queries.push(("item.library ==== 3".into(), Reply::Failed("malformed".into())));
    let err = ScoreCache::new()
        .prepare(&c, PATH, &text(ECHO_SET), Some(&sources(&[("movies", "item.library ==== 3")])))
        .map_err(failure)
        .expect_err("a malformed CEL expression must fail preparation");
    assert!(err.contains("channel-authored source"), "got {err}");
    assert!(err.contains("\"movies\""), "got {err}");
    assert!(
        !err.contains("plugin.rhai"),
        "the channel wrote this expression, not the script: {err}"
    );
}

#[test]
fn a_query_that_was_never_asked_stops_the_preparation() {
    let mut cache = ScoreCache::new();
    let c = answered(vec![], vec![]);
    match cache.prepare(&c, PATH, &text(ECHO_SET), None) {
        Err(Halt::Unasked(query)) => assert_eq!(query, MOVIES),
        other => panic!("{other:?}"),
    }
    assert!(cache.entries.is_empty());
}

#[test]
fn an_unreadable_or_uncompilable_script_is_named() {
    let gone = SourceRead::Failed("no such file".into());
    assert_eq!(
        declared_hooks(PATH, &gone).unwrap_err(),
        "read plugin /plugins/plugin.rhai: no such file"
    );
    assert_eq!(
        declared_capabilities(PATH, &gone).unwrap_err(),
        "read plugin /plugins/plugin.rhai: no such file"
    );
    let e = declared_hooks(PATH, &text("fn hooks( {")).unwrap_err();
    assert!(e.starts_with("compile plugin /plugins/plugin.rhai: "), "got {e}");
    let e = failure(
        ScoreCache::new().prepare(&catalog(), PATH, &gone, None).unwrap_err(),
    );
    assert_eq!(e, "read scorer plugin /plugins/plugin.rhai: no such file");
    let e = failure(
        ScoreCache::new().prepare(&catalog(), PATH, &text("fn ("), None).unwrap_err(),
    );
    assert!(e.starts_with("compile scorer plugin /plugins/plugin.rhai: "), "got {e}");
}

#[test]
fn a_source_that_is_no_text_is_refused_by_its_type() {
    let e = failure(
        ScoreCache::new()
            .prepare(&catalog(), PATH, &text("fn sources() { #{ movies: 7 } }"), None)
            .unwrap_err(),
    );
    assert_eq!(
        e,
        "scorer plugin /plugins/plugin.rhai: source \"movies\" must be a CEL string, got i64"
    );
}

#[test]
fn entries_of_the_wrong_type_are_named_by_it() {
    let e = declared_hooks(PATH, &text("fn hooks() { [1.5] }")).unwrap_err();
    assert_eq!(
        e,
        "plugin /plugins/plugin.rhai: hooks() must return an array of strings, got f64"
    );
    let e = declared_capabilities(PATH, &text("fn capabilities() { [true] }")).unwrap_err();
    assert!(e.ends_with("maps, got bool"), "got {e}");
    let e =
        declared_capabilities(PATH, &text("fn capabilities() { [#{ datastore: 'c' }] }")).unwrap_err();
    assert!(e.ends_with("datastore name must be a string, got char"), "got {e}");
    let e = pick_ungranted("fn sources() { #{} }\nfn pick(ctx) { [()] }").unwrap_err();
    assert!(e.ends_with("record naming one, got ()"), "got {e}");
    let e =
        pick_ungranted("fn sources() { #{} }\nfn pick(ctx) { [#{ entry_id: [] }] }").unwrap_err();
    assert!(e.ends_with("item #0's `entry_id` must be a string, got array"), "got {e}");
    let e = pick_ungranted(
        "fn sources() { #{} }\nfn pick(ctx) { [#{ entry_id: \"m1\", take: \"3\" }] }",
    )
    .unwrap_err();
    assert!(e.ends_with("(\"m1\")'s `take` must be a whole number, got string"), "got {e}");
    let e = pick_ungranted(
        "fn sources() { #{} }\nfn pick(ctx) { [#{ entry_id: \"m1\", metadata: #{ f: |x| x } }] }",
    )
    .unwrap_err();
    assert!(e.contains("which cannot be carried"), "got {e}");
}

#[test]
fn picking_before_preparing_is_an_error() {
    let e = pick(
        &ScoreCache::new(),
        PATH,
        None,
        &inputs(),
        0,
        "test",
        None,
        &GrantedCapabilities::none(),
    )
    .unwrap_err()
    .message();
    assert!(e.contains("pick() called before prepare()"), "got {e}");
}

#[test]
fn the_watch_history_reaches_a_script_that_was_granted_it() {
    let source = r#"
fn sources() { #{} }
fn pick(ctx) {
    let out = [];
    for e in ctx.history { out.push(e.entry_id + "/" + e.watched_at + "/" + e.watcher); }
    out
}
"#;
    let given = ScoreInputs {
        history: vec![
            WatchEvent { entry_id: "m1".into(), watched_at: 7, watcher: Some("carol".into()) },
            WatchEvent { entry_id: "m2".into(), watched_at: 8, watcher: None },
        ],
        ..inputs()
    };
    assert_eq!(run(&catalog(), source, &given, None).unwrap(), ["m1/7/carol", "m2/8/"]);
}

fn taste_granted() -> GrantedCapabilities {
    GrantedCapabilities::none()
        .with_datastores(&vec![DatastoreGrant {
            name: "taste".into(),
            path: "/data/taste.db".into(),
            failure: None,
        }])
        .unwrap()
}

/// Runs `pick()` with a datastore that was put these questions so far.
fn pick_from_store(source: &str, answers: Vec<Answered>) -> Result<Vec<String>, Stop> {
    let given = ScoreInputs {
        stores: vec![("/data/taste.db".into(), Arc::new(answers))],
        ..inputs()
    };
    pick(&prepared(source), PATH, None, &given, 0, "test", None, &taste_granted())
        .map(|items| items.into_iter().map(|p| p.id).collect())
}

#[test]
fn a_datastore_is_reached_by_its_grant_alone() {
    let source = "fn sources() { #{} }\nfn pick(ctx) { ctx.datastore(\"taste\"); [\"m1\"] }";
    assert_eq!(pick_from_store(source, vec![]).unwrap(), ["m1"]);
    let e = pick_ungranted(source).unwrap_err();
    assert!(e.contains("datastore \"taste\" not declared or granted"), "got {e}");
}

#[test]
fn a_datastore_is_no_item() {
    let source = "fn sources() { #{} }\nfn pick(ctx) { [ctx.datastore(\"taste\")] }";
    let Stop::Failed(e) = pick_from_store(source, vec![]).unwrap_err() else { panic!("asked") };
    assert!(e.contains("must be an entry_id string or a record naming one, got "), "got {e}");
}

#[test]
fn of_two_datastores_of_one_name_the_last_is_reached() {
    let grant = |path: &str| DatastoreGrant {
        name: "taste".into(),
        path: path.into(),
        failure: None,
    };
    let granted =
        GrantedCapabilities::none().with_datastores(&vec![grant("/a.db"), grant("/b.db")]).unwrap();
    assert_eq!(granted.datastores, [("taste".to_string(), "/b.db".to_string())]);
}

const ASKING: &str = r#"fn sources() { #{} }
fn pick(ctx) {
    let db = ctx.datastore("taste");
    let facts = db.enrichment_for("m1", "mood");
    let many = db.enrichment_for_many(["m1", "m2"], "mood");
    let from = db.edges_from("m1", "similar");
    let to = db.edges_to("m1", "similar");
    let own = db.taste_vector_for(7);
    let all = db.pooled_taste_vector();
    [
        facts[0].value + many.m2[0].value,
        from[0].to_id + "/" + to.len(),
        own.shows_without_seasons[0] + "/" + all.attributes[0].weight,
    ]
}"#;

fn taste(show: &str, weight: &str) -> TasteVector {
    TasteVector {
        attributes: vec![TasteAttribute {
            namespace: "genre".into(),
            key: "noir".into(),
            value: str_value("x"),
            weight: ScriptValue::Float(weight.into(), true),
        }],
        shows_without_seasons: vec![show.into()],
    }
}

fn edge(to: &str) -> Edge {
    Edge {
        from_id: "m1".into(),
        to_id: to.into(),
        edge_type: "similar".into(),
        rank: ScriptValue::Int(2),
        fetched_at: ScriptValue::Unit,
    }
}

/// What the datastore of these tests answers.
fn answer(question: Question) -> Answered {
    match question {
        Question::EnrichmentFor { item_id, namespace } => {
            Answered::EnrichmentFor { item_id, namespace, reply: Ok(vec![mood("dark")]) }
        }
        Question::EnrichmentForMany { item_ids, namespace } => {
            let reply = Ok(item_ids.iter().map(|id| (id.clone(), vec![mood(id)])).collect());
            Answered::EnrichmentForMany { item_ids, namespace, reply }
        }
        Question::EdgesFrom { item_id, edge_type } => {
            Answered::EdgesFrom { item_id, edge_type, reply: Ok(vec![edge("m2")]) }
        }
        Question::EdgesTo { item_id, edge_type } => {
            Answered::EdgesTo { item_id, edge_type, reply: Ok(vec![edge("m2"), edge("m3")]) }
        }
        Question::TasteVectorFor { account } => {
            Answered::TasteVectorFor { account, reply: Ok(taste("got", "0.5")) }
        }
        Question::PooledTasteVector => {
            Answered::PooledTasteVector { reply: Ok(taste("all", "2.5")) }
        }
    }
}

#[test]
fn a_script_reads_a_datastore_one_question_after_the_other() {
    let mut asked: Vec<Question> = vec![];
    let got = loop {
        let answers = asked.iter().cloned().map(answer).collect();
        match pick_from_store(ASKING, answers) {
            Ok(items) => break items,
            Err(Stop::Unasked { store, question }) => {
                assert_eq!(store, "/data/taste.db");
                assert!(!asked.contains(&question), "asked again: {question:?}");
                asked.push(question);
            }
            Err(Stop::Failed(why)) => panic!("{why}"),
        }
    };
    assert_eq!(asked.len(), 6);
    assert_eq!(
        asked[1],
        Question::EnrichmentForMany {
            item_ids: vec!["m1".into(), "m2".into()],
            namespace: "mood".into()
        }
    );
    assert_eq!(got, ["darkm2", "m2/2", "got/2.5"]);
}

#[test]
fn a_question_asked_in_vain_is_not_lost_in_a_catch() {
    let question =
        Question::EnrichmentFor { item_id: "m1".into(), namespace: "mood".into() };
    for caught in [
        "try { db.enrichment_for(\"m1\", \"mood\"); } catch { }",
        "try { [\"m1\", \"m2\"].map(|id| db.enrichment_for(id, \"mood\")); } catch { }",
    ] {
        let source = format!(
            "fn sources() {{ #{{}} }}\nfn pick(ctx) {{ let db = ctx.datastore(\"taste\"); {caught} [\"m1\"] }}"
        );
        let stop = pick_from_store(&source, vec![]).unwrap_err();
        assert_eq!(
            stop,
            Stop::Unasked { store: "/data/taste.db".into(), question: question.clone() },
            "{caught}"
        );
        assert_eq!(
            stop.message(),
            "the datastore at \"/data/taste.db\" was not asked enrichment_for(\"m1\", \"mood\")"
        );
    }
}

#[test]
fn a_failing_datastore_is_the_scripts_to_catch() {
    let failed = || {
        vec![Answered::EnrichmentFor {
            item_id: "m1".into(),
            namespace: "mood".into(),
            reply: Err("gone".into()),
        }]
    };
    let caught = "fn sources() { #{} }\nfn pick(ctx) { let out = [\"m1\"]; try { ctx.datastore(\"taste\").enrichment_for(\"m1\", \"mood\"); } catch { out = [\"m2\"]; } out }";
    assert_eq!(pick_from_store(caught, failed()).unwrap(), ["m2"]);
    let thrown = "fn sources() { #{} }\nfn pick(ctx) { ctx.datastore(\"taste\").enrichment_for(\"m1\", \"mood\") }";
    let Stop::Failed(e) = pick_from_store(thrown, failed()).unwrap_err() else { panic!("asked") };
    assert!(e.contains("datastore: enrichment_for(\"m1\", \"mood\"): gone"), "got {e}");
    let wrong = "fn sources() { #{} }\nfn pick(ctx) { ctx.datastore(\"taste\").enrichment_for_many([1], \"mood\"); [] }";
    let Stop::Failed(e) = pick_from_store(wrong, vec![]).unwrap_err() else { panic!("asked") };
    assert!(e.contains("enrichment_for_many: item id must be a string, got i64"), "got {e}");
}

#[test]
fn a_capability_that_is_none_is_shown_as_the_engine_writes_it() {
    let entry = |source: &str| declared_capabilities(PATH, &text(source)).unwrap_err();
    let e = entry("fn f() {}\nfn capabilities() { [#{ what: Fn(\"f\"), n: 1 }] }");
    assert!(e.contains("capabilities() entry {\"n\": 1, \"what\": Fn(\"f\")} is not"), "got {e}");
    let e = entry("fn capabilities() { [#{ list: [1.5, \"x\", ()], t: #{ a: 'c' } }] }");
    assert!(
        e.contains("entry {\"list\": [1.5, \"x\", ()], \"t\": #{\"a\": 'c'}} is not"),
        "got {e}"
    );
}

#[test]
fn a_datastore_that_cannot_be_opened_fails_by_its_name_and_path() {
    let e = GrantedCapabilities::none()
        .with_datastores(&vec![DatastoreGrant {
            name: "taste".into(),
            path: "/data/taste.db".into(),
            failure: Some("gone".into()),
        }])
        .unwrap_err();
    assert_eq!(e, "datastore \"taste\" at \"/data/taste.db\": gone");
}

#[test]
fn grants_are_read_by_name() {
    let granted = GrantedCapabilities::from_names(&vec!["watch_history".into(), "other".into()]);
    assert!(granted.watch_history && !granted.catalog_read && granted.datastores.is_empty());
    assert_eq!(Capability::CatalogRead.name(), "catalog_read");
    assert_eq!(Capability::WatchHistory.name(), "watch_history");
    assert_eq!(Capability::Datastore("taste".into()).name(), "taste");
}

#[test]
fn a_plugin_path_is_taken_from_the_channels_folder() {
    assert_eq!(resolve_plugin_path("/etc/station", "taste.rhai"), "/etc/station/taste.rhai");
    assert_eq!(resolve_plugin_path("/etc/station", "/opt/taste.rhai"), "/opt/taste.rhai");
    let given = inputs();
    let env = ScoreEnv { inputs: &given, base_dir: "/etc" };
    assert_eq!(env.resolve_path("a.rhai"), "/etc/a.rhai");
}

#[test]
fn picks_are_handed_on_with_what_they_attach() {
    let got = pick_ungranted(
        "fn sources() { #{} }\nfn pick(ctx) { [\"m2\", #{ entry_id: \"m1\", metadata: 5 }] }",
    );
    match pick_reply(&got) {
        PluginReply::Items(ids) => assert_eq!(ids, ["m2", "m1"]),
        other => panic!("{other:?}"),
    }
    let mut cache = ScoreCache::new();
    cache.record_picked(&"films".to_string(), got.unwrap());
    assert_eq!(cache.picked_extras.len(), 1, "a bare identity leaves no row");
    let attached = cache.attached();
    assert_eq!(attached.len(), 1);
    assert_eq!(attached[0].0, "m1");
    assert!(matches!(*attached[0].1, ScriptValue::Int(5)));
    match pick_reply(&Err("broken".into())) {
        PluginReply::Failed(why) => assert_eq!(why, "broken"),
        other => panic!("{other:?}"),
    }
}

#[test]
fn a_second_pool_overwrites_nothing_of_the_first() {
    let picked = |n: i64, take: Option<usize>| {
        vec![PickedItem {
            id: "m1".into(),
            metadata: Some(ScriptValue::Int(n)),
            take_override: take,
        }]
    };
    let mut cache = ScoreCache::new();
    cache.record_picked(&"one".to_string(), picked(1, Some(3)));
    cache.record_picked(&"two".to_string(), picked(2, None));
    cache.record_picked(&"two".to_string(), picked(4, None));
    assert_eq!(cache.picked_extras.len(), 2);
    assert_eq!(cache.picked_extras[0].pool, "one");
    assert_eq!(cache.picked_extras[0].extra.take_override, Some(3));
    assert!(matches!(cache.picked_extras[0].extra.metadata.as_deref(), Some(ScriptValue::Int(1))));
    assert!(matches!(cache.picked_extras[1].extra.metadata.as_deref(), Some(ScriptValue::Int(4))));
    let attached = cache.attached();
    assert_eq!(attached.len(), 1);
    assert!(matches!(*attached[0].1, ScriptValue::Int(4)));
}

#[test]
fn an_expression_may_nest_deep_but_not_without_bound() {
    let nested = |n: usize| format!("fn hooks() {{ [{}\"sequencer\"{}] }}", "(".repeat(n), ")".repeat(n));
    assert!(declared_hooks(PATH, &text(&nested(20))).is_ok());
    let e = declared_hooks(PATH, &text(&nested(200))).unwrap_err();
    assert!(e.starts_with("compile plugin"), "got {e}");
}

#[test]
fn what_a_datastore_holds_reaches_a_script_field_by_field() {
    let fact = EnrichmentFact {
        namespace: "mood".into(),
        key: "tone".into(),
        value: str_value("dark"),
        fetched_at: ScriptValue::Int(9),
    };
    let map = enrichment_fact_to_dynamic(&fact);
    assert!(matches!(field(&map, "key"), ScriptValue::Text(t) if t == "tone"));
    assert!(matches!(field(&map, "fetched_at"), ScriptValue::Int(9)));
    let edge = Edge {
        from_id: "a".into(),
        to_id: "b".into(),
        edge_type: "similar".into(),
        rank: ScriptValue::Int(2),
        fetched_at: ScriptValue::Unit,
    };
    let map = edge_to_dynamic(&edge);
    assert!(matches!(field(&map, "to_id"), ScriptValue::Text(t) if t == "b"));
    assert!(matches!(field(&map, "rank"), ScriptValue::Int(2)));
    let vector = TasteVector {
        attributes: vec![TasteAttribute {
            namespace: "genre".into(),
            key: "noir".into(),
            value: str_value("x"),
            weight: ScriptValue::Float("0.5".into(), true),
        }],
        shows_without_seasons: vec!["show:got".into()],
    };
    let map = taste_vector_to_dynamic(&vector);
    let ScriptValue::List(attributes) = field(&map, "attributes") else { panic!("attributes") };
    assert!(matches!(field(&attributes[0], "weight"), ScriptValue::Float(t, true) if t == "0.5"));
    let ScriptValue::List(shows) = field(&map, "shows_without_seasons") else { panic!("shows") };
    assert_eq!(shows.len(), 1);
    assert_eq!(enrichment_ids(&vec![str_value("m1"), str_value("m2")]).unwrap(), ["m1", "m2"]);
    assert_eq!(
        enrichment_ids(&vec![str_value("m1"), ScriptValue::Unit]).unwrap_err(),
        "datastore: enrichment_for_many: item id must be a string, got ()"
    );
}

fn mood(tone: &str) -> EnrichmentFact {
    EnrichmentFact {
        namespace: "mood".into(),
        key: "tone".into(),
        value: str_value(tone),
        fetched_at: ScriptValue::Int(9),
    }
}

fn store(answers: Vec<Answered>) -> Datastore {
    Datastore { path: "/data/taste.db".into(), answers: Arc::new(answers) }
}

#[test]
fn a_datastore_answers_by_the_whole_question() {
    let of = |item: &str, namespace: &str, tone: &str| Answered::EnrichmentFor {
        item_id: item.into(),
        namespace: namespace.into(),
        reply: Ok(vec![mood(tone)]),
    };
    let db = store(vec![of("m1", "mood", "dark"), of("m1", "era", "old"), of("m1", "mood", "no")]);
    let tone = |item: &str, namespace: &str| match db.enrichment_for(item, namespace) {
        Ok(ScriptValue::List(facts)) => match field(&facts[0], "value") {
            ScriptValue::Text(t) => Ok(t.clone()),
            other => panic!("{other:?}"),
        },
        Ok(other) => panic!("{other:?}"),
        Err(stop) => Err(stop),
    };
    assert_eq!(tone("m1", "mood").unwrap(), "dark");
    assert_eq!(tone("m1", "era").unwrap(), "old");
    assert_eq!(
        tone("m2", "mood").unwrap_err(),
        Stop::Unasked {
            store: "/data/taste.db".into(),
            question: Question::EnrichmentFor { item_id: "m2".into(), namespace: "mood".into() },
        }
    );
    assert!(matches!(db.edges_from("m1", "mood"), Err(Stop::Unasked { .. })));
    assert!(matches!(db.taste_vector_for(7), Err(Stop::Unasked { .. })));
    assert!(matches!(db.pooled_taste_vector(), Err(Stop::Unasked { .. })));
    let ids = vec![str_value("m1"), str_value("m2")];
    let Err(Stop::Unasked { question, .. }) = db.enrichment_for_many(&ids, "mood") else {
        panic!("many")
    };
    let db = store(vec![answer(question)]);
    let by_item = db.enrichment_for_many(&ids, "mood").unwrap();
    assert!(matches!(field(&by_item, "m2"), ScriptValue::List(l) if l.len() == 1));
    assert!(db.enrichment_for_many(&vec![str_value("m1")], "mood").is_err());
}

#[test]
fn a_datastore_that_does_not_answer_is_named_with_the_question() {
    let gone = || "gone".to_string();
    let (m1, mood, similar) = ("m1".to_string(), "mood".to_string(), "similar".to_string());
    let db = store(vec![
        Answered::EnrichmentFor { item_id: m1.clone(), namespace: mood.clone(), reply: Err(gone()) },
        Answered::EnrichmentForMany {
            item_ids: vec![m1.clone()],
            namespace: mood.clone(),
            reply: Err(gone()),
        },
        Answered::EdgesFrom { item_id: m1.clone(), edge_type: similar.clone(), reply: Err(gone()) },
        Answered::EdgesTo { item_id: m1.clone(), edge_type: similar.clone(), reply: Err(gone()) },
        Answered::TasteVectorFor { account: -7, reply: Err(gone()) },
        Answered::PooledTasteVector { reply: Err(gone()) },
    ]);
    let said = |out: Result<ScriptValue, Stop>| out.unwrap_err().message();
    assert_eq!(
        said(db.enrichment_for(&m1, &mood)),
        "datastore: enrichment_for(\"m1\", \"mood\"): gone"
    );
    assert_eq!(
        said(db.enrichment_for_many(&vec![str_value("m1")], &mood)),
        "datastore: enrichment_for_many(\"mood\"): gone"
    );
    assert_eq!(
        said(db.edges_from(&m1, &similar)),
        "datastore: edges_from(\"m1\", \"similar\"): gone"
    );
    assert_eq!(
        said(db.edges_to(&m1, &similar)),
        "datastore: edges_to(\"m1\", \"similar\"): gone"
    );
    assert_eq!(said(db.taste_vector_for(-7)), "datastore: taste_vector_for(-7): gone");
    assert_eq!(said(db.pooled_taste_vector()), "datastore: pooled_taste_vector(): gone");
}

#[test]
fn a_script_defines_the_functions_its_author_wrote() {
    let source = "fn pick(ctx) { ctx.recent.filter(|x| true) }\nfn hooks() { [] }";
    let (_, names) = compile(source).unwrap();
    let mut written: Vec<&str> =
        names.iter().map(|n| n.as_str()).filter(|n| !n.contains('$')).collect();
    written.sort();
    assert_eq!(written, ["hooks", "pick"]);
    assert_eq!(names.len(), 3, "the closure is among them: {names:?}");
    assert!(declared_capabilities(PATH, &text(source)).unwrap().is_empty());
}
