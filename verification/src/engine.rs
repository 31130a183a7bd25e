//! The script engine: compiling a script, and calling the functions it defines.

use vstd::prelude::*;

use std::sync::Arc;

use crate::datastore::{answer_to, Datastore, QuestionModel, Stop, Stopped, StoreModel};
use crate::names::{has_name, same_text};
use crate::script::{fields, scripts, share, Field, Script, ScriptValue};
use crate::text::{quoted, quoted_text};

verus! {

/// A compiled script.
#[verifier::external_type_specification]
#[verifier::external_body]
pub struct ExAst(rhai::AST);

/// The engine that compiles and runs scripts.
#[verifier::external_type_specification]
#[verifier::external_body]
pub struct ExEngine(rhai::Engine);

/// A value inside the engine.
#[verifier::external_type_specification]
#[verifier::external_body]
pub struct ExDynamic(rhai::Dynamic);

/// How a script fails inside the engine.
#[verifier::external_type_specification]
#[verifier::external_body]
pub struct ExEvalAltResult(rhai::EvalAltResult);

/// A cell that is written once.
#[verifier::external_type_specification]
#[verifier::external_body]
#[verifier::reject_recursive_types(T)]
pub struct ExOnceLock<T>(std::sync::OnceLock<T>);

/// How deep an expression of a script may nest.
pub const MAX_EXPR_DEPTH: usize = 128;

/// How deep an expression inside a function of a script may nest.
pub const MAX_FUNCTION_EXPR_DEPTH: usize = 64;

/// Why a script does not compile, if it does not, when its expressions and those inside its
/// functions may nest as deep as is told.
pub uninterp spec fn compile_failure(source: Seq<char>, expr: usize, function_expr: usize) -> Option<
    Seq<char>,
>;

/// Whether a script defines a function of a name.
pub uninterp spec fn defines(source: Seq<char>, name: Seq<char>) -> bool;

/// What a plugin's `pick()` is handed.
#[derive(Clone, Debug)]
pub struct ScoreCtx {
    /// The resolved sets; only where `catalog_read` was granted.
    pub sets: Option<Arc<ScriptValue>>,
    /// The pool that asks.
    pub pool: String,
    /// The pool's own configuration.
    pub config: Arc<ScriptValue>,
    /// How many items the generation needs.
    pub target_count: i64,
    /// When the generation runs, in seconds since the epoch.
    pub now: i64,
    /// Recent watch events; only where `watch_history` was granted.
    pub history: Option<Arc<ScriptValue>>,
    /// What the channel aired most recently.
    pub recent: Arc<ScriptValue>,
    /// The datastores that were granted, by name.
    pub datastores: Vec<(String, Datastore)>,
    /// The seed that the script may draw from.
    pub seed: i64,
}

/// What a plugin's `pick()` is handed, as mathematical values.
pub struct CtxModel {
    pub sets: Option<Script>,
    pub pool: Seq<char>,
    pub config: Script,
    pub target_count: int,
    pub now: int,
    pub history: Option<Script>,
    pub recent: Script,
    pub datastores: Seq<(Seq<char>, StoreModel)>,
    pub seed: int,
}

/// A value that may be absent, as mathematical values.
pub open spec fn held(value: Option<Arc<ScriptValue>>) -> Option<Script> {
    match value {
        Some(v) => Some((*v)@),
        None => None,
    }
}

/// Datastores by name, as mathematical values.
pub open spec fn stores(table: Seq<(String, Datastore)>) -> Seq<(Seq<char>, StoreModel)> {
    table.map_values(|row: (String, Datastore)| (row.0@, row.1@))
}

/// The datastore of a name; the first one counts.
pub open spec fn store_named(table: Seq<(Seq<char>, StoreModel)>, name: Seq<char>) -> Option<
    StoreModel,
>
    decreases table.len(),
{
    if table.len() == 0 {
        None
    } else if table[0].0 == name {
        Some(table[0].1)
    } else {
        store_named(table.skip(1), name)
    }
}

impl View for ScoreCtx {
    type V = CtxModel;

    open spec fn view(&self) -> CtxModel {
        CtxModel {
            sets: held(self.sets),
            pool: self.pool@,
            config: (*self.config)@,
            target_count: self.target_count as int,
            now: self.now as int,
            history: held(self.history),
            recent: (*self.recent)@,
            datastores: stores(self.datastores@),
            seed: self.seed as int,
        }
    }
}

/// What a script is told when it reads what it was not granted.
pub open spec fn ungranted_text(capability: Seq<char>) -> Seq<char> {
    "capability `"@ + capability + "` not declared"@
}

/// What a script is told when it reads what it was not granted.
pub fn ungranted(capability: &str) -> (out: String)
    ensures
        out@ == ungranted_text(capability@),
{
    let mut out: String = "capability `".to_owned();
    out.append(capability);
    out.append("` not declared");
    out
}

/// A field that is read, or what the script is told when it was not granted.
pub open spec fn gated(field: Option<Script>, capability: Seq<char>) -> Result<Script, Seq<char>> {
    match field {
        Some(value) => Ok(value),
        None => Err(ungranted_text(capability)),
    }
}

fn read_gated(field: &Option<Arc<ScriptValue>>, capability: &str) -> (out: Result<
    Arc<ScriptValue>,
    String,
>)
    ensures
        match (out, gated(held(*field), capability@)) {
            (Ok(got), Ok(want)) => (*got)@ == want,
            (Err(got), Err(want)) => got@ == want,
            _ => false,
        },
{
    match field {
        Some(value) => Ok(share(value)),
        None => Err(ungranted(capability)),
    }
}

impl ScoreCtx {
    /// The resolved sets, which `catalog_read` opens.
    pub fn get_sets(&self) -> (out: Result<Arc<ScriptValue>, String>)
        ensures
            match (out, gated(self@.sets, "catalog_read"@)) {
                (Ok(got), Ok(want)) => (*got)@ == want,
                (Err(got), Err(want)) => got@ == want,
                _ => false,
            },
    {
        read_gated(&self.sets, "catalog_read")
    }

    /// Recent watch events, which `watch_history` opens.
    pub fn get_history(&self) -> (out: Result<Arc<ScriptValue>, String>)
        ensures
            match (out, gated(self@.history, "watch_history"@)) {
                (Ok(got), Ok(want)) => (*got)@ == want,
                (Err(got), Err(want)) => got@ == want,
                _ => false,
            },
    {
        read_gated(&self.history, "watch_history")
    }

    /// The pool that asks.
    pub fn get_pool(&self) -> (out: String)
        ensures
            out == self.pool,
    {
        self.pool.clone()
    }

    /// A datastore by its name. One that was not granted is refused, whether the name was
    /// never declared, never granted or misspelled.
    pub fn get_datastore(&self, name: &str) -> (out: Result<Datastore, String>)
        ensures
            match out {
                Ok(got) => store_named(self@.datastores, name@) == Some(got@),
                Err(got) => store_named(self@.datastores, name@) is None && got@ == "datastore "@
                    + quoted_text(name@) + " not declared or granted"@,
            },
    {
        let ghost all = stores(self.datastores@);
        let mut i: usize = 0;
        assert(all.skip(0) =~= all);
        while i < self.datastores.len()
            invariant
                i <= self.datastores.len(),
                all == stores(self.datastores@),
                store_named(all, name@) == store_named(all.skip(i as int), name@),
            decreases self.datastores.len() - i,
        {
            let (known, store): &(String, Datastore) = &self.datastores[i];
            assert(all.skip(i as int)[0] == (known@, store@));
            assert(all.skip(i as int).skip(1) =~= all.skip(i + 1));
            if same_text(known.as_str(), name) {
                return Ok(
                    Datastore { path: store.path.clone(), answers: share(&store.answers) },
                );
            }
            i += 1;
        }
        let mut out: String = "datastore ".to_owned();
        out.append(quoted(name).as_str());
        out.append(" not declared or granted");
        Err(out)
    }
}

/// Hands a value to the engine as `rhai::Dynamic`, variant by variant. A value of some other
/// type, which only its type's name is known of, goes in as unit. Nothing is stated of the
/// result, which only the engine can read.
#[verifier::external_body]
pub(crate) fn dynamic(value: &ScriptValue) -> rhai::Dynamic {
    match value {
        ScriptValue::Unit | ScriptValue::Other(_) => rhai::Dynamic::UNIT,
        ScriptValue::Bool(b) => (*b).into(),
        ScriptValue::Int(n) => (*n).into(),
        ScriptValue::Float(text, _) => text.parse::<rhai::FLOAT>().unwrap_or_default().into(),
        ScriptValue::Char(c) => (*c).into(),
        ScriptValue::Text(text) => text.clone().into(),
        ScriptValue::List(list) => list.iter().map(dynamic).collect::<rhai::Array>().into(),
        ScriptValue::Table(table) => dynamic_table(table),
    }
}

/// Hands a table to the engine as `rhai::Map`, field by field. Nothing is stated of the
/// result, which only the engine can read.
#[verifier::external_body]
fn dynamic_table(table: &Vec<Field>) -> rhai::Dynamic {
    table.iter().map(|f| (f.name.as_str().into(), dynamic(&f.value))).collect::<rhai::Map>().into()
}

/// Takes a value out of the engine that holds no other: a truth value, a number or a character.
/// Nothing is stated of the result: only the engine knows what the value holds.
#[verifier::external_body]
fn plain_scalar(value: &rhai::Dynamic) -> Option<ScriptValue> {
    match (value.as_bool(), value.as_int(), value.as_float(), value.as_char()) {
        (Ok(b), ..) => Some(ScriptValue::Bool(b)),
        (_, Ok(n), ..) => Some(ScriptValue::Int(n)),
        (_, _, Ok(x), _) => Some(ScriptValue::Float(x.to_string(), x.is_finite())),
        (_, _, _, Ok(c)) => Some(ScriptValue::Char(c)),
        _ => None,
    }
}

/// Takes a field of a table out of the engine. Nothing is stated of the result: only the
/// engine knows what the value holds.
#[verifier::external_body]
fn plain_field(name: &str, value: &rhai::Dynamic) -> Field {
    Field { name: name.to_string(), value: plain(value) }
}

/// Takes a value out of the engine, variant by variant; of a value of a type that is not
/// among them, the name of the type. Nothing is stated of the result: only the engine knows
/// what the value holds.
#[verifier::external_body]
fn plain(value: &rhai::Dynamic) -> ScriptValue {
    let value = value.flatten_clone();
    match plain_scalar(&value) {
        Some(scalar) => scalar,
        None if value.is_unit() => ScriptValue::Unit,
        None if value.is_array() => ScriptValue::List(
            value.cast::<rhai::Array>().iter().map(plain).collect(),
        ),
        None if value.is_map() => ScriptValue::Table(
            value.cast::<rhai::Map>().iter().map(|(n, held)| plain_field(n, held)).collect(),
        ),
        None => value.into_string().map_or_else(
            |kind| ScriptValue::Other(kind.to_string()),
            ScriptValue::Text,
        ),
    }
}

/// What a script reads of what its `pick()` is handed, and of the datastores that it reaches
/// from there.
pub enum Reading {
    /// The pool that asks, by `ScoreCtx::get_pool`.
    Pool,
    /// The pool's own configuration.
    Config,
    /// How many items the generation needs.
    TargetCount,
    /// When the generation runs.
    Now,
    /// What the channel aired most recently.
    Recent,
    /// The seed that the script may draw from.
    Seed,
    /// The resolved sets, by `ScoreCtx::get_sets`.
    Sets,
    /// Recent watch events, by `ScoreCtx::get_history`.
    History,
    /// A datastore, by `ScoreCtx::get_datastore`.
    Datastore,
    /// The facts about an item, by `Datastore::enrichment_for`.
    EnrichmentFor,
    /// The facts about many items, by `Datastore::enrichment_for_many`.
    EnrichmentForMany,
    /// The edges that lead from an item, by `Datastore::edges_from`.
    EdgesFrom,
    /// The edges that lead to an item, by `Datastore::edges_to`.
    EdgesTo,
    /// The taste of one account, by `Datastore::taste_vector_for`.
    TasteVectorFor,
    /// The taste of all accounts together, by `Datastore::pooled_taste_vector`.
    PooledTasteVector,
}

/// What was registered with an engine since it was made: by the name that a script uses, what
/// it then reads.
pub uninterp spec fn registered(engine: rhai::Engine) -> Map<Seq<char>, Reading>;

/// How deep an engine lets expressions nest: outside functions, and inside them.
pub uninterp spec fn expr_depths(engine: rhai::Engine) -> (usize, usize);

/// What the station registers for its plugins.
pub open spec fn offered() -> Map<Seq<char>, Reading> {
    map![
        "pool"@ => Reading::Pool,
        "config"@ => Reading::Config,
        "target_count"@ => Reading::TargetCount,
        "now"@ => Reading::Now,
        "recent"@ => Reading::Recent,
        "seed"@ => Reading::Seed,
        "sets"@ => Reading::Sets,
        "history"@ => Reading::History,
        "datastore"@ => Reading::Datastore,
        "enrichment_for"@ => Reading::EnrichmentFor,
        "enrichment_for_many"@ => Reading::EnrichmentForMany,
        "edges_from"@ => Reading::EdgesFrom,
        "edges_to"@ => Reading::EdgesTo,
        "taste_vector_for"@ => Reading::TasteVectorFor,
        "pooled_taste_vector"@ => Reading::PooledTasteVector,
    ]
}

/// Whether an engine is set up as every plugin call has it: it offers what the station
/// registers and nothing more, and lets expressions nest as deep as `compile` does.
pub open spec fn is_set_up(engine: rhai::Engine) -> bool {
    &&& registered(engine) == offered()
    &&& expr_depths(engine) == (MAX_EXPR_DEPTH, MAX_FUNCTION_EXPR_DEPTH)
}

/// What a script holds of what it is handed, and where the first question is noted that it
/// asks a datastore in vain.
#[derive(Clone, Debug)]
struct Session {
    ctx: ScoreCtx,
    noted: Arc<std::sync::OnceLock<Stop>>,
}

/// A datastore as a script holds it, and where the first question is noted that it is asked in
/// vain.
#[derive(Clone, Debug)]
struct Handle {
    store: Datastore,
    noted: Arc<std::sync::OnceLock<Stop>>,
}

/// Turns a stop into `rhai::EvalAltResult`: a failure into a runtime error of the script, and a
/// question that was asked in vain, which `OnceLock::set` notes where none was noted before,
/// into the end of the script. Nothing is stated of the result, which only the engine can read.
#[verifier::external_body]
fn raised(noted: &std::sync::OnceLock<Stop>, stop: Stop) -> Box<rhai::EvalAltResult> {
    match stop {
        Stop::Failed(why) => why.into(),
        unasked => {
            let _ = noted.set(unasked);
            rhai::EvalAltResult::ErrorTerminated(rhai::Dynamic::UNIT, rhai::Position::NONE).into()
        },
    }
}

/// `Engine::register_get` registers the fields of `ScoreCtx` that any script may read, each
/// under its name. What was registered before stays, and so do the depths.
#[verifier::external_body]
fn register_open(engine: &mut rhai::Engine)
    ensures
        registered(*final(engine)) == registered(*old(engine)).insert(
            "pool"@,
            Reading::Pool,
        ).insert("config"@, Reading::Config).insert("target_count"@, Reading::TargetCount).insert(
            "now"@,
            Reading::Now,
        ).insert("recent"@, Reading::Recent).insert("seed"@, Reading::Seed),
        expr_depths(*final(engine)) == expr_depths(*old(engine)),
{
    engine.register_type_with_name::<Session>("ScoreCtx")
        .register_get("pool", |s: &mut Session| s.ctx.get_pool())
        .register_get("config", |s: &mut Session| dynamic(&s.ctx.config))
        .register_get("target_count", |s: &mut Session| s.ctx.target_count)
        .register_get("now", |s: &mut Session| s.ctx.now)
        .register_get("recent", |s: &mut Session| dynamic(&s.ctx.recent))
        .register_get("seed", |s: &mut Session| s.ctx.seed);
}

/// `Engine::register_get` registers the fields of `ScoreCtx` that a script reads by a grant,
/// each under its name: a refusal becomes the script's own runtime error. What was registered
/// before stays, and so do the depths.
#[verifier::external_body]
fn register_gated(engine: &mut rhai::Engine)
    ensures
        registered(*final(engine)) == registered(*old(engine)).insert(
            "sets"@,
            Reading::Sets,
        ).insert("history"@, Reading::History),
        expr_depths(*final(engine)) == expr_depths(*old(engine)),
{
    engine.register_get(
        "sets",
        |s: &mut Session|
            s.ctx.get_sets().map(|v| dynamic(&v)).map_err(Box::<rhai::EvalAltResult>::from),
    ).register_get(
        "history",
        |s: &mut Session|
            s.ctx.get_history().map(|v| dynamic(&v)).map_err(Box::<rhai::EvalAltResult>::from),
    );
}

/// `Engine::register_fn` registers the function by which a script reaches a datastore: a
/// refusal becomes the script's own runtime error. What was registered before stays, and so do
/// the depths.
#[verifier::external_body]
fn register_datastore(engine: &mut rhai::Engine)
    ensures
        registered(*final(engine)) == registered(*old(engine)).insert(
            "datastore"@,
            Reading::Datastore,
        ),
        expr_depths(*final(engine)) == expr_depths(*old(engine)),
{
    engine.register_type_with_name::<Handle>("Datastore").register_fn(
        "datastore",
        |s: &mut Session, name: &str|
            s.ctx.get_datastore(name).map(
                |store| Handle { store, noted: Arc::clone(&s.noted) },
            ).map_err(Box::<rhai::EvalAltResult>::from),
    );
}

/// `Engine::register_fn` registers the functions by which a script asks a datastore for facts.
/// What was registered before stays, and so do the depths.
#[verifier::external_body]
fn register_facts(engine: &mut rhai::Engine)
    ensures
        registered(*final(engine)) == registered(*old(engine)).insert(
            "enrichment_for"@,
            Reading::EnrichmentFor,
        ).insert("enrichment_for_many"@, Reading::EnrichmentForMany),
        expr_depths(*final(engine)) == expr_depths(*old(engine)),
{
    engine.register_fn(
        "enrichment_for",
        |h: &mut Handle, item: &str, namespace: &str|
            h.store.enrichment_for(item, namespace).map(|v| dynamic(&v)).map_err(
                |stop| raised(&h.noted, stop),
            ),
    ).register_fn(
        "enrichment_for_many",
        |h: &mut Handle, items: rhai::Array, namespace: &str|
            h.store.enrichment_for_many(&items.iter().map(plain).collect(), namespace).map(
                |v| dynamic(&v),
            ).map_err(|stop| raised(&h.noted, stop)),
    );
}

/// `Engine::register_fn` registers the functions by which a script asks a datastore for edges.
/// What was registered before stays, and so do the depths.
#[verifier::external_body]
fn register_edges(engine: &mut rhai::Engine)
    ensures
        registered(*final(engine)) == registered(*old(engine)).insert(
            "edges_from"@,
            Reading::EdgesFrom,
        ).insert("edges_to"@, Reading::EdgesTo),
        expr_depths(*final(engine)) == expr_depths(*old(engine)),
{
    engine.register_fn(
        "edges_from",
        |h: &mut Handle, item: &str, kind: &str|
            h.store.edges_from(item, kind).map(|v| dynamic(&v)).map_err(
                |stop| raised(&h.noted, stop),
            ),
    ).register_fn(
        "edges_to",
        |h: &mut Handle, item: &str, kind: &str|
            h.store.edges_to(item, kind).map(|v| dynamic(&v)).map_err(
                |stop| raised(&h.noted, stop),
            ),
    );
}

/// `Engine::register_fn` registers the functions by which a script asks a datastore for tastes.
/// What was registered before stays, and so do the depths.
#[verifier::external_body]
fn register_tastes(engine: &mut rhai::Engine)
    ensures
        registered(*final(engine)) == registered(*old(engine)).insert(
            "taste_vector_for"@,
            Reading::TasteVectorFor,
        ).insert("pooled_taste_vector"@, Reading::PooledTasteVector),
        expr_depths(*final(engine)) == expr_depths(*old(engine)),
{
    engine.register_fn(
        "taste_vector_for",
        |h: &mut Handle, account: i64|
            h.store.taste_vector_for(account).map(|v| dynamic(&v)).map_err(
                |stop| raised(&h.noted, stop),
            ),
    ).register_fn(
        "pooled_taste_vector",
        |h: &mut Handle|
            h.store.pooled_taste_vector().map(|v| dynamic(&v)).map_err(
                |stop| raised(&h.noted, stop),
            ),
    );
}

/// `Engine::new` makes an engine with nothing registered beyond what it is made with, and
/// `Engine::set_max_expr_depths` lets its expressions nest as deep as is told.
#[verifier::external_body]
fn bare_engine(expr: usize, function_expr: usize) -> (out: rhai::Engine)
    ensures
        (registered(out) == Map::<Seq<char>, Reading>::empty()),
        expr_depths(out) == (expr, function_expr),
{
    let mut engine = rhai::Engine::new();
    engine.set_max_expr_depths(expr, function_expr);
    engine
}

/// The engine that every plugin call uses. It nests as deep as `compile` lets a script nest;
/// the limits are set because the engine's own differ between builds.
pub(crate) fn engine() -> (out: rhai::Engine)
    ensures
        is_set_up(out),
{
    let mut engine: rhai::Engine = bare_engine(MAX_EXPR_DEPTH, MAX_FUNCTION_EXPR_DEPTH);
    register_open(&mut engine);
    register_gated(&mut engine);
    register_datastore(&mut engine);
    register_facts(&mut engine);
    register_edges(&mut engine);
    register_tastes(&mut engine);
    engine
}

/// `Engine::compile`, on an engine whose expressions may nest as deep as is told, compiles a
/// script or tells why it does not compile, by the script's text and those depths alone.
/// `AST::iter_functions` gives the functions that the script defines, by its text alone, and
/// with them its closures. The engine names a closure by `anon$` and a hash that each process
/// seeds anew, so nothing is stated of names that hold a `$`; no author can write one.
/// Nothing is stated of the compiled script itself either, which only the engine can read.
#[verifier::external_body]
fn compile_within(source: &str, expr: usize, function_expr: usize) -> (out: Result<
    (rhai::AST, Vec<String>),
    String,
>)
    ensures
        match out {
            Ok((_, names)) => {
                &&& compile_failure(source@, expr, function_expr) is None
                &&& forall|name: Seq<char>|
                    !name.contains('$') ==> #[trigger] has_name(names@, name) == defines(source@, name)
            },
            Err(why) => compile_failure(source@, expr, function_expr) == Some(why@),
        },
{
    let mut engine = rhai::Engine::new();
    engine.set_max_expr_depths(expr, function_expr);
    engine.compile(source).map(
        |ast| {
            let names = ast.iter_functions().map(|f| f.name.to_string()).collect();
            (ast, names)
        },
    ).map_err(|e| e.to_string())
}

/// A script that compiled.
pub struct Compiled {
    source: String,
    ast: rhai::AST,
}

impl Compiled {
    /// The text of the script.
    pub closed spec fn source(self) -> Seq<char> {
        self.source@
    }
}

/// Why a script does not compile for the station, if it does not.
pub open spec fn uncompilable(source: Seq<char>) -> Option<Seq<char>> {
    compile_failure(source, MAX_EXPR_DEPTH, MAX_FUNCTION_EXPR_DEPTH)
}

/// Compiles a script, and gives the names of the functions that it defines. Its closures,
/// which the engine names with a `$`, may be among them.
pub fn compile(source: &str) -> (out: Result<(Compiled, Vec<String>), String>)
    ensures
        match out {
            Ok((script, names)) => {
                &&& uncompilable(source@) is None
                &&& script.source() == source@
                &&& forall|name: Seq<char>|
                    !name.contains('$') ==> #[trigger] has_name(names@, name) == defines(source@, name)
            },
            Err(why) => uncompilable(source@) == Some(why@),
        },
{
    match compile_within(source, MAX_EXPR_DEPTH, MAX_FUNCTION_EXPR_DEPTH) {
        Ok((ast, names)) => Ok((Compiled { source: source.to_owned(), ast }, names)),
        Err(why) => Err(why),
    }
}

/// What a script's function is handed.
pub enum Handed {
    Nothing,
    Ctx(CtxModel),
    Value(Script),
}

/// What a call of a script's function gave: a list, or why it failed.
pub open spec fn called(reply: Result<Vec<ScriptValue>, String>) -> Result<Seq<Script>, Seq<char>> {
    match reply {
        Ok(list) => Ok(scripts(list@)),
        Err(why) => Err(why@),
    }
}

/// What a call of a script's function gave: a table, or why it failed.
pub open spec fn called_table(reply: Result<Vec<Field>, String>) -> Result<
    Seq<(Seq<char>, Script)>,
    Seq<char>,
> {
    match reply {
        Ok(table) => Ok(fields(table@)),
        Err(why) => Err(why@),
    }
}

/// A reply that is a list, or a failure, as the engine knows it.
pub open spec fn listed(reply: Result<Seq<Script>, Seq<char>>) -> Result<Script, Stopped> {
    match reply {
        Ok(list) => Ok(Script::List(list)),
        Err(why) => Err(Stopped::Failed(why)),
    }
}

/// A reply that is a table, or a failure, as the engine knows it.
pub open spec fn tabled(reply: Result<Seq<(Seq<char>, Script)>, Seq<char>>) -> Result<
    Script,
    Stopped,
> {
    match reply {
        Ok(table) => Ok(Script::Table(table)),
        Err(why) => Err(Stopped::Failed(why)),
    }
}

/// What a call of a script's function gave: a list, or why it stopped.
pub open spec fn halted(reply: Result<Vec<ScriptValue>, Stop>) -> Result<Seq<Script>, Stopped> {
    match reply {
        Ok(list) => Ok(scripts(list@)),
        Err(stop) => Err(stop@),
    }
}

/// A reply that is a list, or why there is none, as the engine knows it.
pub open spec fn ended(reply: Result<Seq<Script>, Stopped>) -> Result<Script, Stopped> {
    match reply {
        Ok(list) => Ok(Script::List(list)),
        Err(stop) => Err(stop),
    }
}

/// Entries of a reply, each with how the engine writes it for debugging, as mathematical values.
pub open spec fn entries(list: Seq<(ScriptValue, String)>) -> Seq<(Script, Seq<char>)> {
    list.map_values(|e: (ScriptValue, String)| (e.0@, e.1@))
}

/// What a call of a script's function gave: entries, each with how the engine writes it for
/// debugging, or why it failed.
pub open spec fn called_shown(reply: Result<Vec<(ScriptValue, String)>, String>) -> Result<
    Seq<(Script, Seq<char>)>,
    Seq<char>,
> {
    match reply {
        Ok(list) => Ok(entries(list@)),
        Err(why) => Err(why@),
    }
}

/// A reply of entries without how the engine writes them.
pub open spec fn unshown(reply: Result<Seq<(Script, Seq<char>)>, Seq<char>>) -> Result<
    Seq<Script>,
    Seq<char>,
> {
    match reply {
        Ok(list) => Ok(list.map_values(|e: (Script, Seq<char>)| e.0)),
        Err(why) => Err(why),
    }
}

/// Whether the engine may write a value so for debugging. What it writes may tell apart values
/// that are one to the station, such as one that is shared and one that is not.
pub uninterp spec fn may_show(value: Script, shown: Seq<char>) -> bool;

/// Whether the engine may write the entries of a reply so for debugging.
pub open spec fn may_show_all(list: Seq<(Script, Seq<char>)>) -> bool {
    forall|i: int| 0 <= i < list.len() ==> may_show((#[trigger] list[i]).0, list[i].1)
}

/// Whether a function of a script, handed a value and run by an engine that is set up for
/// plugins, may give this value or stop for this reason.
pub uninterp spec fn may_give(
    source: Seq<char>,
    function: Seq<char>,
    handed: Handed,
    reply: Result<Script, Stopped>,
) -> bool;

/// Whether a datastore that a script is handed lacks the answer to a question.
pub open spec fn lacks(ctx: CtxModel, store: Seq<char>, question: QuestionModel) -> bool {
    exists|i: int|
        0 <= i < ctx.datastores.len() && (#[trigger] ctx.datastores[i]).1.path == store
            && answer_to(ctx.datastores[i].1.answers, question) is None
}

/// `Engine::call_fn` calls a function of a compiled script that takes nothing and gives a
/// list. What a script gives may depend on anything it reads, the clock among it: all that
/// is stated is that it is one of the things the function may give. A function that never
/// ends does not return; which ones end is not told here.
#[verifier::external_body]
pub(crate) fn call_for_list(engine: &rhai::Engine, script: &Compiled, function: &str) -> (out: Result<
    Vec<ScriptValue>,
    String,
>)
    requires
        is_set_up(*engine),
    ensures
        may_give(script.source(), function@, Handed::Nothing, listed(called(out))),
{
    engine.call_fn::<rhai::Array>(&mut rhai::Scope::new(), &script.ast, function, ())
        .map(|list| list.iter().map(plain).collect())
        .map_err(|e| e.to_string())
}

/// Takes a value out of the engine, and with it how `format!("{:?}")` writes it where it is a
/// `rhai::Map`; nothing of any other value. Nothing is stated of the result: only the engine
/// knows what the value holds.
#[verifier::external_body]
fn plain_shown(value: &rhai::Dynamic) -> (ScriptValue, String) {
    let shown = value.flatten_clone().try_cast::<rhai::Map>().map(|map| format!("{:?}", map));
    (plain(value), shown.unwrap_or_default())
}

/// `Engine::call_fn` calls a function of a compiled script that takes nothing and gives a
/// list of entries, each of them with how the engine writes it for debugging where it is a
/// table. What a script gives may depend on anything it reads: all that is stated is that it
/// is one of the things the function may give, and that the engine may write the entries so. A
/// function that never ends does not return; which ones end is not told here.
#[verifier::external_body]
pub(crate) fn call_for_entries(engine: &rhai::Engine, script: &Compiled, function: &str) -> (out:
    Result<Vec<(ScriptValue, String)>, String>)
    requires
        is_set_up(*engine),
    ensures
        may_give(script.source(), function@, Handed::Nothing, listed(unshown(called_shown(out)))),
        out matches Ok(list) ==> forall|i: int|
            0 <= i < list@.len() ==> may_show((#[trigger] list@[i]).0@, list@[i].1@),
{
    engine.call_fn::<rhai::Array>(&mut rhai::Scope::new(), &script.ast, function, ())
        .map(|list| list.iter().map(plain_shown).collect())
        .map_err(|e| e.to_string())
}

/// `Engine::call_fn` calls a function of a compiled script that takes nothing and gives a
/// table. What a script gives may depend on anything it reads: all that is stated is that it
/// is one of the things the function may give. A function that never ends does not return;
/// which ones end is not told here.
#[verifier::external_body]
pub(crate) fn call_for_table(engine: &rhai::Engine, script: &Compiled, function: &str) -> (out:
    Result<Vec<Field>, String>)
    requires
        is_set_up(*engine),
    ensures
        may_give(script.source(), function@, Handed::Nothing, tabled(called_table(out))),
{
    engine.call_fn::<rhai::Map>(&mut rhai::Scope::new(), &script.ast, function, ())
        .map(|table| table.iter().map(|(name, held)| plain_field(name, held)).collect())
        .map_err(|e| e.to_string())
}

/// `Engine::call_fn` calls a function of a compiled script that takes what a plugin is
/// handed and gives a list. What a script gives may depend on anything it reads: all that is
/// stated is that it is one of the things the function may give. A question that it asked a
/// datastore in vain takes the place of the reply, even where the script went on after it: the
/// question was put to a datastore that the script was handed and that lacks the answer. A
/// function that never ends does not return; which ones end is not told here.
#[verifier::external_body]
pub(crate) fn call_with_ctx(
    engine: &rhai::Engine,
    script: &Compiled,
    function: &str,
    ctx: ScoreCtx,
) -> (out: Result<Vec<ScriptValue>, Stop>)
    requires
        is_set_up(*engine),
    ensures
        may_give(script.source(), function@, Handed::Ctx(ctx@), ended(halted(out))),
        out matches Err(Stop::Unasked { store, question }) ==> lacks(ctx@, store@, question@),
{
    let noted = Arc::new(std::sync::OnceLock::new());
    let session = rhai::Dynamic::from(Session { ctx, noted: Arc::clone(&noted) });
    let reply = engine.call_fn::<rhai::Array>(
        &mut rhai::Scope::new(),
        &script.ast,
        function,
        (session,),
    ).map(|list| list.iter().map(plain).collect()).map_err(|e| Stop::Failed(e.to_string()));
    noted.get().map_or(reply, |stop| Err(stop.clone()))
}

/// `Engine::call_fn` calls a function of a compiled script that takes one value and gives a
/// list. What a script gives may depend on anything it reads: all that is stated is that it
/// is one of the things the function may give. A function that never ends does not return;
/// which ones end is not told here.
#[verifier::external_body]
pub(crate) fn call_with_value(
    engine: &rhai::Engine,
    script: &Compiled,
    function: &str,
    value: &ScriptValue,
) -> (out: Result<Vec<ScriptValue>, String>)
    requires
        is_set_up(*engine),
    ensures
        may_give(script.source(), function@, Handed::Value(value@), listed(called(out))),
{
    engine.call_fn::<rhai::Array>(
        &mut rhai::Scope::new(),
        &script.ast,
        function,
        (dynamic(value),),
    ).map(|list| list.iter().map(plain).collect()).map_err(|e| e.to_string())
}

} // verus!
