//! Running the plugins that rank the pools of a block.

use vstd::prelude::*;

use std::sync::Arc;

use crate::catalog::Catalog;
use crate::config::Pool;
use crate::datastore::{QuestionModel, Stop, Stopped};
use crate::fault::{Fault, ResolveError};
use crate::names::{entry_of, has_name, lookup, texts};
use crate::paths::joined;
use crate::pattern::PluginReply;
use crate::score::{
    a_prepared_script_is_found, answers_to, brought, brought_by, cached_at, failing, flattened,
    handed, made_ready, may_end, opened, pick, pick_reply, picked_result, pool_reply, recorded,
    CachedScript, GrantedCapabilities, Halt, Halted, Picked, PickedItem, PickedRow, ScoreCache,
    ScoreEnv, ScoreInputs, SourceRead,
};
use crate::script::{Script, ScriptValue};
use crate::sources::PoolSources;

verus! {

/// Whether a plugin ranks a pool.
pub open spec fn is_ranked(cfg: Pool) -> bool {
    cfg.plugin is Some && cfg.expr is None && cfg.groups@.len() == 0
}

/// The pools that plugins rank, in their order.
pub open spec fn ranked_pools(pools: Seq<Pool>) -> Seq<Pool>
    decreases pools.len(),
{
    if pools.len() == 0 {
        Seq::empty()
    } else if is_ranked(pools.last()) {
        ranked_pools(pools.drop_last()).push(pools.last())
    } else {
        ranked_pools(pools.drop_last())
    }
}

/// Where the plugin of a pool lies.
pub open spec fn plugin_path(base: Seq<char>, cfg: Pool) -> Seq<char> {
    joined(base, cfg.plugin->0@)
}

/// The first plugin that was not read.
pub open spec fn unread(base: Seq<char>, scripts: Seq<(String, SourceRead)>, pools: Seq<Pool>) -> Option<
    Seq<char>,
>
    decreases pools.len(),
{
    if pools.len() == 0 {
        None
    } else {
        match unread(base, scripts, pools.drop_last()) {
            Some(path) => Some(path),
            None => if is_ranked(pools.last()) && entry_of(
                scripts,
                plugin_path(base, pools.last()),
            ) is None {
                Some(plugin_path(base, pools.last()))
            } else {
                None
            },
        }
    }
}

proof fn lemma_unread(
    base: Seq<char>,
    scripts: Seq<(String, SourceRead)>,
    pools: Seq<Pool>,
    i: int,
)
    requires
        0 <= i <= pools.len(),
    ensures
        unread(base, scripts, pools.take(i)) is Some ==> unread(base, scripts, pools) == unread(
            base,
            scripts,
            pools.take(i),
        ),
    decreases pools.len(),
{
    if i < pools.len() {
        assert(pools.drop_last().take(i) =~= pools.take(i));
        lemma_unread(base, scripts, pools.drop_last(), i);
    } else {
        assert(pools.take(i) =~= pools);
    }
}

fn ranks(cfg: &Pool) -> (out: bool)
    ensures
        out == is_ranked(*cfg),
{
    cfg.plugin.is_some() && cfg.expr.is_none() && cfg.groups.len() == 0
}

fn path_of(env: &ScoreEnv<'_>, cfg: &Pool) -> (out: String)
    requires
        cfg.plugin is Some,
    ensures
        out@ == plugin_path(env.base_dir@, *cfg),
{
    match &cfg.plugin {
        Some(plugin) => env.resolve_path(plugin.as_str()),
        None => String::new(),
    }
}

/// The first plugin that still has to be read before the pools can be ranked.
pub fn find_unread(
    env: &ScoreEnv<'_>,
    scripts: &Vec<(String, SourceRead)>,
    pools: &Vec<Pool>,
) -> (out: Option<String>)
    ensures
        match (out, unread(env.base_dir@, scripts@, pools@)) {
            (Some(got), Some(want)) => got@ == want,
            (None, None) => true,
            _ => false,
        },
{
    let mut i: usize = 0;
    while i < pools.len()
        invariant
            i <= pools.len(),
            unread(env.base_dir@, scripts@, pools@.take(i as int)) is None,
        decreases pools.len() - i,
    {
        assert(pools@.take(i + 1).drop_last() =~= pools@.take(i as int));
        if ranks(&pools[i]) {
            let path: String = path_of(env, &pools[i]);
            if lookup(scripts, &path).is_none() {
                proof {
                    lemma_unread(env.base_dir@, scripts@, pools@, i + 1);
                }
                return Some(path);
            }
        }
        i += 1;
    }
    assert(pools@.take(i as int) =~= pools@);
    None
}

/// What came of ranking a pool.
#[derive(Debug)]
pub enum Ranking {
    /// The plugin, or what it reads, could not be prepared.
    Unprepared(String),
    /// What the plugin picked, or how it failed to.
    Picked(Result<Vec<PickedItem>, String>),
}

/// What a pool configures its plugin with, as a mathematical value.
pub open spec fn configuration(cfg: Pool) -> Option<Script> {
    match cfg.config {
        Some(value) => Some((*value)@),
        None => None,
    }
}

/// Whether these are the capabilities that a pool grants its plugin.
pub open spec fn granted_to(cfg: Pool, granted: GrantedCapabilities) -> bool {
    &&& granted.catalog_read == has_name(cfg.capabilities@, "catalog_read"@)
    &&& granted.watch_history == has_name(cfg.capabilities@, "watch_history"@)
    &&& opened(Seq::empty(), cfg.datastores@) == Ok::<Seq<(String, String)>, Seq<char>>(
        granted.datastores@,
    )
}

/// Whether the plugin of a pool may end so once it was prepared. A granted datastore that could
/// not be opened fails it.
pub open spec fn may_pick(
    entry: CachedScript,
    base: Seq<char>,
    inputs: ScoreInputs,
    seed: u64,
    cfg: Pool,
    out: Result<Seq<Picked>, Stopped>,
) -> bool {
    match opened(Seq::empty(), cfg.datastores@) {
        Err(why) => out == Err::<Seq<Picked>, Stopped>(Stopped::Failed(why)),
        Ok(_) => exists|granted: GrantedCapabilities|
            #[trigger] granted_to(cfg, granted) && may_end(
                entry,
                plugin_path(base, cfg),
                handed((*entry.sets)@, inputs, seed, cfg.name@, configuration(cfg), granted),
                out,
            ),
    }
}

/// Whether this may come of ranking a pool, when its plugin was prepared so.
pub open spec fn may_come(
    made: Result<CachedScript, Halt>,
    base: Seq<char>,
    inputs: ScoreInputs,
    seed: u64,
    cfg: Pool,
    ranking: Ranking,
) -> bool {
    match (made, ranking) {
        (Err(Halt::Failed(why)), Ranking::Unprepared(got)) => got@ == why@,
        (Ok(entry), Ranking::Picked(out)) => may_pick(
            entry,
            base,
            inputs,
            seed,
            cfg,
            failing(picked_result(out)),
        ),
        _ => false,
    }
}

/// Whether this may come of ranking a pool: its plugin is prepared against the catalog, and
/// then picks from what that gave.
pub open spec fn may_rank(
    catalog: Catalog,
    base: Seq<char>,
    inputs: ScoreInputs,
    seed: u64,
    scripts: Seq<(String, SourceRead)>,
    cfg: Pool,
    ranking: Ranking,
) -> bool {
    entry_of(scripts, plugin_path(base, cfg)) matches Some(read) && exists|
        made: Result<CachedScript, Halt>,
    |
        #[trigger] made_ready(made, catalog, plugin_path(base, cfg), read, brought(cfg.sources))
            && may_come(made, base, inputs, seed, cfg, ranking)
}

/// Whether preparing the plugin of a pool may have to wait for the answer to a query.
pub open spec fn may_ask(
    catalog: Catalog,
    base: Seq<char>,
    scripts: Seq<(String, SourceRead)>,
    cfg: Pool,
    query: Seq<char>,
) -> bool {
    entry_of(scripts, plugin_path(base, cfg)) matches Some(read) && exists|
        made: Result<CachedScript, Halt>,
    |
        #[trigger] made_ready(made, catalog, plugin_path(base, cfg), read, brought(cfg.sources)) && (
        made matches Err(halt) && halt@ == Halted::Unasked(query))
}

/// Whether ranking a pool may have to wait for the answer to a question that its plugin puts to
/// a datastore. The datastore is one that the pool is granted, and lacks the answer.
pub open spec fn may_question(
    catalog: Catalog,
    base: Seq<char>,
    inputs: ScoreInputs,
    seed: u64,
    scripts: Seq<(String, SourceRead)>,
    cfg: Pool,
    store: Seq<char>,
    question: QuestionModel,
) -> bool {
    entry_of(scripts, plugin_path(base, cfg)) matches Some(read) && exists|
        made: Result<CachedScript, Halt>,
    |
        #[trigger] made_ready(made, catalog, plugin_path(base, cfg), read, brought(cfg.sources)) && (
        made matches Ok(entry) && may_pick(
            entry,
            base,
            inputs,
            seed,
            cfg,
            Err(Stopped::Unasked { store, question }),
        ))
}

/// Whether ranking a pool may have to wait: for the answer to a query, or for that to a
/// question that its plugin puts to a datastore.
pub open spec fn may_hold_up(
    catalog: Catalog,
    base: Seq<char>,
    inputs: ScoreInputs,
    seed: u64,
    scripts: Seq<(String, SourceRead)>,
    cfg: Pool,
    fault: Fault,
) -> bool {
    match fault {
        Fault::UnansweredQuery { query } => may_ask(catalog, base, scripts, cfg, query@),
        Fault::UnansweredDatastore { store, question } => may_question(
            catalog,
            base,
            inputs,
            seed,
            scripts,
            cfg,
            store,
            question,
        ),
        _ => false,
    }
}

/// Whether a script was prepared from what was read of it.
pub open spec fn is_prepared(
    entry: CachedScript,
    catalog: Catalog,
    scripts: Seq<(String, SourceRead)>,
) -> bool {
    entry_of(scripts, entry.path@) matches Some(read) && made_ready(
        Ok(entry),
        catalog,
        entry.path@,
        read,
        brought(entry.sources),
    )
}

/// Whether every script in a cache was prepared from what was read of it.
pub open spec fn all_prepared(
    entries: Seq<CachedScript>,
    catalog: Catalog,
    scripts: Seq<(String, SourceRead)>,
) -> bool {
    forall|i: int| 0 <= i < entries.len() ==> is_prepared(#[trigger] entries[i], catalog, scripts)
}

/// Ranks one pool: prepares its plugin, unless the cache has done so already, and lets it
/// pick.
fn rank_pool(
    cache: &mut ScoreCache,
    catalog: &Catalog,
    env: &ScoreEnv<'_>,
    seed: u64,
    scripts: &Vec<(String, SourceRead)>,
    cfg: &Pool,
) -> (out: Result<Ranking, ResolveError>)
    requires
        is_ranked(*cfg),
        entry_of(scripts@, plugin_path(env.base_dir@, *cfg)) is Some,
        all_prepared(old(cache).entries@, *catalog, scripts@),
    ensures
        all_prepared(final(cache).entries@, *catalog, scripts@),
        match out {
            Ok(ranking) => may_rank(
                *catalog,
                env.base_dir@,
                *env.inputs,
                seed,
                scripts@,
                *cfg,
                ranking,
            ),
            Err(e) => may_hold_up(
                *catalog,
                env.base_dir@,
                *env.inputs,
                seed,
                scripts@,
                *cfg,
                e@,
            ),
        },
{
    let path: String = path_of(env, cfg);
    let read: &SourceRead = match lookup(scripts, &path) {
        Some(read) => read,
        None => return Ok(Ranking::Unprepared(path)),
    };
    let sources: Option<&PoolSources> = match &cfg.sources {
        Some(table) => Some(table),
        None => None,
    };
    assert(brought_by(sources) == brought(cfg.sources));
    let ghost before = cache.entries@;
    match cache.prepare(catalog, path.as_str(), read, sources) {
        Err(Halt::Unasked(query)) => return Err(ResolveError::UnansweredQuery { query }),
        Err(Halt::Failed(why)) => return Ok(Ranking::Unprepared(why)),
        Ok(_) => {},
    }
    proof {
        lemma_prepared(before, cache.entries@, *catalog, scripts@, path@, *read, brought(cfg.sources));
    }
    let ghost at = cached_at(cache.entries@, path@, brought(cfg.sources))->0;
    let ghost entry = cache.entries@[at];
    assert(made_ready(Ok(entry), *catalog, path@, *read, brought(cfg.sources)));
    let plain: GrantedCapabilities = GrantedCapabilities::from_names(&cfg.capabilities);
    let granted: GrantedCapabilities = match plain.with_datastores(&cfg.datastores) {
        Ok(granted) => granted,
        Err(why) => {
            let out: Result<Vec<PickedItem>, String> = Err(why);
            assert(may_come(
                Ok(entry),
                env.base_dir@,
                *env.inputs,
                seed,
                *cfg,
                Ranking::Picked(out),
            ));
            return Ok(Ranking::Picked(out));
        },
    };
    assert(granted_to(*cfg, granted));
    let config: Option<&Arc<ScriptValue>> = match &cfg.config {
        Some(value) => Some(value),
        None => None,
    };
    let out: Result<Vec<PickedItem>, String> = match pick(
        cache,
        path.as_str(),
        sources,
        env.inputs,
        seed,
        cfg.name.as_str(),
        config,
        &granted,
    ) {
        Ok(items) => Ok(items),
        Err(Stop::Failed(why)) => Err(why),
        Err(Stop::Unasked { store, question }) => {
            assert(may_pick(
                entry,
                env.base_dir@,
                *env.inputs,
                seed,
                *cfg,
                Err(Stopped::Unasked { store: store@, question: question@ }),
            ));
            return Err(ResolveError::UnansweredDatastore { store, question });
        },
    };
    assert(may_come(Ok(entry), env.base_dir@, *env.inputs, seed, *cfg, Ranking::Picked(out)));
    Ok(Ranking::Picked(out))
}

/// A script that was just prepared is found in the cache, and was prepared from what was
/// read of it.
proof fn lemma_prepared(
    before: Seq<CachedScript>,
    after: Seq<CachedScript>,
    catalog: Catalog,
    scripts: Seq<(String, SourceRead)>,
    path: Seq<char>,
    read: SourceRead,
    sources: Option<Seq<(Seq<char>, Seq<char>)>>,
)
    requires
        all_prepared(before, catalog, scripts),
        entry_of(scripts, path) == Some(read),
        match cached_at(before, path, sources) {
            Some(_) => after == before,
            None => exists|made: CachedScript|
                #[trigger] made_ready(Ok(made), catalog, path, read, sources) && after
                    == before.push(made),
        },
    ensures
        all_prepared(after, catalog, scripts),
        cached_at(after, path, sources) matches Some(at) && 0 <= at < after.len() && made_ready(
            Ok(after[at]),
            catalog,
            path,
            read,
            sources,
        ),
{
    match cached_at(before, path, sources) {
        Some(at) => {
            lemma_found(before, path, sources);
            assert(is_prepared(before[at], catalog, scripts));
        },
        None => {
            let made = choose|made: CachedScript|
                #[trigger] made_ready(Ok(made), catalog, path, read, sources) && after
                    == before.push(made);
            assert(answers_to(made, path, sources));
            a_prepared_script_is_found(before, made, path, sources);
            assert(is_prepared(made, catalog, scripts));
        },
    }
}

proof fn lemma_found(
    entries: Seq<CachedScript>,
    path: Seq<char>,
    sources: Option<Seq<(Seq<char>, Seq<char>)>>,
)
    ensures
        cached_at(entries, path, sources) matches Some(at) ==> 0 <= at < entries.len()
            && answers_to(entries[at], path, sources),
    decreases entries.len(),
{
    if entries.len() > 0 {
        lemma_found(entries.drop_last(), path, sources);
    }
}

/// Whether this may come of ranking the pools that plugins rank, under their names.
pub open spec fn may_rank_all(
    catalog: Catalog,
    base: Seq<char>,
    inputs: ScoreInputs,
    seed: u64,
    scripts: Seq<(String, SourceRead)>,
    pools: Seq<Pool>,
    rankings: Seq<(String, Ranking)>,
) -> bool {
    let ranked = ranked_pools(pools);
    &&& rankings.len() == ranked.len()
    &&& forall|i: int|
        0 <= i < ranked.len() ==> (#[trigger] rankings[i]).0@ == ranked[i].name@ && may_rank(
            catalog,
            base,
            inputs,
            seed,
            scripts,
            ranked[i],
            rankings[i].1,
        )
}

/// Whether ranking one of the pools may have to wait for an answer.
pub open spec fn one_may_hold_up(
    catalog: Catalog,
    base: Seq<char>,
    inputs: ScoreInputs,
    seed: u64,
    scripts: Seq<(String, SourceRead)>,
    pools: Seq<Pool>,
    fault: Fault,
) -> bool {
    exists|i: int|
        0 <= i < pools.len() && is_ranked(pools[i]) && may_hold_up(
            catalog,
            base,
            inputs,
            seed,
            scripts,
            #[trigger] pools[i],
            fault,
        )
}

/// Ranks every pool of a block that a plugin ranks, in their order. Pools that name the same
/// plugin and bring the same queries share one preparation.
///
/// What has to be read or asked for first is told by an error: a plugin that was not read,
/// before anything runs, a query that was not put to the catalog, or a question that was not put
/// to a datastore.
pub fn rank_pools(
    catalog: &Catalog,
    env: &ScoreEnv<'_>,
    seed: u64,
    scripts: &Vec<(String, SourceRead)>,
    pools: &Vec<Pool>,
) -> (out: Result<Vec<(String, Ranking)>, ResolveError>)
    ensures
        match unread(env.base_dir@, scripts@, pools@) {
            Some(want) => out matches Err(ResolveError::UnreadScript { path }) && path@ == want,
            None => match out {
                Ok(rankings) => may_rank_all(
                    *catalog,
                    env.base_dir@,
                    *env.inputs,
                    seed,
                    scripts@,
                    pools@,
                    rankings@,
                ),
                Err(e) => one_may_hold_up(
                    *catalog,
                    env.base_dir@,
                    *env.inputs,
                    seed,
                    scripts@,
                    pools@,
                    e@,
                ),
            },
        },
{
    match find_unread(env, scripts, pools) {
        Some(path) => return Err(ResolveError::UnreadScript { path }),
        None => {},
    }
    let mut cache: ScoreCache = ScoreCache::new();
    let mut out: Vec<(String, Ranking)> = Vec::new();
    let mut i: usize = 0;
    while i < pools.len()
        invariant
            i <= pools.len(),
            unread(env.base_dir@, scripts@, pools@) is None,
            all_prepared(cache.entries@, *catalog, scripts@),
            may_rank_all(
                *catalog,
                env.base_dir@,
                *env.inputs,
                seed,
                scripts@,
                pools@.take(i as int),
                out@,
            ),
        decreases pools.len() - i,
    {
        let ghost before = pools@.take(i as int);
        assert(pools@.take(i + 1).drop_last() =~= before);
        let cfg: &Pool = &pools[i];
        if ranks(cfg) {
            proof {
                lemma_unread(env.base_dir@, scripts@, pools@, i + 1);
            }
            match rank_pool(&mut cache, catalog, env, seed, scripts, cfg) {
                Err(e) => {
                    assert(may_hold_up(
                        *catalog,
                        env.base_dir@,
                        *env.inputs,
                        seed,
                        scripts@,
                        pools@[i as int],
                        e@,
                    ));
                    return Err(e);
                },
                Ok(ranking) => {
                    let ghost earlier = out@;
                    out.push((cfg.name.clone(), ranking));
                    assert forall|j: int| 0 <= j < out.len() implies (
                    #[trigger] out@[j]).0@ == ranked_pools(pools@.take(i + 1))[j].name@ && may_rank(
                        *catalog,
                        env.base_dir@,
                        *env.inputs,
                        seed,
                        scripts@,
                        ranked_pools(pools@.take(i + 1))[j],
                        out@[j].1,
                    ) by {
                        if j < earlier.len() {
                            assert(out@[j] == earlier[j]);
                        }
                    }
                },
            }
        }
        i += 1;
    }
    assert(pools@.take(i as int) =~= pools@);
    Ok(out)
}

/// Whether a reply is what a ranking is to the pools: the items picked, in their order, or
/// the failure.
pub open spec fn says(ranking: Ranking, reply: PluginReply) -> bool {
    match (ranking, reply) {
        (Ranking::Unprepared(want), PluginReply::Unprepared(got)) => got@ == want@,
        (Ranking::Picked(out), PluginReply::Items(got)) => pool_reply(picked_result(out)) == Ok::<
            Seq<Seq<char>>,
            Seq<char>,
        >(texts(got@)),
        (Ranking::Picked(out), PluginReply::Failed(got)) => pool_reply(picked_result(out)) == Err::<
            Seq<Seq<char>>,
            Seq<char>,
        >(got@),
        _ => false,
    }
}

/// Whether replies are what rankings are to the pools, under the same names.
pub open spec fn say(
    rankings: Seq<(String, Ranking)>,
    picks: Seq<(String, PluginReply)>,
) -> bool {
    picks.len() == rankings.len() && forall|i: int|
        0 <= i < picks.len() ==> (#[trigger] picks[i]).0@ == rankings[i].0@ && says(
            rankings[i].1,
            picks[i].1,
        )
}

/// What the items that plugins picked carried, by pool and item.
pub open spec fn extras(rankings: Seq<(String, Ranking)>) -> Seq<PickedRow>
    decreases rankings.len(),
{
    if rankings.len() == 0 {
        Seq::empty()
    } else {
        match rankings.last().1 {
            Ranking::Picked(Ok(list)) => recorded(
                extras(rankings.drop_last()),
                rankings.last().0,
                list@,
            ),
            _ => extras(rankings.drop_last()),
        }
    }
}

/// What plugins attached to the items they picked, by item.
pub open spec fn attached(rankings: Seq<(String, Ranking)>) -> Seq<(String, Arc<ScriptValue>)> {
    flattened(extras(rankings))
}

/// Hands rankings on: to the pools what was picked for them, and by item what was attached.
pub fn hand_on(rankings: Vec<(String, Ranking)>) -> (out: (
    Vec<(String, PluginReply)>,
    Vec<(String, Arc<ScriptValue>)>,
))
    ensures
        say(rankings@, out.0@),
        out.1@ == attached(rankings@),
{
    let ghost all = rankings@;
    let mut rest: Vec<(String, Ranking)> = rankings;
    let mut picks: Vec<(String, PluginReply)> = Vec::new();
    let mut cache: ScoreCache = ScoreCache::new();
    let ghost mut i: int = 0;
    assert(all.take(0) =~= Seq::<(String, Ranking)>::empty());
    assert(all.skip(0) =~= all);
    while rest.len() > 0
        invariant
            0 <= i <= all.len(),
            rest@ == all.skip(i),
            picks.len() == i,
            forall|j: int|
                0 <= j < i ==> (#[trigger] picks@[j]).0@ == all[j].0@ && says(
                    all[j].1,
                    picks@[j].1,
                ),
            cache.picked_extras@ == extras(all.take(i)),
        decreases rest.len(),
    {
        let (name, ranking): (String, Ranking) = rest.remove(0);
        proof {
            assert(all.skip(i)[0] == all[i]);
            assert(rest@ =~= all.skip(i + 1));
            assert(all.take(i + 1).drop_last() =~= all.take(i));
            assert(all.take(i + 1).last() == all[i]);
            i = i + 1;
        }
        match ranking {
            Ranking::Unprepared(why) => picks.push((name, PluginReply::Unprepared(why))),
            Ranking::Picked(out) => {
                let reply: PluginReply = pick_reply(&out);
                match out {
                    Ok(list) => cache.record_picked(&name, list),
                    Err(_) => {},
                }
                picks.push((name, reply));
            },
        }
    }
    assert(all.take(i) =~= all);
    (picks, cache.attached())
}

} // verus!
