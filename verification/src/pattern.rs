//! Pattern interleave: walking a repeating template of steps, each drawing from a named
//! pool, so that a block can say "one movie, then three episodes, repeat".

use vstd::prelude::*;

use crate::catalog::{Answer, Catalog, Reply};
use crate::config::{Constraints, Order, PatternStep, Pool, ShowGroup, Take};
use crate::draw::{total_runtime, PoolModel, PoolRuntime, Series, SeriesModel};
use crate::fault::{Fault, ResolveError, MAX_CYCLES};
use crate::names::{copy_names, entry_of, extend_names, lookup, put, put_entry, texts};
use crate::pool::{pool_runtime, ready};
use crate::resume::{records, GenerationState, PoolResume};
use crate::roll::RollKey;

verus! {

/// The most items a plugin may ask for at once.
pub const MAX_TAKE: usize = 10_000;

/// What a plugin gave for a pool.
#[derive(Debug)]
pub enum PluginReply {
    /// The plugin, or what it reads, could not be prepared.
    Unprepared(String),
    /// The plugin failed to rank.
    Failed(String),
    /// The items, ranked.
    Items(Vec<String>),
}

/// The first group of a name.
pub open spec fn group_named(groups: Seq<ShowGroup>, name: Seq<char>) -> Option<ShowGroup>
    decreases groups.len(),
{
    if groups.len() == 0 {
        None
    } else if groups[0].name@ == name {
        Some(groups[0])
    } else {
        group_named(groups.drop_first(), name)
    }
}

/// The shows of a pool's groups, group after group.
pub open spec fn group_shows(cfg: Pool, groups: Seq<ShowGroup>, names: Seq<String>) -> Result<
    Seq<String>,
    Fault,
>
    decreases names.len(),
{
    if names.len() == 0 {
        Ok(Seq::empty())
    } else {
        match group_shows(cfg, groups, names.drop_last()) {
            Err(fault) => Err(fault),
            Ok(shows) => match group_named(groups, names.last()@) {
                None => Err(Fault::UndeclaredGroup { pool: cfg.name, group: names.last() }),
                Some(group) => Ok(shows + group.shows@),
            },
        }
    }
}

/// The episodes of a list of shows, show after show.
pub open spec fn show_episodes(catalog: Catalog, cfg: Pool, shows: Seq<String>) -> Result<
    Seq<String>,
    Fault,
>
    decreases shows.len(),
{
    if shows.len() == 0 {
        Ok(Seq::empty())
    } else {
        match show_episodes(catalog, cfg, shows.drop_last()) {
            Err(fault) => Err(fault),
            Ok(ids) => if catalog.episodes_of(shows.last()@).len() == 0 {
                Err(Fault::ShowMissing { pool: cfg.name, show: shows.last() })
            } else {
                Ok(ids + catalog.episodes_of(shows.last()@))
            },
        }
    }
}

/// The items of a pool that draws from groups.
pub open spec fn group_items(catalog: Catalog, cfg: Pool, groups: Seq<ShowGroup>) -> Result<
    Seq<String>,
    Fault,
> {
    match group_shows(cfg, groups, cfg.groups@) {
        Err(fault) => Err(fault),
        Ok(shows) => show_episodes(catalog, cfg, shows),
    }
}

fn find_group<'a>(groups: &'a Vec<ShowGroup>, name: &String) -> (out: Option<&'a ShowGroup>)
    ensures
        out is Some <==> group_named(groups@, name@) is Some,
        out matches Some(g) ==> group_named(groups@, name@) == Some(*g),
{
    let mut i: usize = 0;
    assert(groups@.skip(0) =~= groups@);
    while i < groups.len()
        invariant
            i <= groups.len(),
            group_named(groups@, name@) == group_named(groups@.skip(i as int), name@),
        decreases groups.len() - i,
    {
        assert(groups@.skip(i as int)[0] == groups@[i as int]);
        if groups[i].name == *name {
            return Some(&groups[i]);
        }
        assert(groups@.skip(i as int).drop_first() =~= groups@.skip(i + 1));
        i += 1;
    }
    None
}

/// The items of a pool that draws from groups: the episodes of every member show, across
/// every group that the pool lists.
pub fn resolve_group_pool(catalog: &Catalog, cfg: &Pool, groups: &Vec<ShowGroup>) -> (out: Result<
    Vec<String>,
    ResolveError,
>)
    ensures
        match (out, group_items(*catalog, *cfg, groups@)) {
            (Ok(got), Ok(want)) => got@ == want,
            (Err(got), Err(want)) => got@ == want,
            _ => false,
        },
{
    let mut shows: Vec<String> = Vec::new();
    let mut i: usize = 0;
    while i < cfg.groups.len()
        invariant
            i <= cfg.groups.len(),
            group_shows(*cfg, groups@, cfg.groups@.take(i as int)) == Ok::<Seq<String>, Fault>(
                shows@,
            ),
        decreases cfg.groups.len() - i,
    {
        let name: &String = &cfg.groups[i];
        i += 1;
        assert(cfg.groups@.take(i as int).drop_last() =~= cfg.groups@.take(i - 1));
        match find_group(groups, name) {
            Some(group) => extend_names(&mut shows, &group.shows),
            None => {
                let e: ResolveError = ResolveError::UndeclaredGroup {
                    pool: cfg.name.clone(),
                    group: name.clone(),
                };
                proof {
                    lemma_group_shows_err(*cfg, groups@, cfg.groups@, i as int);
                }
                return Err(e);
            },
        }
    }
    assert(cfg.groups@.take(i as int) =~= cfg.groups@);
    let mut ids: Vec<String> = Vec::new();
    let mut k: usize = 0;
    while k < shows.len()
        invariant
            k <= shows.len(),
            group_shows(*cfg, groups@, cfg.groups@) == Ok::<Seq<String>, Fault>(shows@),
            show_episodes(*catalog, *cfg, shows@.take(k as int)) == Ok::<Seq<String>, Fault>(ids@),
        decreases shows.len() - k,
    {
        let found: Vec<String> = catalog.episode_ids_for_show(&shows[k]);
        k += 1;
        assert(shows@.take(k as int).drop_last() =~= shows@.take(k - 1));
        if found.len() == 0 {
            proof {
                lemma_show_episodes_err(*catalog, *cfg, shows@, k as int);
            }
            return Err(
                ResolveError::ShowMissing { pool: cfg.name.clone(), show: shows[k - 1].clone() },
            );
        }
        extend_names(&mut ids, &found);
    }
    assert(shows@.take(k as int) =~= shows@);
    Ok(ids)
}

/// What is wrong with the first names is wrong with all of them.
proof fn lemma_group_shows_err(cfg: Pool, groups: Seq<ShowGroup>, names: Seq<String>, i: int)
    requires
        0 <= i <= names.len(),
        group_shows(cfg, groups, names.take(i)) is Err,
    ensures
        group_shows(cfg, groups, names) == group_shows(cfg, groups, names.take(i)),
    decreases names.len(),
{
    if i < names.len() {
        assert(names.drop_last().take(i) =~= names.take(i));
        lemma_group_shows_err(cfg, groups, names.drop_last(), i);
    } else {
        assert(names.take(i) =~= names);
    }
}

/// What is wrong with the first shows is wrong with all of them.
proof fn lemma_show_episodes_err(catalog: Catalog, cfg: Pool, shows: Seq<String>, i: int)
    requires
        0 <= i <= shows.len(),
        show_episodes(catalog, cfg, shows.take(i)) is Err,
    ensures
        show_episodes(catalog, cfg, shows) == show_episodes(catalog, cfg, shows.take(i)),
    decreases shows.len(),
{
    if i < shows.len() {
        assert(shows.drop_last().take(i) =~= shows.take(i));
        lemma_show_episodes_err(catalog, cfg, shows.drop_last(), i);
    } else {
        assert(shows.take(i) =~= shows);
    }
}

/// A list in the order that a pool asks for; a pool that asks for none keeps it.
pub open spec fn in_pool_order(catalog: Catalog, order: Option<Order>, ids: Seq<String>) -> Result<
    Seq<String>,
    Fault,
> {
    match order {
        None => Ok(ids),
        Some(order) => match catalog.order_answer(texts(ids), order@, 0) {
            Answer::Unasked => Err(
                Fault::UnansweredOrder { ids: texts(ids), order: order@, seed: 0 },
            ),
            Answer::Failed(why) => Err(Fault::Failed { why }),
            Answer::Items(ordered) => Ok(ordered),
        },
    }
}

fn order_pool(catalog: &Catalog, order: &Option<Order>, ids: Vec<String>) -> (out: Result<
    Vec<String>,
    ResolveError,
>)
    ensures
        match (out, in_pool_order(*catalog, *order, ids@)) {
            (Ok(got), Ok(want)) => got@ == want,
            (Err(got), Err(want)) => got@ == want,
            _ => false,
        },
{
    match order {
        None => Ok(ids),
        Some(order) => match catalog.resolve_order(&ids, order, 0) {
            None => Err(ResolveError::UnansweredOrder { ids, order: order.copy(), seed: 0 }),
            Some(Reply::Failed(why)) => Err(ResolveError::Failed { why }),
            Some(Reply::Items(ordered)) => Ok(ordered),
        },
    }
}

/// What the first pass finds of a pool: its items, or nothing yet for a pool that a plugin
/// ranks.
pub open spec fn sourced(
    catalog: Catalog,
    groups: Seq<ShowGroup>,
    picks: Seq<(String, PluginReply)>,
    cfg: Pool,
) -> Result<Option<Seq<String>>, Fault> {
    let found = match (cfg.expr, cfg.plugin, cfg.groups@.len() > 0) {
        (Some(expr), None, false) => match catalog.query_answer(expr@) {
            Answer::Unasked => Err(Fault::UnansweredQuery { query: expr }),
            Answer::Failed(why) => Err(Fault::Failed { why }),
            Answer::Items(ids) => Ok(Some(ids)),
        },
        (None, Some(_), false) => match entry_of(picks, cfg.name@) {
            None => Err(Fault::Unranked { pool: cfg.name }),
            Some(PluginReply::Unprepared(why)) => Err(Fault::Plugin { pool: cfg.name, why }),
            Some(_) => Ok(None),
        },
        (None, None, true) => match group_items(catalog, cfg, groups) {
            Err(fault) => Err(fault),
            Ok(ids) => Ok(Some(ids)),
        },
        _ => Err(Fault::PoolSource { pool: cfg.name }),
    };
    match found {
        Err(fault) => Err(fault),
        Ok(None) => Ok(None),
        Ok(Some(ids)) => match in_pool_order(catalog, cfg.order, ids) {
            Err(fault) => Err(fault),
            Ok(ordered) => Ok(Some(ordered)),
        },
    }
}

/// What the first pass finds of each pool, unless one of them is at fault; the first one
/// that is counts.
pub open spec fn first_pass(
    catalog: Catalog,
    groups: Seq<ShowGroup>,
    picks: Seq<(String, PluginReply)>,
    pools: Seq<Pool>,
) -> Result<Seq<Option<Seq<String>>>, Fault>
    decreases pools.len(),
{
    if pools.len() == 0 {
        Ok(Seq::empty())
    } else {
        match first_pass(catalog, groups, picks, pools.drop_last()) {
            Err(fault) => Err(fault),
            Ok(found) => match sourced(catalog, groups, picks, pools.last()) {
                Err(fault) => Err(fault),
                Ok(ids) => Ok(found.push(ids)),
            },
        }
    }
}

/// The items of a pool that a plugin ranks.
pub open spec fn ranked(picks: Seq<(String, PluginReply)>, cfg: Pool) -> Result<Seq<String>, Fault> {
    match entry_of(picks, cfg.name@) {
        None => Err(Fault::Unranked { pool: cfg.name }),
        Some(PluginReply::Unprepared(why)) => Err(Fault::Plugin { pool: cfg.name, why }),
        Some(PluginReply::Failed(why)) => Err(Fault::Plugin { pool: cfg.name, why }),
        Some(PluginReply::Items(ids)) => Ok(ids@),
    }
}

/// The items of each pool, once the plugins have ranked; the first pool at fault counts.
pub open spec fn second_pass(
    picks: Seq<(String, PluginReply)>,
    pools: Seq<Pool>,
    found: Seq<Option<Seq<String>>>,
) -> Result<Seq<Seq<String>>, Fault>
    decreases pools.len(),
{
    if pools.len() == 0 {
        Ok(Seq::empty())
    } else {
        match second_pass(picks, pools.drop_last(), found.drop_last()) {
            Err(fault) => Err(fault),
            Ok(lists) => match found.last() {
                Some(ids) => Ok(lists.push(ids)),
                None => match ranked(picks, pools.last()) {
                    Err(fault) => Err(fault),
                    Ok(ids) => Ok(lists.push(ids)),
                },
            },
        }
    }
}

/// The items of each pool.
pub open spec fn pool_lists(
    catalog: Catalog,
    groups: Seq<ShowGroup>,
    picks: Seq<(String, PluginReply)>,
    pools: Seq<Pool>,
) -> Result<Seq<Seq<String>>, Fault> {
    match first_pass(catalog, groups, picks, pools) {
        Err(fault) => Err(fault),
        Ok(found) => second_pass(picks, pools, found),
    }
}

fn source_pool(
    catalog: &Catalog,
    groups: &Vec<ShowGroup>,
    picks: &Vec<(String, PluginReply)>,
    cfg: &Pool,
) -> (out: Result<Option<Vec<String>>, ResolveError>)
    ensures
        match (out, sourced(*catalog, groups@, picks@, *cfg)) {
            (Ok(Some(got)), Ok(Some(want))) => got@ == want,
            (Ok(None), Ok(None)) => true,
            (Err(got), Err(want)) => got@ == want,
            _ => false,
        },
{
    let grouped: bool = cfg.groups.len() > 0;
    let ids: Vec<String> = match (&cfg.expr, &cfg.plugin, grouped) {
        (Some(expr), None, false) => match catalog.resolve_query(expr) {
            None => return Err(ResolveError::UnansweredQuery { query: expr.clone() }),
            Some(Reply::Failed(why)) => return Err(ResolveError::Failed { why }),
            Some(Reply::Items(ids)) => ids,
        },
        (None, Some(_), false) => {
            return match lookup(picks, &cfg.name) {
                None => Err(ResolveError::Unranked { pool: cfg.name.clone() }),
                Some(PluginReply::Unprepared(why)) => Err(
                    ResolveError::Plugin { pool: cfg.name.clone(), why: why.clone() },
                ),
                Some(_) => Ok(None),
            };
        },
        (None, None, true) => match resolve_group_pool(catalog, cfg, groups) {
            Ok(ids) => ids,
            Err(e) => return Err(e),
        },
        _ => return Err(ResolveError::PoolSource { pool: cfg.name.clone() }),
    };
    match order_pool(catalog, &cfg.order, ids) {
        Ok(ordered) => Ok(Some(ordered)),
        Err(e) => Err(e),
    }
}

/// Lists of items as mathematical values.
pub open spec fn lists(all: Seq<Vec<String>>) -> Seq<Seq<String>> {
    all.map_values(|ids: Vec<String>| ids@)
}

/// What a first pass found, as mathematical values.
pub open spec fn holes(all: Seq<Option<Vec<String>>>) -> Seq<Option<Seq<String>>> {
    all.map_values(
        |ids: Option<Vec<String>>|
            match ids {
                Some(ids) => Some(ids@),
                None => None,
            },
    )
}

proof fn lemma_first_pass_err(
    catalog: Catalog,
    groups: Seq<ShowGroup>,
    picks: Seq<(String, PluginReply)>,
    pools: Seq<Pool>,
    i: int,
)
    requires
        0 <= i <= pools.len(),
        first_pass(catalog, groups, picks, pools.take(i)) is Err,
    ensures
        first_pass(catalog, groups, picks, pools) == first_pass(
            catalog,
            groups,
            picks,
            pools.take(i),
        ),
    decreases pools.len(),
{
    if i < pools.len() {
        assert(pools.drop_last().take(i) =~= pools.take(i));
        lemma_first_pass_err(catalog, groups, picks, pools.drop_last(), i);
    } else {
        assert(pools.take(i) =~= pools);
    }
}

proof fn lemma_second_pass_err(
    picks: Seq<(String, PluginReply)>,
    pools: Seq<Pool>,
    found: Seq<Option<Seq<String>>>,
    i: int,
)
    requires
        0 <= i <= pools.len(),
        pools.len() == found.len(),
        second_pass(picks, pools.take(i), found.take(i)) is Err,
    ensures
        second_pass(picks, pools, found) == second_pass(picks, pools.take(i), found.take(i)),
    decreases pools.len(),
{
    if i < pools.len() {
        assert(pools.drop_last().take(i) =~= pools.take(i));
        assert(found.drop_last().take(i) =~= found.take(i));
        lemma_second_pass_err(picks, pools.drop_last(), found.drop_last(), i);
    } else {
        assert(pools.take(i) =~= pools);
        assert(found.take(i) =~= found);
    }
}

/// The items of each pool: what the catalog answers for it, or what its plugin ranked. What
/// the catalog answers is asked for all pools before any plugin counts.
pub fn resolve_pool_sources(
    catalog: &Catalog,
    pools: &Vec<Pool>,
    groups: &Vec<ShowGroup>,
    picks: &Vec<(String, PluginReply)>,
) -> (out: Result<Vec<Vec<String>>, ResolveError>)
    ensures
        match (out, pool_lists(*catalog, groups@, picks@, pools@)) {
            (Ok(got), Ok(want)) => lists(got@) == want && got.len() == pools.len(),
            (Err(got), Err(want)) => got@ == want,
            _ => false,
        },
{
    let mut found: Vec<Option<Vec<String>>> = Vec::new();
    let mut i: usize = 0;
    assert(holes(found@) =~= Seq::<Option<Seq<String>>>::empty());
    while i < pools.len()
        invariant
            i <= pools.len(),
            found.len() == i,
            first_pass(*catalog, groups@, picks@, pools@.take(i as int)) == Ok::<
                Seq<Option<Seq<String>>>,
                Fault,
            >(holes(found@)),
        decreases pools.len() - i,
    {
        let got: Result<Option<Vec<String>>, ResolveError> = source_pool(
            catalog,
            groups,
            picks,
            &pools[i],
        );
        i += 1;
        assert(pools@.take(i as int).drop_last() =~= pools@.take(i - 1));
        match got {
            Ok(ids) => {
                let ghost before = holes(found@);
                found.push(ids);
                assert(holes(found@) =~= before.push(holes(found@).last()));
            },
            Err(e) => {
                proof {
                    lemma_first_pass_err(*catalog, groups@, picks@, pools@, i as int);
                }
                return Err(e);
            },
        }
    }
    assert(pools@.take(i as int) =~= pools@);
    let ghost first = holes(found@);
    let mut out: Vec<Vec<String>> = Vec::new();
    let mut k: usize = 0;
    assert(lists(out@) =~= Seq::<Seq<String>>::empty());
    while k < pools.len()
        invariant
            k <= pools.len(),
            out.len() == k,
            found.len() == pools.len(),
            first == holes(found@),
            first_pass(*catalog, groups@, picks@, pools@) == Ok::<Seq<Option<Seq<String>>>, Fault>(
                first,
            ),
            second_pass(picks@, pools@.take(k as int), first.take(k as int)) == Ok::<
                Seq<Seq<String>>,
                Fault,
            >(lists(out@)),
        decreases pools.len() - k,
    {
        let ghost before = lists(out@);
        assert(first.take(k + 1).last() == holes(found@)[k as int]);
        assert(pools@.take(k + 1).drop_last() =~= pools@.take(k as int));
        assert(first.take(k + 1).drop_last() =~= first.take(k as int));
        let ids: Vec<String> = match &found[k] {
            Some(ids) => copy_names(ids),
            None => match lookup(picks, &pools[k].name) {
                Some(PluginReply::Items(ids)) => copy_names(ids),
                other => {
                    let e: ResolveError = match other {
                        Some(PluginReply::Unprepared(why)) => ResolveError::Plugin {
                            pool: pools[k].name.clone(),
                            why: why.clone(),
                        },
                        Some(PluginReply::Failed(why)) => ResolveError::Plugin {
                            pool: pools[k].name.clone(),
                            why: why.clone(),
                        },
                        _ => ResolveError::Unranked { pool: pools[k].name.clone() },
                    };
                    proof {
                        lemma_second_pass_err(picks@, pools@, first, k + 1);
                    }
                    return Err(e);
                },
            },
        };
        out.push(ids);
        assert(lists(out@) =~= before.push(ids@));
        k += 1;
    }
    assert(pools@.take(k as int) =~= pools@);
    assert(first.take(k as int) =~= first);
    Ok(out)
}

/// The last pool of a name.
pub open spec fn pool_named(pools: Seq<PoolModel>, name: Seq<char>) -> Option<int>
    decreases pools.len(),
{
    if pools.len() == 0 {
        None
    } else if pools.last().cfg.name@ == name {
        Some(pools.len() - 1)
    } else {
        pool_named(pools.drop_last(), name)
    }
}

/// The pools as mathematical values.
pub open spec fn pool_models<'a>(pools: Seq<PoolRuntime<'a>>) -> Seq<PoolModel> {
    pools.map_values(|p: PoolRuntime<'a>| p@)
}

fn find_pool<'a>(pools: &Vec<PoolRuntime<'a>>, name: &String) -> (out: Option<usize>)
    ensures
        out is Some <==> pool_named(pool_models(pools@), name@) is Some,
        out matches Some(i) ==> pool_named(pool_models(pools@), name@) == Some(i as int) && i
            < pools.len(),
{
    let ghost all = pool_models(pools@);
    let mut i: usize = pools.len();
    assert(all.take(i as int) =~= all);
    while i > 0
        invariant
            i <= pools.len(),
            all == pool_models(pools@),
            pool_named(all, name@) == pool_named(all.take(i as int), name@),
        decreases i,
    {
        i -= 1;
        assert(all.take(i + 1).drop_last() =~= all.take(i as int));
        assert(all.take(i + 1).last() == pools@[i as int]@);
        if pools[i].cfg.name == *name {
            return Some(i);
        }
    }
    None
}

/// How many items the steps of a pattern take from pool `i` in one cycle, where they name
/// a number.
pub open spec fn per_cycle(pools: Seq<PoolModel>, pattern: Seq<PatternStep>, i: int) -> int
    decreases pattern.len(),
{
    if pattern.len() == 0 {
        0
    } else {
        let earlier = per_cycle(pools, pattern.drop_last(), i);
        match pattern.last().take {
            Take::Count(n) => if pool_named(pools, pattern.last().pool@) == Some(i) {
                earlier + n
            } else {
                earlier
            },
            Take::All => earlier,
        }
    }
}

/// How many steps of a pattern empty a series of pool `i` in one cycle.
pub open spec fn all_steps(pools: Seq<PoolModel>, pattern: Seq<PatternStep>, i: int) -> int
    decreases pattern.len(),
{
    if pattern.len() == 0 {
        0
    } else {
        let earlier = all_steps(pools, pattern.drop_last(), i);
        if pattern.last().take == Take::All && pool_named(pools, pattern.last().pool@) == Some(i) {
            earlier + 1
        } else {
            earlier
        }
    }
}

/// How many items are left in the series of a pool before they start over.
pub open spec fn items_left(series: Seq<SeriesModel>) -> int
    decreases series.len(),
{
    if series.len() == 0 {
        0
    } else {
        items_left(series.drop_last()) + series.last().left()
    }
}

/// How many items the series of a pool hold.
pub open spec fn items_held(series: Seq<SeriesModel>) -> int
    decreases series.len(),
{
    if series.len() == 0 {
        0
    } else {
        items_held(series.drop_last()) + series.last().ids.len()
    }
}

/// How many portions of `size` it takes to cover `whole`.
pub open spec fn portions(whole: int, size: int) -> int {
    (whole + size - 1) / size
}

/// How many cycles it takes for a pool to drain once.
pub open spec fn cycles_for(pools: Seq<PoolModel>, pattern: Seq<PatternStep>, i: int) -> int {
    let taken = per_cycle(pools, pattern, i);
    let emptied = all_steps(pools, pattern, i);
    let left = items_left(pools[i].series);
    let by_items = if taken > 0 {
        portions(
            if left > 0 {
                left
            } else {
                items_held(pools[i].series)
            },
            taken,
        )
    } else {
        0
    };
    let by_series = if emptied > 0 {
        portions(pools[i].series.len() as int, emptied)
    } else {
        0
    };
    if by_items >= by_series {
        by_items
    } else {
        by_series
    }
}

/// How many cycles it takes for the largest of the first `n` pools to drain once.
pub open spec fn longest_drain(pools: Seq<PoolModel>, pattern: Seq<PatternStep>, n: int) -> int
    decreases n,
{
    if n <= 0 {
        0
    } else {
        let earlier = longest_drain(pools, pattern, n - 1);
        let here = cycles_for(pools, pattern, n - 1);
        if here > earlier {
            here
        } else {
            earlier
        }
    }
}

/// How many cycles a pattern without a number of its own runs at most: as many as it takes
/// for its largest pool to drain once, or as many as can be counted.
pub open spec fn drain_cycles(pools: Seq<PoolModel>, pattern: Seq<PatternStep>) -> int {
    let all = longest_drain(pools, pattern, pools.len() as int);
    if all > usize::MAX {
        usize::MAX as int
    } else {
        all
    }
}

fn count_left(series: &Vec<Series>) -> (out: (u128, u128))
    ensures
        out.0 == items_left(series@.map_values(|s: Series| s@)),
        out.1 == items_held(series@.map_values(|s: Series| s@)),
        out.0 <= series.len() * 0xFFFF_FFFF_FFFF_FFFF,
        out.1 <= series.len() * 0xFFFF_FFFF_FFFF_FFFF,
{
    let ghost all = series@.map_values(|s: Series| s@);
    let mut left: u128 = 0;
    let mut held: u128 = 0;
    let mut i: usize = 0;
    while i < series.len()
        invariant
            i <= series.len(),
            all == series@.map_values(|s: Series| s@),
            left == items_left(all.take(i as int)),
            held == items_held(all.take(i as int)),
            left <= i * 0xFFFF_FFFF_FFFF_FFFF,
            held <= i * 0xFFFF_FFFF_FFFF_FFFF,
        decreases series.len() - i,
    {
        left += series[i].remaining() as u128;
        held += series[i].ids.len() as u128;
        i += 1;
        assert(all.take(i as int).drop_last() =~= all.take(i - 1));
        assert(all.take(i as int).last() == series@[i - 1]@);
    }
    assert(all.take(i as int) =~= all);
    (left, held)
}

/// How many portions of `size` it takes to cover `whole`.
fn count_portions(whole: u128, size: u128) -> (out: u128)
    requires
        size > 0,
    ensures
        out == portions(whole as int, size as int),
{
    let quotient: u128 = whole / size;
    proof {
        let w = whole as int;
        let s = size as int;
        vstd::arithmetic::div_mod::lemma_fundamental_div_mod(w, s);
        vstd::arithmetic::div_mod::lemma_mod_bound(w, s);
        let q = w / s;
        let r = w % s;
        if r == 0 {
            assert((w + s - 1) / s == q) by (nonlinear_arith)
                requires
                    w == s * q + r,
                    r == 0,
                    s > 0,
            ;
        } else {
            assert((w + s - 1) / s == q + 1) by (nonlinear_arith)
                requires
                    w == s * q + r,
                    0 < r < s,
                    s > 0,
            ;
            assert(q < 0xFFFF_FFFF_FFFF_FFFF_FFFF_FFFF_FFFF_FFFF) by (nonlinear_arith)
                requires
                    w == s * q + r,
                    0 < r < s,
                    s > 0,
                    w <= 0xFFFF_FFFF_FFFF_FFFF_FFFF_FFFF_FFFF_FFFF,
            ;
        }
    }
    if whole % size == 0 {
        quotient
    } else {
        quotient + 1
    }
}

/// Enough cycles for the largest pool to drain once. A step that empties a series drains a
/// pool by the series, every other step by the item.
pub fn derive_cycles<'a>(pools: &Vec<PoolRuntime<'a>>, pattern: &Vec<PatternStep>) -> (out: usize)
    ensures
        out == drain_cycles(pool_models(pools@), pattern@),
{
    let ghost all = pool_models(pools@);
    let mut cycles: u128 = 0;
    let mut i: usize = 0;
    while i < pools.len()
        invariant
            i <= pools.len(),
            all == pool_models(pools@),
            cycles == longest_drain(all, pattern@, i as int),
        decreases pools.len() - i,
    {
        let mut taken: u128 = 0;
        let mut emptied: u128 = 0;
        let mut k: usize = 0;
        while k < pattern.len()
            invariant
                k <= pattern.len(),
                i < pools.len(),
                all == pool_models(pools@),
                taken == per_cycle(all, pattern@.take(k as int), i as int),
                emptied == all_steps(all, pattern@.take(k as int), i as int),
                taken <= k * 0xFFFF_FFFF_FFFF_FFFF,
                emptied <= k,
            decreases pattern.len() - k,
        {
            let here: bool = match find_pool(pools, &pattern[k].pool) {
                Some(at) => at == i,
                None => false,
            };
            if here {
                match pattern[k].take {
                    Take::Count(n) => {
                        taken += n as u128;
                    },
                    Take::All => {
                        emptied += 1;
                    },
                }
            }
            k += 1;
            assert(pattern@.take(k as int).drop_last() =~= pattern@.take(k - 1));
        }
        assert(pattern@.take(k as int) =~= pattern@);
        let (left, held): (u128, u128) = count_left(&pools[i].series);
        assert(all[i as int].series == pools@[i as int].series@.map_values(|s: Series| s@));
        if taken > 0 {
            let whole: u128 = if left > 0 {
                left
            } else {
                held
            };
            let need: u128 = count_portions(whole, taken);
            if need > cycles {
                cycles = need;
            }
        }
        if emptied > 0 {
            let need: u128 = count_portions(pools[i].series.len() as u128, emptied);
            if need > cycles {
                cycles = need;
            }
        }
        i += 1;
    }
    if cycles > usize::MAX as u128 {
        usize::MAX
    } else {
        cycles as usize
    }
}

/// A pattern mid-walk: its pools, the items so far, and the airtime they lay down where that
/// is measured.
pub struct Walk {
    pub pools: Seq<PoolModel>,
    pub out: Seq<String>,
    pub laid: int,
}

/// The walk after one step.
pub open spec fn stepped(walk: Walk, step: PatternStep, roll: RollKey, measured: bool) -> Result<
    Walk,
    Fault,
> {
    if roll.slice(u64::MAX) >= step.chance {
        Ok(walk)
    } else {
        match pool_named(walk.pools, step.pool@) {
            None => Err(Fault::UnknownPool { pool: step.pool }),
            Some(i) => {
                let pool = walk.pools[i];
                let (after, drawn) = pool.visiting(step.take, step.from, roll);
                Ok(
                    Walk {
                        pools: walk.pools.update(i, after),
                        out: walk.out + drawn,
                        laid: if measured {
                            walk.laid + total_runtime(pool.runtimes, pool.mean_runtime, drawn)
                        } else {
                            walk.laid
                        },
                    },
                )
            },
        }
    }
}

/// The walk after the steps of cycle `cycle` from step `k` on.
pub open spec fn cycled(
    walk: Walk,
    pattern: Seq<PatternStep>,
    seed: u64,
    cycle: int,
    k: int,
    measured: bool,
) -> Result<Walk, Fault>
    decreases pattern.len() - k,
{
    if k >= pattern.len() {
        Ok(walk)
    } else {
        let roll = RollKey { seed, cycle: cycle as u64, step: k as u64 };
        match stepped(walk, pattern[k], roll, measured) {
            Err(fault) => Err(fault),
            Ok(next) => cycled(next, pattern, seed, cycle, k + 1, measured),
        }
    }
}

/// The walk after the cycles from `cycle` up to `cycles`, or until the airtime asked for is
/// covered. A cycle that was begun is finished.
pub open spec fn walked(
    walk: Walk,
    pattern: Seq<PatternStep>,
    seed: u64,
    cycle: int,
    cycles: int,
    budget: Option<u64>,
) -> Result<Walk, Fault>
    decreases cycles - cycle,
{
    if cycle >= cycles || (budget is Some && walk.laid >= budget->0) {
        Ok(walk)
    } else {
        match cycled(walk, pattern, seed, cycle, 0, budget is Some) {
            Err(fault) => Err(fault),
            Ok(next) => walked(next, pattern, seed, cycle + 1, cycles, budget),
        }
    }
}

/// The pools of a pattern, ready to be drawn from; the first one at fault counts.
pub open spec fn all_ready(
    catalog: Catalog,
    pools: Seq<Pool>,
    lists: Seq<Seq<String>>,
    block: Option<Constraints>,
    state: GenerationState,
    want_runtimes: bool,
) -> Result<Seq<PoolModel>, Fault>
    decreases pools.len(),
{
    if pools.len() == 0 {
        Ok(Seq::empty())
    } else {
        match all_ready(
            catalog,
            pools.drop_last(),
            lists.drop_last(),
            block,
            state,
            want_runtimes,
        ) {
            Err(fault) => Err(fault),
            Ok(made) => match ready(
                catalog,
                pools.last(),
                lists.last(),
                block,
                state,
                want_runtimes,
            ) {
                Err(fault) => Err(fault),
                Ok(pool) => Ok(made.push(pool)),
            },
        }
    }
}

/// Whether a table of resume states is the one that a walk leaves behind: each pool's name
/// with the series whose turn is next there.
pub open spec fn leaves(pools: Seq<PoolModel>, table: Seq<(String, PoolResume)>) -> bool {
    records(
        pools.map_values(|p: PoolModel| p.cfg.name),
        pools.map_values(|p: PoolModel| p.turn()),
        table,
    )
}

/// Everything that decides a pattern's schedule, besides the catalog.
pub open spec fn schedule(
    catalog: Catalog,
    pools: Seq<Pool>,
    groups: Seq<ShowGroup>,
    picks: Seq<(String, PluginReply)>,
    pattern: Seq<PatternStep>,
    cycles: Option<usize>,
    block: Option<Constraints>,
    state: GenerationState,
    seed: u64,
    fill: Option<u64>,
) -> Result<Walk, Fault> {
    let budget = if cycles is Some {
        None
    } else {
        fill
    };
    match pool_lists(catalog, groups, picks, pools) {
        Err(fault) => Err(fault),
        Ok(lists) => match all_ready(catalog, pools, lists, block, state, budget is Some) {
            Err(fault) => Err(fault),
            Ok(made) => {
                let start = Walk { pools: made, out: Seq::empty(), laid: 0 };
                match cycles {
                    Some(n) => if n > MAX_CYCLES {
                        Err(Fault::TooManyCycles { cycles: n })
                    } else {
                        walked(start, pattern, seed, 0, n as int, budget)
                    },
                    None => walked(start, pattern, seed, 0, drain_cycles(made, pattern), budget),
                }
            },
        },
    }
}

proof fn lemma_all_ready_err(
    catalog: Catalog,
    pools: Seq<Pool>,
    lists: Seq<Seq<String>>,
    block: Option<Constraints>,
    state: GenerationState,
    want_runtimes: bool,
    i: int,
)
    requires
        0 <= i <= pools.len(),
        pools.len() == lists.len(),
        all_ready(catalog, pools.take(i), lists.take(i), block, state, want_runtimes) is Err,
    ensures
        all_ready(catalog, pools, lists, block, state, want_runtimes) == all_ready(
            catalog,
            pools.take(i),
            lists.take(i),
            block,
            state,
            want_runtimes,
        ),
    decreases pools.len(),
{
    if i < pools.len() {
        assert(pools.drop_last().take(i) =~= pools.take(i));
        assert(lists.drop_last().take(i) =~= lists.take(i));
        lemma_all_ready_err(
            catalog,
            pools.drop_last(),
            lists.drop_last(),
            block,
            state,
            want_runtimes,
            i,
        );
    } else {
        assert(pools.take(i) =~= pools);
        assert(lists.take(i) =~= lists);
    }
}

/// Whether every pool is well formed.
pub open spec fn pools_wf(pools: Seq<PoolModel>) -> bool {
    forall|i: int| 0 <= i < pools.len() ==> (#[trigger] pools[i]).wf()
}

fn ready_pools<'a>(
    catalog: &Catalog,
    pools: &'a Vec<Pool>,
    given: &Vec<Vec<String>>,
    block: Option<&Constraints>,
    state: &GenerationState,
    want_runtimes: bool,
) -> (out: Result<Vec<PoolRuntime<'a>>, ResolveError>)
    requires
        given.len() == pools.len(),
    ensures
        match (out, all_ready(
            *catalog,
            pools@,
            lists(given@),
            match block {
                Some(b) => Some(*b),
                None => None,
            },
            *state,
            want_runtimes,
        )) {
            (Ok(got), Ok(want)) => pool_models(got@) == want && pools_wf(want),
            (Err(got), Err(want)) => got@ == want,
            _ => false,
        },
{
    let ghost held = match block {
        Some(b) => Some(*b),
        None => None,
    };
    let ghost all = lists(given@);
    let mut out: Vec<PoolRuntime<'a>> = Vec::new();
    let mut i: usize = 0;
    assert(pool_models(out@) =~= Seq::<PoolModel>::empty());
    while i < pools.len()
        invariant
            i <= pools.len(),
            given.len() == pools.len(),
            all == lists(given@),
            held == (match block {
                Some(b) => Some(*b),
                None => None,
            }),
            pools_wf(pool_models(out@)),
            all_ready(
                *catalog,
                pools@.take(i as int),
                all.take(i as int),
                held,
                *state,
                want_runtimes,
            ) == Ok::<Seq<PoolModel>, Fault>(pool_models(out@)),
        decreases pools.len() - i,
    {
        let ghost before = pool_models(out@);
        let got: Result<PoolRuntime<'a>, ResolveError> = pool_runtime(
            catalog,
            &pools[i],
            copy_names(&given[i]),
            block,
            state,
            want_runtimes,
        );
        assert(all.take(i + 1).last() == given@[i as int]@);
        assert(pools@.take(i + 1).drop_last() =~= pools@.take(i as int));
        assert(all.take(i + 1).drop_last() =~= all.take(i as int));
        i += 1;
        match got {
            Ok(pool) => {
                out.push(pool);
                assert(pool_models(out@) =~= before.push(pool@));
                assert(pools_wf(pool_models(out@)));
            },
            Err(e) => {
                proof {
                    lemma_all_ready_err(
                        *catalog,
                        pools@,
                        all,
                        held,
                        *state,
                        want_runtimes,
                        i as int,
                    );
                }
                return Err(e);
            },
        }
    }
    assert(pools@.take(i as int) =~= pools@);
    assert(all.take(i as int) =~= all);
    Ok(out)
}

proof fn lemma_total_runtime_bound(runtimes: Seq<(String, u64)>, mean: u64, ids: Seq<String>)
    ensures
        0 <= total_runtime(runtimes, mean, ids) <= ids.len() * 0xFFFF_FFFF_FFFF_FFFF,
    decreases ids.len(),
{
    if ids.len() > 0 {
        lemma_total_runtime_bound(runtimes, mean, ids.drop_last());
    }
}

pub(crate) proof fn lemma_pool_named(pools: Seq<PoolModel>, name: Seq<char>)
    ensures
        pool_named(pools, name) matches Some(i) ==> 0 <= i < pools.len(),
    decreases pools.len(),
{
    if pools.len() > 0 {
        lemma_pool_named(pools.drop_last(), name);
    }
}

/// Walks one step of a pattern.
fn run_step<'a>(
    pools: &mut Vec<PoolRuntime<'a>>,
    step: &PatternStep,
    roll: &RollKey,
    measured: bool,
    out: &mut Vec<String>,
    laid: &mut u128,
) -> (ran: Result<(), ResolveError>)
    requires
        pools_wf(pool_models(old(pools)@)),
        *old(laid) <= old(out).len() * 0xFFFF_FFFF_FFFF_FFFF,
    ensures
        match (ran, stepped(
            Walk { pools: pool_models(old(pools)@), out: old(out)@, laid: *old(laid) as int },
            *step,
            *roll,
            measured,
        )) {
            (Ok(_), Ok(want)) => {
                &&& want == (Walk {
                    pools: pool_models(final(pools)@),
                    out: final(out)@,
                    laid: *final(laid) as int,
                })
                &&& pools_wf(pool_models(final(pools)@))
                &&& *final(laid) <= final(out).len() * 0xFFFF_FFFF_FFFF_FFFF
            },
            (Err(got), Err(want)) => got@ == want,
            _ => false,
        },
{
    // A step that is skipped draws nothing, so it moves no cursor.
    if roll.unit_at(u64::MAX) >= step.chance {
        return Ok(());
    }
    let ghost before = pool_models(pools@);
    let at: usize = match find_pool(pools, &step.pool) {
        Some(at) => at,
        None => return Err(ResolveError::UnknownPool { pool: step.pool.clone() }),
    };
    assert(before[at as int] == pools@[at as int]@);
    proof {
        crate::progress::a_visit_is_filled(before[at as int], step.take, step.from, *roll);
    }
    let mut drawn: Vec<String> = pools[at].visit(step.take, step.from, roll);
    assert(pool_models(pools@) =~= before.update(
        at as int,
        before[at as int].visiting(step.take, step.from, *roll).0,
    ));
    assert forall|i: int| 0 <= i < pool_models(pools@).len() implies (#[trigger] pool_models(
        pools@,
    )[i]).wf() by {
        assert(before[i].wf());
    }
    let more: u128 = if measured {
        pools[at].runtime_of(&drawn)
    } else {
        0
    };
    let n: usize = out.len();
    let m: usize = drawn.len();
    out.append(&mut drawn);
    let whole: usize = out.len();
    assert(whole == n + m);
    *laid = *laid + more;
    Ok(())
}

/// Walks one cycle of a pattern.
fn run_cycle<'a>(
    pools: &mut Vec<PoolRuntime<'a>>,
    pattern: &Vec<PatternStep>,
    seed: u64,
    cycle: usize,
    measured: bool,
    out: &mut Vec<String>,
    laid: &mut u128,
) -> (ran: Result<(), ResolveError>)
    requires
        pools_wf(pool_models(old(pools)@)),
        *old(laid) <= old(out).len() * 0xFFFF_FFFF_FFFF_FFFF,
    ensures
        match (ran, cycled(
            Walk { pools: pool_models(old(pools)@), out: old(out)@, laid: *old(laid) as int },
            pattern@,
            seed,
            cycle as int,
            0,
            measured,
        )) {
            (Ok(_), Ok(want)) => {
                &&& want == (Walk {
                    pools: pool_models(final(pools)@),
                    out: final(out)@,
                    laid: *final(laid) as int,
                })
                &&& pools_wf(pool_models(final(pools)@))
                &&& *final(laid) <= final(out).len() * 0xFFFF_FFFF_FFFF_FFFF
            },
            (Err(got), Err(want)) => got@ == want,
            _ => false,
        },
{
    let ghost start = Walk { pools: pool_models(pools@), out: out@, laid: *laid as int };
    let mut k: usize = 0;
    while k < pattern.len()
        invariant
            k <= pattern.len(),
            pools_wf(pool_models(pools@)),
            *laid <= out.len() * 0xFFFF_FFFF_FFFF_FFFF,
            start == (Walk {
                pools: pool_models(old(pools)@),
                out: old(out)@,
                laid: *old(laid) as int,
            }),
            cycled(start, pattern@, seed, cycle as int, 0, measured) == cycled(
                Walk { pools: pool_models(pools@), out: out@, laid: *laid as int },
                pattern@,
                seed,
                cycle as int,
                k as int,
                measured,
            ),
        decreases pattern.len() - k,
    {
        let roll: RollKey = RollKey { seed, cycle: cycle as u64, step: k as u64 };
        match run_step(pools, &pattern[k], &roll, measured, out, laid) {
            Ok(_) => {},
            Err(e) => return Err(e),
        }
        k += 1;
    }
    Ok(())
}

/// Resolves the pools of a pattern and walks it: gives the interleaved items, and the state
/// of each pool that the next window resumes from.
///
/// `fill` is how much airtime is still to be covered, in nanoseconds. It bounds a pattern
/// whose author named no number of cycles: the walk stops at the first end of a cycle past
/// that span. `picks` is what the plugins gave for the pools they rank.
pub fn build(
    catalog: &Catalog,
    pools: &Vec<Pool>,
    groups: &Vec<ShowGroup>,
    picks: &Vec<(String, PluginReply)>,
    pattern: &Vec<PatternStep>,
    cycles: Option<usize>,
    block: Option<&Constraints>,
    state: &GenerationState,
    seed: u64,
    fill: Option<u64>,
) -> (out: Result<(Vec<String>, Vec<(String, PoolResume)>), ResolveError>)
    ensures
        match (out, schedule(
            *catalog,
            pools@,
            groups@,
            picks@,
            pattern@,
            cycles,
            match block {
                Some(b) => Some(*b),
                None => None,
            },
            *state,
            seed,
            fill,
        )) {
            (Ok(got), Ok(want)) => got.0@ == want.out && leaves(want.pools, got.1@),
            (Err(got), Err(want)) => got@ == want,
            _ => false,
        },
{
    // An authored number of cycles is how long the author wants a pass to run, and the
    // window does not argue with it.
    let budget: Option<u64> = if cycles.is_some() {
        None
    } else {
        fill
    };
    let given: Vec<Vec<String>> = match resolve_pool_sources(catalog, pools, groups, picks) {
        Ok(given) => given,
        Err(e) => return Err(e),
    };
    let mut made: Vec<PoolRuntime<'_>> = match ready_pools(
        catalog,
        pools,
        &given,
        block,
        state,
        budget.is_some(),
    ) {
        Ok(made) => made,
        Err(e) => return Err(e),
    };
    let rounds: usize = match cycles {
        Some(n) => {
            if n > MAX_CYCLES {
                return Err(ResolveError::TooManyCycles { cycles: n });
            }
            n
        },
        None => derive_cycles(&made, pattern),
    };
    let ghost start = Walk { pools: pool_models(made@), out: Seq::empty(), laid: 0 };
    let mut out: Vec<String> = Vec::new();
    let mut laid: u128 = 0;
    let mut cycle: usize = 0;
    let ghost goal = walked(start, pattern@, seed, 0, rounds as int, budget);
    let ghost held = match block {
        Some(b) => Some(*b),
        None => None,
    };
    assert(out@ =~= Seq::<String>::empty());
    assert(goal == schedule(
        *catalog,
        pools@,
        groups@,
        picks@,
        pattern@,
        cycles,
        held,
        *state,
        seed,
        fill,
    ));
    while cycle < rounds && !covered(laid, budget)
        invariant
            cycle <= rounds,
            pools_wf(pool_models(made@)),
            laid <= out.len() * 0xFFFF_FFFF_FFFF_FFFF,
            held == (match block {
                Some(b) => Some(*b),
                None => None,
            }),
            goal == schedule(
                *catalog,
                pools@,
                groups@,
                picks@,
                pattern@,
                cycles,
                held,
                *state,
                seed,
                fill,
            ),
            goal == walked(
                Walk { pools: pool_models(made@), out: out@, laid: laid as int },
                pattern@,
                seed,
                cycle as int,
                rounds as int,
                budget,
            ),
        decreases rounds - cycle,
    {
        match run_cycle(&mut made, pattern, seed, cycle, budget.is_some(), &mut out, &mut laid) {
            Ok(_) => {},
            Err(e) => return Err(e),
        }
        cycle += 1;
    }
    let rows: Vec<(String, PoolResume)> = resume_rows(&made);
    Ok((out, rows))
}

/// Whether the airtime asked for is covered.
fn covered(laid: u128, budget: Option<u64>) -> (out: bool)
    ensures
        out == (budget is Some && laid >= budget->0),
{
    match budget {
        Some(fill) => laid >= fill as u128,
        None => false,
    }
}

/// The state of each pool that the next window resumes from.
fn resume_rows<'a>(pools: &Vec<PoolRuntime<'a>>) -> (out: Vec<(String, PoolResume)>)
    ensures
        leaves(pool_models(pools@), out@),
{
    let ghost all = pool_models(pools@);
    let ghost names = all.map_values(|p: PoolModel| p.cfg.name);
    let ghost turns = all.map_values(|p: PoolModel| p.turn());
    let mut rows: Vec<(String, PoolResume)> = Vec::new();
    let mut i: usize = 0;
    assert(names.take(0) =~= Seq::<String>::empty());
    while i < pools.len()
        invariant
            i <= pools.len(),
            all == pool_models(pools@),
            names == all.map_values(|p: PoolModel| p.cfg.name),
            turns == all.map_values(|p: PoolModel| p.turn()),
            records(names.take(i as int), turns.take(i as int), rows@),
        decreases pools.len() - i,
    {
        let ghost earlier = rows@;
        let state: PoolResume = pools[i].to_resume();
        let name: String = pools[i].cfg.name.clone();
        assert(all[i as int] == pools@[i as int]@);
        assert(names.take(i + 1).last() == name);
        assert(turns.take(i + 1).last() == all[i as int].turn());
        assert(names.take(i + 1).drop_last() =~= names.take(i as int));
        assert(turns.take(i + 1).drop_last() =~= turns.take(i as int));
        put_entry(&mut rows, name, state);
        assert(rows@ == put(earlier, names.take(i + 1).last(), state));
        i += 1;
        assert(records(names.take(i as int), turns.take(i as int), rows@));
    }
    assert(names.take(i as int) =~= names);
    assert(turns.take(i as int) =~= turns);
    rows
}

} // verus!
