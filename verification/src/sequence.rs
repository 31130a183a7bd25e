//! Sequenced blocks: a script puts the items of resolved pools on a timeline; the station
//! holds it to the pools and to the window, and works out where to resume.

use vstd::prelude::*;

use crate::catalog::Catalog;
use crate::config::{Constraints, Pool, ShowGroup};
use crate::draw::{runtime, total_runtime, Series, SeriesModel};
use crate::fault::{Fault, ResolveError};
use crate::names::{contains_name, copy_names, has_name, put, put_entry};
use crate::pattern::{lists, pool_lists, resolve_pool_sources, PluginReply};
use crate::pool::{
    flat, flatten_series, known_lengths, mean_length, models, pool_runtimes, resolve_pool_series,
    seam, seam_of, settled,
    PoolSeries,
};
use crate::score::item_maps;
use crate::resume::{records, GenerationState, PoolResume};

verus! {

/// The window that a timeline is laid for.
#[derive(Clone, Copy, Debug, PartialEq, Eq, Structural)]
pub struct Window {
    /// When the generation begins airing, in seconds since the epoch.
    pub from: i64,
    /// How much airtime it should cover, in nanoseconds; unbounded when absent.
    pub fill: Option<u64>,
}

/// What a sequencer script gave.
#[derive(Debug)]
pub enum ArrangeReply {
    Failed(String),
    Items(Vec<String>),
}

/// How many items from item `i` on are begun before `fill` is covered, when `laid` is
/// covered already.
pub open spec fn begun_from(
    lengths: Seq<(String, u64)>,
    mean: u64,
    ids: Seq<String>,
    fill: u64,
    i: int,
    laid: int,
) -> int
    decreases ids.len() - i,
{
    if i >= ids.len() || laid >= fill {
        i
    } else {
        begun_from(lengths, mean, ids, fill, i + 1, laid + runtime(lengths, mean, ids[i]@))
    }
}

/// A timeline cut at the item that crosses the end of the window.
pub open spec fn truncated(catalog: Catalog, ids: Seq<String>, fill: Option<u64>) -> Seq<String> {
    match fill {
        None => ids,
        Some(f) => {
            let lengths = known_lengths(catalog, ids);
            ids.take(begun_from(lengths, mean_length(lengths) as u64, ids, f, 0, 0))
        },
    }
}

/// Cuts a timeline at the item that crosses the end of the window, which stays whole. An
/// item without a usable length counts at the mean of those that have one.
pub fn truncate_to_window(catalog: &Catalog, ids: Vec<String>, fill: Option<u64>) -> (out: Vec<
    String,
>)
    ensures
        out@ == truncated(*catalog, ids@, fill),
{
    let fill: u64 = match fill {
        None => return ids,
        Some(f) => f,
    };
    let (lengths, mean): (Vec<(String, u64)>, u64) = pool_runtimes(catalog, &ids);
    let mut laid: u128 = 0;
    let mut i: usize = 0;
    while i < ids.len() && laid < fill as u128
        invariant
            i <= ids.len(),
            laid <= i * 0xFFFF_FFFF_FFFF_FFFF,
            begun_from(lengths@, mean, ids@, fill, 0, 0) == begun_from(
                lengths@,
                mean,
                ids@,
                fill,
                i as int,
                laid as int,
            ),
        decreases ids.len() - i,
    {
        let d: u64 = match crate::names::lookup(&lengths, &ids[i]) {
            Some(d) => *d,
            None => mean,
        };
        laid += d as u128;
        i += 1;
    }
    let mut out: Vec<String> = ids;
    out.truncate(i);
    out
}

/// The last series of a pool that holds an item.
pub open spec fn last_owner(series: Seq<SeriesModel>, id: Seq<char>) -> Option<int>
    decreases series.len(),
{
    if series.len() == 0 {
        None
    } else if has_name(series.last().ids, id) {
        Some(series.len() - 1)
    } else {
        last_owner(series.drop_last(), id)
    }
}

/// The last pool that holds an item, and its last series that does.
pub open spec fn home(pools: Seq<Seq<SeriesModel>>, id: Seq<char>) -> Option<(int, int)>
    decreases pools.len(),
{
    if pools.len() == 0 {
        None
    } else {
        match last_owner(pools.last(), id) {
            Some(si) => Some((pools.len() - 1, si)),
            None => home(pools.drop_last(), id),
        }
    }
}

/// The series of pool `p` that a timeline drew from last.
pub open spec fn last_drawn(pools: Seq<Seq<SeriesModel>>, ids: Seq<String>, p: int) -> Option<int>
    decreases ids.len(),
{
    if ids.len() == 0 {
        None
    } else {
        match home(pools, ids.last()@) {
            Some((q, si)) if q == p => Some(si),
            _ => last_drawn(pools, ids.drop_last(), p),
        }
    }
}

/// The series of pool `p` whose turn comes after a timeline: the one after the series it
/// drew from last, and none when it drew from none.
pub open spec fn turn_after(pools: Seq<Seq<SeriesModel>>, ids: Seq<String>, p: int) -> Option<
    Seq<char>,
> {
    match last_drawn(pools, ids, p) {
        Some(si) => Some(pools[p][(si + 1) % (pools[p].len() as int)].key),
        None => None,
    }
}

/// The first item of a timeline that is in none of the pools.
pub open spec fn first_stranger(pools: Seq<Seq<SeriesModel>>, ids: Seq<String>) -> Option<String>
    decreases ids.len(),
{
    if ids.len() == 0 {
        None
    } else {
        match first_stranger(pools, ids.drop_last()) {
            Some(id) => Some(id),
            None => if home(pools, ids.last()@) is None {
                Some(ids.last())
            } else {
                None
            },
        }
    }
}

/// The first of the items that is not in the catalog.
pub open spec fn first_vanished(catalog: Catalog, ids: Seq<String>) -> Option<String>
    decreases ids.len(),
{
    if ids.len() == 0 {
        None
    } else {
        match first_vanished(catalog, ids.drop_last()) {
            Some(id) => Some(id),
            None => if catalog.row(ids.last()@) is None {
                Some(ids.last())
            } else {
                None
            },
        }
    }
}

pub proof fn lemma_vanished(catalog: Catalog, ids: Seq<String>)
    ensures
        first_vanished(catalog, ids) is None <==> item_maps(catalog, ids) is Ok,
    decreases ids.len(),
{
    if ids.len() > 0 {
        lemma_vanished(catalog, ids.drop_last());
    }
}

proof fn lemma_first_vanished_stays(catalog: Catalog, ids: Seq<String>, i: int)
    requires
        0 <= i <= ids.len(),
        first_vanished(catalog, ids.take(i)) is Some,
    ensures
        first_vanished(catalog, ids) == first_vanished(catalog, ids.take(i)),
    decreases ids.len() - i,
{
    if i < ids.len() {
        assert(ids.take(i + 1).drop_last() =~= ids.take(i));
        lemma_first_vanished_stays(catalog, ids, i + 1);
    } else {
        assert(ids.take(i) =~= ids);
    }
}

fn find_vanished(catalog: &Catalog, ids: &Vec<String>) -> (out: Option<String>)
    ensures
        out == first_vanished(*catalog, ids@),
{
    let mut i: usize = 0;
    assert(ids@.take(0) =~= Seq::<String>::empty());
    while i < ids.len()
        invariant
            i <= ids.len(),
            first_vanished(*catalog, ids@.take(i as int)) is None,
        decreases ids.len() - i,
    {
        assert(ids@.take(i + 1).drop_last() =~= ids@.take(i as int));
        assert(ids@.take(i + 1).last() == ids@[i as int]);
        if catalog.entry(&ids[i]).is_none() {
            proof {
                lemma_first_vanished_stays(*catalog, ids@, i + 1);
            }
            return Some(ids[i].clone());
        }
        i += 1;
    }
    assert(ids@.take(i as int) =~= ids@);
    None
}

/// The series of each pool, all of whose items are in the catalog; the first pool at fault
/// counts.
pub open spec fn all_series(
    catalog: Catalog,
    pools: Seq<Pool>,
    lists: Seq<Seq<String>>,
    block: Option<Constraints>,
    tail: Seq<String>,
) -> Result<Seq<Seq<SeriesModel>>, Fault>
    decreases pools.len(),
{
    if pools.len() == 0 {
        Ok(Seq::empty())
    } else {
        match all_series(catalog, pools.drop_last(), lists.drop_last(), block, tail) {
            Err(fault) => Err(fault),
            Ok(made) => match settled(
                catalog,
                pools.last(),
                lists.last(),
                block,
                seam(tail, lists.last()),
                false,
            ) {
                Err(fault) => Err(fault),
                Ok(s) => match first_vanished(catalog, flat(s.series)) {
                    Some(id) => Err(Fault::PoolVanished { pool: pools.last().name, id }),
                    None => Ok(made.push(s.series)),
                },
            },
        }
    }
}

/// A timeline and the pools it was drawn from.
pub struct Timeline {
    pub pools: Seq<Seq<SeriesModel>>,
    pub out: Seq<String>,
}

/// What a sequenced block plays.
pub open spec fn sequenced(
    catalog: Catalog,
    pools: Seq<Pool>,
    groups: Seq<ShowGroup>,
    picks: Seq<(String, PluginReply)>,
    block: Option<Constraints>,
    script: Seq<char>,
    reply: Option<ArrangeReply>,
    tail: Seq<String>,
    window: Window,
) -> Result<Timeline, Fault> {
    match pool_lists(catalog, groups, picks, pools) {
        Err(fault) => Err(fault),
        Ok(lists) => match all_series(catalog, pools, lists, block, tail) {
            Err(fault) => Err(fault),
            Ok(made) => match reply {
                None => Err(Fault::Unarranged { script }),
                Some(ArrangeReply::Failed(why)) => Err(Fault::Sequencer { why }),
                Some(ArrangeReply::Items(ids)) => match first_stranger(made, ids@) {
                    Some(id) => Err(Fault::NotInPools { script, id }),
                    None => Ok(
                        Timeline { pools: made, out: truncated(catalog, ids@, window.fill) },
                    ),
                },
            },
        },
    }
}

/// The series of each pool, as mathematical values.
pub open spec fn all_models(pools: Seq<Vec<Series>>) -> Seq<Seq<SeriesModel>> {
    pools.map_values(|s: Vec<Series>| models(s@))
}

proof fn lemma_all_series_err(
    catalog: Catalog,
    pools: Seq<Pool>,
    lists: Seq<Seq<String>>,
    block: Option<Constraints>,
    tail: Seq<String>,
    i: int,
)
    requires
        0 <= i <= pools.len(),
        pools.len() == lists.len(),
        all_series(catalog, pools.take(i), lists.take(i), block, tail) is Err,
    ensures
        all_series(catalog, pools, lists, block, tail) == all_series(
            catalog,
            pools.take(i),
            lists.take(i),
            block,
            tail,
        ),
    decreases pools.len(),
{
    if i < pools.len() {
        assert(pools.drop_last().take(i) =~= pools.take(i));
        assert(lists.drop_last().take(i) =~= lists.take(i));
        lemma_all_series_err(catalog, pools.drop_last(), lists.drop_last(), block, tail, i);
    } else {
        assert(pools.take(i) =~= pools);
        assert(lists.take(i) =~= lists);
    }
}

/// Settles the series of each pool of a sequenced block.
pub fn resolve_series(
    catalog: &Catalog,
    pools: &Vec<Pool>,
    given: &Vec<Vec<String>>,
    block: Option<&Constraints>,
    tail: &Vec<String>,
) -> (out: Result<Vec<Vec<Series>>, ResolveError>)
    requires
        given.len() == pools.len(),
    ensures
        match (out, all_series(
            *catalog,
            pools@,
            lists(given@),
            match block {
                Some(b) => Some(*b),
                None => None,
            },
            tail@,
        )) {
            (Ok(got), Ok(want)) => all_models(got@) == want && got.len() == pools.len(),
            (Err(got), Err(want)) => got@ == want,
            _ => false,
        },
{
    let ghost held = match block {
        Some(b) => Some(*b),
        None => None,
    };
    let ghost all = lists(given@);
    let mut out: Vec<Vec<Series>> = Vec::new();
    let mut i: usize = 0;
    assert(all_models(out@) =~= Seq::<Seq<SeriesModel>>::empty());
    while i < pools.len()
        invariant
            i <= pools.len(),
            out.len() == i,
            given.len() == pools.len(),
            all == lists(given@),
            held == (match block {
                Some(b) => Some(*b),
                None => None,
            }),
            all_series(
                *catalog,
                pools@.take(i as int),
                all.take(i as int),
                held,
                tail@,
            ) == Ok::<Seq<Seq<SeriesModel>>, Fault>(all_models(out@)),
        decreases pools.len() - i,
    {
        let ghost before = all_models(out@);
        let list: Vec<String> = copy_names(&given[i]);
        let lately: Vec<String> = seam_of(tail, &list);
        let got: Result<PoolSeries, ResolveError> = resolve_pool_series(
            catalog,
            &pools[i],
            list,
            block,
            &lately,
            false,
        );
        assert(all.take(i + 1).last() == given@[i as int]@);
        assert(pools@.take(i + 1).drop_last() =~= pools@.take(i as int));
        assert(all.take(i + 1).drop_last() =~= all.take(i as int));
        i += 1;
        match got {
            Ok(s) => {
                let ghost settled = s@;
                match find_vanished(catalog, &flatten_series(&s.series)) {
                    Some(id) => {
                        proof {
                            lemma_all_series_err(*catalog, pools@, all, held, tail@, i as int);
                        }
                        return Err(
                            ResolveError::PoolVanished { pool: pools[i - 1].name.clone(), id },
                        );
                    },
                    None => {},
                }
                out.push(s.series);
                assert(all_models(out@) =~= before.push(settled.series));
            },
            Err(e) => {
                proof {
                    lemma_all_series_err(*catalog, pools@, all, held, tail@, i as int);
                }
                return Err(e);
            },
        }
    }
    assert(pools@.take(i as int) =~= pools@);
    assert(all.take(i as int) =~= all);
    Ok(out)
}

fn find_last_owner(series: &Vec<Series>, id: &String) -> (out: Option<usize>)
    ensures
        out is Some <==> last_owner(models(series@), id@) is Some,
        out matches Some(i) ==> last_owner(models(series@), id@) == Some(i as int) && i
            < series.len(),
{
    let ghost all = models(series@);
    let mut i: usize = series.len();
    assert(all.take(i as int) =~= all);
    while i > 0
        invariant
            i <= series.len(),
            all == models(series@),
            last_owner(all, id@) == last_owner(all.take(i as int), id@),
        decreases i,
    {
        i -= 1;
        assert(all.take(i + 1).drop_last() =~= all.take(i as int));
        assert(all.take(i + 1).last() == series@[i as int]@);
        if contains_name(&series[i].ids, id) {
            return Some(i);
        }
    }
    None
}

fn find_home(pools: &Vec<Vec<Series>>, id: &String) -> (out: Option<(usize, usize)>)
    ensures
        out is Some <==> home(all_models(pools@), id@) is Some,
        out matches Some((p, si)) ==> home(all_models(pools@), id@) == Some((p as int, si as int))
            && p < pools.len() && si < pools@[p as int].len(),
{
    let ghost all = all_models(pools@);
    let mut i: usize = pools.len();
    assert(all.take(i as int) =~= all);
    while i > 0
        invariant
            i <= pools.len(),
            all == all_models(pools@),
            home(all, id@) == home(all.take(i as int), id@),
        decreases i,
    {
        i -= 1;
        assert(all.take(i + 1).drop_last() =~= all.take(i as int));
        assert(all.take(i + 1).last() == models(pools@[i as int]@));
        match find_last_owner(&pools[i], id) {
            Some(si) => return Some((i, si)),
            None => {},
        }
    }
    None
}

proof fn lemma_first_stranger_stays(pools: Seq<Seq<SeriesModel>>, ids: Seq<String>, i: int)
    requires
        0 <= i <= ids.len(),
        first_stranger(pools, ids.take(i)) is Some,
    ensures
        first_stranger(pools, ids) == first_stranger(pools, ids.take(i)),
    decreases ids.len(),
{
    if i < ids.len() {
        assert(ids.drop_last().take(i) =~= ids.take(i));
        lemma_first_stranger_stays(pools, ids.drop_last(), i);
    } else {
        assert(ids.take(i) =~= ids);
    }
}

fn find_stranger(pools: &Vec<Vec<Series>>, ids: &Vec<String>) -> (out: Option<String>)
    ensures
        out == first_stranger(all_models(pools@), ids@),
{
    let mut i: usize = 0;
    while i < ids.len()
        invariant
            i <= ids.len(),
            first_stranger(all_models(pools@), ids@.take(i as int)) is None,
        decreases ids.len() - i,
    {
        let at: Option<(usize, usize)> = find_home(pools, &ids[i]);
        assert(ids@.take(i + 1).drop_last() =~= ids@.take(i as int));
        i += 1;
        if at.is_none() {
            proof {
                lemma_first_stranger_stays(all_models(pools@), ids@, i as int);
            }
            return Some(ids[i - 1].clone());
        }
    }
    assert(ids@.take(i as int) =~= ids@);
    None
}

/// The turn that comes after a timeline in pool `p`.
fn next_turn(pools: &Vec<Vec<Series>>, ids: &Vec<String>, p: usize) -> (out: PoolResume)
    requires
        p < pools.len(),
    ensures
        crate::resume::tells(out, turn_after(all_models(pools@), ids@, p as int)),
{
    let ghost all = all_models(pools@);
    let mut i: usize = ids.len();
    assert(ids@.take(i as int) =~= ids@);
    while i > 0
        invariant
            i <= ids.len(),
            p < pools.len(),
            all == all_models(pools@),
            last_drawn(all, ids@, p as int) == last_drawn(all, ids@.take(i as int), p as int),
        decreases i,
    {
        i -= 1;
        assert(ids@.take(i + 1).drop_last() =~= ids@.take(i as int));
        assert(ids@.take(i + 1).last() == ids@[i as int]);
        match find_home(pools, &ids[i]) {
            Some((q, si)) => {
                if q == p {
                    let n: usize = pools[p].len();
                    let next: usize = if si + 1 == n {
                        0
                    } else {
                        si + 1
                    };
                    proof {
                        if si + 1 == n {
                            vstd::arithmetic::div_mod::lemma_mod_self_0(n as int);
                        } else {
                            vstd::arithmetic::div_mod::lemma_small_mod(
                                (si + 1) as nat,
                                n as nat,
                            );
                        }
                        assert(all[p as int][next as int] == pools@[p as int]@[next as int]@);
                    }
                    return PoolResume { next: Some(pools[p][next].key.clone()) };
                }
            },
            None => {},
        }
    }
    PoolResume { next: None }
}

/// The names of a list of pools.
pub open spec fn pool_names(pools: Seq<Pool>) -> Seq<String> {
    pools.map_values(|p: Pool| p.name)
}

/// Whose turn comes after a timeline, in each pool.
pub open spec fn turns_after(pools: Seq<Seq<SeriesModel>>, ids: Seq<String>) -> Seq<
    Option<Seq<char>>,
> {
    Seq::new(pools.len(), |p: int| turn_after(pools, ids, p))
}

/// Resolves the pools of a sequenced block and holds the timeline that its script returned
/// to them: an item of no pool fails it, and what overruns the window is cut after the item
/// that crosses its end. The state each pool resumes from follows from the items that came
/// back.
pub fn build(
    catalog: &Catalog,
    pools: &Vec<Pool>,
    groups: &Vec<ShowGroup>,
    picks: &Vec<(String, PluginReply)>,
    block: Option<&Constraints>,
    script: &String,
    reply: Option<&ArrangeReply>,
    state: &GenerationState,
    window: Window,
) -> (out: Result<(Vec<String>, Vec<(String, PoolResume)>), ResolveError>)
    ensures
        match (out, sequenced(
            *catalog,
            pools@,
            groups@,
            picks@,
            match block {
                Some(b) => Some(*b),
                None => None,
            },
            script@,
            match reply {
                Some(r) => Some(*r),
                None => None,
            },
            state.tail@,
            window,
        )) {
            (Ok(got), Ok(want)) => got.0@ == want.out && records(
                pool_names(pools@),
                turns_after(want.pools, want.out),
                got.1@,
            ),
            (Err(got), Err(want)) => got@ == want,
            _ => false,
        },
{
    let given: Vec<Vec<String>> = match resolve_pool_sources(catalog, pools, groups, picks) {
        Ok(given) => given,
        Err(e) => return Err(e),
    };
    let made: Vec<Vec<Series>> = match resolve_series(catalog, pools, &given, block, &state.tail) {
        Ok(made) => made,
        Err(e) => return Err(e),
    };
    let ids: Vec<String> = match reply {
        None => return Err(ResolveError::Unarranged { script: script.clone() }),
        Some(ArrangeReply::Failed(why)) => {
            return Err(ResolveError::Sequencer { why: why.clone() });
        },
        Some(ArrangeReply::Items(ids)) => copy_names(ids),
    };
    match find_stranger(&made, &ids) {
        Some(id) => return Err(ResolveError::NotInPools { script: script.clone(), id }),
        None => {},
    }
    let out: Vec<String> = truncate_to_window(catalog, ids, window.fill);
    let ghost all = all_models(made@);
    let ghost names = pool_names(pools@);
    let ghost turns = turns_after(all, out@);
    let mut table: Vec<(String, PoolResume)> = Vec::new();
    let mut i: usize = 0;
    assert(names.take(0) =~= Seq::<String>::empty());
    while i < pools.len()
        invariant
            i <= pools.len(),
            made.len() == pools.len(),
            all == all_models(made@),
            names == pool_names(pools@),
            turns == turns_after(all, out@),
            records(names.take(i as int), turns.take(i as int), table@),
        decreases pools.len() - i,
    {
        let ghost earlier = table@;
        let turn: PoolResume = next_turn(&made, &out, i);
        let name: String = pools[i].name.clone();
        assert(names.take(i + 1).last() == name);
        assert(turns.take(i + 1).last() == turn_after(all, out@, i as int));
        assert(names.take(i + 1).drop_last() =~= names.take(i as int));
        assert(turns.take(i + 1).drop_last() =~= turns.take(i as int));
        put_entry(&mut table, name, turn);
        assert(table@ == put(earlier, names.take(i + 1).last(), turn));
        i += 1;
        assert(records(names.take(i as int), turns.take(i as int), table@));
    }
    assert(names.take(i as int) =~= names);
    assert(turns.take(i as int) =~= turns);
    Ok((out, table))
}

proof fn lemma_begun(
    lengths: Seq<(String, u64)>,
    mean: u64,
    ids: Seq<String>,
    fill: u64,
    i: int,
)
    requires
        0 <= i <= ids.len(),
        forall|j: int|
            0 <= j < i ==> total_runtime(lengths, mean, #[trigger] ids.take(j)) < fill,
    ensures
        ({
            let n = begun_from(
                lengths,
                mean,
                ids,
                fill,
                i,
                total_runtime(lengths, mean, ids.take(i)),
            );
            &&& i <= n <= ids.len()
            &&& n < ids.len() ==> total_runtime(lengths, mean, ids.take(n)) >= fill
            &&& forall|j: int|
                0 <= j < n ==> total_runtime(lengths, mean, #[trigger] ids.take(j)) < fill
        }),
    decreases ids.len() - i,
{
    if i < ids.len() && total_runtime(lengths, mean, ids.take(i)) < fill {
        assert(ids.take(i + 1).drop_last() =~= ids.take(i));
        assert(ids.take(i + 1).last() == ids[i]);
        lemma_begun(lengths, mean, ids, fill, i + 1);
    }
}

/// A timeline that is cut to a window is the beginning of what the script returned. What was
/// cut away was not needed: the rest covers the window. What was kept was: without its last
/// item the rest does not cover it.
pub proof fn a_cut_timeline_just_covers_the_window(catalog: Catalog, ids: Seq<String>, fill: u64)
    ensures
        ({
            let lengths = known_lengths(catalog, ids);
            let mean = mean_length(lengths) as u64;
            let out = truncated(catalog, ids, Some(fill));
            &&& out.len() <= ids.len()
            &&& out == ids.take(out.len() as int)
            &&& out.len() < ids.len() ==> total_runtime(lengths, mean, out) >= fill
            &&& out.len() > 0 ==> total_runtime(lengths, mean, out.drop_last()) < fill
        }),
{
    let lengths = known_lengths(catalog, ids);
    let mean = mean_length(lengths) as u64;
    let out = truncated(catalog, ids, Some(fill));
    assert(ids.take(0) =~= Seq::<String>::empty());
    lemma_begun(lengths, mean, ids, fill, 0);
    if out.len() > 0 {
        assert(out.drop_last() =~= ids.take(out.len() - 1));
    }
}

} // verus!
