//! What holds of gathering pools: where a pool's items come from, how they make series, how often
//! a pattern goes round, and what a sequencer may play of them.

use vstd::prelude::*;

use crate::catalog::{ordered_answer, Answer, Catalog, Ordered};
use crate::config::{Constraints, GroupBy, OrderModel, PatternStep, Pool, ShowGroup, Take};
use crate::draw::{PoolModel, SeriesModel};
use crate::fault::Fault;
use crate::names::{entry_of, has_name, texts};
use crate::pattern::{
    all_steps, cycles_for, drain_cycles, first_pass, group_named, group_shows, in_pool_order,
    items_held, items_left, longest_drain, per_cycle, pool_lists, pool_named, portions,
    second_pass, show_episodes, sourced, PluginReply,
};
use crate::pool::{
    field_for, limits_for, no_rule, owner_of, seam, sequence, series_key, show_key,
};
use crate::sequence::{first_stranger, first_vanished, home, last_drawn, last_owner, turn_after};
use crate::text::{decimal, digit_char, first_at, is_space, signed_decimal, trimmed};

verus! {

/// A pool stands under the rules of its own table, where it has one, else under those of its
/// block, else under none.
pub proof fn a_pool_stands_under_its_own_table(cfg: Pool, block: Option<Constraints>)
    ensures
        cfg.constraints matches Some(own) ==> limits_for(cfg, block) == own.rule() && field_for(
            cfg,
            block,
        ) == own.separate_by,
        cfg.constraints is None && block is Some ==> limits_for(cfg, block) == block->0.rule()
            && field_for(cfg, block) == block->0.separate_by,
        cfg.constraints is None && block is None ==> limits_for(cfg, block).free() && field_for(
            cfg,
            block,
        ) is None,
        no_rule().free(),
{
}

/// A pool looks back on those items of what aired that it holds, in their order, and on no others.
pub proof fn a_pool_looks_back_on_its_own(tail: Seq<String>, ids: Seq<String>)
    ensures
        forall|k: int|
            0 <= k < seam(tail, ids).len() ==> tail.contains(#[trigger] seam(tail, ids)[k])
                && has_name(ids, seam(tail, ids)[k]@),
        forall|k: int|
            0 <= k < tail.len() && has_name(ids, (#[trigger] tail[k])@) ==> seam(
                tail,
                ids,
            ).contains(tail[k]),
{
    let own = |id: String| has_name(ids, id@);
    assert forall|k: int| 0 <= k < seam(tail, ids).len() implies tail.contains(
        #[trigger] seam(tail, ids)[k],
    ) && has_name(ids, seam(tail, ids)[k]@) by {
        tail.lemma_filter_contains_rev(own, seam(tail, ids)[k]);
        tail.lemma_filter_pred(own, k);
    }
    assert forall|k: int| 0 <= k < tail.len() && has_name(ids, (#[trigger] tail[k])@) implies seam(
        tail,
        ids,
    ).contains(tail[k]) by {
        assert(own(tail[k]));
        tail.lemma_filter_contains(own, k);
    }
}

/// The number that a text of digits says.
pub open spec fn says_number(s: Seq<char>) -> int
    decreases s.len(),
{
    if s.len() == 0 {
        0
    } else {
        says_number(s.drop_last()) * 10 + (s.last() as int - 48)
    }
}

/// A number is written in digits that say it, without a zero before it.
pub proof fn a_number_is_written_in_its_digits(n: nat)
    ensures
        says_number(decimal(n)) == n,
        decimal(n).len() > 0,
        forall|i: int| 0 <= i < decimal(n).len() ==> '0' <= #[trigger] decimal(n)[i] <= '9',
        n > 0 ==> decimal(n)[0] != '0',
    decreases n,
{
    if n < 10 {
        assert(decimal(n).drop_last().len() == 0);
        assert(says_number(decimal(n).drop_last()) == 0);
        assert(decimal(n).last() == digit_char(n));
    } else {
        a_number_is_written_in_its_digits(n / 10);
        let head = decimal(n / 10);
        assert(decimal(n).drop_last() =~= head);
        assert(decimal(n).last() == digit_char(n % 10));
        assert forall|i: int| 0 <= i < decimal(n).len() implies '0' <= #[trigger] decimal(n)[i]
            <= '9' by {
            if i < head.len() {
                assert(decimal(n)[i] == head[i]);
            }
        }
    }
}

/// Different numbers are written differently, and a number below zero with a sign before it.
pub proof fn numbers_are_written_apart(a: int, b: int)
    ensures
        signed_decimal(a) == signed_decimal(b) ==> a == b,
        a < 0 <==> signed_decimal(a)[0] == '-',
{
    let x = if a < 0 {
        -a
    } else {
        a
    };
    let y = if b < 0 {
        -b
    } else {
        b
    };
    a_number_is_written_in_its_digits(x as nat);
    a_number_is_written_in_its_digits(y as nat);
    assert('0' <= decimal(x as nat)[0] <= '9');
    assert('0' <= decimal(y as nat)[0] <= '9');
    if a < 0 {
        assert(signed_decimal(a).skip(1) =~= decimal(x as nat));
    }
    if b < 0 {
        assert(signed_decimal(b).skip(1) =~= decimal(y as nat));
    }
}

/// Items that belong to one show make one series where a pool groups by show; an item without a
/// show is a series of its own.
pub proof fn a_series_is_a_show(catalog: Catalog, a: Seq<char>, b: Seq<char>)
    ensures
        catalog.show_id(a) matches Some(show) ==> series_key(catalog, GroupBy::Show, a) == show@,
        catalog.show_id(a) is None ==> series_key(catalog, GroupBy::Show, a) == a,
        catalog.show_id(a) is Some && catalog.show_id(b) is Some ==> (series_key(
            catalog,
            GroupBy::Show,
            a,
        ) == series_key(catalog, GroupBy::Show, b) <==> catalog.show_id(a)->0@ == catalog.show_id(
            b,
        )->0@),
{
}

/// Where a pool groups by season, items of one show are of one series exactly where they are of
/// one season; an item without a season is of the series that its show makes.
pub proof fn a_series_is_a_season(catalog: Catalog, a: Seq<char>, b: Seq<char>)
    requires
        show_key(catalog, a) == show_key(catalog, b),
    ensures
        catalog.season(a) is Some && catalog.season(b) is Some ==> (series_key(
            catalog,
            GroupBy::Season,
            a,
        ) == series_key(catalog, GroupBy::Season, b) <==> catalog.season(a) == catalog.season(b)),
        catalog.season(a) is None ==> series_key(catalog, GroupBy::Season, a) == series_key(
            catalog,
            GroupBy::Show,
            a,
        ),
        catalog.season(a) is Some ==> series_key(catalog, GroupBy::Season, a) != series_key(
            catalog,
            GroupBy::Show,
            a,
        ),
{
    reveal_strlit("|S");
    let show = show_key(catalog, a);
    let n = show.len() as int;
    if let Some(x) = catalog.season(a) {
        let ka = series_key(catalog, GroupBy::Season, a);
        assert(ka.skip(n + 2) =~= signed_decimal(x as int));
        assert(ka.len() != show.len());
        if let Some(y) = catalog.season(b) {
            let kb = series_key(catalog, GroupBy::Season, b);
            assert(kb.skip(n + 2) =~= signed_decimal(y as int));
            numbers_are_written_apart(x as int, y as int);
        }
    }
}

/// A number of portions covers the whole, and one portion fewer would not.
pub proof fn portions_just_cover_the_whole(whole: int, size: int)
    requires
        0 < whole,
        0 < size,
    ensures
        portions(whole, size) * size >= whole,
        (portions(whole, size) - 1) * size < whole,
        portions(whole, size) >= 1,
{
    let p = portions(whole, size);
    assert(p * size >= whole && (p - 1) * size < whole && p >= 1) by (nonlinear_arith)
        requires
            0 < whole,
            0 < size,
            p == (whole + size - 1) / size,
    ;
}

/// A pattern draws from a pool, each time round, what its counted steps on that pool come to; a
/// step that empties a series is counted apart.
pub proof fn a_round_draws_what_its_steps_come_to(
    pools: Seq<PoolModel>,
    pattern: Seq<PatternStep>,
    step: PatternStep,
    i: int,
)
    ensures
        per_cycle(pools, Seq::<PatternStep>::empty(), i) == 0,
        all_steps(pools, Seq::<PatternStep>::empty(), i) == 0,
        pool_named(pools, step.pool@) != Some(i) ==> per_cycle(pools, pattern.push(step), i)
            == per_cycle(pools, pattern, i) && all_steps(pools, pattern.push(step), i) == all_steps(
            pools,
            pattern,
            i,
        ),
        pool_named(pools, step.pool@) == Some(i) ==> match step.take {
            Take::Count(n) => per_cycle(pools, pattern.push(step), i) == per_cycle(
                pools,
                pattern,
                i,
            ) + n && all_steps(pools, pattern.push(step), i) == all_steps(pools, pattern, i),
            Take::All => per_cycle(pools, pattern.push(step), i) == per_cycle(pools, pattern, i)
                && all_steps(pools, pattern.push(step), i) == all_steps(pools, pattern, i) + 1,
        },
{
    assert(pattern.push(step).drop_last() =~= pattern);
}

proof fn lemma_longest_drain(pools: Seq<PoolModel>, pattern: Seq<PatternStep>, n: int)
    requires
        0 <= n,
    ensures
        forall|i: int|
            0 <= i < n ==> longest_drain(pools, pattern, n) >= #[trigger] cycles_for(
                pools,
                pattern,
                i,
            ),
        longest_drain(pools, pattern, n) == 0 || exists|i: int|
            0 <= i < n && longest_drain(pools, pattern, n) == #[trigger] cycles_for(
                pools,
                pattern,
                i,
            ),
    decreases n,
{
    if n > 0 {
        lemma_longest_drain(pools, pattern, n - 1);
        let here = cycles_for(pools, pattern, n - 1);
        if longest_drain(pools, pattern, n) != 0 && here <= longest_drain(pools, pattern, n - 1) {
            let i = choose|i: int|
                0 <= i < n - 1 && longest_drain(pools, pattern, n - 1) == #[trigger] cycles_for(
                    pools,
                    pattern,
                    i,
                );
            assert(cycles_for(pools, pattern, i) == longest_drain(pools, pattern, n));
        }
    }
}

/// A pattern goes round often enough for its counted steps to draw all that is left of each pool,
/// and for its other steps to come to each of a pool's series; and no oftener than some pool needs.
pub proof fn a_pattern_goes_round_until_its_pools_are_drained(
    pools: Seq<PoolModel>,
    pattern: Seq<PatternStep>,
    i: int,
)
    requires
        0 <= i < pools.len(),
        drain_cycles(pools, pattern) < usize::MAX,
        per_cycle(pools, pattern, i) >= 0,
        all_steps(pools, pattern, i) >= 0,
    ensures
        per_cycle(pools, pattern, i) > 0 && items_left(pools[i].series) > 0 ==> drain_cycles(
            pools,
            pattern,
        ) * per_cycle(pools, pattern, i) >= items_left(pools[i].series),
        all_steps(pools, pattern, i) > 0 && pools[i].series.len() > 0 ==> drain_cycles(
            pools,
            pattern,
        ) * all_steps(pools, pattern, i) >= pools[i].series.len(),
        drain_cycles(pools, pattern) == 0 || exists|j: int|
            0 <= j < pools.len() && drain_cycles(pools, pattern) == #[trigger] cycles_for(
                pools,
                pattern,
                j,
            ),
{
    lemma_longest_drain(pools, pattern, pools.len() as int);
    let all = drain_cycles(pools, pattern);
    let own = cycles_for(pools, pattern, i);
    assert(all >= own);
    let taken = per_cycle(pools, pattern, i);
    let left = items_left(pools[i].series);
    if taken > 0 && left > 0 {
        portions_just_cover_the_whole(left, taken);
        let p = portions(left, taken);
        assert(all * taken >= p * taken) by (nonlinear_arith)
            requires
                all >= p,
                taken > 0,
        ;
    }
    let emptied = all_steps(pools, pattern, i);
    let len = pools[i].series.len() as int;
    if emptied > 0 && len > 0 {
        portions_just_cover_the_whole(len, emptied);
        let p = portions(len, emptied);
        assert(all * emptied >= p * emptied) by (nonlinear_arith)
            requires
                all >= p,
                emptied > 0,
        ;
    }
}

/// A pool that needs the most rounds would not be drained by one fewer.
pub proof fn a_pool_is_not_drained_sooner(
    pools: Seq<PoolModel>,
    pattern: Seq<PatternStep>,
    i: int,
)
    requires
        0 <= i < pools.len(),
        cycles_for(pools, pattern, i) > 0,
        items_left(pools[i].series) > 0,
        pools[i].series.len() > 0,
    ensures
        ({
            let sooner = cycles_for(pools, pattern, i) - 1;
            let taken = per_cycle(pools, pattern, i);
            let emptied = all_steps(pools, pattern, i);
            ||| taken > 0 && sooner * taken < items_left(pools[i].series)
            ||| emptied > 0 && sooner * emptied < pools[i].series.len()
        }),
{
    let taken = per_cycle(pools, pattern, i);
    let emptied = all_steps(pools, pattern, i);
    if taken > 0 {
        portions_just_cover_the_whole(items_left(pools[i].series), taken);
    }
    if emptied > 0 {
        portions_just_cover_the_whole(pools[i].series.len() as int, emptied);
    }
}

/// What is left of some series, and what they hold, are the sums of what is left of each and of
/// what each holds.
pub proof fn what_is_left_adds_up(series: Seq<SeriesModel>, more: SeriesModel)
    requires
        more.wf(),
    ensures
        items_left(Seq::<SeriesModel>::empty()) == 0,
        items_held(Seq::<SeriesModel>::empty()) == 0,
        items_left(series.push(more)) == items_left(series) + more.ids.len() - more.cursor,
        items_held(series.push(more)) == items_held(series) + more.ids.len(),
{
    assert(series.push(more).drop_last() =~= series);
}

/// A step names a pool by its name; of two of one name the later is meant.
pub proof fn a_step_names_a_pool(pools: Seq<PoolModel>, name: Seq<char>)
    ensures
        pool_named(pools, name) is None <==> forall|i: int|
            0 <= i < pools.len() ==> (#[trigger] pools[i]).cfg.name@ != name,
        pool_named(pools, name) matches Some(i) ==> 0 <= i < pools.len() && pools[i].cfg.name@
            == name && forall|j: int| i < j < pools.len() ==> (#[trigger] pools[j]).cfg.name@
            != name,
    decreases pools.len(),
{
    if pools.len() > 0 {
        let fewer = pools.drop_last();
        a_step_names_a_pool(fewer, name);
        assert(pools[pools.len() - 1] == pools.last());
        if pools.last().cfg.name@ != name {
            assert forall|j: int| 0 <= j < pools.len() - 1 implies fewer[j] == #[trigger] pools[j] by {}
            if pool_named(pools, name) is None {
                assert forall|i: int| 0 <= i < pools.len() implies (
                #[trigger] pools[i]).cfg.name@ != name by {
                    if i < fewer.len() {
                        assert(fewer[i].cfg.name@ != name);
                    }
                }
            } else {
                let i = pool_named(pools, name)->0;
                assert forall|j: int| i < j < pools.len() implies (#[trigger] pools[j]).cfg.name@
                    != name by {
                    if j < fewer.len() {
                        assert(fewer[j].cfg.name@ != name);
                    }
                }
                assert(pools[i].cfg.name@ == name);
            }
        }
    }
}

/// A group is found by its name; of two of one name the earlier is meant.
pub proof fn a_group_is_found_by_its_name(groups: Seq<ShowGroup>, name: Seq<char>)
    ensures
        group_named(groups, name) is None ==> forall|i: int|
            0 <= i < groups.len() ==> (#[trigger] groups[i]).name@ != name,
        group_named(groups, name) matches Some(g) ==> exists|i: int|
            0 <= i < groups.len() && #[trigger] groups[i] == g && g.name@ == name && forall|j: int|
                0 <= j < i ==> (#[trigger] groups[j]).name@ != name,
    decreases groups.len(),
{
    if groups.len() > 0 {
        if groups[0].name@ == name {
            assert(groups[0] == groups[0]);
        } else {
            let rest = groups.drop_first();
            a_group_is_found_by_its_name(rest, name);
            if let Some(g) = group_named(rest, name) {
                let i = choose|i: int|
                    0 <= i < rest.len() && #[trigger] rest[i] == g && g.name@ == name && forall|
                        j: int,
                    |
                        0 <= j < i ==> (#[trigger] rest[j]).name@ != name;
                assert(groups[i + 1] == g);
                assert forall|j: int| 0 <= j < i + 1 implies (#[trigger] groups[j]).name@
                    != name by {
                    if j > 0 {
                        assert(rest[j - 1] == groups[j]);
                    }
                }
            } else {
                assert forall|i: int| 0 <= i < groups.len() implies (#[trigger] groups[i]).name@
                    != name by {
                    if i > 0 {
                        assert(rest[i - 1] == groups[i]);
                    }
                }
            }
        }
    }
}

/// A pool of groups holds the shows of its groups, group after group, and of each show all of its
/// episodes, in their order. A group that is not declared, and a show without episodes, are
/// refused.
pub proof fn a_pool_of_groups_holds_their_episodes(
    catalog: Catalog,
    cfg: Pool,
    groups: Seq<ShowGroup>,
    names: Seq<String>,
    name: String,
    shows: Seq<String>,
    show: String,
)
    ensures
        group_shows(cfg, groups, Seq::<String>::empty()) == Ok::<Seq<String>, Fault>(Seq::empty()),
        group_shows(cfg, groups, names) is Ok ==> match group_named(groups, name@) {
            Some(group) => group_shows(cfg, groups, names.push(name)) == Ok::<Seq<String>, Fault>(
                group_shows(cfg, groups, names)->Ok_0 + group.shows@,
            ),
            None => group_shows(cfg, groups, names.push(name)) == Err::<Seq<String>, Fault>(
                Fault::UndeclaredGroup { pool: cfg.name, group: name },
            ),
        },
        show_episodes(catalog, cfg, Seq::<String>::empty()) == Ok::<Seq<String>, Fault>(
            Seq::empty(),
        ),
        show_episodes(catalog, cfg, shows) is Ok ==> match entry_of(catalog.episodes@, show@) {
            Some(ids) => if ids@.len() > 0 {
                show_episodes(catalog, cfg, shows.push(show)) == Ok::<Seq<String>, Fault>(
                    show_episodes(catalog, cfg, shows)->Ok_0 + ids@,
                )
            } else {
                show_episodes(catalog, cfg, shows.push(show)) is Err
            },
            None => show_episodes(catalog, cfg, shows.push(show)) == Err::<Seq<String>, Fault>(
                Fault::ShowMissing { pool: cfg.name, show },
            ),
        },
{
    assert(names.push(name).drop_last() =~= names);
    assert(shows.push(show).drop_last() =~= shows);
}

/// A pool has one source: an expression, a plugin or groups. One that names none, or several, is
/// refused.
pub proof fn a_pool_has_one_source(
    catalog: Catalog,
    groups: Seq<ShowGroup>,
    picks: Seq<(String, PluginReply)>,
    cfg: Pool,
)
    ensures
        sourced(catalog, groups, picks, cfg) is Ok ==> ({
            let by_expr = if cfg.expr is Some {
                1int
            } else {
                0
            };
            let by_plugin = if cfg.plugin is Some {
                1int
            } else {
                0
            };
            let by_groups = if cfg.groups@.len() > 0 {
                1int
            } else {
                0
            };
            by_expr + by_plugin + by_groups == 1
        }),
        cfg.expr is Some && cfg.plugin is None && cfg.groups@.len() == 0 && cfg.order is None ==> (
        catalog.query_answer(cfg.expr->0@) matches Answer::Items(ids) ==> sourced(
            catalog,
            groups,
            picks,
            cfg,
        ) == Ok::<Option<Seq<String>>, Fault>(Some(ids))),
        cfg.expr is None && cfg.plugin is Some && cfg.groups@.len() == 0 ==> (sourced(
            catalog,
            groups,
            picks,
            cfg,
        ) is Ok ==> sourced(catalog, groups, picks, cfg)->Ok_0 is None),
{
}

/// A pool that is to be ordered holds what the catalog answers when it is asked for that order,
/// and else what it was given.
pub proof fn a_pool_is_ordered_by_the_catalog(
    catalog: Catalog,
    order: crate::config::Order,
    ids: Seq<String>,
)
    ensures
        in_pool_order(catalog, None, ids) == Ok::<Seq<String>, Fault>(ids),
        in_pool_order(catalog, Some(order), ids) is Ok <==> catalog.order_answer(
            texts(ids),
            order@,
            0,
        ) is Items,
        catalog.order_answer(texts(ids), order@, 0) matches Answer::Items(named) ==> in_pool_order(
            catalog,
            Some(order),
            ids,
        ) == Ok::<Seq<String>, Fault>(named),
{
}

/// Whether a pool gets a list: what its source gave, or what its plugin picked for it.
pub open spec fn gets(
    list: Seq<String>,
    found: Option<Seq<String>>,
    picks: Seq<(String, PluginReply)>,
    cfg: Pool,
) -> bool {
    match found {
        Some(ids) => list == ids,
        None => match entry_of(picks, cfg.name@) {
            Some(PluginReply::Items(ids)) => list == ids@,
            _ => false,
        },
    }
}

/// Each pool of a block gets its own list: one that a plugin picks what the plugin picked for it,
/// and every other what its source gives.
pub proof fn each_pool_gets_its_own_list(
    catalog: Catalog,
    groups: Seq<ShowGroup>,
    picks: Seq<(String, PluginReply)>,
    pools: Seq<Pool>,
)
    ensures
        pool_lists(catalog, groups, picks, pools) is Ok ==> pool_lists(
            catalog,
            groups,
            picks,
            pools,
        )->Ok_0.len() == pools.len(),
        pool_lists(catalog, groups, picks, pools) is Ok ==> forall|i: int|
            0 <= i < pools.len() ==> sourced(catalog, groups, picks, #[trigger] pools[i]) is Ok
                && gets(
                pool_lists(catalog, groups, picks, pools)->Ok_0[i],
                sourced(catalog, groups, picks, pools[i])->Ok_0,
                picks,
                pools[i],
            ),
{
    lemma_first_pass(catalog, groups, picks, pools);
    if let Ok(lists) = pool_lists(catalog, groups, picks, pools) {
        let found = first_pass(catalog, groups, picks, pools)->Ok_0;
        lemma_second_pass(picks, pools, found);
        assert forall|i: int| 0 <= i < pools.len() implies sourced(
            catalog,
            groups,
            picks,
            #[trigger] pools[i],
        ) is Ok && gets(
            lists[i],
            sourced(catalog, groups, picks, pools[i])->Ok_0,
            picks,
            pools[i],
        ) by {
            assert(sourced(catalog, groups, picks, pools[i]) == Ok::<Option<Seq<String>>, Fault>(
                found[i],
            ));
        }
    }
}

proof fn lemma_first_pass(
    catalog: Catalog,
    groups: Seq<ShowGroup>,
    picks: Seq<(String, PluginReply)>,
    pools: Seq<Pool>,
)
    ensures
        first_pass(catalog, groups, picks, pools) matches Ok(found) ==> found.len() == pools.len()
            && forall|i: int|
            #![trigger found[i]]
            0 <= i < found.len() ==> sourced(catalog, groups, picks, pools[i]) == Ok::<
                Option<Seq<String>>,
                Fault,
            >(found[i]),
    decreases pools.len(),
{
    if pools.len() > 0 {
        lemma_first_pass(catalog, groups, picks, pools.drop_last());
    }
}

proof fn lemma_second_pass(
    picks: Seq<(String, PluginReply)>,
    pools: Seq<Pool>,
    found: Seq<Option<Seq<String>>>,
)
    requires
        pools.len() == found.len(),
    ensures
        second_pass(picks, pools, found) matches Ok(lists) ==> lists.len() == pools.len() && forall|
            i: int,
        |
            #![trigger lists[i]]
            0 <= i < lists.len() ==> gets(lists[i], found[i], picks, pools[i]),
    decreases pools.len(),
{
    if pools.len() > 0 {
        let fewer = pools.drop_last();
        let less = found.drop_last();
        lemma_second_pass(picks, fewer, less);
        if let Ok(lists) = second_pass(picks, pools, found) {
            let earlier = second_pass(picks, fewer, less)->Ok_0;
            assert forall|i: int| #![trigger lists[i]] 0 <= i < lists.len() implies gets(
                lists[i],
                found[i],
                picks,
                pools[i],
            ) by {
                if i < earlier.len() {
                    assert(lists[i] == earlier[i]);
                    assert(gets(earlier[i], less[i], picks, fewer[i]));
                }
            }
        }
    }
}

/// An item belongs to the first series of a pool that holds it.
pub proof fn an_item_belongs_to_the_first_that_holds_it(
    series: Seq<SeriesModel>,
    id: Seq<char>,
    i: int,
)
    requires
        0 <= i,
    ensures
        owner_of(series, id, i) matches Some(k) ==> i <= k < series.len() && has_name(
            series[k].ids,
            id,
        ) && forall|j: int| i <= j < k ==> !has_name((#[trigger] series[j]).ids, id),
        owner_of(series, id, i) is None ==> forall|j: int|
            i <= j < series.len() ==> !has_name((#[trigger] series[j]).ids, id),
    decreases series.len() - i,
{
    if i < series.len() {
        an_item_belongs_to_the_first_that_holds_it(series, id, i + 1);
    }
}

/// Series come in the order in which an ordering first names an item of each.
pub proof fn series_come_in_the_order_of_their_items(
    series: Seq<SeriesModel>,
    ordered: Seq<String>,
    more: String,
)
    ensures
        sequence(series, Seq::<String>::empty()).len() == 0,
        match owner_of(series, more@, 0) {
            Some(i) => sequence(series, ordered).contains(i) && sequence(series, ordered.push(more))
                == sequence(series, ordered) || !sequence(series, ordered).contains(i) && sequence(
                series,
                ordered.push(more),
            ) == sequence(series, ordered).push(i),
            None => sequence(series, ordered.push(more)) == sequence(series, ordered),
        },
{
    assert(ordered.push(more).drop_last() =~= ordered);
}

/// A sequencer may play an item that some series of some pool holds; the last that does is its
/// home.
pub proof fn a_sequencer_plays_what_the_pools_hold(
    pools: Seq<Seq<SeriesModel>>,
    id: Seq<char>,
)
    ensures
        home(pools, id) is None ==> forall|p: int, s: int|
            #![trigger pools[p][s]]
            0 <= p < pools.len() && 0 <= s < pools[p].len() ==> !has_name(pools[p][s].ids, id),
        home(pools, id) matches Some((p, s)) ==> {
            &&& 0 <= p < pools.len()
            &&& 0 <= s < pools[p].len()
            &&& has_name(pools[p][s].ids, id)
            &&& forall|t: int| s < t < pools[p].len() ==> !has_name((#[trigger] pools[p][t]).ids, id)
            &&& forall|q: int, t: int|
                #![trigger pools[q][t]]
                p < q < pools.len() && 0 <= t < pools[q].len() ==> !has_name(pools[q][t].ids, id)
        },
    decreases pools.len(),
{
    if pools.len() > 0 {
        let fewer = pools.drop_last();
        a_sequencer_plays_what_the_pools_hold(fewer, id);
        lemma_last_owner(pools.last(), id);
        assert(pools[pools.len() - 1] == pools.last());
        if last_owner(pools.last(), id) is None {
            if home(pools, id) is None {
                assert forall|p: int, s: int|
                    #![trigger pools[p][s]]
                    0 <= p < pools.len() && 0 <= s < pools[p].len() implies !has_name(
                    pools[p][s].ids,
                    id,
                ) by {
                    if p < fewer.len() {
                        assert(fewer[p][s] == pools[p][s]);
                    }
                }
            } else {
                let (p, s) = home(pools, id)->0;
                assert forall|q: int, t: int|
                    #![trigger pools[q][t]]
                    p < q < pools.len() && 0 <= t < pools[q].len() implies !has_name(
                    pools[q][t].ids,
                    id,
                ) by {
                    if q < fewer.len() {
                        assert(fewer[q][t] == pools[q][t]);
                    }
                }
                assert forall|t: int| s < t < pools[p].len() implies !has_name(
                    (#[trigger] pools[p][t]).ids,
                    id,
                ) by {
                    assert(fewer[p][t] == pools[p][t]);
                }
            }
        }
    }
}

proof fn lemma_last_owner(series: Seq<SeriesModel>, id: Seq<char>)
    ensures
        last_owner(series, id) is None ==> forall|s: int|
            0 <= s < series.len() ==> !has_name((#[trigger] series[s]).ids, id),
        last_owner(series, id) matches Some(s) ==> 0 <= s < series.len() && has_name(
            series[s].ids,
            id,
        ) && forall|t: int| s < t < series.len() ==> !has_name((#[trigger] series[t]).ids, id),
    decreases series.len(),
{
    if series.len() > 0 {
        let fewer = series.drop_last();
        lemma_last_owner(fewer, id);
        assert(series[series.len() - 1] == series.last());
        assert forall|t: int| 0 <= t < fewer.len() implies #[trigger] series[t] == fewer[t] by {}
    }
}

/// A timeline is refused for the first item that no pool holds, and passes where there is none;
/// and the items of a pool for the first that the catalog no longer has.
pub proof fn the_first_stranger_is_named(
    catalog: Catalog,
    pools: Seq<Seq<SeriesModel>>,
    ids: Seq<String>,
)
    ensures
        first_stranger(pools, ids) is None <==> forall|i: int|
            0 <= i < ids.len() ==> home(pools, (#[trigger] ids[i])@) is Some,
        first_stranger(pools, ids) matches Some(id) ==> exists|i: int|
            0 <= i < ids.len() && #[trigger] ids[i] == id && home(pools, id@) is None && forall|
                j: int,
            |
                0 <= j < i ==> home(pools, (#[trigger] ids[j])@) is Some,
        first_vanished(catalog, ids) is None <==> forall|i: int|
            0 <= i < ids.len() ==> catalog.row((#[trigger] ids[i])@) is Some,
    decreases ids.len(),
{
    if ids.len() > 0 {
        let fewer = ids.drop_last();
        the_first_stranger_is_named(catalog, pools, fewer);
        assert(ids[ids.len() - 1] == ids.last());
        assert forall|i: int| 0 <= i < fewer.len() implies #[trigger] ids[i] == fewer[i] by {}
        if first_stranger(pools, fewer) is Some {
            let id = first_stranger(pools, fewer)->0;
            let i = choose|i: int|
                0 <= i < fewer.len() && #[trigger] fewer[i] == id && home(pools, id@) is None
                    && forall|j: int| 0 <= j < i ==> home(pools, (#[trigger] fewer[j])@) is Some;
            assert(ids[i] == id);
            assert forall|j: int| 0 <= j < i implies home(pools, (#[trigger] ids[j])@) is Some by {
                assert(home(pools, fewer[j]@) is Some);
            }
        } else {
            assert forall|j: int| 0 <= j < ids.len() - 1 implies home(
                pools,
                (#[trigger] ids[j])@,
            ) is Some by {
                assert(home(pools, fewer[j]@) is Some);
            }
        }
        if first_vanished(catalog, fewer) is Some {
            assert(exists|i: int| 0 <= i < fewer.len() && catalog.row((#[trigger] fewer[i])@) is None);
            let i = choose|i: int|
                0 <= i < fewer.len() && catalog.row((#[trigger] fewer[i])@) is None;
            assert(catalog.row(ids[i]@) is None);
        } else {
            assert forall|j: int| 0 <= j < ids.len() - 1 implies catalog.row(
                (#[trigger] ids[j])@,
            ) is Some by {
                assert(catalog.row(fewer[j]@) is Some);
            }
        }
    }
}

/// After a timeline the turn of a pool is that of the series after the one that its last item
/// belongs to; a pool that played nothing has no turn.
pub proof fn a_timeline_leaves_the_turn_after_its_last_item(
    pools: Seq<Seq<SeriesModel>>,
    ids: Seq<String>,
    p: int,
    i: int,
    s: int,
)
    requires
        0 <= p < pools.len(),
        0 <= i < ids.len(),
        home(pools, ids[i]@) == Some((p, s)),
        0 <= s < pools[p].len(),
        forall|j: int|
            i < j < ids.len() ==> !(home(pools, (#[trigger] ids[j])@) matches Some((q, _)) && q
                == p),
    ensures
        s + 1 < pools[p].len() ==> turn_after(pools, ids, p) == Some(pools[p][s + 1].key),
        s + 1 == pools[p].len() ==> turn_after(pools, ids, p) == Some(pools[p][0].key),
{
    lemma_last_drawn(pools, ids, p, i, s);
    let n = pools[p].len() as int;
    if s + 1 < n {
        vstd::arithmetic::div_mod::lemma_small_mod((s + 1) as nat, n as nat);
    } else {
        vstd::arithmetic::div_mod::lemma_mod_self_0(n);
    }
}

proof fn lemma_last_drawn(
    pools: Seq<Seq<SeriesModel>>,
    ids: Seq<String>,
    p: int,
    i: int,
    s: int,
)
    requires
        0 <= i < ids.len(),
        home(pools, ids[i]@) == Some((p, s)),
        forall|j: int|
            i < j < ids.len() ==> !(home(pools, (#[trigger] ids[j])@) matches Some((q, _)) && q
                == p),
    ensures
        last_drawn(pools, ids, p) == Some(s),
    decreases ids.len(),
{
    assert(ids[ids.len() - 1] == ids.last());
    if i < ids.len() - 1 {
        let fewer = ids.drop_last();
        assert forall|j: int| i < j < fewer.len() implies !(home(
            pools,
            (#[trigger] fewer[j])@,
        ) matches Some((q, _)) && q == p) by {
            assert(fewer[j] == ids[j]);
        }
        lemma_last_drawn(pools, fewer, p, i, s);
    }
}

/// What the catalog answered to an order is found by what was asked: the same items in the same
/// order, the same ordering and the same seed, the first time that they were asked.
pub proof fn an_order_is_answered_as_it_was_asked(
    orders: Seq<Ordered>,
    ids: Seq<Seq<char>>,
    order: OrderModel,
    seed: u64,
)
    ensures
        ordered_answer(orders, ids, order, seed) is Unasked <==> forall|i: int|
            0 <= i < orders.len() ==> !(texts((#[trigger] orders[i]).ids@) == ids
                && orders[i].order@ == order && orders[i].seed == seed),
        !(ordered_answer(orders, ids, order, seed) is Unasked) ==> exists|i: int|
            0 <= i < orders.len() && texts((#[trigger] orders[i]).ids@) == ids && orders[i].order@
                == order && orders[i].seed == seed && ordered_answer(orders, ids, order, seed)
                == orders[i].reply.answer(),
    decreases orders.len(),
{
    if orders.len() > 0 {
        if orders[0].answers(ids, order, seed) {
            assert(texts(orders[0].ids@) == ids);
        } else {
            let rest = orders.drop_first();
            an_order_is_answered_as_it_was_asked(rest, ids, order, seed);
            if ordered_answer(rest, ids, order, seed) is Unasked {
                assert forall|i: int| 0 <= i < orders.len() implies !(texts(
                    (#[trigger] orders[i]).ids@,
                ) == ids && orders[i].order@ == order && orders[i].seed == seed) by {
                    if i > 0 {
                        assert(rest[i - 1] == orders[i]);
                    }
                }
            } else {
                let i = choose|i: int|
                    0 <= i < rest.len() && texts((#[trigger] rest[i]).ids@) == ids && rest[i].order@
                        == order && rest[i].seed == seed && ordered_answer(rest, ids, order, seed)
                        == rest[i].reply.answer();
                assert(orders[i + 1] == rest[i]);
            }
        }
    }
}

/// Whether a text is nothing but space.
#[verifier::opaque]
pub open spec fn is_blank(s: Seq<char>) -> bool {
    forall|i: int| 0 <= i < s.len() ==> is_space(#[trigger] s[i])
}

proof fn lemma_blank(s: Seq<char>, c: char)
    ensures
        is_blank(Seq::empty()),
        is_blank(s) && is_space(c) ==> is_blank(seq![c] + s) && is_blank(s.push(c)),
{
    reveal(is_blank);
    if is_blank(s) && is_space(c) {
        let before = seq![c] + s;
        assert forall|i: int| 0 <= i < before.len() implies is_space(#[trigger] before[i]) by {
            if i > 0 {
                assert(before[i] == s[i - 1]);
            }
        }
        let after = s.push(c);
        assert forall|i: int| 0 <= i < after.len() implies is_space(#[trigger] after[i]) by {
            if i < s.len() {
                assert(after[i] == s[i]);
            }
        }
    }
}

proof fn lemma_regroup(c: char, before: Seq<char>, middle: Seq<char>, after: Seq<char>)
    ensures
        seq![c] + (before + middle + after) == seq![c] + before + middle + after,
        (before + middle + after).push(c) == before + middle + after.push(c),
{
    assert(seq![c] + (before + middle + after) =~= seq![c] + before + middle + after);
    assert((before + middle + after).push(c) =~= before + middle + after.push(c));
}

/// A text is trimmed of space at both ends and of nothing else: what is left neither begins nor
/// ends with space, and stands in the text with nothing but space before and after it.
#[verifier::spinoff_prover]
#[verifier::rlimit(60)]
pub proof fn trimming_takes_the_space_around(s: Seq<char>) -> (around: (Seq<char>, Seq<char>))
    ensures
        trimmed(s).len() > 0 ==> !is_space(trimmed(s)[0]) && !is_space(trimmed(s).last()),
        s == around.0 + trimmed(s) + around.1,
        is_blank(around.0),
        is_blank(around.1),
    decreases s.len(),
{
    lemma_blank(Seq::empty(), ' ');
    if s.len() > 0 && is_space(s[0]) {
        let rest = s.skip(1);
        let (before, after) = trimming_takes_the_space_around(rest);
        lemma_blank(before, s[0]);
        assert(s =~= seq![s[0]] + rest);
        lemma_regroup(s[0], before, trimmed(rest), after);
        (seq![s[0]] + before, after)
    } else if s.len() > 0 && is_space(s.last()) {
        let rest = s.drop_last();
        let (before, after) = trimming_takes_the_space_around(rest);
        lemma_blank(after, s.last());
        assert(s =~= rest.push(s.last()));
        lemma_regroup(s.last(), before, trimmed(rest), after);
        (before, after.push(s.last()))
    } else {
        assert(s =~= Seq::<char>::empty() + s + Seq::<char>::empty());
        (Seq::empty(), Seq::empty())
    }
}

/// A character is found where it stands first, or at the end of a text that lacks it.
pub proof fn a_character_is_found_where_it_stands_first(s: Seq<char>, c: char)
    ensures
        0 <= first_at(s, c) <= s.len(),
        forall|i: int| 0 <= i < first_at(s, c) ==> #[trigger] s[i] != c,
        first_at(s, c) < s.len() ==> s[first_at(s, c)] == c,
    decreases s.len(),
{
    if s.len() > 0 && s[0] != c {
        let rest = s.skip(1);
        a_character_is_found_where_it_stands_first(rest, c);
        assert forall|i: int| 0 <= i < first_at(s, c) implies #[trigger] s[i] != c by {
            if i > 0 {
                assert(rest[i - 1] == s[i]);
            }
        }
    }
}

} // verus!
