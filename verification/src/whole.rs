//! What holds of how the parts of a generation are put together: what each block is resolved
//! from, how a pattern and a sequencer go through their pools, and what is read of outside files.

use vstd::prelude::*;

use crate::arrange::arranged_of;
use crate::catalog::{Answer, Catalog};
use crate::channel::pinned;
use crate::config::{Constraints, Mode, PatternStep, Pool, ShowGroup};
use crate::draw::{total_runtime, PoolModel, SeriesModel};
use crate::engine::{offered, CtxModel, Reading};
use crate::fault::{ConfigFault, Fault};
use crate::generate::{block_guides, guides_of, own_seed, unread_in};
use crate::item::{guide_over, GuideConfig, ItemModel, ProgramModel};
use crate::names::{entry_of, texts};
use crate::paths::joined;
use crate::pattern::{
    all_ready, cycled, group_items, group_shows, pool_lists, pool_named, schedule, show_episodes,
    stepped, walked, PluginReply, Walk,
};
use crate::pool::{
    constrained, flat, grouped, limits_for, ordered_series, ready, resequenced, seam, settled,
};
use crate::profile::{file_entries, files_entries, Loaded, ProfileFile};
use crate::rank::{attached, configuration, extras, granted_to, unread, Ranking};
use crate::resolve::{
    block_items, block_schedule, block_timeline, counted, drawn_items, entries_block, given_for,
    own_program, pool_block, BlockInclude, ChannelConfig, Inputs, RepliesModel, Surroundings,
};
use crate::resume::GenerationState;
use crate::roll::RollKey;
use crate::scan::{found, instant_of, named_span, DiscoveredFile};
use crate::score::{
    capability, flattened, handed, hooks_of, opened, picked, picks_of, recorded, CapabilityModel,
    GrantedCapabilities, Picked, PickedItem, ScoreInputs, SourceRead,
};
use crate::script::{field_of, Script};
use crate::sequence::{
    all_series, first_stranger, first_vanished, sequenced, truncated, ArrangeReply, Window,
};
use crate::shown::{lemma_apart, lemma_field_at};
use crate::text::trimmed;

verus! {

/// A channel that pins a seed rolls by it, and one that pins none by the seed it is given; nothing
/// else of what it is generated from is changed by that.
pub proof fn a_channel_may_pin_its_seed(config: ChannelConfig, inputs: Inputs)
    ensures
        config.seed matches Some(seed) ==> pinned(config, inputs).seed == seed,
        config.seed is None ==> pinned(config, inputs).seed == inputs.seed,
        pinned(config, inputs).catalog == inputs.catalog,
        pinned(config, inputs).replies == inputs.replies,
        pinned(config, inputs).state == inputs.state,
        pinned(config, inputs).fill == inputs.fill,
        pinned(config, inputs).from == inputs.from,
        pinned(config, inputs).roots == inputs.roots,
        pinned(config, inputs).index == inputs.index,
        pinned(config, inputs).base == inputs.base,
        own_seed(config, inputs.seed) == pinned(config, inputs).seed,
{
}

/// A block of entries is resolved under its own guide over the channel's, with its own defaults;
/// a block with a pattern from its schedule, and one with a sequencer from its timeline.
pub proof fn a_block_is_resolved_by_its_kind(
    block: BlockInclude,
    idx: usize,
    groups: Seq<ShowGroup>,
    guide: Option<GuideConfig>,
    inputs: Inputs,
)
    ensures
        block.pattern@.len() == 0 && block.sequencer is None ==> block_items(
            block,
            idx,
            groups,
            guide,
            inputs,
        ) == entries_block(
            inputs.catalog,
            block,
            idx,
            Surroundings {
                defaults: own_program(block),
                guide: guide_over(block.guide, guide),
                seed: inputs.seed,
                roots: inputs.roots,
                index: inputs.index,
            },
        ),
        (block.pattern@.len() > 0 || block.sequencer is Some) && inputs.catalog is None
            ==> block_items(block, idx, groups, guide, inputs) is Err,
        block.pattern@.len() > 0 && inputs.catalog is Some ==> (block_schedule(
            block,
            idx as int,
            groups,
            inputs,
        ) matches Ok(walk) ==> block_items(block, idx, groups, guide, inputs) == pool_block(
            inputs.catalog->0,
            walk.out,
            own_program(block),
            guide_over(block.guide, guide),
            given_for(inputs.replies, idx as int),
            block.mode,
            idx,
        )),
        block.pattern@.len() == 0 && block.sequencer is Some && inputs.catalog is Some ==> (
        block_timeline(block, idx as int, groups, inputs) matches Ok(timeline) ==> block_items(
            block,
            idx,
            groups,
            guide,
            inputs,
        ) == pool_block(
            inputs.catalog->0,
            timeline.out,
            own_program(block),
            guide_over(block.guide, guide),
            given_for(inputs.replies, idx as int),
            block.mode,
            idx,
        )),
        block.program matches Some(p) ==> own_program(block) == Some(p@),
        block.program is None ==> own_program(block) is None,
{
}

/// A block that draws is resolved by the replies that were given for it, and by none where none
/// were given.
pub proof fn a_block_has_its_own_replies(replies: Seq<crate::resolve::Replies>, idx: int)
    ensures
        0 <= idx < replies.len() ==> given_for(replies, idx).picks == replies[idx].picks@
            && given_for(replies, idx).arranged == replies[idx].arranged && given_for(
            replies,
            idx,
        ).metadata == replies[idx].metadata@ && given_for(replies, idx).guides
            == replies[idx].guides@,
        idx >= replies.len() ==> given_for(replies, idx).picks.len() == 0 && given_for(
            replies,
            idx,
        ).arranged is None,
{
}

/// A pattern block goes through its own pools by its own pattern, under its own rules, from where
/// the last generation left it.
pub proof fn a_pattern_block_is_scheduled_from_its_parts(
    block: BlockInclude,
    idx: int,
    groups: Seq<ShowGroup>,
    inputs: Inputs,
)
    requires
        inputs.catalog is Some,
    ensures
        block_schedule(block, idx, groups, inputs) == schedule(
            inputs.catalog->0,
            block.pools@,
            groups,
            given_for(inputs.replies, idx).picks,
            block.pattern@,
            block.cycles,
            block.constraints,
            inputs.state,
            inputs.seed,
            inputs.fill,
        ),
{
}

/// A sequencer block is played from its own pools by its own script, under its own rules, after
/// what aired lately and for its window.
pub proof fn a_sequencer_block_is_arranged_from_its_parts(
    block: BlockInclude,
    idx: int,
    groups: Seq<ShowGroup>,
    inputs: Inputs,
)
    requires
        inputs.catalog is Some,
        block.sequencer is Some,
    ensures
        block_timeline(block, idx, groups, inputs) == sequenced(
            inputs.catalog->0,
            block.pools@,
            groups,
            given_for(inputs.replies, idx).picks,
            block.constraints,
            joined(inputs.base, block.sequencer->0@),
            given_for(inputs.replies, idx).arranged,
            inputs.state.tail@,
            Window { from: inputs.from, fill: inputs.fill },
        ),
{
}

/// What a block drew is made into items, and the block's count is taken of those.
pub proof fn a_block_counts_what_it_drew(
    catalog: Catalog,
    ids: Seq<String>,
    defaults: Option<ProgramModel>,
    guide: Option<GuideConfig>,
    replies: RepliesModel,
    mode: Mode,
    idx: usize,
)
    ensures
        match drawn_items(catalog, ids, defaults, guide, replies.guides, replies.metadata) {
            Ok(list) => pool_block(catalog, ids, defaults, guide, replies, mode, idx) == Ok::<
                Seq<ItemModel>,
                ConfigFault,
            >(counted(list, mode)),
            Err(fault) => pool_block(catalog, ids, defaults, guide, replies, mode, idx) == Err::<
                Seq<ItemModel>,
                ConfigFault,
            >(ConfigFault::in_block(idx, fault)),
        },
{
}

/// The pools of a sequencer hold their series one for one, each made from its own list after what
/// of it aired lately; and every item of them is still in the catalog.
pub proof fn a_sequencers_pools_hold_their_series(
    catalog: Catalog,
    pools: Seq<Pool>,
    lists: Seq<Seq<String>>,
    block: Option<Constraints>,
    tail: Seq<String>,
)
    requires
        pools.len() == lists.len(),
    ensures
        all_series(catalog, pools, lists, block, tail) is Ok ==> all_series(
            catalog,
            pools,
            lists,
            block,
            tail,
        )->Ok_0.len() == pools.len(),
        all_series(catalog, pools, lists, block, tail) is Ok ==> forall|i: int|
            0 <= i < pools.len() ==> ({
                let made = settled(
                    catalog,
                    #[trigger] pools[i],
                    lists[i],
                    block,
                    seam(tail, lists[i]),
                    false,
                );
                let series = all_series(catalog, pools, lists, block, tail)->Ok_0[i];
                made is Ok && made->Ok_0.series == series && first_vanished(
                    catalog,
                    flat(series),
                ) is None
            }),
    decreases pools.len(),
{
    if pools.len() > 0 {
        let fewer = pools.drop_last();
        let less = lists.drop_last();
        a_sequencers_pools_hold_their_series(catalog, fewer, less, block, tail);
        if all_series(catalog, pools, lists, block, tail) is Ok {
            let all = all_series(catalog, pools, lists, block, tail)->Ok_0;
            let earlier = all_series(catalog, fewer, less, block, tail)->Ok_0;
            assert forall|i: int| 0 <= i < pools.len() implies ({
                let made = settled(
                    catalog,
                    #[trigger] pools[i],
                    lists[i],
                    block,
                    seam(tail, lists[i]),
                    false,
                );
                made is Ok && made->Ok_0.series == all[i] && first_vanished(
                    catalog,
                    flat(all[i]),
                ) is None
            }) by {
                if i < fewer.len() {
                    assert(all[i] == earlier[i]);
                    assert(fewer[i] == pools[i]);
                    assert(less[i] == lists[i]);
                }
            }
        }
    }
}

/// The series of a pool are made of its items in the order that its rule gives them.
pub proof fn a_pool_is_settled_under_its_rule(
    catalog: Catalog,
    cfg: Pool,
    ids: Seq<String>,
    block: Option<Constraints>,
    past: Seq<String>,
    want_runtimes: bool,
)
    ensures
        settled(catalog, cfg, ids, block, past, want_runtimes) matches Ok(s) ==> s.limits
            == limits_for(cfg, block) && ordered_series(
            catalog,
            cfg,
            constrained(s.limits, s.keys, past, ids),
        ) == Ok::<Seq<SeriesModel>, Fault>(s.series),
{
}

/// A schedule goes round as often as it says, but not more than ten thousand times; one that says
/// nothing goes round until its pools are drained, or its window is laid.
pub proof fn a_schedule_goes_round_as_often_as_it_says(
    catalog: Catalog,
    pools: Seq<Pool>,
    groups: Seq<ShowGroup>,
    picks: Seq<(String, PluginReply)>,
    pattern: Seq<PatternStep>,
    n: usize,
    block: Option<Constraints>,
    state: GenerationState,
    seed: u64,
    fill: Option<u64>,
)
    requires
        pool_lists(catalog, groups, picks, pools) is Ok,
    ensures
        ({
            let lists = pool_lists(catalog, groups, picks, pools)->Ok_0;
            let counted = all_ready(catalog, pools, lists, block, state, false);
            let laid = all_ready(catalog, pools, lists, block, state, fill is Some);
            &&& counted is Ok && n > 10_000 ==> schedule(
                catalog,
                pools,
                groups,
                picks,
                pattern,
                Some(n),
                block,
                state,
                seed,
                fill,
            ) == Err::<Walk, Fault>(Fault::TooManyCycles { cycles: n })
            &&& counted is Ok && n <= 10_000 ==> schedule(
                catalog,
                pools,
                groups,
                picks,
                pattern,
                Some(n),
                block,
                state,
                seed,
                fill,
            ) == walked(
                Walk { pools: counted->Ok_0, out: Seq::empty(), laid: 0 },
                pattern,
                seed,
                0,
                n as int,
                None,
            )
            &&& laid is Ok ==> schedule(
                catalog,
                pools,
                groups,
                picks,
                pattern,
                None,
                block,
                state,
                seed,
                fill,
            ) == walked(
                Walk { pools: laid->Ok_0, out: Seq::empty(), laid: 0 },
                pattern,
                seed,
                0,
                crate::pattern::drain_cycles(laid->Ok_0, pattern),
                fill,
            )
        }),
{
}

/// Pools are made ready one for one, each from its own list.
pub proof fn pools_are_made_ready_in_order(
    catalog: Catalog,
    pools: Seq<Pool>,
    lists: Seq<Seq<String>>,
    block: Option<Constraints>,
    state: GenerationState,
    want_runtimes: bool,
)
    requires
        pools.len() == lists.len(),
    ensures
        all_ready(catalog, pools, lists, block, state, want_runtimes) matches Ok(made)
            ==> made.len() == pools.len() && forall|i: int|
            #![trigger made[i]]
            0 <= i < made.len() ==> ready(
                catalog,
                pools[i],
                lists[i],
                block,
                state,
                want_runtimes,
            ) == Ok::<PoolModel, Fault>(made[i]),
    decreases pools.len(),
{
    if pools.len() > 0 {
        pools_are_made_ready_in_order(
            catalog,
            pools.drop_last(),
            lists.drop_last(),
            block,
            state,
            want_runtimes,
        );
    }
}

/// A step that runs visits the pool it names, takes as much and from where it says, and lays down
/// what it drew after what was drawn before; other pools are left alone.
pub proof fn a_step_draws_from_the_pool_it_names(
    walk: Walk,
    step: PatternStep,
    roll: RollKey,
    measured: bool,
    i: int,
)
    requires
        roll.slice(u64::MAX) < step.chance,
        pool_named(walk.pools, step.pool@) == Some(i),
        0 <= i < walk.pools.len(),
    ensures
        ({
            let visit = walk.pools[i].visiting(step.take, step.from, roll);
            let after = stepped(walk, step, roll, measured);
            &&& after is Ok
            &&& after->Ok_0.out == walk.out + visit.1
            &&& after->Ok_0.pools.len() == walk.pools.len()
            &&& after->Ok_0.pools[i] == visit.0
            &&& forall|j: int|
                0 <= j < walk.pools.len() && j != i ==> #[trigger] after->Ok_0.pools[j]
                    == walk.pools[j]
            &&& measured ==> after->Ok_0.laid == walk.laid + total_runtime(
                walk.pools[i].runtimes,
                walk.pools[i].mean_runtime,
                visit.1,
            )
            &&& !measured ==> after->Ok_0.laid == walk.laid
        }),
{
}

/// A step that names no pool is refused, where it runs.
pub proof fn a_step_that_names_no_pool_is_refused(
    walk: Walk,
    step: PatternStep,
    roll: RollKey,
    measured: bool,
)
    requires
        pool_named(walk.pools, step.pool@) is None,
    ensures
        roll.slice(u64::MAX) < step.chance ==> stepped(walk, step, roll, measured) == Err::<
            Walk,
            Fault,
        >(Fault::UnknownPool { pool: step.pool }),
        roll.slice(u64::MAX) >= step.chance ==> stepped(walk, step, roll, measured) == Ok::<
            Walk,
            Fault,
        >(walk),
{
}

/// Each step of each round rolls by its own place: by the number of the round and that of the
/// step.
pub proof fn each_step_rolls_by_its_place(
    walk: Walk,
    pattern: Seq<PatternStep>,
    seed: u64,
    cycle: int,
    k: int,
    measured: bool,
)
    requires
        0 <= k < pattern.len(),
    ensures
        ({
            let roll = RollKey { seed, cycle: cycle as u64, step: k as u64 };
            stepped(walk, pattern[k], roll, measured) matches Ok(next) ==> cycled(
                walk,
                pattern,
                seed,
                cycle,
                k,
                measured,
            ) == cycled(next, pattern, seed, cycle, k + 1, measured)
        }),
        cycled(walk, pattern, seed, cycle, pattern.len() as int, measured) == Ok::<Walk, Fault>(
            walk,
        ),
{
}

/// A sequencer's timeline is what its script arranged, cut to the window, where all of it is at
/// home in the block's pools.
pub proof fn a_timeline_is_what_was_arranged(
    catalog: Catalog,
    pools: Seq<Pool>,
    groups: Seq<ShowGroup>,
    picks: Seq<(String, PluginReply)>,
    block: Option<Constraints>,
    script: Seq<char>,
    reply: Option<ArrangeReply>,
    tail: Seq<String>,
    window: Window,
)
    ensures
        sequenced(catalog, pools, groups, picks, block, script, reply, tail, window) matches Ok(
            timeline,
        ) ==> {
            &&& reply matches Some(ArrangeReply::Items(ids))
            &&& timeline.out == truncated(catalog, ids@, window.fill)
            &&& first_stranger(timeline.pools, ids@) is None
            &&& pool_lists(catalog, groups, picks, pools) matches Ok(lists)
            &&& all_series(catalog, pools, lists, block, tail) == Ok::<
                Seq<Seq<SeriesModel>>,
                Fault,
            >(timeline.pools)
        },
{
}

/// The series of a pool come as its items make them, unless an order of series is given: then in
/// the order in which the catalog orders their items.
pub proof fn series_come_as_their_items_make_them(
    catalog: Catalog,
    cfg: Pool,
    list: Seq<String>,
)
    ensures
        cfg.bucket_order is None ==> ordered_series(catalog, cfg, list) == Ok::<
            Seq<SeriesModel>,
            Fault,
        >(grouped(catalog, cfg.group_by, list)),
        cfg.bucket_order matches Some(order) ==> ({
            let series = grouped(catalog, cfg.group_by, list);
            match catalog.order_answer(texts(flat(series)), order@, 0) {
                Answer::Items(named) => ordered_series(catalog, cfg, list) == Ok::<
                    Seq<SeriesModel>,
                    Fault,
                >(resequenced(series, named)),
                _ => ordered_series(catalog, cfg, list) is Err,
            }
        }),
{
}

/// A pool of groups holds the episodes of the shows that its groups list.
pub proof fn a_pool_of_groups_is_made_of_their_shows(
    catalog: Catalog,
    cfg: Pool,
    groups: Seq<ShowGroup>,
)
    ensures
        group_items(catalog, cfg, groups) matches Ok(ids) ==> group_shows(
            cfg,
            groups,
            cfg.groups@,
        ) is Ok && show_episodes(catalog, cfg, group_shows(cfg, groups, cfg.groups@)->Ok_0) == Ok::<
            Seq<String>,
            Fault,
        >(ids),
{
}

/// The guides of a block's pools go by the lists that its pools hold, and there are none where the
/// lists cannot be had.
pub proof fn guides_go_by_what_pools_hold(
    catalog: Catalog,
    pools: Seq<Pool>,
    groups: Seq<ShowGroup>,
    picks: Seq<(String, PluginReply)>,
)
    ensures
        pool_lists(catalog, groups, picks, pools) matches Ok(lists) ==> block_guides(
            catalog,
            pools,
            groups,
            picks,
        ) == guides_of(pools, lists),
        pool_lists(catalog, groups, picks, pools) is Err ==> block_guides(
            catalog,
            pools,
            groups,
            picks,
        ).len() == 0,
{
}

/// A picking script reads from each datastore it was granted what was put to the store at that
/// path, and nothing where nothing was.
pub proof fn a_granted_store_answers_what_was_put_to_it(
    sets: Script,
    inputs: ScoreInputs,
    seed: u64,
    pool: Seq<char>,
    config: Option<Script>,
    granted: GrantedCapabilities,
    i: int,
)
    requires
        0 <= i < granted.datastores@.len(),
    ensures
        ({
            let ctx: CtxModel = handed(sets, inputs, seed, pool, config, granted);
            &&& entry_of(inputs.stores@, granted.datastores@[i].1@) matches Some(answers)
                ==> ctx.datastores[i].1.answers == (*answers)@
            &&& entry_of(inputs.stores@, granted.datastores@[i].1@) is None
                ==> ctx.datastores[i].1.answers.len() == 0
        }),
{
}

/// A pick may say how much of its series to take: any number from one to ten thousand, and no
/// other.
pub proof fn a_pick_may_say_how_much_to_take(
    path: Seq<char>,
    index: nat,
    id: Seq<char>,
    n: int,
)
    ensures
        ({
            let value = Script::Table(
                seq![("entry_id"@, Script::Text(id)), ("take"@, Script::Int(n))],
            );
            &&& 1 <= n <= 10_000 ==> (picked(path, index, value) matches Ok(pick) && pick.id == id
                && pick.metadata is None && pick.take_override is Some && pick.take_override->0
                == n)
            &&& n < 1 || n > 10_000 ==> picked(path, index, value) is Err
        }),
{
    reveal_strlit("entry_id");
    reveal_strlit("take");
    reveal_strlit("metadata");
    let table = seq![("entry_id"@, Script::Text(id)), ("take"@, Script::Int(n))];
    assert("entry_id"@.len() == 8);
    assert("take"@.len() == 4);
    lemma_apart("entry_id"@, "take"@);
    lemma_apart("metadata"@, "entry_id"@);
    lemma_apart("metadata"@, "take"@);
    lemma_field_at(table, 0);
    lemma_field_at(table, 1);
    assert(field_of(table, "metadata"@) is None) by {
        reveal_with_fuel(field_of, 4);
        assert(table.drop_first()[0] == table[1]);
        assert(table.drop_first().drop_first().len() == 0);
    }
}

/// A pick by an identity alone, or by a record that names nothing else, is taken.
pub proof fn a_plain_pick_is_taken(path: Seq<char>, index: nat, id: Seq<char>)
    ensures
        picked(path, index, Script::Text(id)) == Ok::<Picked, Seq<char>>(
            Picked { id, metadata: None, take_override: None },
        ),
        picked(path, index, Script::Table(seq![("entry_id"@, Script::Text(id))])) == Ok::<
            Picked,
            Seq<char>,
        >(Picked { id, metadata: None, take_override: None }),
{
    reveal_strlit("entry_id");
    reveal_strlit("take");
    reveal_strlit("metadata");
    let table = seq![("entry_id"@, Script::Text(id))];
    assert("entry_id"@.len() == 8);
    assert("take"@.len() == 4);
    lemma_apart("entry_id"@, "take"@);
    lemma_apart("metadata"@, "entry_id"@);
    lemma_field_at(table, 0);
    assert(field_of(table, "metadata"@) is None && field_of(table, "take"@) is None) by {
        reveal_with_fuel(field_of, 3);
        assert(table.drop_first().len() == 0);
    }
}

/// A plugin that declares no hook is refused, and so is one that picks nothing.
pub proof fn a_plugin_that_does_nothing_is_refused(path: Seq<char>)
    ensures
        hooks_of(path, Ok(Seq::<Script>::empty())) is Err,
        picks_of(path, Ok(Seq::<Script>::empty())) is Err,
{
}

/// A pool grants what it lists: the catalog and what was watched by their words, and the
/// datastores that could be opened.
pub proof fn a_pool_grants_what_it_lists(cfg: Pool, granted: GrantedCapabilities)
    requires
        granted_to(cfg, granted),
    ensures
        granted.catalog_read <==> exists|i: int|
            0 <= i < cfg.capabilities@.len() && #[trigger] cfg.capabilities@[i]@
                == CapabilityModel::CatalogRead.name(),
        granted.watch_history <==> exists|i: int|
            0 <= i < cfg.capabilities@.len() && #[trigger] cfg.capabilities@[i]@
                == CapabilityModel::WatchHistory.name(),
        opened(Seq::empty(), cfg.datastores@) matches Ok(stores) && stores
            == granted.datastores@,
{
}

/// A capability answers to the word that declares it.
pub proof fn a_capability_answers_to_its_word(path: Seq<char>, shown: Seq<char>, name: Seq<char>)
    ensures
        capability(path, Script::Text(CapabilityModel::CatalogRead.name()), shown) == Ok::<
            CapabilityModel,
            Seq<char>,
        >(CapabilityModel::CatalogRead),
        capability(path, Script::Text(CapabilityModel::WatchHistory.name()), shown) == Ok::<
            CapabilityModel,
            Seq<char>,
        >(CapabilityModel::WatchHistory),
        CapabilityModel::Datastore(name).name() == name,
{
    reveal_strlit("catalog_read");
    reveal_strlit("watch_history");
    assert("catalog_read"@.len() == 12);
    assert("watch_history"@.len() == 13);
}

/// A plugin is configured as its pool says.
pub proof fn a_plugin_is_configured_by_its_pool(cfg: Pool)
    ensures
        cfg.config matches Some(value) ==> configuration(cfg) == Some((*value)@),
        cfg.config is None ==> configuration(cfg) is None,
{
}

/// Nothing of a block is unread where the scripts of its pools were read, and that of its
/// sequencer, where the block has one and no pattern.
pub proof fn a_block_needs_its_scripts(
    block: BlockInclude,
    scripts: Seq<(String, SourceRead)>,
    base: Seq<char>,
)
    ensures
        unread(base, scripts, block.pools@) matches Some(path) ==> unread_in(block, scripts, base)
            == Some(path),
        unread(base, scripts, block.pools@) is None && (block.pattern@.len() > 0
            || block.sequencer is None) ==> unread_in(block, scripts, base) is None,
        unread(base, scripts, block.pools@) is None && block.pattern@.len() == 0
            && block.sequencer is Some ==> {
            let path = joined(base, block.sequencer->0@);
            &&& entry_of(scripts, path) is Some ==> unread_in(block, scripts, base) is None
            &&& entry_of(scripts, path) is None ==> unread_in(block, scripts, base) == Some(path)
        },
{
}

/// What was attached comes pool after pool, as each was picked for.
pub proof fn what_was_attached_comes_pool_after_pool(
    rankings: Seq<(String, Ranking)>,
    pool: String,
    list: Vec<PickedItem>,
    why: String,
)
    ensures
        extras(rankings.push((pool, Ranking::Picked(Ok(list))))) == recorded(
            extras(rankings),
            pool,
            list@,
        ),
        extras(rankings.push((pool, Ranking::Picked(Err(why))))) == extras(rankings),
        extras(rankings.push((pool, Ranking::Unprepared(why)))) == extras(rankings),
        attached(rankings) == flattened(extras(rankings)),
{
    assert(rankings.push((pool, Ranking::Picked(Ok(list)))).drop_last() =~= rankings);
    assert(rankings.push((pool, Ranking::Picked(Err(why)))).drop_last() =~= rankings);
    assert(rankings.push((pool, Ranking::Unprepared(why))).drop_last() =~= rankings);
}

/// A script reads under each name what the name says.
pub proof fn a_script_reads_under_each_name()
    ensures
        offered()["pool"@] == Reading::Pool,
        offered()["config"@] == Reading::Config,
        offered()["target_count"@] == Reading::TargetCount,
        offered()["now"@] == Reading::Now,
        offered()["recent"@] == Reading::Recent,
        offered()["seed"@] == Reading::Seed,
        offered()["sets"@] == Reading::Sets,
        offered()["history"@] == Reading::History,
        offered()["datastore"@] == Reading::Datastore,
        offered()["enrichment_for"@] == Reading::EnrichmentFor,
        offered()["enrichment_for_many"@] == Reading::EnrichmentForMany,
        offered()["edges_from"@] == Reading::EdgesFrom,
        offered()["edges_to"@] == Reading::EdgesTo,
        offered()["taste_vector_for"@] == Reading::TasteVectorFor,
        offered()["pooled_taste_vector"@] == Reading::PooledTasteVector,
{
    reveal_strlit("pool");
    reveal_strlit("config");
    reveal_strlit("target_count");
    reveal_strlit("now");
    reveal_strlit("recent");
    reveal_strlit("seed");
    reveal_strlit("sets");
    reveal_strlit("history");
    reveal_strlit("datastore");
    reveal_strlit("enrichment_for");
    reveal_strlit("enrichment_for_many");
    reveal_strlit("edges_from");
    reveal_strlit("edges_to");
    reveal_strlit("taste_vector_for");
    reveal_strlit("pooled_taste_vector");
    assert("pool"@.len() == 4 && "pool"@[0] == 'p');
    assert("config"@.len() == 6 && "config"@[0] == 'c');
    assert("target_count"@.len() == 12);
    assert("now"@.len() == 3);
    assert("recent"@.len() == 6 && "recent"@[0] == 'r');
    assert("seed"@.len() == 4 && "seed"@[0] == 's' && "seed"@[2] == 'e');
    assert("sets"@.len() == 4 && "sets"@[0] == 's' && "sets"@[2] == 't');
    assert("history"@.len() == 7);
    assert("datastore"@.len() == 9);
    assert("enrichment_for"@.len() == 14);
    assert("enrichment_for_many"@.len() == 19 && "enrichment_for_many"@[0] == 'e');
    assert("edges_from"@.len() == 10);
    assert("edges_to"@.len() == 8);
    assert("taste_vector_for"@.len() == 16);
    assert("pooled_taste_vector"@.len() == 19 && "pooled_taste_vector"@[0] == 'p');
}

/// A datastore is declared by a map that names it, by any name but a blank one.
pub proof fn a_datastore_is_declared_by_its_name(path: Seq<char>, name: Seq<char>, shown: Seq<char>)
    ensures
        ({
            let value = Script::Table(seq![("datastore"@, Script::Text(name))]);
            &&& trimmed(name).len() > 0 ==> capability(path, value, shown) == Ok::<
                CapabilityModel,
                Seq<char>,
            >(CapabilityModel::Datastore(name))
            &&& trimmed(name).len() == 0 ==> capability(path, value, shown) is Err
        }),
{
    lemma_field_at(seq![("datastore"@, Script::Text(name))], 0);
}

/// An arranging script that fails is told with its path.
pub proof fn a_failed_arrangement_is_told(path: Seq<char>, why: Seq<char>)
    ensures
        arranged_of(path, Err(why)) is Err,
{
}

/// The output files that lie in a folder are those whose names say two instants, in the order in
/// which they were listed, each under its own path.
pub proof fn files_are_found_by_their_names(
    format: Seq<char>,
    entries: Seq<(String, String)>,
    more: (String, String),
)
    ensures
        found(format, Seq::<(String, String)>::empty()).len() == 0,
        match named_span(more.1@) {
            Some((start, finish)) => match (instant_of(format, start), instant_of(format, finish)) {
                (Some(a), Some(b)) => found(format, entries.push(more)) == found(
                    format,
                    entries,
                ).push(DiscoveredFile { path: more.0, start: a, finish: b }),
                _ => found(format, entries.push(more)) == found(format, entries),
            },
            None => found(format, entries.push(more)) == found(format, entries),
        },
{
    assert(entries.push(more).drop_last() =~= entries);
}

/// The files of a profile are read one after the other.
pub proof fn profile_files_are_read_in_order(files: Seq<ProfileFile>, more: ProfileFile)
    ensures
        files_entries(files) is Ok && file_entries(more) is Ok ==> files_entries(files.push(more))
            == Ok::<Seq<Loaded>, Seq<char>>(
            files_entries(files)->Ok_0 + file_entries(more)->Ok_0,
        ),
        files_entries(files) is Err ==> files_entries(files.push(more)) == files_entries(files),
        files_entries(files) is Ok && file_entries(more) is Err ==> files_entries(files.push(more))
            is Err,
{
    assert(files.push(more).drop_last() =~= files);
}

} // verus!
