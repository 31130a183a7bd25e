//! One generation of a channel, with every script that it names run on the way.

use vstd::prelude::*;

use std::sync::Arc;

use crate::arrange::{arrange_block, arrange_ctx, bound, may_arrange, told};
use crate::catalog::Catalog;
use crate::channel::{pinned, resolve_channel_with_resume, same_generation};
use crate::config::{Constraints, Pool, ShowGroup};
use crate::fault::{ConfigError, ConfigFault, Fault, ResolveError};
use crate::item::{rows, GuideConfig, ResolvedItem};
use crate::names::{entry_of, lookup, put, put_entry};
use crate::paths::joined;
use crate::pattern::{lists, pool_lists, resolve_pool_sources, PluginReply};
use crate::rank::{
    attached, find_unread, hand_on, may_rank_all, one_may_hold_up, rank_pools, say, unread,
    Ranking,
};
use crate::resolve::{BlockInclude, ChannelConfig, Context, Inputs, Replies, RepliesModel};
use crate::resume::{GenerationState, ResumeMap};
use crate::score::{resolve_plugin_path, ScoreEnv, ScoreInputs, SourceRead};
use crate::script::ScriptValue;
use crate::sequence::{all_series, ArrangeReply, Window};
use crate::window::behind;

verus! {

/// The templates of one pool, put into a table for each of its items.
pub open spec fn with_guide(
    table: Seq<(String, GuideConfig)>,
    ids: Seq<String>,
    guide: GuideConfig,
) -> Seq<(String, GuideConfig)>
    decreases ids.len(),
{
    if ids.len() == 0 {
        table
    } else {
        put(with_guide(table, ids.drop_last(), guide), ids.last(), guide)
    }
}

/// The templates of the pools by item; a later pool counts over an earlier one, and a pool
/// without templates leaves those of its items as they are.
pub open spec fn guides_of(pools: Seq<Pool>, lists: Seq<Seq<String>>) -> Seq<(String, GuideConfig)>
    decreases pools.len(),
{
    if pools.len() == 0 {
        Seq::empty()
    } else {
        let earlier = guides_of(pools.drop_last(), lists.drop_last());
        match pools.last().guide {
            Some(guide) => with_guide(earlier, lists.last(), guide),
            None => earlier,
        }
    }
}

/// The guide templates of the items of pools, by item.
pub fn pool_guides(pools: &Vec<Pool>, given: &Vec<Vec<String>>) -> (out: Vec<(String, GuideConfig)>)
    requires
        pools.len() == given.len(),
    ensures
        out@ == guides_of(pools@, lists(given@)),
{
    let mut out: Vec<(String, GuideConfig)> = Vec::new();
    let mut i: usize = 0;
    assert(pools@.take(0) =~= Seq::<Pool>::empty());
    while i < pools.len()
        invariant
            i <= pools.len(),
            pools.len() == given.len(),
            out@ == guides_of(pools@.take(i as int), lists(given@).take(i as int)),
        decreases pools.len() - i,
    {
        assert(pools@.take(i + 1).drop_last() =~= pools@.take(i as int));
        assert(lists(given@).take(i + 1).drop_last() =~= lists(given@).take(i as int));
        assert(lists(given@).take(i + 1).last() == given@[i as int]@);
        match &pools[i].guide {
            Some(guide) => {
                let ids: &Vec<String> = &given[i];
                let ghost before = out@;
                let mut j: usize = 0;
                assert(ids@.take(0) =~= Seq::<String>::empty());
                while j < ids.len()
                    invariant
                        j <= ids.len(),
                        out@ == with_guide(before, ids@.take(j as int), *guide),
                    decreases ids.len() - j,
                {
                    assert(ids@.take(j + 1).drop_last() =~= ids@.take(j as int));
                    put_entry(&mut out, ids[j].clone(), guide.copy());
                    j += 1;
                }
                assert(ids@.take(j as int) =~= ids@);
            },
            None => {},
        }
        i += 1;
    }
    assert(pools@.take(i as int) =~= pools@);
    assert(lists(given@).take(i as int) =~= lists(given@));
    out
}

/// The guide templates of what the pools of a block resolve to, by item; none where they do
/// not resolve.
pub open spec fn block_guides(
    catalog: Catalog,
    pools: Seq<Pool>,
    groups: Seq<ShowGroup>,
    picks: Seq<(String, PluginReply)>,
) -> Seq<(String, GuideConfig)> {
    match pool_lists(catalog, groups, picks, pools) {
        Ok(lists) => guides_of(pools, lists),
        Err(_) => Seq::empty(),
    }
}

/// What scripts are run with, as mathematical values.
pub struct Setting {
    pub catalog: Option<Catalog>,
    /// What was read of each script, by its path.
    pub scripts: Seq<(String, SourceRead)>,
    /// The folder that the paths of scripts are taken from.
    pub base: Seq<char>,
    pub inputs: ScoreInputs,
    pub state: GenerationState,
    pub seed: u64,
    pub window: Window,
}

/// What the scripts of a block are run with.
pub open spec fn setting(
    catalog: Option<Catalog>,
    env: ScoreEnv<'_>,
    scripts: Seq<(String, SourceRead)>,
    state: GenerationState,
    seed: u64,
    window: Window,
) -> Setting {
    Setting { catalog, scripts, base: env.base_dir@, inputs: *env.inputs, state, seed, window }
}

/// The first script of a block that was not read: a plugin of a pool, or else the sequencer.
pub open spec fn unread_in(
    block: BlockInclude,
    scripts: Seq<(String, SourceRead)>,
    base: Seq<char>,
) -> Option<Seq<char>> {
    match unread(base, scripts, block.pools@) {
        Some(path) => Some(path),
        None => if !block.patterned() && block.sequencer is Some && entry_of(
            scripts,
            joined(base, block.sequencer->0@),
        ) is None {
            Some(joined(base, block.sequencer->0@))
        } else {
            None
        },
    }
}

/// Whether this may come of running the sequencer of a block. It is run once its pools are
/// resolved, and not at all for a block that a pattern interleaves.
pub open spec fn may_be_arranged(
    block: BlockInclude,
    groups: Seq<ShowGroup>,
    s: Setting,
    picks: Seq<(String, PluginReply)>,
    arranged: Option<ArrangeReply>,
) -> bool {
    if block.patterned() || block.sequencer is None {
        arranged is None
    } else {
        match pool_lists(s.catalog->0, groups, picks, block.pools@) {
            Err(_) => arranged is None,
            Ok(lists) => match all_series(
                s.catalog->0,
                block.pools@,
                lists,
                block.constraints,
                s.state.tail@,
            ) {
                Err(_) => arranged is None,
                Ok(made) => {
                    &&& arranged is Some
                    &&& entry_of(s.scripts, joined(s.base, block.sequencer->0@)) is Some
                    &&& may_arrange(
                        joined(s.base, block.sequencer->0@),
                        entry_of(s.scripts, joined(s.base, block.sequencer->0@))->0,
                        arrange_ctx(
                            s.catalog->0,
                            block.pools@,
                            made,
                            s.state,
                            s.window,
                            s.inputs.now,
                        ),
                        told(arranged->0),
                    )
                },
            },
        }
    }
}

/// Whether this may come of running the scripts of a block that draws from pools.
pub open spec fn may_reply(
    block: BlockInclude,
    groups: Seq<ShowGroup>,
    s: Setting,
    replies: RepliesModel,
) -> bool {
    &&& exists|rankings: Seq<(String, Ranking)>|
        #[trigger] may_rank_all(
            s.catalog->0,
            s.base,
            s.inputs,
            s.seed,
            s.scripts,
            block.pools@,
            rankings,
        ) && say(rankings, replies.picks) && replies.metadata == attached(rankings)
    &&& replies.guides == block_guides(s.catalog->0, block.pools@, groups, replies.picks)
    &&& may_be_arranged(block, groups, s, replies.picks, replies.arranged)
}

/// Whether the scripts of a block may have to wait: for a script that was not read, for the
/// answer to a query, or for that to a question which a plugin puts to a datastore.
pub open spec fn may_wait(block: BlockInclude, s: Setting, fault: Fault) -> bool {
    match unread_in(block, s.scripts, s.base) {
        Some(path) => fault == Fault::UnreadScript { path },
        None => one_may_hold_up(
            s.catalog->0,
            s.base,
            s.inputs,
            s.seed,
            s.scripts,
            block.pools@,
            fault,
        ),
    }
}

/// The first script of a block that still has to be read before its scripts can run.
pub fn find_unread_in(
    block: &BlockInclude,
    env: &ScoreEnv<'_>,
    scripts: &Vec<(String, SourceRead)>,
) -> (out: Option<String>)
    ensures
        match (out, unread_in(*block, scripts@, env.base_dir@)) {
            (Some(got), Some(want)) => got@ == want,
            (None, None) => true,
            _ => false,
        },
{
    match find_unread(env, scripts, &block.pools) {
        Some(path) => return Some(path),
        None => {},
    }
    if block.is_pattern() {
        return None;
    }
    match &block.sequencer {
        Some(script) => {
            let path: String = resolve_plugin_path(env.base_dir, script.as_str());
            if lookup(scripts, &path).is_none() {
                Some(path)
            } else {
                None
            }
        },
        None => None,
    }
}

/// Runs the sequencer of a block, where it has one and its pools resolve.
fn run_sequencer(
    block: &BlockInclude,
    groups: &Vec<ShowGroup>,
    catalog: &Catalog,
    env: &ScoreEnv<'_>,
    scripts: &Vec<(String, SourceRead)>,
    state: &GenerationState,
    seed: u64,
    window: Window,
    picks: &Vec<(String, PluginReply)>,
) -> (out: Option<ArrangeReply>)
    requires
        unread_in(*block, scripts@, env.base_dir@) is None,
    ensures
        may_be_arranged(
            *block,
            groups@,
            setting(Some(*catalog), *env, scripts@, *state, seed, window),
            picks@,
            out,
        ),
{
    if block.is_pattern() {
        return None;
    }
    let script: &String = match &block.sequencer {
        Some(script) => script,
        None => return None,
    };
    let path: String = resolve_plugin_path(env.base_dir, script.as_str());
    let read: &SourceRead = match lookup(scripts, &path) {
        Some(read) => read,
        None => return None,
    };
    let constraints: Option<&Constraints> = match &block.constraints {
        Some(c) => Some(c),
        None => None,
    };
    assert(bound(constraints) == block.constraints);
    match arrange_block(
        catalog,
        &block.pools,
        groups,
        picks,
        constraints,
        &path,
        read,
        state,
        window,
        env.inputs.now,
    ) {
        Ok(reply) => Some(reply),
        Err(_) => None,
    }
}

/// Looks up the guide templates of what the pools of a block resolve to, where they do.
fn find_guides(
    catalog: &Catalog,
    pools: &Vec<Pool>,
    groups: &Vec<ShowGroup>,
    picks: &Vec<(String, PluginReply)>,
) -> (out: Vec<(String, GuideConfig)>)
    ensures
        out@ == block_guides(*catalog, pools@, groups@, picks@),
{
    match resolve_pool_sources(catalog, pools, groups, picks) {
        Ok(given) => pool_guides(pools, &given),
        Err(_) => Vec::new(),
    }
}

/// Runs the scripts of a block that draws from pools.
pub fn reply_to_block(
    block: &BlockInclude,
    groups: &Vec<ShowGroup>,
    catalog: &Catalog,
    env: &ScoreEnv<'_>,
    scripts: &Vec<(String, SourceRead)>,
    state: &GenerationState,
    seed: u64,
    window: Window,
) -> (out: Result<Replies, ResolveError>)
    ensures
        match out {
            Ok(replies) => unread_in(*block, scripts@, env.base_dir@) is None && may_reply(
                *block,
                groups@,
                setting(Some(*catalog), *env, scripts@, *state, seed, window),
                replies@,
            ),
            Err(e) => may_wait(
                *block,
                setting(Some(*catalog), *env, scripts@, *state, seed, window),
                e@,
            ),
        },
{
    match find_unread_in(block, env, scripts) {
        Some(path) => return Err(ResolveError::UnreadScript { path }),
        None => {},
    }
    let rankings: Vec<(String, Ranking)> = match rank_pools(
        catalog,
        env,
        seed,
        scripts,
        &block.pools,
    ) {
        Ok(rankings) => rankings,
        Err(e) => return Err(e),
    };
    let ghost ranked = rankings@;
    let (picks, metadata): (Vec<(String, PluginReply)>, Vec<(String, Arc<ScriptValue>)>) =
        hand_on(rankings);
    let guides: Vec<(String, GuideConfig)> = find_guides(catalog, &block.pools, groups, &picks);
    let arranged: Option<ArrangeReply> = run_sequencer(
        block,
        groups,
        catalog,
        env,
        scripts,
        state,
        seed,
        window,
        &picks,
    );
    let ghost s = setting(Some(*catalog), *env, scripts@, *state, seed, window);
    assert(may_rank_all(s.catalog->0, s.base, s.inputs, s.seed, s.scripts, block.pools@, ranked));
    Ok(Replies { picks, arranged, metadata, guides })
}

/// Whether this may come of running the scripts of one block of a channel. A block that draws
/// from no pools has none, and without a catalog none is run.
pub open spec fn may_answer(
    block: BlockInclude,
    groups: Seq<ShowGroup>,
    s: Setting,
    replies: RepliesModel,
) -> bool {
    if s.catalog is None || !block.draws() {
        replies == RepliesModel::nothing()
    } else {
        may_reply(block, groups, s, replies)
    }
}

/// Whether this may come of running the scripts of a channel, block by block.
pub open spec fn may_answer_all(config: ChannelConfig, s: Setting, replies: Seq<Replies>) -> bool {
    &&& replies.len() == config.blocks@.len()
    &&& forall|i: int|
        0 <= i < replies.len() ==> may_answer(
            config.blocks@[i],
            config.groups@,
            s,
            (#[trigger] replies[i])@,
        )
}

/// Whether a channel may have to wait for what the scripts of one of its blocks need.
pub open spec fn one_may_wait(config: ChannelConfig, s: Setting, error: ConfigFault) -> bool {
    &&& s.catalog is Some
    &&& error.block is Some
    &&& error.block->0 < config.blocks@.len()
    &&& config.blocks@[error.block->0 as int].draws()
    &&& may_wait(config.blocks@[error.block->0 as int], s, error.fault)
    &&& error == ConfigFault::in_block(error.block->0, error.fault)
}

/// The seed of a channel: its own, where it pins one.
pub open spec fn own_seed(config: ChannelConfig, seed: u64) -> u64 {
    match config.seed {
        Some(pin) => pin,
        None => seed,
    }
}

/// Runs the scripts of a channel, block by block.
///
/// What has to be read or asked for before this can go on is told by an error.
pub fn run_scripts(
    config: &ChannelConfig,
    catalog: Option<&Catalog>,
    env: &ScoreEnv<'_>,
    scripts: &Vec<(String, SourceRead)>,
    state: &GenerationState,
    seed: u64,
    window: Window,
) -> (out: Result<Vec<Replies>, ConfigError>)
    ensures
        ({
            let s = setting(
                behind(catalog),
                *env,
                scripts@,
                *state,
                own_seed(*config, seed),
                window,
            );
            match out {
                Ok(replies) => may_answer_all(*config, s, replies@),
                Err(e) => one_may_wait(*config, s, e@),
            }
        }),
{
    let own: u64 = match config.seed {
        Some(pin) => pin,
        None => seed,
    };
    let ghost s = setting(behind(catalog), *env, scripts@, *state, own, window);
    let mut out: Vec<Replies> = Vec::new();
    let mut i: usize = 0;
    while i < config.blocks.len()
        invariant
            i <= config.blocks.len(),
            out.len() == i,
            own == own_seed(*config, seed),
            s == setting(behind(catalog), *env, scripts@, *state, own, window),
            forall|j: int|
                0 <= j < i ==> may_answer(
                    config.blocks@[j],
                    config.groups@,
                    s,
                    (#[trigger] out@[j])@,
                ),
        decreases config.blocks.len() - i,
    {
        let block: &BlockInclude = &config.blocks[i];
        let draws: bool = block.is_pattern() || block.is_sequencer();
        let got: Replies = match (draws, catalog) {
            (true, Some(c)) => match reply_to_block(
                block,
                &config.groups,
                c,
                env,
                scripts,
                state,
                own,
                window,
            ) {
                Ok(got) => got,
                Err(e) => return Err(ConfigError::in_block(i, e)),
            },
            _ => Replies::none(),
        };
        assert(may_answer(config.blocks@[i as int], config.groups@, s, got@));
        out.push(got);
        i += 1;
    }
    Ok(out)
}

/// Resolves a channel: runs the scripts of its blocks, and resolves the blocks with what the
/// scripts gave. Gives the channel's items, and what the next generation resumes from.
///
/// What has to be read or asked for before this can go on is told by an error. `seed` counts
/// for a channel that pins none.
pub fn generate(
    config: &ChannelConfig,
    catalog: Option<&Catalog>,
    env: &ScoreEnv<'_>,
    scripts: &Vec<(String, SourceRead)>,
    state: &GenerationState,
    seed: u64,
    window: Window,
    identity_roots: &Vec<String>,
    path_index: Option<&Vec<(String, String)>>,
) -> (out: Result<(Vec<ResolvedItem>, ResumeMap), ConfigError>)
    ensures
        ({
            let s = setting(
                behind(catalog),
                *env,
                scripts@,
                *state,
                own_seed(*config, seed),
                window,
            );
            ||| (out matches Err(e) && one_may_wait(*config, s, e@))
            ||| exists|replies: Seq<Replies>|
                #[trigger] may_answer_all(*config, s, replies) && same_generation(
                    *config,
                    pinned(
                        *config,
                        Inputs {
                            catalog: behind(catalog),
                            replies,
                            state: *state,
                            seed,
                            fill: window.fill,
                            from: window.from,
                            roots: identity_roots@,
                            index: rows(path_index),
                            base: env.base_dir@,
                        },
                    ),
                    out,
                )
        }),
{
    let replies: Vec<Replies> = match run_scripts(
        config,
        catalog,
        env,
        scripts,
        state,
        seed,
        window,
    ) {
        Ok(replies) => replies,
        Err(e) => return Err(e),
    };
    let context: Context<'_> = Context {
        catalog,
        replies: &replies,
        state,
        seed,
        fill: window.fill,
        from: window.from,
        identity_roots,
        path_index,
        base_dir: env.base_dir,
    };
    resolve_channel_with_resume(config, &context)
}

} // verus!
