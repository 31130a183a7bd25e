//! Resolving a channel's blocks into a flat, ordered list of items.
//!
//! A block's entries are resolved, then filtered, then rid of duplicates, then ordered, then
//! counted off. The blocks follow one another, are cut to the window, and are then put in an
//! order that keeps their adjacency rules. A pattern or sequenced block sits out the last
//! two: it is bounded, and its pools are constrained, where it is built.

use vstd::prelude::*;

use std::sync::Arc;

use crate::catalog::{collections_named, members_of, Answer, Catalog, Reply};
use crate::config::{
    Constraints, Duplicates, Filter, Mode, Order, OrderModel, PatternStep, Pool, ShowGroup,
};
use crate::constrain::{arranged, ints};
use crate::fault::{ConfigError, ConfigFault, ErrorKind, Fault, Need, ResolveError};
use crate::item::{
    authored_item, catalog_entry_item, catalog_item, guide_over, item_ids, items, program,
    resolve_item, rows, unref, GuideConfig, ItemEntry, ItemModel, ProgramMetadata, ProgramModel,
    ResolvedItem,
};
use crate::names::{contains_name, entry_of, has_name, lookup, same_text, texts};
use crate::orders::{
    at_positions, completed, first_free, first_of_each, first_of_each_keeps_one_of_each,
    is_selection, ranked, reordered, reordering_keeps_every_item, take_at,
};
use crate::paths::joined;
use crate::pattern::{leaves, schedule, PluginReply, Walk};
use crate::resume::{GenerationState, PoolResume};
use crate::score::resolve_plugin_path;
use crate::script::{share, ScriptValue};
use crate::sequence::{
    pool_names, sequenced, turns_after, ArrangeReply, Timeline, Window,
};
use crate::window::behind;

verus! {

/// A query entry: what to ask the catalog for, and in which order.
#[derive(Debug)]
pub struct QueryEntry {
    pub query: String,
    pub order: Option<Order>,
}

/// One entry of a block.
#[derive(Debug)]
pub enum BlockEntry {
    Item(ItemEntry),
    Query(QueryEntry),
    /// A collection, by its name.
    Collection(String),
    /// Another block.
    Nested,
}

/// What a block plays when its entries resolve to nothing.
#[derive(Debug)]
pub enum Fallback {
    Item(ItemEntry),
    Query(QueryEntry),
}

/// One block of a channel.
#[derive(Debug)]
pub struct BlockInclude {
    pub program: Option<ProgramMetadata>,
    pub guide: Option<GuideConfig>,
    pub duplicates: Option<Duplicates>,
    pub constraints: Option<Constraints>,
    pub entries: Vec<BlockEntry>,
    pub fallback: Option<Fallback>,
    pub pools: Vec<Pool>,
    pub pattern: Vec<PatternStep>,
    pub cycles: Option<usize>,
    /// The path of a sequencer script.
    pub sequencer: Option<String>,
    pub mode: Mode,
    pub order: Option<Order>,
    pub filter: Option<Filter>,
}

/// A channel.
#[derive(Debug)]
pub struct ChannelConfig {
    pub seed: Option<u64>,
    /// How long an item on this channel typically runs, in seconds.
    pub nominal_item_secs: Option<u32>,
    pub guide: Option<GuideConfig>,
    pub groups: Vec<ShowGroup>,
    pub blocks: Vec<BlockInclude>,
}

/// What scripts gave for a block, and what hangs on the items they picked.
#[derive(Debug)]
pub struct Replies {
    /// What plugins gave for the pools they rank, by pool.
    pub picks: Vec<(String, PluginReply)>,
    /// What the sequencer script gave.
    pub arranged: Option<ArrangeReply>,
    /// What plugins attached to the items they picked, by item.
    pub metadata: Vec<(String, Arc<ScriptValue>)>,
    /// The guide templates of the pools that items were drawn from, by item.
    pub guides: Vec<(String, GuideConfig)>,
}

/// What scripts gave for a block, as mathematical values.
pub struct RepliesModel {
    pub picks: Seq<(String, PluginReply)>,
    pub arranged: Option<ArrangeReply>,
    pub metadata: Seq<(String, Arc<ScriptValue>)>,
    pub guides: Seq<(String, GuideConfig)>,
}

impl RepliesModel {
    /// What a block has that no script was run for.
    pub open spec fn nothing() -> RepliesModel {
        RepliesModel {
            picks: Seq::empty(),
            arranged: None,
            metadata: Seq::empty(),
            guides: Seq::empty(),
        }
    }
}

impl View for Replies {
    type V = RepliesModel;

    open spec fn view(&self) -> RepliesModel {
        RepliesModel {
            picks: self.picks@,
            arranged: self.arranged,
            metadata: self.metadata@,
            guides: self.guides@,
        }
    }
}

impl Replies {
    /// What a block has that no script was run for.
    pub fn none() -> (out: Replies)
        ensures
            out@ == RepliesModel::nothing(),
    {
        Replies {
            picks: Vec::new(),
            arranged: None,
            metadata: Vec::new(),
            guides: Vec::new(),
        }
    }
}

/// What scripts gave for a block, by its place in the channel.
pub open spec fn given_for(replies: Seq<Replies>, idx: int) -> RepliesModel {
    if 0 <= idx < replies.len() {
        replies[idx]@
    } else {
        RepliesModel::nothing()
    }
}

/// How long an item runs when a channel says nothing of that, in seconds.
pub const DEFAULT_NOMINAL_SECS: u32 = 1800;

/// How long an item of a channel is taken to run when nothing has measured it, in
/// nanoseconds.
pub open spec fn nominal(secs: Option<u32>) -> int {
    let s = match secs {
        Some(s) => s,
        None => DEFAULT_NOMINAL_SECS,
    };
    (if s < 1 {
        1int
    } else {
        s as int
    }) * 1_000_000_000
}

/// How long an item of a channel is taken to run when nothing has measured it, in
/// nanoseconds: never less than a second.
pub fn nominal_item_runtime(config: &ChannelConfig) -> (out: u64)
    ensures
        out == nominal(config.nominal_item_secs),
{
    let secs: u32 = match config.nominal_item_secs {
        Some(s) => s,
        None => DEFAULT_NOMINAL_SECS,
    };
    let secs: u32 = if secs < 1 {
        1
    } else {
        secs
    };
    secs as u64 * 1_000_000_000
}

/// The seed of a generation whose author pinned none: the low 64 bits of the time, in
/// nanoseconds since the epoch, or zero for a clock that stands before it.
pub fn fresh_seed(since_epoch: Option<u128>) -> (out: u64)
    ensures
        out == (match since_epoch {
            Some(ns) => ns as int % 0x1_0000_0000_0000_0000,
            None => 0,
        }),
{
    match since_epoch {
        Some(ns) => (ns % 0x1_0000_0000_0000_0000) as u64,
        None => 0,
    }
}

/// The first show of the groups that the catalog holds no episode of.
pub open spec fn missing_show(catalog: Catalog, groups: Seq<ShowGroup>, g: int, s: int) -> Option<
    Fault,
>
    decreases groups.len() - g, groups[g].shows@.len() - s,
{
    if g < 0 || g >= groups.len() || s < 0 {
        None
    } else if s >= groups[g].shows@.len() {
        missing_show(catalog, groups, g + 1, 0)
    } else if catalog.episodes_of(groups[g].shows@[s]@).len() == 0 {
        Some(Fault::GroupShowMissing { group: groups[g].name, show: groups[g].shows@[s] })
    } else {
        missing_show(catalog, groups, g, s + 1)
    }
}

/// Holds every declared group of shows to the catalog: each show must have an episode there,
/// whether or not a pool draws from the group.
pub fn validate_groups_against_catalog(catalog: &Catalog, groups: &Vec<ShowGroup>) -> (out: Result<
    (),
    ConfigError,
>)
    ensures
        match (out, missing_show(*catalog, groups@, 0, 0)) {
            (Ok(_), None) => true,
            (Err(got), Some(fault)) => got@ == ConfigFault::of_channel(
                ErrorKind::Validation,
                fault,
            ),
            _ => false,
        },
{
    let mut g: usize = 0;
    while g < groups.len()
        invariant
            g <= groups.len(),
            missing_show(*catalog, groups@, 0, 0) == missing_show(*catalog, groups@, g as int, 0),
        decreases groups.len() - g,
    {
        let mut s: usize = 0;
        while s < groups[g as usize].shows.len()
            invariant
                g < groups.len(),
                s <= groups@[g as int].shows@.len(),
                missing_show(*catalog, groups@, 0, 0) == missing_show(
                    *catalog,
                    groups@,
                    g as int,
                    s as int,
                ),
            decreases groups@[g as int].shows@.len() - s,
        {
            if catalog.episode_ids_for_show(&groups[g].shows[s]).len() == 0 {
                return Err(
                    ConfigError::of_channel(
                        ErrorKind::Validation,
                        ResolveError::GroupShowMissing {
                            group: groups[g].name.clone(),
                            show: groups[g].shows[s].clone(),
                        },
                    ),
                );
            }
            s += 1;
        }
        g += 1;
    }
    Ok(())
}

/// The items that identities of the catalog make, without those that nothing can play; the
/// first one at fault counts.
pub open spec fn catalog_items(
    catalog: Catalog,
    ids: Seq<String>,
    defaults: Option<ProgramModel>,
    guide: Option<GuideConfig>,
) -> Result<Seq<ItemModel>, Fault>
    decreases ids.len(),
{
    if ids.len() == 0 {
        Ok(Seq::empty())
    } else {
        match catalog_items(catalog, ids.drop_last(), defaults, guide) {
            Err(fault) => Err(fault),
            Ok(made) => match catalog_entry_item(catalog, ids.last(), defaults, guide) {
                Err(fault) => Err(fault),
                Ok(None) => Ok(made),
                Ok(Some(item)) => Ok(made.push(item)),
            },
        }
    }
}

/// Whether a list of items, or what went wrong instead, is the one that is wanted.
pub open spec fn same_items(
    out: Result<Vec<ResolvedItem>, ResolveError>,
    want: Result<Seq<ItemModel>, Fault>,
) -> bool {
    match (out, want) {
        (Ok(got), Ok(want)) => items(got@) == want,
        (Err(got), Err(want)) => got@ == want,
        _ => false,
    }
}

proof fn lemma_catalog_items_err(
    catalog: Catalog,
    ids: Seq<String>,
    defaults: Option<ProgramModel>,
    guide: Option<GuideConfig>,
    i: int,
)
    requires
        0 <= i <= ids.len(),
        catalog_items(catalog, ids.take(i), defaults, guide) is Err,
    ensures
        catalog_items(catalog, ids, defaults, guide) == catalog_items(
            catalog,
            ids.take(i),
            defaults,
            guide,
        ),
    decreases ids.len(),
{
    if i < ids.len() {
        assert(ids.drop_last().take(i) =~= ids.take(i));
        lemma_catalog_items_err(catalog, ids.drop_last(), defaults, guide, i);
    } else {
        assert(ids.take(i) =~= ids);
    }
}

fn make_items(
    catalog: &Catalog,
    ids: &Vec<String>,
    defaults: Option<&ProgramMetadata>,
    guide: Option<&GuideConfig>,
) -> (out: Result<Vec<ResolvedItem>, ResolveError>)
    ensures
        same_items(out, catalog_items(*catalog, ids@, program(defaults), unref(guide))),
{
    let mut out: Vec<ResolvedItem> = Vec::new();
    let mut i: usize = 0;
    assert(items(out@) =~= Seq::<ItemModel>::empty());
    while i < ids.len()
        invariant
            i <= ids.len(),
            catalog_items(*catalog, ids@.take(i as int), program(defaults), unref(guide)) == Ok::<
                Seq<ItemModel>,
                Fault,
            >(items(out@)),
        decreases ids.len() - i,
    {
        let made: Result<Option<ResolvedItem>, ResolveError> = catalog_item(
            catalog,
            &ids[i],
            defaults,
            guide,
        );
        i += 1;
        assert(ids@.take(i as int).drop_last() =~= ids@.take(i - 1));
        match made {
            Ok(Some(item)) => {
                let ghost before = items(out@);
                out.push(item);
                assert(items(out@) =~= before.push(item@));
            },
            Ok(None) => {},
            Err(e) => {
                proof {
                    lemma_catalog_items_err(
                        *catalog,
                        ids@,
                        program(defaults),
                        unref(guide),
                        i as int,
                    );
                }
                return Err(e);
            },
        }
    }
    assert(ids@.take(i as int) =~= ids@);
    Ok(out)
}

/// A list of identities in an order that the catalog knows.
pub open spec fn in_order(
    catalog: Catalog,
    ids: Seq<Seq<char>>,
    order: OrderModel,
    seed: u64,
) -> Result<Seq<String>, Fault> {
    match catalog.order_answer(ids, order, seed) {
        Answer::Unasked => Err(Fault::UnansweredOrder { ids, order, seed }),
        Answer::Failed(why) => Err(Fault::Failed { why }),
        Answer::Items(ordered) => Ok(ordered),
    }
}

fn ask_order(catalog: &Catalog, ids: Vec<String>, order: &Order, seed: u64) -> (out: Result<
    Vec<String>,
    ResolveError,
>)
    ensures
        match (out, in_order(*catalog, texts(ids@), order@, seed)) {
            (Ok(got), Ok(want)) => got@ == want,
            (Err(got), Err(want)) => got@ == want,
            _ => false,
        },
{
    match catalog.resolve_order(&ids, order, seed) {
        None => Err(ResolveError::UnansweredOrder { ids, order: order.copy(), seed }),
        Some(Reply::Failed(why)) => Err(ResolveError::Failed { why }),
        Some(Reply::Items(ordered)) => Ok(ordered),
    }
}

/// What a query entry resolves to.
pub open spec fn query_items(
    catalog: Catalog,
    query: QueryEntry,
    defaults: Option<ProgramModel>,
    guide: Option<GuideConfig>,
    seed: u64,
) -> Result<Seq<ItemModel>, Fault> {
    match catalog.query_answer(query.query@) {
        Answer::Unasked => Err(Fault::UnansweredQuery { query: query.query }),
        Answer::Failed(why) => Err(Fault::Failed { why }),
        Answer::Items(ids) => match query.order {
            None => catalog_items(catalog, ids, defaults, guide),
            Some(order) => match in_order(catalog, texts(ids), order@, seed) {
                Err(fault) => Err(fault),
                Ok(ordered) => catalog_items(catalog, ordered, defaults, guide),
            },
        },
    }
}

/// Resolves a query entry: asks the catalog, puts the answer in the entry's own order, and
/// makes items of it.
pub fn resolve_query(
    catalog: &Catalog,
    query: &QueryEntry,
    defaults: Option<&ProgramMetadata>,
    guide: Option<&GuideConfig>,
    seed: u64,
) -> (out: Result<Vec<ResolvedItem>, ResolveError>)
    ensures
        same_items(out, query_items(*catalog, *query, program(defaults), unref(guide), seed)),
{
    let ids: Vec<String> = match catalog.resolve_query(&query.query) {
        None => return Err(ResolveError::UnansweredQuery { query: query.query.clone() }),
        Some(Reply::Failed(why)) => return Err(ResolveError::Failed { why }),
        Some(Reply::Items(ids)) => ids,
    };
    match &query.order {
        None => make_items(catalog, &ids, defaults, guide),
        Some(order) => match ask_order(catalog, ids, order, seed) {
            Ok(ordered) => make_items(catalog, &ordered, defaults, guide),
            Err(e) => Err(e),
        },
    }
}

/// What a collection entry resolves to.
pub open spec fn collection_items(
    catalog: Catalog,
    name: String,
    defaults: Option<ProgramModel>,
    guide: Option<GuideConfig>,
) -> Result<Seq<ItemModel>, Fault> {
    let ids = collections_named(catalog.collections@, name@);
    if ids.len() == 0 {
        Err(Fault::NoCollection { name })
    } else if ids.len() > 1 {
        Err(Fault::ManyCollections { name, found: ids })
    } else {
        let members = members_of(catalog.collections@, ids[0]@);
        if members.len() == 0 {
            Err(Fault::EmptyCollection { name, id: ids[0] })
        } else {
            catalog_items(catalog, members, defaults, guide)
        }
    }
}

/// Resolves a collection entry: its members, in the order of their stored positions. A name
/// that no collection has, or more than one, is an error, and so is a collection without
/// members.
pub fn resolve_collection(
    catalog: &Catalog,
    name: &String,
    defaults: Option<&ProgramMetadata>,
    guide: Option<&GuideConfig>,
) -> (out: Result<Vec<ResolvedItem>, ResolveError>)
    ensures
        same_items(out, collection_items(*catalog, *name, program(defaults), unref(guide))),
{
    let ids: Vec<String> = catalog.collection_ids_by_name(name);
    if ids.len() == 0 {
        return Err(ResolveError::NoCollection { name: name.clone() });
    }
    if ids.len() > 1 {
        return Err(ResolveError::ManyCollections { name: name.clone(), found: ids });
    }
    let members: Vec<String> = catalog.collection_members(&ids[0]);
    if members.len() == 0 {
        return Err(ResolveError::EmptyCollection { name: name.clone(), id: ids[0].clone() });
    }
    make_items(catalog, &members, defaults, guide)
}

/// What holds for every entry of a block.
pub struct Surroundings {
    pub defaults: Option<ProgramModel>,
    pub guide: Option<GuideConfig>,
    pub seed: u64,
    pub roots: Seq<String>,
    pub index: Option<Seq<(String, String)>>,
}

/// What one entry of a block resolves to.
pub open spec fn entry_items(
    catalog: Option<Catalog>,
    entry: BlockEntry,
    around: Surroundings,
) -> Result<Seq<ItemModel>, Fault> {
    match (entry, catalog) {
        (BlockEntry::Item(item), _) => Ok(
            seq![authored_item(item, around.defaults, around.guide, around.roots, around.index)],
        ),
        (BlockEntry::Query(query), Some(c)) => query_items(
            c,
            query,
            around.defaults,
            around.guide,
            around.seed,
        ),
        (BlockEntry::Query(_), None) => Err(Fault::NeedsCatalog { need: Need::QueryEntry }),
        (BlockEntry::Collection(name), Some(c)) => collection_items(
            c,
            name,
            around.defaults,
            around.guide,
        ),
        (BlockEntry::Collection(_), None) => Err(
            Fault::NeedsCatalog { need: Need::CollectionEntry },
        ),
        (BlockEntry::Nested, _) => Err(Fault::NestedEntry),
    }
}

/// What the entries of a block resolve to, one after the other; the first one at fault
/// counts.
pub open spec fn all_entries(
    catalog: Option<Catalog>,
    entries: Seq<BlockEntry>,
    around: Surroundings,
) -> Result<Seq<ItemModel>, Fault>
    decreases entries.len(),
{
    if entries.len() == 0 {
        Ok(Seq::empty())
    } else {
        match all_entries(catalog, entries.drop_last(), around) {
            Err(fault) => Err(fault),
            Ok(made) => match entry_items(catalog, entries.last(), around) {
                Err(fault) => Err(fault),
                Ok(more) => Ok(made + more),
            },
        }
    }
}

/// What a fallback resolves to.
pub open spec fn fallback_items(
    catalog: Option<Catalog>,
    fallback: Fallback,
    around: Surroundings,
) -> Result<Seq<ItemModel>, Fault> {
    match (fallback, catalog) {
        (Fallback::Item(item), _) => Ok(
            seq![authored_item(item, around.defaults, around.guide, around.roots, around.index)],
        ),
        (Fallback::Query(query), Some(c)) => query_items(
            c,
            query,
            around.defaults,
            around.guide,
            around.seed,
        ),
        (Fallback::Query(_), None) => Err(Fault::NeedsCatalog { need: Need::QueryFallback }),
    }
}

/// Resolves a block's fallback, by the same means as an entry.
pub fn resolve_fallback(
    catalog: Option<&Catalog>,
    fallback: &Fallback,
    defaults: Option<&ProgramMetadata>,
    guide: Option<&GuideConfig>,
    seed: u64,
    identity_roots: &Vec<String>,
    path_index: Option<&Vec<(String, String)>>,
) -> (out: Result<Vec<ResolvedItem>, ResolveError>)
    ensures
        same_items(
            out,
            fallback_items(
                behind(catalog),
                *fallback,
                Surroundings {
                    defaults: program(defaults),
                    guide: unref(guide),
                    seed,
                    roots: identity_roots@,
                    index: rows(path_index),
                },
            ),
        ),
{
    match fallback {
        Fallback::Query(query) => match catalog {
            Some(c) => resolve_query(c, query, defaults, guide, seed),
            None => Err(ResolveError::NeedsCatalog { need: Need::QueryFallback }),
        },
        Fallback::Item(item) => {
            let mut out: Vec<ResolvedItem> = Vec::new();
            out.push(resolve_item(item, defaults, guide, identity_roots, path_index));
            assert(items(out@) =~= seq![out@[0]@]);
            Ok(out)
        },
    }
}

proof fn lemma_all_entries_err(
    catalog: Option<Catalog>,
    entries: Seq<BlockEntry>,
    around: Surroundings,
    i: int,
)
    requires
        0 <= i <= entries.len(),
        all_entries(catalog, entries.take(i), around) is Err,
    ensures
        all_entries(catalog, entries, around) == all_entries(catalog, entries.take(i), around),
    decreases entries.len(),
{
    if i < entries.len() {
        assert(entries.drop_last().take(i) =~= entries.take(i));
        lemma_all_entries_err(catalog, entries.drop_last(), around, i);
    } else {
        assert(entries.take(i) =~= entries);
    }
}

fn resolve_entries(
    catalog: Option<&Catalog>,
    entries: &Vec<BlockEntry>,
    defaults: Option<&ProgramMetadata>,
    guide: Option<&GuideConfig>,
    seed: u64,
    identity_roots: &Vec<String>,
    path_index: Option<&Vec<(String, String)>>,
) -> (out: Result<Vec<ResolvedItem>, ResolveError>)
    ensures
        same_items(
            out,
            all_entries(
                behind(catalog),
                entries@,
                Surroundings {
                    defaults: program(defaults),
                    guide: unref(guide),
                    seed,
                    roots: identity_roots@,
                    index: rows(path_index),
                },
            ),
        ),
{
    let ghost around = Surroundings {
        defaults: program(defaults),
        guide: unref(guide),
        seed,
        roots: identity_roots@,
        index: rows(path_index),
    };
    let mut out: Vec<ResolvedItem> = Vec::new();
    let mut i: usize = 0;
    assert(items(out@) =~= Seq::<ItemModel>::empty());
    while i < entries.len()
        invariant
            i <= entries.len(),
            around == (Surroundings {
                defaults: program(defaults),
                guide: unref(guide),
                seed,
                roots: identity_roots@,
                index: rows(path_index),
            }),
            all_entries(behind(catalog), entries@.take(i as int), around) == Ok::<
                Seq<ItemModel>,
                Fault,
            >(items(out@)),
        decreases entries.len() - i,
    {
        let ghost before = items(out@);
        let made: Result<Vec<ResolvedItem>, ResolveError> = match (&entries[i], catalog) {
            (BlockEntry::Item(item), _) => {
                let mut one: Vec<ResolvedItem> = Vec::new();
                one.push(resolve_item(item, defaults, guide, identity_roots, path_index));
                assert(items(one@) =~= seq![one@[0]@]);
                Ok(one)
            },
            (BlockEntry::Query(query), Some(c)) => resolve_query(c, query, defaults, guide, seed),
            (BlockEntry::Query(_), None) => Err(
                ResolveError::NeedsCatalog { need: Need::QueryEntry },
            ),
            (BlockEntry::Collection(name), Some(c)) => resolve_collection(
                c,
                name,
                defaults,
                guide,
            ),
            (BlockEntry::Collection(_), None) => Err(
                ResolveError::NeedsCatalog { need: Need::CollectionEntry },
            ),
            (BlockEntry::Nested, _) => Err(ResolveError::NestedEntry),
        };
        assert(same_items(made, entry_items(behind(catalog), entries@[i as int], around)));
        i += 1;
        assert(entries@.take(i as int).drop_last() =~= entries@.take(i - 1));
        match made {
            Ok(more) => {
                let mut more: Vec<ResolvedItem> = more;
                let ghost fresh = items(more@);
                out.append(&mut more);
                assert(items(out@) =~= before + fresh);
            },
            Err(e) => {
                proof {
                    lemma_all_entries_err(behind(catalog), entries@, around, i as int);
                }
                return Err(e);
            },
        }
    }
    assert(entries@.take(i as int) =~= entries@);
    Ok(out)
}

/// The positions at which a list of flags is set.
pub open spec fn flagged(flags: Seq<bool>) -> Seq<int>
    decreases flags.len(),
{
    if flags.len() == 0 {
        Seq::empty()
    } else {
        let earlier = flagged(flags.drop_last());
        if flags.last() {
            earlier.push(flags.len() - 1)
        } else {
            earlier
        }
    }
}

proof fn lemma_flagged<T>(list: Seq<T>, flags: Seq<bool>, keep: spec_fn(T) -> bool)
    requires
        list.len() == flags.len(),
        forall|i: int| 0 <= i < list.len() ==> #[trigger] flags[i] == keep(list[i]),
    ensures
        is_selection(flagged(flags), flags.len() as int),
        at_positions(list, flagged(flags)) == list.filter(keep),
    decreases list.len(),
{
    reveal(Seq::filter);
    if list.len() > 0 {
        let shorter = list.drop_last();
        let fewer = flags.drop_last();
        assert forall|i: int| 0 <= i < shorter.len() implies #[trigger] fewer[i] == keep(
            shorter[i],
        ) by {
            assert(flags[i] == keep(list[i]));
        }
        lemma_flagged(shorter, fewer, keep);
        assert(flags[flags.len() - 1] == keep(list[list.len() - 1]));
        assert forall|j: int| 0 <= j < flagged(fewer).len() implies list[#[trigger] flagged(
            fewer,
        )[j]] == shorter[flagged(fewer)[j]] by {}
        assert(at_positions(list, flagged(fewer)) =~= at_positions(shorter, flagged(fewer)));
        if flags.last() {
            assert(at_positions(list, flagged(flags)) =~= at_positions(list, flagged(fewer)).push(
                list.last(),
            ));
        }
    } else {
        assert(at_positions(list, flagged(flags)) =~= Seq::<T>::empty());
        assert(list.filter(keep) =~= Seq::<T>::empty());
    }
}

fn flag_positions(flags: &Vec<bool>) -> (out: Vec<usize>)
    ensures
        ints(out@) == flagged(flags@),
{
    let mut out: Vec<usize> = Vec::new();
    let mut i: usize = 0;
    assert(ints(out@) =~= flagged(flags@.take(0)));
    while i < flags.len()
        invariant
            i <= flags.len(),
            ints(out@) == flagged(flags@.take(i as int)),
        decreases flags.len() - i,
    {
        let ghost before = ints(out@);
        assert(flags@.take(i + 1).drop_last() =~= flags@.take(i as int));
        if flags[i] {
            out.push(i);
            assert(ints(out@) =~= before.push(i as int));
        }
        i += 1;
    }
    assert(flags@.take(i as int) =~= flags@);
    out
}

/// Items taken out of a list are, as mathematical values, those taken out of its values.
proof fn lemma_items_at(list: Seq<ResolvedItem>, order: Seq<int>)
    requires
        is_selection(order, list.len() as int),
    ensures
        items(at_positions(list, order)) == at_positions(items(list), order),
{
    assert(items(at_positions(list, order)) =~= at_positions(items(list), order)) by {
        assert forall|j: int| 0 <= j < order.len() implies items(at_positions(list, order))[j]
            == at_positions(items(list), order)[j] by {
            assert(0 <= order[j] < list.len());
        }
    }
}

/// Whether a season is one of those wanted.
pub open spec fn season_wanted(wanted: Seq<u32>, season: i64) -> bool {
    exists|i: int| 0 <= i < wanted.len() && #[trigger] wanted[i] == season
}

/// Whether a filter keeps an item: it must satisfy every field that the filter sets.
pub open spec fn filter_keeps(catalog: Option<Catalog>, filter: Filter, id: Seq<char>) -> bool {
    let season_ok = match filter.seasons {
        None => true,
        Some(wanted) => match catalog {
            Some(c) => c.season(id) matches Some(n) && season_wanted(wanted@, n),
            None => false,
        },
    };
    let episode_ok = match filter.episode_ids {
        None => true,
        Some(wanted) => has_name(wanted@, id),
    };
    season_ok && episode_ok
}

/// What a filter leaves of a list.
pub open spec fn filtered(catalog: Option<Catalog>, list: Seq<ItemModel>, filter: Filter) -> Result<
    Seq<ItemModel>,
    Fault,
> {
    if filter.seasons is Some && catalog is None {
        Err(Fault::NeedsCatalog { need: Need::SeasonFilter })
    } else {
        Ok(list.filter(|i: ItemModel| filter_keeps(catalog, filter, i.id)))
    }
}

fn wants_season(wanted: &Vec<u32>, season: i64) -> (out: bool)
    ensures
        out == season_wanted(wanted@, season),
{
    let mut i: usize = 0;
    while i < wanted.len()
        invariant
            i <= wanted.len(),
            forall|j: int| 0 <= j < i ==> #[trigger] wanted@[j] != season,
        decreases wanted.len() - i,
    {
        if wanted[i] as i64 == season {
            assert(wanted@[i as int] == season);
            return true;
        }
        i += 1;
    }
    false
}

/// Narrows a list to what a filter keeps. Asking for seasons needs the catalog.
pub fn apply_filter(
    catalog: Option<&Catalog>,
    list: Vec<ResolvedItem>,
    filter: &Filter,
) -> (out: Result<Vec<ResolvedItem>, ResolveError>)
    ensures
        same_items(out, filtered(behind(catalog), items(list@), *filter)),
{
    if filter.seasons.is_some() && catalog.is_none() {
        return Err(ResolveError::NeedsCatalog { need: Need::SeasonFilter });
    }
    let ghost all = items(list@);
    let ghost keep = |i: ItemModel| filter_keeps(behind(catalog), *filter, i.id);
    let mut flags: Vec<bool> = Vec::new();
    let mut i: usize = 0;
    while i < list.len()
        invariant
            i <= list.len(),
            flags.len() == i,
            all == items(list@),
            keep == (|i: ItemModel| filter_keeps(behind(catalog), *filter, i.id)),
            !(filter.seasons is Some && catalog is None),
            forall|j: int| 0 <= j < i ==> #[trigger] flags@[j] == keep(all[j]),
        decreases list.len() - i,
    {
        let id: &String = &list[i].id;
        let season_ok: bool = match (&filter.seasons, catalog) {
            (None, _) => true,
            (Some(wanted), Some(c)) => match c.season_for(id) {
                Some(n) => wants_season(wanted, n),
                None => false,
            },
            (Some(_), None) => false,
        };
        let episode_ok: bool = match &filter.episode_ids {
            None => true,
            Some(wanted) => contains_name(wanted, id),
        };
        assert(all[i as int] == list@[i as int]@);
        flags.push(season_ok && episode_ok);
        i += 1;
    }
    let order: Vec<usize> = flag_positions(&flags);
    proof {
        lemma_flagged(all, flags@, keep);
        lemma_items_at(list@, ints(order@));
    }
    Ok(take_at(list, &order))
}

/// A list without the items that came before in it.
pub open spec fn collapsed(list: Seq<ItemModel>) -> Seq<ItemModel> {
    at_positions(list, first_of_each(item_ids(list)))
}

/// The identities of a list of items.
fn ids_of(list: &Vec<ResolvedItem>) -> (out: Vec<String>)
    ensures
        out.len() == list.len(),
        texts(out@) == item_ids(items(list@)),
        forall|i: int| 0 <= i < list.len() ==> #[trigger] out@[i] == list@[i].id,
{
    let mut out: Vec<String> = Vec::new();
    let mut i: usize = 0;
    while i < list.len()
        invariant
            i <= list.len(),
            out.len() == i,
            forall|j: int| 0 <= j < i ==> #[trigger] out@[j] == list@[j].id,
        decreases list.len() - i,
    {
        out.push(list[i].id.clone());
        i += 1;
    }
    assert(texts(out@) =~= item_ids(items(list@)));
    out
}

/// Drops every item of a list that came before in it: the first occurrence stays.
pub fn collapse_duplicates(list: Vec<ResolvedItem>) -> (out: Vec<ResolvedItem>)
    ensures
        items(out@) == collapsed(items(list@)),
{
    let ghost ids = item_ids(items(list@));
    let mut order: Vec<usize> = Vec::new();
    let mut i: usize = 0;
    assert(ints(order@) =~= first_of_each(ids.take(0)));
    while i < list.len()
        invariant
            i <= list.len(),
            ids == item_ids(items(list@)),
            ints(order@) == first_of_each(ids.take(i as int)),
        decreases list.len() - i,
    {
        let mut seen: bool = false;
        let mut k: usize = 0;
        while k < i && !seen
            invariant
                k <= i < list.len(),
                ids == item_ids(items(list@)),
                seen ==> ids.take(i as int).contains(ids[i as int]),
                !seen ==> forall|j: int| 0 <= j < k ==> ids[j] != ids[i as int],
            decreases i - k, !seen as int,
        {
            assert(ids[k as int] == list@[k as int].id@);
            assert(ids[i as int] == list@[i as int].id@);
            if list[k].id == list[i].id {
                assert(ids.take(i as int)[k as int] == ids[i as int]);
                seen = true;
            } else {
                k += 1;
            }
        }
        proof {
            let head = ids.take(i as int);
            assert(ids.take(i + 1).drop_last() =~= head);
            assert(ids.take(i + 1).last() == ids[i as int]);
            if !seen && head.contains(ids[i as int]) {
                let j = choose|j: int| 0 <= j < head.len() && head[j] == ids[i as int];
                assert(ids[j] == ids[i as int]);
            }
        }
        if !seen {
            let ghost before = ints(order@);
            order.push(i);
            assert(ints(order@) =~= before.push(i as int));
        }
        i += 1;
    }
    proof {
        assert(ids.take(i as int) =~= ids);
        first_of_each_keeps_one_of_each(ids);
        lemma_items_at(list@, ints(order@));
    }
    take_at(list, &order)
}

/// A list in the order of a list of identities; what it does not name comes after, as it
/// stood.
pub open spec fn reorder(list: Seq<ItemModel>, ordered: Seq<String>) -> Seq<ItemModel> {
    at_positions(list, reordered(item_ids(list), texts(ordered)))
}

/// Puts a list in the order of a list of identities. What that does not name, such as an
/// item the catalog cannot rank, comes after it, as it stood: nothing is lost.
pub fn reorder_to(list: Vec<ResolvedItem>, ordered: &Vec<String>) -> (out: Vec<ResolvedItem>)
    ensures
        items(out@) == reorder(items(list@), ordered@),
{
    let ghost ids = item_ids(items(list@));
    let ghost names = texts(ordered@);
    let n: usize = list.len();
    let mut taken: Vec<bool> = Vec::new();
    while taken.len() < n
        invariant
            taken.len() <= n,
            forall|j: int| 0 <= j < taken.len() ==> !#[trigger] taken@[j],
        decreases n - taken.len(),
    {
        taken.push(false);
    }
    let mut order: Vec<usize> = Vec::new();
    let mut i: usize = 0;
    assert(ints(order@) =~= ranked(ids, names.take(0)));
    while i < ordered.len()
        invariant
            i <= ordered.len(),
            n == list.len(),
            taken.len() == n,
            ids == item_ids(items(list@)),
            names == texts(ordered@),
            ints(order@) == ranked(ids, names.take(i as int)),
            forall|j: int| 0 <= j < n ==> (#[trigger] taken@[j] <==> ints(order@).contains(j)),
        decreases ordered.len() - i,
    {
        let ghost before = ints(order@);
        let mut k: usize = 0;
        while k < n && (taken[k] || list[k].id != ordered[i])
            invariant
                k <= n,
                i < ordered.len(),
                n == list.len(),
                taken.len() == n,
                ids == item_ids(items(list@)),
                names == texts(ordered@),
                before == ints(order@),
                forall|j: int| 0 <= j < n ==> (#[trigger] taken@[j] <==> before.contains(j)),
                first_free(ids, names[i as int], before, 0) == first_free(
                    ids,
                    names[i as int],
                    before,
                    k as int,
                ),
            decreases n - k,
        {
            assert(ids[k as int] == list@[k as int].id@);
            k += 1;
        }
        assert(names.take(i + 1).drop_last() =~= names.take(i as int));
        assert(names.take(i + 1).last() == names[i as int]);
        if k < n {
            assert(ids[k as int] == list@[k as int].id@);
            assert(first_free(ids, names[i as int], before, 0) == Some(k as int));
            taken.set(k, true);
            order.push(k);
            assert(ints(order@) =~= before.push(k as int));
            assert forall|j: int| 0 <= j < n implies (#[trigger] taken@[j] <==> ints(
                order@,
            ).contains(j)) by {
                let now = ints(order@);
                if j == k {
                    assert(now[now.len() - 1] == j);
                } else if before.contains(j) {
                    let m = choose|m: int| 0 <= m < before.len() && before[m] == j;
                    assert(now[m] == j);
                } else if now.contains(j) {
                    let m = choose|m: int| 0 <= m < now.len() && now[m] == j;
                    assert(before[m] == j);
                }
            }
        }
        i += 1;
    }
    assert(names.take(i as int) =~= names);
    let ghost front = ints(order@);
    let mut k: usize = 0;
    while k < n
        invariant
            k <= n,
            taken.len() == n,
            ints(order@) == completed(front, k as int),
            forall|j: int| 0 <= j < n ==> (#[trigger] taken@[j] <==> front.contains(j)),
        decreases n - k,
    {
        if !taken[k] {
            let ghost before = ints(order@);
            order.push(k);
            assert(ints(order@) =~= before.push(k as int));
        }
        k += 1;
    }
    proof {
        reordering_keeps_every_item(ids, names);
        lemma_items_at(list@, ints(order@));
    }
    take_at(list, &order)
}

/// The order in which a block that names none plays a list of episodes.
pub open spec fn episode_order() -> OrderModel {
    OrderModel::Sort("season:asc,episode:asc"@)
}

/// Whether the catalog vouches that every item of a list is an episode.
pub open spec fn all_episodes(catalog: Catalog, ids: Seq<Seq<char>>) -> bool {
    &&& ids.len() > 0
    &&& forall|i: int|
        0 <= i < ids.len() ==> (catalog.row(#[trigger] ids[i]) matches Some(e) && e.kind@
            == "episode"@)
}

/// The order that a block's list is put in: the one it names; else, for a list of episodes,
/// by season and episode; else as authored.
pub open spec fn effective(
    catalog: Option<Catalog>,
    authored: Option<Order>,
    ids: Seq<Seq<char>>,
) -> OrderModel {
    match (authored, catalog) {
        (Some(own), _) => own@,
        (None, Some(c)) => if all_episodes(c, ids) {
            episode_order()
        } else {
            OrderModel::Manual
        },
        (None, None) => OrderModel::Manual,
    }
}

fn vouches_for_episodes(catalog: &Catalog, ids: &Vec<String>) -> (out: bool)
    ensures
        out == all_episodes(*catalog, texts(ids@)),
{
    if ids.len() == 0 {
        return false;
    }
    let ghost all = texts(ids@);
    let mut i: usize = 0;
    while i < ids.len()
        invariant
            i <= ids.len(),
            all == texts(ids@),
            forall|j: int|
                0 <= j < i ==> (catalog.row(#[trigger] all[j]) matches Some(e) && e.kind@
                    == "episode"@),
        decreases ids.len() - i,
    {
        assert(all[i as int] == ids@[i as int]@);
        match catalog.entry(&ids[i]) {
            Some(e) => {
                if !same_text(e.kind.as_str(), "episode") {
                    return false;
                }
            },
            None => return false,
        }
        i += 1;
    }
    true
}

/// The order that a block's list is put in.
fn effective_order(catalog: Option<&Catalog>, authored: &Option<Order>, ids: &Vec<String>) -> (out:
    Order)
    ensures
        out@ == effective(behind(catalog), *authored, texts(ids@)),
{
    match (authored, catalog) {
        (Some(own), _) => own.copy(),
        (None, Some(c)) => {
            if vouches_for_episodes(c, ids) {
                Order::Sort("season:asc,episode:asc".to_owned())
            } else {
                Order::Manual
            }
        },
        (None, None) => Order::Manual,
    }
}

/// A block's list in its order.
pub open spec fn ordered(
    catalog: Option<Catalog>,
    authored: Option<Order>,
    seed: u64,
    list: Seq<ItemModel>,
) -> Result<Seq<ItemModel>, Fault> {
    let order = effective(catalog, authored, item_ids(list));
    match (order, catalog) {
        (OrderModel::Manual, _) => Ok(list),
        (_, None) => Err(Fault::OrderNeedsCatalog { order }),
        (_, Some(c)) => match in_order(c, item_ids(list), order, seed) {
            Err(fault) => Err(fault),
            Ok(ordered) => Ok(reorder(list, ordered)),
        },
    }
}

/// Puts a list in an order that the catalog knows.
pub fn apply_order(
    catalog: Option<&Catalog>,
    list: Vec<ResolvedItem>,
    authored: &Option<Order>,
    seed: u64,
) -> (out: Result<Vec<ResolvedItem>, ResolveError>)
    ensures
        same_items(out, ordered(behind(catalog), *authored, seed, items(list@))),
{
    let ids: Vec<String> = ids_of(&list);
    let order: Order = effective_order(catalog, authored, &ids);
    let manual: bool = match &order {
        Order::Manual => true,
        _ => false,
    };
    if manual {
        return Ok(list);
    }
    match catalog {
        None => Err(ResolveError::OrderNeedsCatalog { order }),
        Some(c) => match ask_order(c, ids, &order, seed) {
            Ok(ordered) => Ok(reorder_to(list, &ordered)),
            Err(e) => Err(e),
        },
    }
}

/// What is left of a list that is counted off.
pub open spec fn counted<T>(list: Seq<T>, mode: Mode) -> Seq<T> {
    match mode {
        Mode::All => list,
        Mode::Count(n) => if n <= list.len() {
            list.take(n as int)
        } else {
            list
        },
    }
}

/// What the entries of a block play, once they are filtered, rid of duplicates, ordered and
/// counted off.
pub open spec fn entries_block(
    catalog: Option<Catalog>,
    block: BlockInclude,
    idx: usize,
    around: Surroundings,
) -> Result<Seq<ItemModel>, ConfigFault> {
    match all_entries(catalog, block.entries@, around) {
        Err(fault) => Err(ConfigFault::in_block(idx, fault)),
        Ok(own) => {
            let settled = match (own.len() == 0, block.fallback) {
                (true, Some(fallback)) => match fallback_items(catalog, fallback, around) {
                    Err(fault) => Err(ConfigFault::in_fallback(idx, fault)),
                    Ok(list) => Ok(list),
                },
                _ => Ok(own),
            };
            match settled {
                Err(fault) => Err(fault),
                Ok(list) => narrowed_block(catalog, block, idx, around.seed, list),
            }
        },
    }
}

/// What a block's resolved list plays, once it is filtered, rid of duplicates, ordered and
/// counted off.
pub open spec fn narrowed_block(
    catalog: Option<Catalog>,
    block: BlockInclude,
    idx: usize,
    seed: u64,
    list: Seq<ItemModel>,
) -> Result<Seq<ItemModel>, ConfigFault> {
    let kept = match block.filter {
        Some(filter) => if filter.seasons is None && filter.episode_ids is None {
            Ok(list)
        } else {
            filtered(catalog, list, filter)
        },
        None => Ok(list),
    };
    match kept {
        Err(fault) => Err(ConfigFault::in_block(idx, fault)),
        Ok(kept) => {
            let single = if block.duplicates == Some(Duplicates::Keep) {
                kept
            } else {
                collapsed(kept)
            };
            match ordered(catalog, block.order, seed, single) {
                Err(fault) => Err(ConfigFault::in_block(idx, fault)),
                Ok(all) => Ok(counted(all, block.mode)),
            }
        },
    }
}

/// Whether a list of items, or what went wrong instead, is the one that is wanted.
pub open spec fn same_block(
    out: Result<Vec<ResolvedItem>, ConfigError>,
    want: Result<Seq<ItemModel>, ConfigFault>,
) -> bool {
    match (out, want) {
        (Ok(got), Ok(want)) => items(got@) == want,
        (Err(got), Err(want)) => got@ == want,
        _ => false,
    }
}

fn count_off(list: Vec<ResolvedItem>, mode: Mode) -> (out: Vec<ResolvedItem>)
    ensures
        items(out@) == counted(items(list@), mode),
{
    let mut out: Vec<ResolvedItem> = list;
    let ghost all = items(out@);
    match mode {
        Mode::All => {},
        Mode::Count(n) => {
            out.truncate(n);
            assert(items(out@) =~= counted(all, mode));
        },
    }
    out
}

fn narrow_block(
    catalog: Option<&Catalog>,
    block: &BlockInclude,
    idx: usize,
    seed: u64,
    list: Vec<ResolvedItem>,
) -> (out: Result<Vec<ResolvedItem>, ConfigError>)
    ensures
        same_block(out, narrowed_block(behind(catalog), *block, idx, seed, items(list@))),
{
    let kept: Vec<ResolvedItem> = match &block.filter {
        Some(filter) => {
            if filter.seasons.is_none() && filter.episode_ids.is_none() {
                list
            } else {
                match apply_filter(catalog, list, filter) {
                    Ok(kept) => kept,
                    Err(e) => return Err(ConfigError::in_block(idx, e)),
                }
            }
        },
        None => list,
    };
    let keep: bool = match block.duplicates {
        Some(Duplicates::Keep) => true,
        _ => false,
    };
    // Duplicates go before the order, so that which of them survives does not depend on a
    // shuffle.
    let single: Vec<ResolvedItem> = if keep {
        kept
    } else {
        collapse_duplicates(kept)
    };
    match apply_order(catalog, single, &block.order, seed) {
        Ok(all) => Ok(count_off(all, block.mode)),
        Err(e) => Err(ConfigError::in_block(idx, e)),
    }
}

/// What items drawn from pools make, with what plugins attached to them.
pub open spec fn drawn_items(
    catalog: Catalog,
    ids: Seq<String>,
    defaults: Option<ProgramModel>,
    guide: Option<GuideConfig>,
    guides: Seq<(String, GuideConfig)>,
    metadata: Seq<(String, Arc<ScriptValue>)>,
) -> Result<Seq<ItemModel>, Fault>
    decreases ids.len(),
{
    if ids.len() == 0 {
        Ok(Seq::empty())
    } else {
        match drawn_items(catalog, ids.drop_last(), defaults, guide, guides, metadata) {
            Err(fault) => Err(fault),
            Ok(made) => match catalog_entry_item(
                catalog,
                ids.last(),
                defaults,
                guide_over(entry_of(guides, ids.last()@), guide),
            ) {
                Err(fault) => Err(fault),
                Ok(None) => Ok(made),
                Ok(Some(item)) => Ok(
                    made.push(ItemModel { metadata: entry_of(metadata, item.id), ..item }),
                ),
            },
        }
    }
}

proof fn lemma_drawn_items_err(
    catalog: Catalog,
    ids: Seq<String>,
    defaults: Option<ProgramModel>,
    guide: Option<GuideConfig>,
    guides: Seq<(String, GuideConfig)>,
    metadata: Seq<(String, Arc<ScriptValue>)>,
    i: int,
)
    requires
        0 <= i <= ids.len(),
        drawn_items(catalog, ids.take(i), defaults, guide, guides, metadata) is Err,
    ensures
        drawn_items(catalog, ids, defaults, guide, guides, metadata) == drawn_items(
            catalog,
            ids.take(i),
            defaults,
            guide,
            guides,
            metadata,
        ),
    decreases ids.len(),
{
    if i < ids.len() {
        assert(ids.drop_last().take(i) =~= ids.take(i));
        lemma_drawn_items_err(catalog, ids.drop_last(), defaults, guide, guides, metadata, i);
    } else {
        assert(ids.take(i) =~= ids);
    }
}

/// What a block that draws from pools plays, once it is counted off.
pub open spec fn pool_block(
    catalog: Catalog,
    ids: Seq<String>,
    defaults: Option<ProgramModel>,
    guide: Option<GuideConfig>,
    replies: RepliesModel,
    mode: Mode,
    idx: usize,
) -> Result<Seq<ItemModel>, ConfigFault> {
    match drawn_items(catalog, ids, defaults, guide, replies.guides, replies.metadata) {
        Err(fault) => Err(ConfigFault::in_block(idx, fault)),
        Ok(list) => Ok(counted(list, mode)),
    }
}

/// Makes items of what a block drew from its pools: looks them up in the catalog, attaches
/// what plugins gave with them, and counts them off. What nothing can play is skipped, and
/// what comes after it moves up.
pub fn resolve_pool_block_items(
    catalog: &Catalog,
    ids: &Vec<String>,
    defaults: Option<&ProgramMetadata>,
    guide: Option<&GuideConfig>,
    replies: &Replies,
    mode: Mode,
    idx: usize,
) -> (out: Result<Vec<ResolvedItem>, ConfigError>)
    ensures
        same_block(
            out,
            pool_block(*catalog, ids@, program(defaults), unref(guide), replies@, mode, idx),
        ),
{
    let mut out: Vec<ResolvedItem> = Vec::new();
    let mut i: usize = 0;
    assert(items(out@) =~= Seq::<ItemModel>::empty());
    while i < ids.len()
        invariant
            i <= ids.len(),
            drawn_items(
                *catalog,
                ids@.take(i as int),
                program(defaults),
                unref(guide),
                replies.guides@,
                replies.metadata@,
            ) == Ok::<Seq<ItemModel>, Fault>(items(out@)),
        decreases ids.len() - i,
    {
        let own: Option<&GuideConfig> = lookup(&replies.guides, &ids[i]);
        let effective: Option<GuideConfig> = GuideConfig::cascade(None, own, guide);
        let template: Option<&GuideConfig> = match &effective {
            Some(g) => Some(g),
            None => None,
        };
        assert(unref(template) == guide_over(
            entry_of(replies.guides@, ids@[i as int]@),
            unref(guide),
        ));
        let made: Result<Option<ResolvedItem>, ResolveError> = catalog_item(
            catalog,
            &ids[i],
            defaults,
            template,
        );
        i += 1;
        assert(ids@.take(i as int).drop_last() =~= ids@.take(i - 1));
        match made {
            Ok(Some(item)) => {
                let ghost before = items(out@);
                let mut item: ResolvedItem = item;
                let ghost bare = item@;
                item.metadata = match lookup(&replies.metadata, &item.id) {
                    Some(value) => Some(share(value)),
                    None => None,
                };
                assert(item@ == (ItemModel {
                    metadata: entry_of(replies.metadata@, bare.id),
                    ..bare
                }));
                out.push(item);
                assert(items(out@) =~= before.push(item@));
            },
            Ok(None) => {},
            Err(e) => {
                proof {
                    lemma_drawn_items_err(
                        *catalog,
                        ids@,
                        program(defaults),
                        unref(guide),
                        replies.guides@,
                        replies.metadata@,
                        i as int,
                    );
                }
                return Err(ConfigError::in_block(idx, e));
            },
        }
    }
    assert(ids@.take(i as int) =~= ids@);
    Ok(count_off(out, mode))
}

impl BlockInclude {
    /// Whether the block interleaves pools by a pattern.
    pub open spec fn patterned(self) -> bool {
        self.pattern@.len() > 0
    }

    /// Whether the block interleaves pools by a pattern.
    pub fn is_pattern(&self) -> (out: bool)
        ensures
            out == self.patterned(),
    {
        self.pattern.len() > 0
    }

    /// Whether the block hands its pools to a script.
    pub fn is_sequencer(&self) -> (out: bool)
        ensures
            out == (self.sequencer is Some),
    {
        self.sequencer.is_some()
    }

    /// Whether the block draws from pools.
    pub open spec fn draws(self) -> bool {
        self.patterned() || self.sequencer is Some
    }
}

/// Everything that a generation resolves a channel from.
pub struct Inputs {
    pub catalog: Option<Catalog>,
    /// What scripts gave, block by block.
    pub replies: Seq<Replies>,
    pub state: GenerationState,
    pub seed: u64,
    /// How much airtime is still to be covered, in nanoseconds.
    pub fill: Option<u64>,
    /// When the generation begins airing, in seconds since the epoch.
    pub from: i64,
    pub roots: Seq<String>,
    pub index: Option<Seq<(String, String)>>,
    /// The folder that the paths of scripts are taken from.
    pub base: Seq<char>,
}

/// What a pattern block schedules.
pub open spec fn block_schedule(
    block: BlockInclude,
    idx: int,
    groups: Seq<ShowGroup>,
    inputs: Inputs,
) -> Result<Walk, Fault> {
    schedule(
        inputs.catalog->0,
        block.pools@,
        groups,
        given_for(inputs.replies, idx).picks,
        block.pattern@,
        block.cycles,
        block.constraints,
        inputs.state,
        inputs.seed,
        inputs.fill,
    )
}

/// What a sequenced block schedules.
pub open spec fn block_timeline(
    block: BlockInclude,
    idx: int,
    groups: Seq<ShowGroup>,
    inputs: Inputs,
) -> Result<Timeline, Fault> {
    sequenced(
        inputs.catalog->0,
        block.pools@,
        groups,
        given_for(inputs.replies, idx).picks,
        block.constraints,
        joined(inputs.base, block.sequencer->0@),
        given_for(inputs.replies, idx).arranged,
        inputs.state.tail@,
        Window { from: inputs.from, fill: inputs.fill },
    )
}

/// The guide defaults of a block, as mathematical values.
pub open spec fn own_program(block: BlockInclude) -> Option<ProgramModel> {
    match block.program {
        Some(p) => Some(p@),
        None => None,
    }
}

/// What one block of a channel plays.
pub open spec fn block_items(
    block: BlockInclude,
    idx: usize,
    groups: Seq<ShowGroup>,
    guide: Option<GuideConfig>,
    inputs: Inputs,
) -> Result<Seq<ItemModel>, ConfigFault> {
    let defaults = own_program(block);
    let templates = guide_over(block.guide, guide);
    if block.patterned() {
        if inputs.catalog is None {
            Err(ConfigFault::in_block(idx, Fault::NeedsCatalog { need: Need::PatternBlock }))
        } else {
            match block_schedule(block, idx as int, groups, inputs) {
                Err(fault) => Err(ConfigFault::in_block(idx, fault)),
                Ok(walk) => pool_block(
                    inputs.catalog->0,
                    walk.out,
                    defaults,
                    templates,
                    given_for(inputs.replies, idx as int),
                    block.mode,
                    idx,
                ),
            }
        }
    } else if block.sequencer is Some {
        if inputs.catalog is None {
            Err(ConfigFault::in_block(idx, Fault::NeedsCatalog { need: Need::SequencerBlock }))
        } else {
            match block_timeline(block, idx as int, groups, inputs) {
                Err(fault) => Err(ConfigFault::in_block(idx, fault)),
                Ok(timeline) => pool_block(
                    inputs.catalog->0,
                    timeline.out,
                    defaults,
                    templates,
                    given_for(inputs.replies, idx as int),
                    block.mode,
                    idx,
                ),
            }
        }
    } else {
        entries_block(
            inputs.catalog,
            block,
            idx,
            Surroundings {
                defaults,
                guide: templates,
                seed: inputs.seed,
                roots: inputs.roots,
                index: inputs.index,
            },
        )
    }
}

/// Whether a table is what one block leaves to resume from: each of its pools with the
/// series whose turn is next, and nothing for a block that draws from none.
pub open spec fn block_table(
    block: BlockInclude,
    idx: int,
    groups: Seq<ShowGroup>,
    inputs: Inputs,
    table: Seq<(String, PoolResume)>,
) -> bool {
    if block.patterned() {
        block_schedule(block, idx, groups, inputs) matches Ok(walk) && leaves(walk.pools, table)
    } else if block.sequencer is Some {
        block_timeline(block, idx, groups, inputs) matches Ok(timeline) && crate::resume::records(
            pool_names(block.pools@),
            turns_after(timeline.pools, timeline.out),
            table,
        )
    } else {
        table.len() == 0
    }
}

/// Everything that a generation resolves a channel from, besides its catalog, its index and
/// what it is to be told apart by.
#[derive(Debug)]
pub struct Context<'a> {
    pub catalog: Option<&'a Catalog>,
    /// What scripts gave, block by block.
    pub replies: &'a Vec<Replies>,
    pub state: &'a GenerationState,
    pub seed: u64,
    /// How much airtime is still to be covered, in nanoseconds.
    pub fill: Option<u64>,
    /// When the generation begins airing, in seconds since the epoch.
    pub from: i64,
    /// The mount roots that a local path is told without.
    pub identity_roots: &'a Vec<String>,
    /// The catalog's items by their canonical paths.
    pub path_index: Option<&'a Vec<(String, String)>>,
    /// The folder that the paths of scripts are taken from.
    pub base_dir: &'a str,
}

impl<'a> View for Context<'a> {
    type V = Inputs;

    open spec fn view(&self) -> Inputs {
        Inputs {
            catalog: behind(self.catalog),
            replies: self.replies@,
            state: *self.state,
            seed: self.seed,
            fill: self.fill,
            from: self.from,
            roots: self.identity_roots@,
            index: rows(self.path_index),
            base: self.base_dir@,
        }
    }
}

/// Resolves one block of a channel: gives its items, and what its pools resume from.
pub fn resolve_block(
    block: &BlockInclude,
    idx: usize,
    groups: &Vec<ShowGroup>,
    channel_guide: Option<&GuideConfig>,
    context: &Context<'_>,
) -> (out: Result<(Vec<ResolvedItem>, Vec<(String, PoolResume)>), ConfigError>)
    ensures
        match (out, block_items(*block, idx, groups@, unref(channel_guide), context@)) {
            (Ok(got), Ok(want)) => items(got.0@) == want && block_table(
                *block,
                idx as int,
                groups@,
                context@,
                got.1@,
            ),
            (Err(got), Err(want)) => got@ == want,
            _ => false,
        },
{
    let defaults: Option<&ProgramMetadata> = match &block.program {
        Some(p) => Some(p),
        None => None,
    };
    let own_guide: Option<&GuideConfig> = match &block.guide {
        Some(g) => Some(g),
        None => None,
    };
    let templates: Option<GuideConfig> = GuideConfig::cascade(None, own_guide, channel_guide);
    let guide: Option<&GuideConfig> = match &templates {
        Some(g) => Some(g),
        None => None,
    };
    let constraints: Option<&Constraints> = match &block.constraints {
        Some(c) => Some(c),
        None => None,
    };
    assert(unref(guide) == guide_over(block.guide, unref(channel_guide)));
    assert(program(defaults) == own_program(*block));
    let none: Replies = Replies::none();
    let replies: &Replies = if idx < context.replies.len() {
        &context.replies[idx]
    } else {
        &none
    };
    assert(replies@ == given_for(context.replies@, idx as int));
    if block.is_pattern() {
        let catalog: &Catalog = match context.catalog {
            Some(c) => c,
            None => return Err(
                ConfigError::in_block(
                    idx,
                    ResolveError::NeedsCatalog { need: Need::PatternBlock },
                ),
            ),
        };
        let (ids, table): (Vec<String>, Vec<(String, PoolResume)>) = match crate::pattern::build(
            catalog,
            &block.pools,
            groups,
            &replies.picks,
            &block.pattern,
            block.cycles,
            constraints,
            context.state,
            context.seed,
            context.fill,
        ) {
            Ok(built) => built,
            Err(e) => return Err(ConfigError::in_block(idx, e)),
        };
        return match resolve_pool_block_items(
            catalog,
            &ids,
            defaults,
            guide,
            replies,
            block.mode,
            idx,
        ) {
            Ok(list) => Ok((list, table)),
            Err(e) => Err(e),
        };
    }
    match &block.sequencer {
        Some(script) => {
            let catalog: &Catalog = match context.catalog {
                Some(c) => c,
                None => return Err(
                    ConfigError::in_block(
                        idx,
                        ResolveError::NeedsCatalog { need: Need::SequencerBlock },
                    ),
                ),
            };
            let path: String = resolve_plugin_path(context.base_dir, script.as_str());
            let reply: Option<&ArrangeReply> = match &replies.arranged {
                Some(reply) => Some(reply),
                None => None,
            };
            let window: Window = Window { from: context.from, fill: context.fill };
            let (ids, table): (Vec<String>, Vec<(String, PoolResume)>) =
                match crate::sequence::build(
                catalog,
                &block.pools,
                groups,
                &replies.picks,
                constraints,
                &path,
                reply,
                context.state,
                window,
            ) {
                Ok(built) => built,
                Err(e) => return Err(ConfigError::in_block(idx, e)),
            };
            return match resolve_pool_block_items(
                catalog,
                &ids,
                defaults,
                guide,
                replies,
                block.mode,
                idx,
            ) {
                Ok(list) => Ok((list, table)),
                Err(e) => Err(e),
            };
        },
        None => {},
    }
    let own: Vec<ResolvedItem> = match resolve_entries(
        context.catalog,
        &block.entries,
        defaults,
        guide,
        context.seed,
        context.identity_roots,
        context.path_index,
    ) {
        Ok(list) => list,
        Err(e) => return Err(ConfigError::in_block(idx, e)),
    };
    // A block must not go dark because its entries resolved to nothing; a fallback stands
    // in for them and goes through all that they would have gone through.
    let list: Vec<ResolvedItem> = match (own.len() == 0, &block.fallback) {
        (true, Some(fallback)) => match resolve_fallback(
            context.catalog,
            fallback,
            defaults,
            guide,
            context.seed,
            context.identity_roots,
            context.path_index,
        ) {
            Ok(list) => list,
            Err(error) => return Err(
                ConfigError {
                    kind: ErrorKind::Unsupported,
                    block: Some(idx),
                    fallback: true,
                    error,
                },
            ),
        },
        _ => own,
    };
    match narrow_block(context.catalog, block, idx, context.seed, list) {
        Ok(list) => Ok((list, Vec::new())),
        Err(e) => Err(e),
    }
}

} // verus!
