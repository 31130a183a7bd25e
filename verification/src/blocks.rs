//! What holds of a block of entries: which items its entries give, which of them a filter keeps,
//! what becomes of duplicates, and in which order and how many of them play.

use vstd::prelude::*;

use crate::catalog::{collections_named, members_of, Answer, Catalog, Collection};
use crate::config::{Duplicates, Filter, Mode, Order, OrderModel, ShowGroup};
use crate::fault::{ConfigFault, Fault, Need};
use crate::item::{
    authored_item, catalog_entry_item, guide_over, item_ids, GuideConfig, ItemModel, ProgramModel,
};
use crate::names::{entry_of, has_name, texts};
use crate::orders::{
    at_positions, completed, first_free, first_of_each, first_of_each_keeps_one_of_each,
    is_selection, lemma_ranked, ranked, reordered, reordering_keeps_every_item,
};
use crate::resolve::{
    all_entries, catalog_items, collapsed, collection_items, counted, drawn_items, effective,
    entries_block, entry_items, fallback_items, filter_keeps, filtered, missing_show,
    narrowed_block, ordered, query_items, reorder, BlockEntry, BlockInclude, Fallback, QueryEntry,
    Surroundings,
};
use crate::script::ScriptValue;
use std::sync::Arc;

verus! {

/// Whether a filter keeps an item: its season, by its row of the catalog, is one of those that
/// are listed, and its identity is one of those that are listed, each where something is listed.
pub open spec fn is_kept(catalog: Option<Catalog>, filter: Filter, id: Seq<char>) -> bool {
    &&& filter.seasons matches Some(listed) ==> exists|k: int|
        0 <= k < listed@.len() && catalog is Some && catalog->0.row(id) is Some
            && catalog->0.row(id)->0.season is Some && catalog->0.row(id)->0.season->0
            == #[trigger] listed@[k]
    &&& filter.episode_ids matches Some(listed) ==> exists|k: int|
        0 <= k < listed@.len() && #[trigger] listed@[k]@ == id
}

/// A filter keeps of a list exactly the items of the seasons and the identities that it lists. It
/// can be applied unless it lists seasons and there is no catalog to tell them by.
pub proof fn a_filter_keeps_what_it_lists(
    catalog: Option<Catalog>,
    list: Seq<ItemModel>,
    filter: Filter,
)
    ensures
        filtered(catalog, list, filter) is Ok <==> !(filter.seasons is Some && catalog is None),
        filtered(catalog, list, filter) matches Err(fault) ==> fault == (Fault::NeedsCatalog {
            need: Need::SeasonFilter,
        }),
        filtered(catalog, list, filter) matches Ok(kept) ==> {
            &&& forall|i: int|
                0 <= i < kept.len() ==> list.contains(#[trigger] kept[i]) && is_kept(
                    catalog,
                    filter,
                    kept[i].id,
                )
            &&& forall|i: int|
                0 <= i < list.len() && is_kept(catalog, filter, (#[trigger] list[i]).id)
                    ==> kept.contains(list[i])
            &&& (forall|i: int|
                0 <= i < list.len() ==> is_kept(catalog, filter, (#[trigger] list[i]).id))
                ==> kept.len() == list.len()
        },
{
    let keeps = |i: ItemModel| filter_keeps(catalog, filter, i.id);
    assert forall|id: Seq<char>| #[trigger]
        filter_keeps(catalog, filter, id) == is_kept(catalog, filter, id) by {
        if let Some(listed) = filter.episode_ids {
            if has_name(listed@, id) {
                let k = choose|k: int| 0 <= k < listed@.len() && #[trigger] listed@[k]@ == id;
                assert(listed@[k]@ == id);
            }
        }
    }
    if let Ok(kept) = filtered(catalog, list, filter) {
        assert forall|i: int| 0 <= i < kept.len() implies list.contains(#[trigger] kept[i])
            && is_kept(catalog, filter, kept[i].id) by {
            list.lemma_filter_contains_rev(keeps, kept[i]);
            list.lemma_filter_pred(keeps, i);
        }
        assert forall|i: int|
            0 <= i < list.len() && is_kept(
                catalog,
                filter,
                (#[trigger] list[i]).id,
            ) implies kept.contains(list[i]) by {
            assert(filter_keeps(catalog, filter, list[i].id));
            list.lemma_filter_contains(keeps, i);
        }
        if forall|i: int|
            0 <= i < list.len() ==> is_kept(catalog, filter, (#[trigger] list[i]).id) {
            assert forall|i: int| 0 <= i < list.len() implies #[trigger] keeps(list[i]) by {
                assert(is_kept(catalog, filter, list[i].id));
                assert(filter_keeps(catalog, filter, list[i].id));
            }
            lemma_filter_all(list, keeps);
        }
    }
}

proof fn lemma_filter_all(list: Seq<ItemModel>, keeps: spec_fn(ItemModel) -> bool)
    requires
        forall|i: int| 0 <= i < list.len() ==> #[trigger] keeps(list[i]),
    ensures
        list.filter(keeps) == list,
    decreases list.len(),
{
    reveal(Seq::filter);
    if list.len() > 0 {
        let fewer = list.drop_last();
        assert forall|i: int| 0 <= i < fewer.len() implies #[trigger] keeps(fewer[i]) by {
            assert(keeps(list[i]));
        }
        lemma_filter_all(fewer, keeps);
        assert(keeps(list[list.len() - 1]));
        assert(list.filter(keeps) =~= list);
    } else {
        assert(list.filter(keeps) =~= list);
    }
}

/// Collapsing duplicates leaves every identity once, where it came first, with the items in
/// their order.
pub proof fn duplicates_collapse_onto_the_first(list: Seq<ItemModel>)
    ensures
        forall|i: int, j: int|
            0 <= i < j < collapsed(list).len() ==> (#[trigger] collapsed(list)[i]).id != (
            #[trigger] collapsed(list)[j]).id,
        forall|i: int|
            0 <= i < list.len() && (forall|j: int|
                0 <= j < i ==> (#[trigger] list[j]).id != list[i].id) ==> collapsed(list).contains(
                #[trigger] list[i],
            ),
        (forall|i: int, j: int|
            0 <= i < j < list.len() ==> (#[trigger] list[i]).id != (#[trigger] list[j]).id)
            ==> collapsed(list) == list,
{
    let ids = item_ids(list);
    first_of_each_keeps_one_of_each(ids);
    let order = first_of_each(ids);
    assert forall|i: int, j: int| 0 <= i < j < collapsed(list).len() implies (
    #[trigger] collapsed(list)[i]).id != (#[trigger] collapsed(list)[j]).id by {
        assert(ids[order[i]] != ids[order[j]]);
        assert(collapsed(list)[i] == list[order[i]]);
        assert(collapsed(list)[j] == list[order[j]]);
    }
    assert forall|i: int|
        0 <= i < list.len() && (forall|j: int|
            0 <= j < i ==> (#[trigger] list[j]).id != list[i].id) implies collapsed(list).contains(
        #[trigger] list[i],
    ) by {
        assert(!ids.take(i).contains(ids[i])) by {
            if ids.take(i).contains(ids[i]) {
                let j = choose|j: int| 0 <= j < i && ids.take(i)[j] == ids[i];
                assert(ids.take(i)[j] == list[j].id);
            }
        }
        assert(order.contains(i));
        let k = choose|k: int| 0 <= k < order.len() && order[k] == i;
        assert(collapsed(list)[k] == list[i]);
    }
    if forall|i: int, j: int|
        0 <= i < j < list.len() ==> (#[trigger] list[i]).id != (#[trigger] list[j]).id {
        lemma_all_first(ids);
        assert(collapsed(list) =~= list);
    }
}

proof fn lemma_all_first(ids: Seq<Seq<char>>)
    requires
        forall|i: int, j: int| 0 <= i < j < ids.len() ==> #[trigger] ids[i] != #[trigger] ids[j],
    ensures
        first_of_each(ids).len() == ids.len(),
        forall|i: int| 0 <= i < ids.len() ==> #[trigger] first_of_each(ids)[i] == i,
    decreases ids.len(),
{
    if ids.len() > 0 {
        let fewer = ids.drop_last();
        assert forall|i: int, j: int| 0 <= i < j < fewer.len() implies #[trigger] fewer[i]
            != #[trigger] fewer[j] by {
            assert(fewer[i] == ids[i] && fewer[j] == ids[j]);
        }
        lemma_all_first(fewer);
        assert(!fewer.contains(ids.last())) by {
            if fewer.contains(ids.last()) {
                let i = choose|i: int| 0 <= i < fewer.len() && fewer[i] == ids.last();
                assert(ids[i] != ids[ids.len() - 1]);
            }
        }
    }
}

proof fn lemma_free(ids: Seq<Seq<char>>, id: Seq<char>, taken: Seq<int>, at: int, i: int)
    requires
        0 <= i <= at < ids.len(),
        ids[at] == id,
        !taken.contains(at),
        forall|j: int| 0 <= j < ids.len() && j != at ==> #[trigger] ids[j] != id,
    ensures
        first_free(ids, id, taken, i) == Some(at),
    decreases at - i,
{
    if i < at {
        assert(ids[i] != id);
        lemma_free(ids, id, taken, at, i + 1);
    }
}

proof fn lemma_ranked_follows(ids: Seq<Seq<char>>, wanted: Seq<Seq<char>>)
    requires
        ids.no_duplicates(),
        wanted.no_duplicates(),
        forall|i: int| 0 <= i < wanted.len() ==> ids.contains(#[trigger] wanted[i]),
    ensures
        ranked(ids, wanted).len() == wanted.len(),
        forall|k: int|
            0 <= k < wanted.len() ==> 0 <= #[trigger] ranked(ids, wanted)[k] < ids.len()
                && ids[ranked(ids, wanted)[k]] == wanted[k],
    decreases wanted.len(),
{
    if wanted.len() > 0 {
        let fewer = wanted.drop_last();
        assert forall|i: int| 0 <= i < fewer.len() implies ids.contains(#[trigger] fewer[i]) by {
            assert(fewer[i] == wanted[i]);
        }
        assert(fewer.no_duplicates()) by {
            assert forall|i: int, j: int| 0 <= i < fewer.len() && 0 <= j < fewer.len() && i
                != j implies fewer[i] != fewer[j] by {
                assert(fewer[i] == wanted[i] && fewer[j] == wanted[j]);
            }
        }
        lemma_ranked_follows(ids, fewer);
        let earlier = ranked(ids, fewer);
        let last = wanted.last();
        assert(wanted[wanted.len() - 1] == last);
        assert(ids.contains(wanted[wanted.len() - 1]));
        let at = choose|at: int| 0 <= at < ids.len() && ids[at] == last;
        assert(!earlier.contains(at)) by {
            if earlier.contains(at) {
                let k = choose|k: int| 0 <= k < earlier.len() && earlier[k] == at;
                assert(ids[earlier[k]] == fewer[k]);
                assert(wanted[k] == wanted[wanted.len() - 1]);
            }
        }
        assert forall|j: int| 0 <= j < ids.len() && j != at implies #[trigger] ids[j] != last by {
            assert(ids[at] == last);
        }
        lemma_free(ids, last, earlier, at, 0);
    }
}

/// An order that names every item of a list once is followed as it stands.
pub proof fn an_order_is_followed(list: Seq<ItemModel>, wanted: Seq<String>, k: int)
    requires
        item_ids(list).no_duplicates(),
        texts(wanted).no_duplicates(),
        wanted.len() == list.len(),
        forall|i: int| 0 <= i < wanted.len() ==> item_ids(list).contains((#[trigger] wanted[i])@),
        0 <= k < list.len(),
    ensures
        reorder(list, wanted).len() == list.len(),
        reorder(list, wanted)[k].id == wanted[k]@,
{
    let ids = item_ids(list);
    let named = texts(wanted);
    assert forall|i: int| 0 <= i < named.len() implies ids.contains(#[trigger] named[i]) by {
        assert(ids.contains(wanted[i]@));
    }
    lemma_ranked_follows(ids, named);
    lemma_ranked(ids, named);
    reordering_keeps_every_item(ids, named);
    lemma_completed_starts(ranked(ids, named), ids.len() as int);
    let order = reordered(ids, named);
    assert(order[k] == ranked(ids, named)[k]);
    assert(reorder(list, wanted)[k] == list[order[k]]);
    assert(ids[order[k]] == list[order[k]].id);
}

proof fn lemma_completed_starts(order: Seq<int>, n: int)
    ensures
        completed(order, n).len() >= order.len(),
        forall|k: int| 0 <= k < order.len() ==> #[trigger] completed(order, n)[k] == order[k],
    decreases n,
{
    if n > 0 {
        lemma_completed_starts(order, n - 1);
    }
}

/// Ordering a list loses none of its items and repeats none.
pub proof fn an_order_keeps_every_item(list: Seq<ItemModel>, wanted: Seq<String>)
    ensures
        reorder(list, wanted).len() == list.len(),
        exists|order: Seq<int>|
            #![trigger at_positions(list, order)]
            is_selection(order, list.len() as int) && order.len() == list.len() && reorder(
                list,
                wanted,
            ) == at_positions(list, order),
{
    reordering_keeps_every_item(item_ids(list), texts(wanted));
    assert(reorder(list, wanted) == at_positions(
        list,
        reordered(item_ids(list), texts(wanted)),
    ));
}

/// The order that was written is the one that is followed. Where none was, episodes play by
/// season and number, and everything else as it was listed.
pub proof fn what_orders_a_block(
    catalog: Option<Catalog>,
    authored: Option<Order>,
    ids: Seq<Seq<char>>,
)
    ensures
        authored matches Some(own) ==> effective(catalog, authored, ids) == own@,
        authored is None && catalog is None ==> effective(catalog, authored, ids)
            == OrderModel::Manual,
        authored is None && ids.len() == 0 ==> effective(catalog, authored, ids)
            == OrderModel::Manual,
        authored is None && (exists|i: int|
            0 <= i < ids.len() && (catalog->0.row(#[trigger] ids[i]) is None || catalog->0.row(
                ids[i],
            )->0.kind@ != "episode"@)) ==> effective(catalog, authored, ids) == OrderModel::Manual,
        (authored is None && catalog is Some && ids.len() > 0 && forall|i: int|
            0 <= i < ids.len() ==> (catalog->0.row(#[trigger] ids[i]) matches Some(e) && e.kind@
                == "episode"@)) ==> effective(catalog, authored, ids) == OrderModel::Sort(
            "season:asc,episode:asc"@,
        ),
{
}

/// A list in manual order is left as it is; and only another order needs a catalog.
pub proof fn a_manual_order_changes_nothing(
    catalog: Option<Catalog>,
    authored: Option<Order>,
    seed: u64,
    list: Seq<ItemModel>,
)
    ensures
        effective(catalog, authored, item_ids(list)) is Manual ==> ordered(
            catalog,
            authored,
            seed,
            list,
        ) == Ok::<Seq<ItemModel>, Fault>(list),
        !(effective(catalog, authored, item_ids(list)) is Manual) && catalog is None ==> ordered(
            catalog,
            authored,
            seed,
            list,
        ) is Err,
        !(effective(catalog, authored, item_ids(list)) is Manual) && catalog is Some ==> match (
        catalog->0.order_answer(
            item_ids(list),
            effective(catalog, authored, item_ids(list)),
            seed,
        )) {
            Answer::Items(named) => ordered(catalog, authored, seed, list) == Ok::<
                Seq<ItemModel>,
                Fault,
            >(reorder(list, named)),
            _ => ordered(catalog, authored, seed, list) is Err,
        },
{
}

/// A count takes that many items from the start of a list, or all of them where there are fewer;
/// without one all play.
pub proof fn a_count_takes_from_the_start<T>(list: Seq<T>, n: usize, k: int)
    ensures
        counted(list, Mode::All) == list,
        counted(list, Mode::Count(n)).len() == if n <= list.len() {
            n as int
        } else {
            list.len() as int
        },
        0 <= k < counted(list, Mode::Count(n)).len() ==> counted(list, Mode::Count(n))[k]
            == list[k],
{
}

/// A block first filters its list, then collapses duplicates unless it keeps them, then orders
/// what is left, and takes its count of that last.
pub proof fn a_block_narrows_in_steps(
    catalog: Option<Catalog>,
    block: BlockInclude,
    idx: usize,
    seed: u64,
    list: Seq<ItemModel>,
)
    ensures
        block.filter is None && block.duplicates == Some(Duplicates::Keep) && (ordered(
            catalog,
            block.order,
            seed,
            list,
        ) matches Ok(all)) ==> narrowed_block(catalog, block, idx, seed, list) == Ok::<
            Seq<ItemModel>,
            ConfigFault,
        >(counted(ordered(catalog, block.order, seed, list)->Ok_0, block.mode)),
        block.filter is None && block.duplicates != Some(Duplicates::Keep) && (ordered(
            catalog,
            block.order,
            seed,
            collapsed(list),
        ) is Ok) ==> narrowed_block(catalog, block, idx, seed, list) == Ok::<
            Seq<ItemModel>,
            ConfigFault,
        >(counted(ordered(catalog, block.order, seed, collapsed(list))->Ok_0, block.mode)),
        block.filter is Some && !(block.filter->0.seasons is None
            && block.filter->0.episode_ids is None) && filtered(
            catalog,
            list,
            block.filter->0,
        ) is Ok ==> narrowed_block(catalog, block, idx, seed, list) == narrowed_block(
            catalog,
            BlockInclude { filter: None, ..block },
            idx,
            seed,
            filtered(catalog, list, block.filter->0)->Ok_0,
        ),
        block.filter is Some && block.filter->0.seasons is None
            && block.filter->0.episode_ids is None ==> narrowed_block(
            catalog,
            block,
            idx,
            seed,
            list,
        ) == narrowed_block(catalog, BlockInclude { filter: None, ..block }, idx, seed, list),
{
}

/// A block plays its entries one after the other, each as it is written: an item as itself, a
/// query as what answers it, a collection as its members.
pub proof fn entries_play_one_after_the_other(
    catalog: Option<Catalog>,
    entries: Seq<BlockEntry>,
    more: BlockEntry,
    around: Surroundings,
)
    ensures
        all_entries(catalog, Seq::empty(), around) == Ok::<Seq<ItemModel>, Fault>(Seq::empty()),
        all_entries(catalog, entries, around) is Ok && entry_items(catalog, more, around) is Ok
            ==> all_entries(catalog, entries.push(more), around) == Ok::<Seq<ItemModel>, Fault>(
            all_entries(catalog, entries, around)->Ok_0 + entry_items(catalog, more, around)->Ok_0,
        ),
        all_entries(catalog, entries, around) matches Err(fault) ==> all_entries(
            catalog,
            entries.push(more),
            around,
        ) == Err::<Seq<ItemModel>, Fault>(fault),
        more matches BlockEntry::Item(item) ==> entry_items(catalog, more, around) == Ok::<
            Seq<ItemModel>,
            Fault,
        >(seq![authored_item(item, around.defaults, around.guide, around.roots, around.index)]),
        more matches BlockEntry::Query(query) ==> (catalog matches Some(c) ==> entry_items(
            catalog,
            more,
            around,
        ) == query_items(c, query, around.defaults, around.guide, around.seed)),
        more matches BlockEntry::Collection(name) ==> (catalog matches Some(c) ==> entry_items(
            catalog,
            more,
            around,
        ) == collection_items(c, name, around.defaults, around.guide)),
        catalog is None && !(more is Item) ==> entry_items(catalog, more, around) is Err,
{
    assert(entries.push(more).drop_last() =~= entries);
}

/// A block falls back only where its entries give nothing at all.
pub proof fn a_fallback_plays_only_for_nothing(
    catalog: Option<Catalog>,
    block: BlockInclude,
    idx: usize,
    around: Surroundings,
)
    requires
        all_entries(catalog, block.entries@, around) is Ok,
    ensures
        ({
            let own = all_entries(catalog, block.entries@, around)->Ok_0;
            &&& own.len() > 0 || block.fallback is None ==> entries_block(
                catalog,
                block,
                idx,
                around,
            ) == narrowed_block(catalog, block, idx, around.seed, own)
            &&& own.len() == 0 && block.fallback is Some && fallback_items(
                catalog,
                block.fallback->0,
                around,
            ) is Ok ==> entries_block(catalog, block, idx, around) == narrowed_block(
                catalog,
                block,
                idx,
                around.seed,
                fallback_items(catalog, block.fallback->0, around)->Ok_0,
            )
        }),
{
}

/// A fallback plays as an entry of the same writing would.
pub proof fn a_fallback_plays_as_an_entry_would(
    catalog: Catalog,
    fallback: Fallback,
    around: Surroundings,
)
    ensures
        fallback matches Fallback::Query(query) ==> fallback_items(Some(catalog), fallback, around)
            == entry_items(Some(catalog), BlockEntry::Query(query), around),
        fallback matches Fallback::Item(item) ==> fallback_items(Some(catalog), fallback, around)
            == entry_items(Some(catalog), BlockEntry::Item(item), around),
{
}

/// Items of the catalog are made one for one, in the order of the identities; one that cannot be
/// played is left out.
pub proof fn items_are_made_in_order(
    catalog: Catalog,
    ids: Seq<String>,
    more: String,
    defaults: Option<ProgramModel>,
    guide: Option<GuideConfig>,
)
    requires
        catalog_items(catalog, ids, defaults, guide) is Ok,
    ensures
        ({
            let made = catalog_items(catalog, ids, defaults, guide)->Ok_0;
            let all = catalog_items(catalog, ids.push(more), defaults, guide);
            match catalog_entry_item(catalog, more, defaults, guide) {
                Ok(Some(item)) => all == Ok::<Seq<ItemModel>, Fault>(made.push(item)),
                Ok(None) => all == Ok::<Seq<ItemModel>, Fault>(made),
                Err(fault) => all == Err::<Seq<ItemModel>, Fault>(fault),
            }
        }),
{
    assert(ids.push(more).drop_last() =~= ids);
}

/// An item that was drawn plays under the guide of its own identity, where it has one, over that
/// of the block; and carries what was attached to its identity.
pub proof fn a_drawn_item_has_its_own_guide(
    catalog: Catalog,
    ids: Seq<String>,
    more: String,
    defaults: Option<ProgramModel>,
    guide: Option<GuideConfig>,
    guides: Seq<(String, GuideConfig)>,
    metadata: Seq<(String, Arc<ScriptValue>)>,
)
    requires
        drawn_items(catalog, ids, defaults, guide, guides, metadata) is Ok,
    ensures
        ({
            let made = drawn_items(catalog, ids, defaults, guide, guides, metadata)->Ok_0;
            let all = drawn_items(catalog, ids.push(more), defaults, guide, guides, metadata);
            match catalog_entry_item(
                catalog,
                more,
                defaults,
                guide_over(entry_of(guides, more@), guide),
            ) {
                Ok(Some(item)) => {
                    &&& all is Ok
                    &&& all->Ok_0.len() == made.len() + 1
                    &&& all->Ok_0.drop_last() == made
                    &&& all->Ok_0.last().id == item.id
                    &&& all->Ok_0.last().program == item.program
                    &&& all->Ok_0.last().metadata == entry_of(metadata, item.id)
                },
                Ok(None) => all == Ok::<Seq<ItemModel>, Fault>(made),
                Err(fault) => all == Err::<Seq<ItemModel>, Fault>(fault),
            }
        }),
{
    assert(ids.push(more).drop_last() =~= ids);
    if let Ok(list) = drawn_items(catalog, ids.push(more), defaults, guide, guides, metadata) {
        let made = drawn_items(catalog, ids, defaults, guide, guides, metadata)->Ok_0;
        if list.len() == made.len() + 1 {
            assert(list.drop_last() =~= made);
        }
    }
}

/// A query plays what answers it, in the order of the answer, unless it is to be ordered.
pub proof fn a_query_plays_its_answer(
    catalog: Catalog,
    query: QueryEntry,
    defaults: Option<ProgramModel>,
    guide: Option<GuideConfig>,
    seed: u64,
)
    ensures
        match catalog.query_answer(query.query@) {
            Answer::Items(ids) => match query.order {
                None => query_items(catalog, query, defaults, guide, seed) == catalog_items(
                    catalog,
                    ids,
                    defaults,
                    guide,
                ),
                Some(order) => match catalog.order_answer(texts(ids), order@, seed) {
                    Answer::Items(named) => query_items(catalog, query, defaults, guide, seed)
                        == catalog_items(catalog, named, defaults, guide),
                    _ => query_items(catalog, query, defaults, guide, seed) is Err,
                },
            },
            _ => query_items(catalog, query, defaults, guide, seed) is Err,
        },
{
}

/// How many collections have a name.
pub open spec fn count_named(collections: Seq<Collection>, name: Seq<char>) -> int
    decreases collections.len(),
{
    if collections.len() == 0 {
        0
    } else {
        count_named(collections.drop_last(), name) + if collections.last().name@ == name {
            1int
        } else {
            0
        }
    }
}

proof fn lemma_named(collections: Seq<Collection>, name: Seq<char>, i: int)
    requires
        0 <= i < collections.len(),
        collections[i].name@ == name,
    ensures
        collections_named(collections, name).len() == count_named(collections, name),
        count_named(collections, name) >= 1,
        count_named(collections, name) == 1 ==> collections_named(collections, name)[0]
            == collections[i].collection_id,
    decreases collections.len(),
{
    let fewer = collections.drop_last();
    lemma_count_named(fewer, name);
    if i < fewer.len() {
        lemma_named(fewer, name, i);
    }
}

proof fn lemma_count_named(collections: Seq<Collection>, name: Seq<char>)
    ensures
        collections_named(collections, name).len() == count_named(collections, name),
        count_named(collections, name) >= 0,
    decreases collections.len(),
{
    if collections.len() > 0 {
        lemma_count_named(collections.drop_last(), name);
    }
}

proof fn lemma_members(collections: Seq<Collection>, i: int)
    requires
        0 <= i < collections.len(),
        forall|j: int|
            0 <= j < i ==> (#[trigger] collections[j]).collection_id@
                != collections[i].collection_id@,
    ensures
        members_of(collections, collections[i].collection_id@) == collections[i].members@,
    decreases i,
{
    if i > 0 {
        assert(collections[0].collection_id@ != collections[i].collection_id@);
        let rest = collections.drop_first();
        assert forall|j: int| 0 <= j < i - 1 implies (#[trigger] rest[j]).collection_id@
            != rest[i - 1].collection_id@ by {
            assert(rest[j] == collections[j + 1]);
        }
        lemma_members(rest, i - 1);
    }
}

/// A collection is found by its name, where it is the only one of that name, and plays its
/// members in their order; one that is empty, or that is not the only one, is refused.
pub proof fn a_collection_plays_its_members(
    catalog: Catalog,
    name: String,
    i: int,
    defaults: Option<ProgramModel>,
    guide: Option<GuideConfig>,
)
    requires
        0 <= i < catalog.collections@.len(),
        catalog.collections@[i].name@ == name@,
        forall|j: int|
            0 <= j < i ==> (#[trigger] catalog.collections@[j]).collection_id@
                != catalog.collections@[i].collection_id@,
    ensures
        count_named(catalog.collections@, name@) > 1 ==> collection_items(
            catalog,
            name,
            defaults,
            guide,
        ) is Err,
        count_named(catalog.collections@, name@) == 1 && catalog.collections@[i].members@.len() == 0
            ==> collection_items(catalog, name, defaults, guide) is Err,
        count_named(catalog.collections@, name@) == 1 && catalog.collections@[i].members@.len() > 0
            ==> collection_items(catalog, name, defaults, guide) == catalog_items(
            catalog,
            catalog.collections@[i].members@,
            defaults,
            guide,
        ),
{
    lemma_named(catalog.collections@, name@, i);
    lemma_members(catalog.collections@, i);
}

/// A name that no collection has is refused.
pub proof fn a_collection_that_is_not_there_is_refused(
    catalog: Catalog,
    name: String,
    defaults: Option<ProgramModel>,
    guide: Option<GuideConfig>,
)
    requires
        forall|i: int|
            0 <= i < catalog.collections@.len() ==> (#[trigger] catalog.collections@[i]).name@
                != name@,
    ensures
        collection_items(catalog, name, defaults, guide) == Err::<Seq<ItemModel>, Fault>(
            Fault::NoCollection { name },
        ),
{
    lemma_none_named(catalog.collections@, name@);
}

proof fn lemma_none_named(collections: Seq<Collection>, name: Seq<char>)
    requires
        forall|i: int| 0 <= i < collections.len() ==> (#[trigger] collections[i]).name@ != name,
    ensures
        collections_named(collections, name).len() == 0,
    decreases collections.len(),
{
    if collections.len() > 0 {
        let fewer = collections.drop_last();
        assert forall|i: int| 0 <= i < fewer.len() implies (#[trigger] fewer[i]).name@ != name by {
            assert(fewer[i] == collections[i]);
        }
        assert(collections[collections.len() - 1].name@ != name);
        lemma_none_named(fewer, name);
    }
}

/// Groups pass where the catalog has episodes of every show that they list; a show without any is
/// named together with its group.
pub proof fn groups_list_shows_that_have_episodes(catalog: Catalog, groups: Seq<ShowGroup>)
    ensures
        missing_show(catalog, groups, 0, 0) is None <==> forall|g: int, s: int|
            #![trigger groups[g].shows@[s]]
            0 <= g < groups.len() && 0 <= s < groups[g].shows@.len() ==> catalog.episodes_of(
                groups[g].shows@[s]@,
            ).len() > 0,
        missing_show(catalog, groups, 0, 0) matches Some(fault) ==> exists|g: int, s: int|
            #![trigger groups[g].shows@[s]]
            0 <= g < groups.len() && 0 <= s < groups[g].shows@.len() && catalog.episodes_of(
                groups[g].shows@[s]@,
            ).len() == 0 && fault == (Fault::GroupShowMissing {
                group: groups[g].name,
                show: groups[g].shows@[s],
            }),
{
    lemma_missing_show(catalog, groups, 0, 0);
}

proof fn lemma_missing_show(catalog: Catalog, groups: Seq<ShowGroup>, g0: int, s0: int)
    requires
        0 <= g0,
        0 <= s0,
    ensures
        missing_show(catalog, groups, g0, s0) is None ==> forall|g: int, s: int|
            #![trigger groups[g].shows@[s]]
            g0 <= g < groups.len() && 0 <= s < groups[g].shows@.len() && (g > g0 || s >= s0)
                ==> catalog.episodes_of(groups[g].shows@[s]@).len() > 0,
        missing_show(catalog, groups, g0, s0) matches Some(fault) ==> exists|g: int, s: int|
            #![trigger groups[g].shows@[s]]
            g0 <= g < groups.len() && 0 <= s < groups[g].shows@.len() && catalog.episodes_of(
                groups[g].shows@[s]@,
            ).len() == 0 && fault == (Fault::GroupShowMissing {
                group: groups[g].name,
                show: groups[g].shows@[s],
            }),
    decreases groups.len() - g0, groups[g0].shows@.len() - s0,
{
    if g0 < groups.len() {
        if s0 >= groups[g0].shows@.len() {
            lemma_missing_show(catalog, groups, g0 + 1, 0);
        } else if catalog.episodes_of(groups[g0].shows@[s0]@).len() > 0 {
            lemma_missing_show(catalog, groups, g0, s0 + 1);
        }
    }
}

} // verus!
