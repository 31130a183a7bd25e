//! What holds of what plugins ask for and are given: the sets that answer their queries, what they
//! were granted, what they attached, and how a fault is told.

use vstd::prelude::*;

use crate::catalog::{Answer, Catalog, Reply};
use crate::config::Pool;
use crate::datastore::{QuestionModel, StoreModel};
use crate::engine::{gated, store_named};
use crate::fault::{need_text, ConfigFault, ErrorKind, Fault, Need};
use crate::names::{entry_of, putting_changes_one_name};
use crate::paths::joined;
use crate::rank::{is_ranked, ranked_pools, unread};
use crate::score::{
    flattened, item_maps, opened, pool_reply, readied, resolved_set, resolved_sets, seed_for,
    sources_of, unfit, unfit_list, unfit_table, whose_text, DatastoreGrant, Halted, Picked,
    PickedRow, SourceRead,
};
use crate::script::Script;
use crate::text::{decimal, quoted_text};

verus! {

/// A query is answered as it was the first time that it was put to the catalog.
pub proof fn a_query_is_answered_as_it_was_put(catalog: Catalog, query: Seq<char>)
    ensures
        entry_of(catalog.queries@, query) is None ==> catalog.query_answer(query) is Unasked,
        entry_of(catalog.queries@, query) matches Some(Reply::Items(ids)) ==> catalog.query_answer(
            query,
        ) == Answer::Items(ids@),
        entry_of(catalog.queries@, query) matches Some(Reply::Failed(why)) ==> catalog.query_answer(
            query,
        ) == Answer::Failed(why),
{
}

/// A set holds, under its name, what answers its query, item for item.
pub proof fn a_set_holds_what_answers_its_query(
    catalog: Catalog,
    whose: Seq<char>,
    queries: Seq<(Seq<char>, Seq<char>)>,
)
    ensures
        resolved_sets(catalog, whose, queries) matches Ok(sets) ==> sets.len() == queries.len()
            && forall|i: int|
            #![trigger sets[i]]
            0 <= i < sets.len() ==> {
                &&& sets[i].0 == queries[i].0
                &&& catalog.query_answer(queries[i].1) matches Answer::Items(ids)
                &&& item_maps(catalog, ids) matches Ok(maps)
                &&& sets[i].1 == Script::List(maps)
            },
    decreases queries.len(),
{
    if queries.len() > 0 {
        let fewer = queries.drop_last();
        a_set_holds_what_answers_its_query(catalog, whose, fewer);
        if let Ok(sets) = resolved_sets(catalog, whose, queries) {
            let earlier = resolved_sets(catalog, whose, fewer)->Ok_0;
            assert forall|i: int| #![trigger sets[i]] 0 <= i < sets.len() implies {
                &&& sets[i].0 == queries[i].0
                &&& catalog.query_answer(queries[i].1) matches Answer::Items(ids)
                &&& item_maps(catalog, ids) matches Ok(maps)
                &&& sets[i].1 == Script::List(maps)
            } by {
                if i < earlier.len() {
                    assert(sets[i] == earlier[i]);
                    assert(fewer[i] == queries[i]);
                }
            }
        }
    }
}

/// A query that was not put to the catalog halts what needs it, and says which it was.
pub proof fn an_unasked_query_halts_what_needs_it(
    catalog: Catalog,
    whose: Seq<char>,
    name: Seq<char>,
    query: Seq<char>,
)
    ensures
        resolved_set(catalog, whose, name, query) == Err::<Script, Halted>(Halted::Unasked(query))
            <==> entry_of(catalog.queries@, query) is None,
{
}

/// A plugin's queries are those that the channel gives, where it gives any, and else those that
/// the plugin names itself.
pub proof fn a_channel_may_give_the_queries(
    catalog: Catalog,
    path: Seq<char>,
    given: Seq<(Seq<char>, Seq<char>)>,
    reply: Result<Seq<(Seq<char>, Script)>, Seq<char>>,
)
    ensures
        readied(catalog, path, Some(given), reply) matches Ok(sets) ==> resolved_sets(
            catalog,
            whose_text(path, Some(given)),
            given,
        ) matches Ok(table) && sets == Script::Table(table),
        readied(catalog, path, None, reply) matches Ok(sets) ==> (sources_of(path, reply) is Ok
            && resolved_sets(
            catalog,
            whose_text(path, None),
            sources_of(path, reply)->Ok_0,
        ) is Ok && sets == Script::Table(
            resolved_sets(
                catalog,
                whose_text(path, None),
                sources_of(path, reply)->Ok_0,
            )->Ok_0,
        )),
{
}

/// The pools that plugins pick for are those that name a plugin and no other source; they come in
/// their order.
pub proof fn plugins_pick_for_the_pools_that_name_them(pools: Seq<Pool>, more: Pool)
    ensures
        is_ranked(more) <==> more.plugin is Some && more.expr is None && more.groups@.len() == 0,
        ranked_pools(Seq::<Pool>::empty()).len() == 0,
        is_ranked(more) ==> ranked_pools(pools.push(more)) == ranked_pools(pools).push(more),
        !is_ranked(more) ==> ranked_pools(pools.push(more)) == ranked_pools(pools),
{
    assert(pools.push(more).drop_last() =~= pools);
}

/// Nothing is unread where the script of every pool that a plugin picks for was read; and what is
/// unread is the script of such a pool.
pub proof fn an_unread_script_is_named(
    base: Seq<char>,
    scripts: Seq<(String, SourceRead)>,
    pools: Seq<Pool>,
)
    ensures
        unread(base, scripts, pools) is None <==> forall|i: int|
            0 <= i < pools.len() && is_ranked(#[trigger] pools[i]) ==> entry_of(
                scripts,
                joined(base, pools[i].plugin->0@),
            ) is Some,
        unread(base, scripts, pools) matches Some(path) ==> exists|i: int|
            0 <= i < pools.len() && is_ranked(#[trigger] pools[i]) && path == joined(
                base,
                pools[i].plugin->0@,
            ) && entry_of(scripts, path) is None,
    decreases pools.len(),
{
    if pools.len() > 0 {
        let fewer = pools.drop_last();
        an_unread_script_is_named(base, scripts, fewer);
        assert(pools[pools.len() - 1] == pools.last());
        assert forall|i: int| 0 <= i < fewer.len() implies #[trigger] pools[i] == fewer[i] by {}
        if let Some(path) = unread(base, scripts, fewer) {
            let i = choose|i: int|
                0 <= i < fewer.len() && is_ranked(#[trigger] fewer[i]) && path == joined(
                    base,
                    fewer[i].plugin->0@,
                ) && entry_of(scripts, path) is None;
            assert(is_ranked(pools[i]));
        } else if unread(base, scripts, pools) is Some {
            assert(is_ranked(pools[pools.len() - 1]));
        } else {
            assert forall|i: int|
                0 <= i < pools.len() && is_ranked(#[trigger] pools[i]) implies entry_of(
                scripts,
                joined(base, pools[i].plugin->0@),
            ) is Some by {
                if i < fewer.len() {
                    assert(is_ranked(fewer[i]));
                }
            }
        }
    }
}

/// A plugin reads what it was granted, and is refused what it was not.
pub proof fn a_plugin_reads_what_it_was_granted(
    field: Option<Script>,
    capability: Seq<char>,
    stores: Seq<(Seq<char>, StoreModel)>,
    name: Seq<char>,
)
    ensures
        field matches Some(value) ==> gated(field, capability) == Ok::<Script, Seq<char>>(value),
        field is None ==> gated(field, capability) is Err,
        store_named(stores, name) is None <==> forall|i: int|
            0 <= i < stores.len() ==> (#[trigger] stores[i]).0 != name,
        store_named(stores, name) matches Some(store) ==> exists|i: int|
            0 <= i < stores.len() && #[trigger] stores[i] == (name, store) && forall|j: int|
                0 <= j < i ==> (#[trigger] stores[j]).0 != name,
    decreases stores.len(),
{
    if stores.len() > 0 {
        if stores[0].0 == name {
            assert(stores[0] == (name, stores[0].1));
        } else {
            let rest = stores.skip(1);
            a_plugin_reads_what_it_was_granted(field, capability, rest, name);
            if let Some(store) = store_named(rest, name) {
                let i = choose|i: int|
                    0 <= i < rest.len() && #[trigger] rest[i] == (name, store) && forall|j: int|
                        0 <= j < i ==> (#[trigger] rest[j]).0 != name;
                assert(stores[i + 1] == (name, store));
                assert forall|j: int| 0 <= j < i + 1 implies (#[trigger] stores[j]).0 != name by {
                    if j > 0 {
                        assert(rest[j - 1] == stores[j]);
                    }
                }
            } else {
                assert forall|i: int| 0 <= i < stores.len() implies (#[trigger] stores[i]).0
                    != name by {
                    if i > 0 {
                        assert(rest[i - 1] == stores[i]);
                    }
                }
            }
        }
    }
}

/// The datastores that were granted are known by their names, each where the last grant of its
/// name says; and none is open where one could not be opened.
pub proof fn a_store_lies_where_it_was_granted(
    have: Seq<(String, String)>,
    grants: Seq<DatastoreGrant>,
    more: DatastoreGrant,
    name: Seq<char>,
)
    requires
        opened(have, grants) is Ok,
    ensures
        opened(have, Seq::<DatastoreGrant>::empty()) == Ok::<Seq<(String, String)>, Seq<char>>(
            have,
        ),
        more.failure is Some ==> opened(have, grants.push(more)) is Err,
        more.failure is None ==> opened(have, grants.push(more)) is Ok,
        more.failure is None && more.name@ == name ==> entry_of(
            opened(have, grants.push(more))->Ok_0,
            name,
        ) == Some(more.path),
        more.failure is None && more.name@ != name ==> entry_of(
            opened(have, grants.push(more))->Ok_0,
            name,
        ) == entry_of(opened(have, grants)->Ok_0, name),
{
    assert(grants.push(more).drop_last() =~= grants);
    putting_changes_one_name(opened(have, grants)->Ok_0, more.name, more.path);
}

/// Whether a value can be carried along: it holds, however deep, no number that is not finite and
/// nothing that is no plain value.
pub open spec fn can_be_carried(value: Script) -> bool
    decreases value,
{
    match value {
        Script::Float(_, finite) => finite,
        Script::Other(_) => false,
        Script::List(list) => forall|i: int|
            0 <= i < list.len() ==> can_be_carried(#[trigger] list[i]),
        Script::Table(table) => forall|i: int|
            0 <= i < table.len() ==> can_be_carried((#[trigger] table[i]).1),
        _ => true,
    }
}

/// A value is fit to be attached where it can be carried along.
pub proof fn what_is_fit_can_be_carried(value: Script, key: Seq<char>)
    ensures
        unfit(value, key) is None <==> can_be_carried(value),
    decreases value,
{
    match value {
        Script::List(list) => {
            lemma_fit_list(list, key);
        },
        Script::Table(table) => {
            lemma_fit_table(table);
        },
        _ => {},
    }
}

proof fn lemma_fit_list(list: Seq<Script>, key: Seq<char>)
    ensures
        unfit_list(list, key) is None <==> forall|i: int|
            0 <= i < list.len() ==> can_be_carried(#[trigger] list[i]),
    decreases list,
{
    if list.len() > 0 {
        let fewer = list.drop_last();
        lemma_fit_list(fewer, key);
        what_is_fit_can_be_carried(list.last(), key);
        assert(list[list.len() - 1] == list.last());
        if forall|i: int| 0 <= i < list.len() ==> can_be_carried(#[trigger] list[i]) {
            assert(can_be_carried(list[list.len() - 1]));
            assert forall|i: int| 0 <= i < fewer.len() implies can_be_carried(
                #[trigger] fewer[i],
            ) by {
                assert(can_be_carried(list[i]));
            }
        }
        if unfit_list(list, key) is None {
            assert forall|i: int| 0 <= i < list.len() implies can_be_carried(
                #[trigger] list[i],
            ) by {
                if i < fewer.len() {
                    assert(can_be_carried(fewer[i]));
                }
            }
        }
    }
}

proof fn lemma_fit_table(table: Seq<(Seq<char>, Script)>)
    ensures
        unfit_table(table) is None <==> forall|i: int|
            0 <= i < table.len() ==> can_be_carried((#[trigger] table[i]).1),
    decreases table,
{
    if table.len() > 0 {
        let fewer = table.drop_last();
        lemma_fit_table(fewer);
        what_is_fit_can_be_carried(table.last().1, table.last().0);
        assert(table[table.len() - 1] == table.last());
        if forall|i: int| 0 <= i < table.len() ==> can_be_carried((#[trigger] table[i]).1) {
            assert(can_be_carried(table[table.len() - 1].1));
            assert forall|i: int| 0 <= i < fewer.len() implies can_be_carried(
                (#[trigger] fewer[i]).1,
            ) by {
                assert(can_be_carried(table[i].1));
            }
        }
        if unfit_table(table) is None {
            assert forall|i: int| 0 <= i < table.len() implies can_be_carried(
                (#[trigger] table[i]).1,
            ) by {
                if i < fewer.len() {
                    assert(can_be_carried(fewer[i].1));
                }
            }
        }
    }
}

/// What counts of what was attached to an item is what was attached in the last row about it.
pub proof fn the_last_that_was_attached_counts(rows: Seq<PickedRow>, id: Seq<char>, i: int)
    requires
        0 <= i < rows.len(),
        rows[i].id@ == id,
        rows[i].extra.metadata is Some,
        forall|j: int|
            i < j < rows.len() ==> (#[trigger] rows[j]).id@ != id
                || rows[j].extra.metadata is None,
    ensures
        entry_of(flattened(rows), id) == Some(rows[i].extra.metadata->0),
    decreases rows.len(),
{
    let fewer = rows.drop_last();
    assert(rows[rows.len() - 1] == rows.last());
    if let Some(value) = rows.last().extra.metadata {
        putting_changes_one_name(flattened(fewer), rows.last().id, value);
    }
    if i < fewer.len() {
        assert forall|j: int| i < j < fewer.len() implies (#[trigger] fewer[j]).id@ != id
            || fewer[j].extra.metadata is None by {
            assert(fewer[j] == rows[j]);
        }
        the_last_that_was_attached_counts(fewer, id, i);
    }
}

/// An item that nothing was attached to carries nothing.
pub proof fn what_nothing_was_attached_to_carries_nothing(rows: Seq<PickedRow>, id: Seq<char>)
    requires
        forall|j: int|
            0 <= j < rows.len() ==> (#[trigger] rows[j]).id@ != id
                || rows[j].extra.metadata is None,
    ensures
        entry_of(flattened(rows), id) is None,
    decreases rows.len(),
{
    if rows.len() > 0 {
        let fewer = rows.drop_last();
        assert(rows[rows.len() - 1] == rows.last());
        if let Some(value) = rows.last().extra.metadata {
            putting_changes_one_name(flattened(fewer), rows.last().id, value);
        }
        assert forall|j: int| 0 <= j < fewer.len() implies (#[trigger] fewer[j]).id@ != id
            || fewer[j].extra.metadata is None by {
            assert(fewer[j] == rows[j]);
        }
        what_nothing_was_attached_to_carries_nothing(fewer, id);
    }
}

/// A pool is given the identities that were picked for it, in their order.
pub proof fn a_pool_is_given_what_was_picked(items: Seq<Picked>, why: Seq<char>)
    ensures
        pool_reply(Ok(items)) matches Ok(ids) && ids.len() == items.len() && forall|i: int|
            0 <= i < ids.len() ==> #[trigger] ids[i] == items[i].id,
        pool_reply(Err(why)) == Err::<Seq<Seq<char>>, Seq<char>>(why),
{
}

/// A pool rolls by a seed of its own that is never below zero.
pub proof fn a_pool_rolls_by_a_seed_of_its_own(seed: u64, pool: Seq<char>)
    ensures
        seed_for(seed, pool) >= 0,
{
    let mixed = crate::roll::seed_mix(
        seed,
        crate::identity::fnv1a(vstd::utf8::encode_utf8(pool)),
    );
    assert((mixed & 0x7fff_ffff_ffff_ffff) <= 0x7fff_ffff_ffff_ffff) by (bit_vector);
}

/// What lacks a catalog is told by its kind.
pub proof fn what_needs_a_catalog_is_named()
    ensures
        need_text(Need::PatternBlock).take(15) == "a pattern block"@,
        need_text(Need::SequencerBlock).take(17) == "a sequencer block"@,
        need_text(Need::QueryEntry).take(13) == "a query entry"@,
        need_text(Need::CollectionEntry).take(18) == "a collection entry"@,
        need_text(Need::QueryFallback).take(16) == "a query fallback"@,
        need_text(Need::SeasonFilter).take(14) == "filter.seasons"@,
{
    reveal_strlit("a pattern block needs the catalog, which is not available");
    reveal_strlit("a sequencer block needs the catalog, which is not available");
    reveal_strlit("a query entry needs the catalog, which is not available");
    reveal_strlit("a collection entry needs the catalog, which is not available");
    reveal_strlit("a query fallback needs the catalog, which is not available");
    reveal_strlit("filter.seasons needs the catalog, which is not available");
    reveal_strlit("a pattern block");
    reveal_strlit("a sequencer block");
    reveal_strlit("a query entry");
    reveal_strlit("a collection entry");
    reveal_strlit("a query fallback");
    reveal_strlit("filter.seasons");
    assert(need_text(Need::PatternBlock).take(15) =~= "a pattern block"@);
    assert(need_text(Need::SequencerBlock).take(17) =~= "a sequencer block"@);
    assert(need_text(Need::QueryEntry).take(13) =~= "a query entry"@);
    assert(need_text(Need::CollectionEntry).take(18) =~= "a collection entry"@);
    assert(need_text(Need::QueryFallback).take(16) =~= "a query fallback"@);
    assert(need_text(Need::SeasonFilter).take(14) =~= "filter.seasons"@);
}

/// Whether a text begins with another.
pub open spec fn starts(text: Seq<char>, head: Seq<char>) -> bool {
    text.len() >= head.len() && text.take(head.len() as int) == head
}

proof fn lemma_starts(head: Seq<char>, a: Seq<char>, b: Seq<char>, c: Seq<char>)
    ensures
        starts(head + a, head),
        starts(head + a + b, head),
        starts(head + a + b + c, head),
{
    assert((head + a).take(head.len() as int) =~= head);
    assert((head + a + b).take(head.len() as int) =~= head);
    assert((head + a + b + c).take(head.len() as int) =~= head);
}

/// A fault of a pool names the pool first, and one of a group the group.
pub proof fn a_fault_of_a_pool_names_the_pool(
    pool: String,
    other: String,
)
    ensures
        starts((Fault::PoolSource { pool }).text(), "pool "@ + quoted_text(pool@)),
        starts((Fault::UndeclaredGroup { pool, group: other }).text(), "pool "@ + quoted_text(
            pool@,
        )),
        starts((Fault::ShowMissing { pool, show: other }).text(), "pool "@ + quoted_text(pool@)),
        starts((Fault::BucketOrder { pool, why: other }).text(), "pool "@ + quoted_text(pool@)),
        starts((Fault::Plugin { pool, why: other }).text(), "pool "@ + quoted_text(pool@)),
        starts((Fault::Unranked { pool }).text(), "pool "@ + quoted_text(pool@)),
        starts((Fault::PoolField { pool, field: other }).text(), "pool "@ + quoted_text(pool@)),
        starts((Fault::PoolVanished { pool, id: other }).text(), "pool "@ + quoted_text(pool@)),
        starts((Fault::GroupShowMissing { group: pool, show: other }).text(), "group "@
            + quoted_text(pool@)),
{
    let head = "pool "@ + quoted_text(pool@);
    lemma_starts(
        head,
        " must set exactly one of `expr`, `plugin`, or `groups`"@,
        Seq::empty(),
        Seq::empty(),
    );
    lemma_starts(
        head,
        " references group "@,
        quoted_text(other@),
        ", which this channel does not declare"@,
    );
    lemma_starts(head, ": show "@, quoted_text(other@), " is not in the catalog"@);
    lemma_starts(head, ": bucket_order: "@, other@, Seq::empty());
    lemma_starts(head, ": "@, other@, Seq::empty());
    lemma_starts(head, " was not ranked by its plugin"@, Seq::empty(), Seq::empty());
    lemma_starts(
        head,
        ": separate_by does not know the field "@,
        quoted_text(other@),
        Seq::empty(),
    );
    lemma_starts(
        head,
        ": entry "@,
        quoted_text(other@),
        " vanished from the catalog mid-resolution"@,
    );
    lemma_starts(
        "group "@ + quoted_text(pool@),
        " names show "@,
        quoted_text(other@),
        ", which is not in the catalog"@,
    );
}

/// A fault in a block is told with the number of the block, and one of the channel without; and a
/// fault in a fallback says so.
pub proof fn a_fault_tells_its_place(block: usize, kind: ErrorKind, fault: Fault)
    ensures
        ConfigFault::in_block(block, fault).text() == "block #"@ + decimal(block as nat) + ": "@
            + fault.text(),
        ConfigFault::in_fallback(block, fault).text() == "block #"@ + decimal(block as nat)
            + ": fallback: "@ + fault.text(),
        ConfigFault::of_channel(kind, fault).text() == fault.text(),
        ConfigFault::in_block(block, fault).fault == fault,
        ConfigFault::in_fallback(block, fault).fault == fault,
        ConfigFault::of_channel(kind, fault).fault == fault,
        ConfigFault::of_channel(kind, fault).kind == kind,
        ConfigFault::in_block(block, fault).kind == ErrorKind::Unsupported,
        ConfigFault::in_fallback(block, fault).kind == ErrorKind::Unsupported,
{
    reveal_strlit(": ");
    reveal_strlit("fallback: ");
    reveal_strlit(": fallback: ");
    let head = "block #"@ + decimal(block as nat);
    assert(": "@ + "fallback: "@ =~= ": fallback: "@);
    assert(ConfigFault::in_block(block, fault).text() =~= head + ": "@ + fault.text());
    assert(ConfigFault::in_fallback(block, fault).text() =~= head + (": "@ + "fallback: "@)
        + fault.text());
    assert(ConfigFault::of_channel(kind, fault).text() =~= fault.text());
}

/// A question is told by its name and by what it asks about: the item first, and then the
/// namespace or the type.
pub proof fn a_question_is_told_by_its_name(item_id: Seq<char>, about: Seq<char>)
    ensures
        (QuestionModel::EnrichmentFor { item_id, namespace: about }).text()
            == "enrichment_for("@ + quoted_text(item_id) + ", "@ + quoted_text(about) + ")"@,
        (QuestionModel::EdgesFrom { item_id, edge_type: about }).text() == "edges_from("@
            + quoted_text(item_id) + ", "@ + quoted_text(about) + ")"@,
        (QuestionModel::EdgesTo { item_id, edge_type: about }).text() == "edges_to("@ + quoted_text(
            item_id,
        ) + ", "@ + quoted_text(about) + ")"@,
{
    reveal_strlit("enrichment_for");
    reveal_strlit("enrichment_for(");
    reveal_strlit("edges_from");
    reveal_strlit("edges_from(");
    reveal_strlit("edges_to");
    reveal_strlit("edges_to(");
    reveal_strlit("(");
    assert("enrichment_for"@ + "("@ =~= "enrichment_for("@);
    assert("edges_from"@ + "("@ =~= "edges_from("@);
    assert("edges_to"@ + "("@ =~= "edges_to("@);
}

} // verus!
