//! What plugins are handed and what is read of their replies, told by the names that they use.

use vstd::prelude::*;

use crate::arrange::{arrange_ctx, cursor_map, pool_maps, resume_maps, timeline, window_map};
use crate::asked::{can_be_carried, what_is_fit_can_be_carried};
use crate::catalog::Catalog;
use crate::config::Pool;
use crate::datastore::{
    answer_to, asked_ids, attribute_map, edge_list, edge_map, fact_list, fact_map, facts_by_item,
    taste_map, Answered, Edge, EnrichmentFact, Question, QuestionModel, Stopped, StoreModel,
    TasteAttribute, TasteVector,
};
use crate::draw::SeriesModel;
use crate::engine::CtxModel;
use crate::names::entry_of;
use crate::pattern::MAX_TAKE;
use crate::pool::flat;
use crate::resume::GenerationState;
use crate::score::{
    capability, capability_list, carried, event_map, handed, hook_names, item_maps, kind_text,
    picked, picked_list, seed_for, source_queries, CapabilityModel, GrantedCapabilities, Picked,
    PickedItem, ScoreInputs,
};
use crate::script::{field_of, Script};
use crate::sequence::Window;
use crate::shown::{lemma_apart, lemma_field_at, reads_number, reads_option, reads_text, reads_texts};
use crate::text::decimal;

verus! {

/// What a script reads under a name of a table, where it is shown one.
pub open spec fn read(value: Script, name: Seq<char>) -> Option<Script> {
    match value {
        Script::Table(table) => field_of(table, name),
        _ => None,
    }
}

/// An arranging script reads when its window starts, and how many whole seconds it is to fill,
/// or unit where nothing has to be filled.
pub proof fn an_arranging_script_reads_its_window(window: Window)
    ensures
        reads_number(read(window_map(window), "from"@), window.from as int),
        window.fill is None ==> read(window_map(window), "fill_secs"@) == Some(Script::Unit),
        window.fill matches Some(fill) ==> (read(window_map(window), "fill_secs"@) matches Some(
            Script::Int(secs),
        ) && secs * 1_000_000_000 <= fill < (secs + 1) * 1_000_000_000),
{
    reveal_strlit("from");
    reveal_strlit("fill_secs");
    lemma_apart("from"@, "fill_secs"@);
    let table = window_map(window)->Table_0;
    lemma_field_at(table, 0);
    lemma_field_at(table, 1);
}

/// An arranging script reads its pools, its window, where each pool resumes, what it noted the
/// last time, and the time, each under its own name.
pub proof fn an_arranging_script_reads_its_part(
    catalog: Catalog,
    pools: Seq<Pool>,
    made: Seq<Seq<SeriesModel>>,
    state: GenerationState,
    window: Window,
    now: i64,
)
    ensures
        ({
            let ctx = arrange_ctx(catalog, pools, made, state, window, now);
            &&& read(ctx, "pools"@) == Some(Script::Table(pool_maps(catalog, pools, made)))
            &&& read(ctx, "window"@) == Some(window_map(window))
            &&& read(ctx, "resume"@) == Some(Script::Table(resume_maps(state, pools)))
            &&& read(ctx, "cursor"@) == Some(Script::Table(cursor_map(state.cursor@)))
            &&& reads_number(read(ctx, "now"@), now as int)
        }),
{
    reveal_strlit("pools");
    reveal_strlit("window");
    reveal_strlit("resume");
    reveal_strlit("cursor");
    reveal_strlit("now");
    let table = arrange_ctx(catalog, pools, made, state, window, now)->Table_0;
    assert forall|i: int, j: int| 0 <= i < j < 5 implies (#[trigger] table[i]).0 != (
    #[trigger] table[j]).0 by {
        let a = table[i].0;
        let b = table[j].0;
        assert(a.len() != b.len() || a[0] != b[0] || a[1] != b[1]);
    }
    lemma_field_at(table, 0);
    lemma_field_at(table, 1);
    lemma_field_at(table, 2);
    lemma_field_at(table, 3);
    lemma_field_at(table, 4);
}

/// An arranging script reads, one for one and in their order, under the name of each pool the
/// items of that pool, and where that pool resumes.
pub proof fn an_arranging_script_reads_each_pool(
    catalog: Catalog,
    pools: Seq<Pool>,
    made: Seq<Seq<SeriesModel>>,
    state: GenerationState,
    i: int,
)
    requires
        pools.len() == made.len(),
        0 <= i < pools.len(),
        item_maps(catalog, flat(made[i])) is Ok,
    ensures
        pool_maps(catalog, pools, made).len() == pools.len(),
        resume_maps(state, pools).len() == pools.len(),
        pool_maps(catalog, pools, made)[i].0 == pools[i].name@,
        pool_maps(catalog, pools, made)[i].1 == Script::List(
            item_maps(catalog, flat(made[i]))->Ok_0,
        ),
        resume_maps(state, pools)[i].0 == pools[i].name@,
        entry_of(state.resume@.pools, pools[i].name@) matches Some(kept) ==> reads_option(
            read(resume_maps(state, pools)[i].1, "next"@),
            kept.next,
        ),
        entry_of(state.resume@.pools, pools[i].name@) is None ==> read(
            resume_maps(state, pools)[i].1,
            "next"@,
        ) == Some(Script::Unit),
{
    lemma_field_at(resume_maps(state, pools)[i].1->Table_0, 0);
}

/// An arranging script reads what it noted the last time, note for note.
pub proof fn an_arranging_script_reads_its_notes(cursor: Seq<(String, String)>, i: int)
    requires
        0 <= i < cursor.len(),
    ensures
        cursor_map(cursor).len() == cursor.len(),
        cursor_map(cursor)[i].0 == cursor[i].0@,
        reads_text(Some(cursor_map(cursor)[i].1), cursor[i].1@),
{
}

/// A reply of an arranging script is taken where it holds texts alone: they are the identities
/// that play, in that order.
pub proof fn a_timeline_is_what_the_script_replied(path: Seq<char>, list: Seq<Script>)
    ensures
        timeline(path, list) is Ok <==> forall|i: int|
            0 <= i < list.len() ==> #[trigger] list[i] is Text,
        timeline(path, list) matches Ok(ids) ==> ids.len() == list.len() && forall|i: int|
            0 <= i < ids.len() ==> list[i] == Script::Text(#[trigger] ids[i]),
    decreases list.len(),
{
    if list.len() > 0 {
        let fewer = list.drop_last();
        a_timeline_is_what_the_script_replied(path, fewer);
        assert(list[list.len() - 1] == list.last());
        if forall|i: int| 0 <= i < list.len() ==> #[trigger] list[i] is Text {
            assert forall|i: int| 0 <= i < fewer.len() implies #[trigger] fewer[i] is Text by {
                assert(list[i] is Text);
            }
        }
        if timeline(path, list) is Ok {
            assert forall|i: int| 0 <= i < list.len() implies #[trigger] list[i] is Text by {
                if i < fewer.len() {
                    assert(fewer[i] is Text);
                }
            }
        }
    }
}

/// A script reads every part of a fact under its own name.
pub proof fn a_script_reads_a_fact(fact: EnrichmentFact)
    ensures
        reads_text(read(fact_map(fact), "namespace"@), fact.namespace@),
        reads_text(read(fact_map(fact), "key"@), fact.key@),
        read(fact_map(fact), "value"@) == Some(fact.value@),
        read(fact_map(fact), "fetched_at"@) == Some(fact.fetched_at@),
{
    reveal_strlit("namespace");
    reveal_strlit("key");
    reveal_strlit("value");
    reveal_strlit("fetched_at");
    let table = fact_map(fact)->Table_0;
    lemma_apart("namespace"@, "key"@);
    lemma_apart("namespace"@, "value"@);
    lemma_apart("namespace"@, "fetched_at"@);
    lemma_apart("key"@, "value"@);
    lemma_apart("key"@, "fetched_at"@);
    lemma_apart("value"@, "fetched_at"@);
    lemma_field_at(table, 0);
    lemma_field_at(table, 1);
    lemma_field_at(table, 2);
    lemma_field_at(table, 3);
}

/// A script reads every part of an edge under its own name: where it starts, where it leads, of
/// which type it is, how it ranks and when it was fetched.
pub proof fn a_script_reads_an_edge(edge: Edge)
    ensures
        reads_text(read(edge_map(edge), "from_id"@), edge.from_id@),
        reads_text(read(edge_map(edge), "to_id"@), edge.to_id@),
        reads_text(read(edge_map(edge), "edge_type"@), edge.edge_type@),
        read(edge_map(edge), "rank"@) == Some(edge.rank@),
        read(edge_map(edge), "fetched_at"@) == Some(edge.fetched_at@),
{
    reveal_strlit("from_id");
    reveal_strlit("to_id");
    reveal_strlit("edge_type");
    reveal_strlit("rank");
    reveal_strlit("fetched_at");
    let table = edge_map(edge)->Table_0;
    assert forall|i: int, j: int| 0 <= i < j < 5 implies (#[trigger] table[i]).0 != (
    #[trigger] table[j]).0 by {
        let a = table[i].0;
        let b = table[j].0;
        assert(a.len() != b.len() || a[0] != b[0] || a[1] != b[1]);
    }
    lemma_field_at(table, 0);
    lemma_field_at(table, 1);
    lemma_field_at(table, 2);
    lemma_field_at(table, 3);
    lemma_field_at(table, 4);
}

/// A script reads every part of an attribute of a taste under its own name.
pub proof fn a_script_reads_an_attribute(a: TasteAttribute)
    ensures
        reads_text(read(attribute_map(a), "namespace"@), a.namespace@),
        reads_text(read(attribute_map(a), "key"@), a.key@),
        read(attribute_map(a), "value"@) == Some(a.value@),
        read(attribute_map(a), "weight"@) == Some(a.weight@),
{
    reveal_strlit("namespace");
    reveal_strlit("key");
    reveal_strlit("value");
    reveal_strlit("weight");
    let table = attribute_map(a)->Table_0;
    lemma_apart("namespace"@, "key"@);
    lemma_apart("namespace"@, "value"@);
    lemma_apart("namespace"@, "weight"@);
    lemma_apart("key"@, "value"@);
    lemma_apart("key"@, "weight"@);
    lemma_apart("value"@, "weight"@);
    lemma_field_at(table, 0);
    lemma_field_at(table, 1);
    lemma_field_at(table, 2);
    lemma_field_at(table, 3);
}

/// A script reads of a taste all of its attributes, in their order, and the shows that it knows
/// no seasons of.
pub proof fn a_script_reads_a_taste(vector: TasteVector)
    ensures
        read(taste_map(vector), "attributes"@) matches Some(Script::List(list)) && list.len()
            == vector.attributes@.len() && forall|i: int|
            0 <= i < list.len() ==> #[trigger] list[i] == attribute_map(vector.attributes@[i]),
        reads_texts(
            read(taste_map(vector), "shows_without_seasons"@),
            vector.shows_without_seasons@,
        ),
{
    reveal_strlit("attributes");
    reveal_strlit("shows_without_seasons");
    lemma_apart("attributes"@, "shows_without_seasons"@);
    let table = taste_map(vector)->Table_0;
    lemma_field_at(table, 0);
    lemma_field_at(table, 1);
}

/// Facts and edges are shown one for one, in their order; and facts about several items under
/// the identity of each.
pub proof fn facts_and_edges_are_shown_in_order(
    facts: Seq<EnrichmentFact>,
    edges: Seq<Edge>,
    rows: Seq<(String, Vec<EnrichmentFact>)>,
)
    ensures
        fact_list(facts) matches Script::List(list) && list.len() == facts.len() && forall|i: int|
            0 <= i < list.len() ==> #[trigger] list[i] == fact_map(facts[i]),
        edge_list(edges) matches Script::List(list) && list.len() == edges.len() && forall|i: int|
            0 <= i < list.len() ==> #[trigger] list[i] == edge_map(edges[i]),
        facts_by_item(rows) matches Script::Table(table) && table.len() == rows.len() && forall|
            i: int,
        |
            0 <= i < table.len() ==> (#[trigger] table[i]).0 == rows[i].0@ && table[i].1
                == fact_list(rows[i].1@),
{
}

/// What was put to a datastore is the question that was put: the same item, the same direction,
/// the same namespace or type, the same account.
pub proof fn an_answer_is_to_the_question_that_was_put(
    id: String,
    ids: Vec<String>,
    about: String,
    account: i64,
    facts: Result<Vec<EnrichmentFact>, String>,
    rows: Result<Vec<(String, Vec<EnrichmentFact>)>, String>,
    edges: Result<Vec<Edge>, String>,
    taste: Result<TasteVector, String>,
)
    ensures
        (Answered::EnrichmentFor { item_id: id, namespace: about, reply: facts }).question() == (
        Question::EnrichmentFor { item_id: id, namespace: about })@,
        (Answered::EnrichmentForMany { item_ids: ids, namespace: about, reply: rows }).question()
            == (Question::EnrichmentForMany { item_ids: ids, namespace: about })@,
        (Answered::EdgesFrom { item_id: id, edge_type: about, reply: edges }).question() == (
        Question::EdgesFrom { item_id: id, edge_type: about })@,
        (Answered::EdgesTo { item_id: id, edge_type: about, reply: edges }).question() == (
        Question::EdgesTo { item_id: id, edge_type: about })@,
        (Answered::TasteVectorFor { account, reply: taste }).question() == (
        Question::TasteVectorFor { account })@,
        (Answered::PooledTasteVector { reply: taste }).question() == Question::PooledTasteVector@,
{
}

/// What a datastore answers a script is what it replied to that question the first time that it
/// was put, or that the question was never put to it.
pub proof fn a_script_is_answered_as_the_store_replied(store: StoreModel, question: QuestionModel)
    ensures
        store.asked(question) is Err && (store.asked(question)->Err_0 is Unasked) <==> forall|i: int|
            0 <= i < store.answers.len() ==> (#[trigger] store.answers[i]).question() != question,
        store.asked(question) matches Err(Stopped::Unasked { store: path, question: put })
            ==> path == store.path && put == question,
        !(store.asked(question) is Err && store.asked(question)->Err_0 is Unasked) ==> exists|i: int|
            0 <= i < store.answers.len() && (#[trigger] store.answers[i]).question() == question
                && (forall|j: int|
                0 <= j < i ==> (#[trigger] store.answers[j]).question() != question) && match (
                store.answers[i].reply()) {
                Ok(value) => store.asked(question) == Ok::<Script, Stopped>(value),
                Err(_) => store.asked(question) is Err,
            },
{
    lemma_answer_to(store.answers, question);
}

proof fn lemma_answer_to(answers: Seq<Answered>, question: QuestionModel)
    ensures
        answer_to(answers, question) is None ==> forall|i: int|
            0 <= i < answers.len() ==> (#[trigger] answers[i]).question() != question,
        answer_to(answers, question) matches Some(a) ==> exists|i: int|
            0 <= i < answers.len() && #[trigger] answers[i] == a && a.question() == question && (
            forall|j: int| 0 <= j < i ==> (#[trigger] answers[j]).question() != question),
    decreases answers.len(),
{
    if answers.len() > 0 && answers[0].question() != question {
        let rest = answers.skip(1);
        lemma_answer_to(rest, question);
        if let Some(a) = answer_to(rest, question) {
            let i = choose|i: int|
                0 <= i < rest.len() && #[trigger] rest[i] == a && a.question() == question && (
                forall|j: int| 0 <= j < i ==> (#[trigger] rest[j]).question() != question);
            assert(answers[i + 1] == a);
            assert forall|j: int| 0 <= j < i + 1 implies (#[trigger] answers[j]).question()
                != question by {
                if j > 0 {
                    assert(rest[j - 1] == answers[j]);
                }
            }
        } else {
            assert forall|i: int| 0 <= i < answers.len() implies (
            #[trigger] answers[i]).question() != question by {
                if i > 0 {
                    assert(rest[i - 1] == answers[i]);
                }
            }
        }
    }
}

/// A question about several items names texts alone, and asks about those, in their order.
pub proof fn a_question_names_its_items(list: Seq<Script>)
    ensures
        asked_ids(list) is Ok <==> forall|i: int|
            0 <= i < list.len() ==> #[trigger] list[i] is Text,
        asked_ids(list) matches Ok(ids) ==> ids.len() == list.len() && forall|i: int|
            0 <= i < ids.len() ==> list[i] == Script::Text(#[trigger] ids[i]),
    decreases list.len(),
{
    if list.len() > 0 {
        let fewer = list.drop_last();
        a_question_names_its_items(fewer);
        assert(list[list.len() - 1] == list.last());
        if forall|i: int| 0 <= i < list.len() ==> #[trigger] list[i] is Text {
            assert forall|i: int| 0 <= i < fewer.len() implies #[trigger] fewer[i] is Text by {
                assert(list[i] is Text);
            }
        }
        if asked_ids(list) is Ok {
            assert forall|i: int| 0 <= i < list.len() implies #[trigger] list[i] is Text by {
                if i < fewer.len() {
                    assert(fewer[i] is Text);
                }
            }
        }
    }
}

/// A picking script is handed the sets of the catalog where it was granted the catalog, what was
/// watched where it was granted that, the datastores it was granted and no others; and always
/// the name of its pool, what the channel configured, how many items are needed, the time and
/// what aired lately.
pub proof fn a_picking_script_is_handed_what_it_was_granted(
    sets: Script,
    inputs: ScoreInputs,
    seed: u64,
    pool: Seq<char>,
    config: Option<Script>,
    granted: GrantedCapabilities,
)
    ensures
        ({
            let ctx: CtxModel = handed(sets, inputs, seed, pool, config, granted);
            &&& granted.catalog_read ==> ctx.sets == Some(sets)
            &&& !granted.catalog_read ==> ctx.sets is None
            &&& granted.watch_history ==> (ctx.history matches Some(Script::List(events))
                && events.len() == inputs.history@.len() && forall|i: int|
                0 <= i < events.len() ==> #[trigger] events[i] == event_map(inputs.history@[i]))
            &&& !granted.watch_history ==> ctx.history is None
            &&& ctx.pool == pool
            &&& config matches Some(value) ==> ctx.config == value
            &&& config is None ==> (ctx.config matches Script::Table(table) && table.len() == 0)
            &&& inputs.target_count <= i64::MAX ==> ctx.target_count == inputs.target_count
            &&& ctx.now == inputs.now
            &&& reads_texts(Some(ctx.recent), inputs.recent@)
            &&& ctx.datastores.len() == granted.datastores@.len()
            &&& forall|i: int|
                0 <= i < ctx.datastores.len() ==> (#[trigger] ctx.datastores[i]).0
                    == granted.datastores@[i].0@ && ctx.datastores[i].1.path
                    == granted.datastores@[i].1@
            &&& ctx.seed == seed_for(seed, pool)
        }),
{
}

/// The hooks that a plugin declares are texts, and each is one of the two that are known.
pub proof fn a_plugin_declares_known_hooks(path: Seq<char>, list: Seq<Script>)
    ensures
        hook_names(path, list) is Ok <==> forall|i: int|
            0 <= i < list.len() ==> ((#[trigger] list[i]) == Script::Text("pool_provider"@)
                || list[i] == Script::Text("sequencer"@)),
        hook_names(path, list) matches Ok(names) ==> names.len() == list.len() && forall|i: int|
            0 <= i < names.len() ==> list[i] == Script::Text(#[trigger] names[i]),
    decreases list.len(),
{
    if list.len() > 0 {
        let fewer = list.drop_last();
        a_plugin_declares_known_hooks(path, fewer);
        assert(list[list.len() - 1] == list.last());
        if forall|i: int|
            0 <= i < list.len() ==> ((#[trigger] list[i]) == Script::Text("pool_provider"@)
                || list[i] == Script::Text("sequencer"@)) {
            assert forall|i: int| 0 <= i < fewer.len() implies ((#[trigger] fewer[i])
                == Script::Text("pool_provider"@) || fewer[i] == Script::Text("sequencer"@)) by {
                assert(fewer[i] == list[i]);
            }
        }
        if hook_names(path, list) is Ok {
            assert forall|i: int| 0 <= i < list.len() implies ((#[trigger] list[i])
                == Script::Text("pool_provider"@) || list[i] == Script::Text("sequencer"@)) by {
                if i < fewer.len() {
                    assert(fewer[i] == list[i]);
                }
            }
        }
    }
}

/// A plugin declares that it reads the catalog or what was watched by their words, and a
/// datastore by a map that names it.
pub proof fn a_plugin_declares_its_capabilities(path: Seq<char>, value: Script, shown: Seq<char>)
    ensures
        capability(path, value, shown) == Ok::<CapabilityModel, Seq<char>>(
            CapabilityModel::CatalogRead,
        ) <==> value == Script::Text("catalog_read"@),
        capability(path, value, shown) == Ok::<CapabilityModel, Seq<char>>(
            CapabilityModel::WatchHistory,
        ) <==> value == Script::Text("watch_history"@),
        capability(path, value, shown) matches Ok(CapabilityModel::Datastore(name))
            ==> reads_text(read(value, "datastore"@), name),
{
    reveal_strlit("catalog_read");
    reveal_strlit("watch_history");
    assert("catalog_read"@.len() == 12);
    assert("watch_history"@.len() == 13);
}

/// What a plugin declares is read one for one.
pub proof fn capabilities_are_read_in_order(path: Seq<char>, list: Seq<(Script, Seq<char>)>)
    ensures
        capability_list(path, list) matches Ok(found) ==> found.len() == list.len() && forall|
            i: int,
        |
            0 <= i < list.len() ==> capability(path, (#[trigger] list[i]).0, list[i].1) == Ok::<
                CapabilityModel,
                Seq<char>,
            >(found[i]),
    decreases list.len(),
{
    if list.len() > 0 {
        let fewer = list.drop_last();
        capabilities_are_read_in_order(path, fewer);
        if let Ok(found) = capability_list(path, list) {
            assert forall|i: int| 0 <= i < list.len() implies capability(
                path,
                (#[trigger] list[i]).0,
                list[i].1,
            ) == Ok::<CapabilityModel, Seq<char>>(found[i]) by {
                if i < fewer.len() {
                    assert(fewer[i] == list[i]);
                }
            }
        }
    }
}

/// The queries that a plugin names are texts, each kept under the name it stood under.
pub proof fn queries_are_read_in_order(path: Seq<char>, table: Seq<(Seq<char>, Script)>)
    ensures
        source_queries(path, table) is Ok <==> forall|i: int|
            0 <= i < table.len() ==> (#[trigger] table[i]).1 is Text,
        source_queries(path, table) matches Ok(found) ==> found.len() == table.len() && forall|
            i: int,
        |
            0 <= i < table.len() ==> (#[trigger] table[i]).0 == found[i].0 && table[i].1
                == Script::Text(found[i].1),
    decreases table.len(),
{
    if table.len() > 0 {
        let fewer = table.drop_last();
        queries_are_read_in_order(path, fewer);
        assert(table[table.len() - 1] == table.last());
        if forall|i: int| 0 <= i < table.len() ==> (#[trigger] table[i]).1 is Text {
            assert forall|i: int| 0 <= i < fewer.len() implies (#[trigger] fewer[i]).1 is Text by {
                assert(fewer[i] == table[i]);
            }
        }
        if let Ok(found) = source_queries(path, table) {
            assert forall|i: int| 0 <= i < table.len() implies (#[trigger] table[i]).1 is Text && (
            table[i].0 == found[i].0 && table[i].1 == Script::Text(found[i].1)) by {
                if i < fewer.len() {
                    assert(fewer[i] == table[i]);
                }
            }
        }
    }
}

/// Whether an item of a plugin's reply says this pick: by its identity alone, or by a map that
/// names the identity and may attach something that can be carried along, and say how much to
/// take.
pub open spec fn says_pick(value: Script, pick: Picked) -> bool {
    match value {
        Script::Text(id) => pick.id == id && pick.metadata is None && pick.take_override is None,
        Script::Table(_) => {
            &&& reads_text(read(value, "entry_id"@), pick.id)
            &&& match pick.metadata {
                Some(held) => read(value, "metadata"@) == Some(held) && held != Script::Unit
                    && can_be_carried(held),
                None => read(value, "metadata"@) is None || read(value, "metadata"@) == Some(
                    Script::Unit,
                ),
            }
            &&& match pick.take_override {
                Some(n) => reads_number(read(value, "take"@), n as int) && 1 <= n <= MAX_TAKE,
                None => read(value, "take"@) is None,
            }
        },
        _ => false,
    }
}

/// What a plugin picked is what its reply says, item for item and in their order.
pub proof fn picks_are_what_the_plugin_said(path: Seq<char>, list: Seq<Script>)
    ensures
        picked_list(path, list) matches Ok(items) ==> items.len() == list.len() && forall|i: int|
            0 <= i < list.len() ==> says_pick(#[trigger] list[i], items[i]),
    decreases list.len(),
{
    if list.len() > 0 {
        let fewer = list.drop_last();
        picks_are_what_the_plugin_said(path, fewer);
        if let Script::Table(table) = list.last() {
            if let Some(held) = field_of(table, "metadata"@) {
                what_is_fit_can_be_carried(held, "metadata"@);
            }
        }
        if let Ok(items) = picked_list(path, list) {
            assert forall|i: int| 0 <= i < list.len() implies says_pick(
                #[trigger] list[i],
                items[i],
            ) by {
                if i < fewer.len() {
                    assert(fewer[i] == list[i]);
                }
            }
        }
    }
}

/// A reply is refused for the first item of it that cannot be read, told by its place, counted from
/// zero.
pub proof fn a_reply_is_refused_for_its_first_fault(
    path: Seq<char>,
    list: Seq<Script>,
    rest: Seq<Script>,
    item: Script,
)
    requires
        picked_list(path, list) is Ok,
        picked(path, list.len(), item) is Err,
    ensures
        picked_list(path, list.push(item)) is Err,
        picked_list(path, list.push(item))->Err_0 == picked(path, list.len(), item)->Err_0,
        picked_list(path, list.push(item) + rest) == picked_list(path, list.push(item)),
    decreases rest.len(),
{
    assert(list.push(item).drop_last() =~= list);
    if rest.len() > 0 {
        a_reply_is_refused_for_its_first_fault(path, list, rest.drop_last(), item);
        assert((list.push(item) + rest).drop_last() =~= list.push(item) + rest.drop_last());
    } else {
        assert(list.push(item) + rest =~= list.push(item));
    }
}

/// A timeline is refused for the first item of it that is no text, told by its place, counted from
/// zero.
pub proof fn a_timeline_is_refused_for_its_first_fault(
    path: Seq<char>,
    list: Seq<Script>,
    rest: Seq<Script>,
    item: Script,
)
    requires
        timeline(path, list) is Ok,
        !(item is Text),
    ensures
        timeline(path, list.push(item) + rest) == Err::<Seq<Seq<char>>, Seq<char>>(
            "sequencer plugin "@ + path + ": arrange() item #"@ + decimal(list.len())
                + " must be an entry_id string, got "@ + kind_text(item),
        ),
    decreases rest.len(),
{
    assert(list.push(item).drop_last() =~= list);
    if rest.len() > 0 {
        a_timeline_is_refused_for_its_first_fault(path, list, rest.drop_last(), item);
        assert((list.push(item) + rest).drop_last() =~= list.push(item) + rest.drop_last());
    } else {
        assert(list.push(item) + rest =~= list.push(item));
    }
}

/// A pick of plain identities is taken as it stands, as long as none comes twice.
pub proof fn plain_picks_are_taken(path: Seq<char>, list: Seq<Script>)
    requires
        forall|i: int| 0 <= i < list.len() ==> #[trigger] list[i] is Text,
        forall|i: int, j: int|
            0 <= i < j < list.len() ==> #[trigger] list[i] != #[trigger] list[j],
    ensures
        picked_list(path, list) is Ok,
    decreases list.len(),
{
    if list.len() > 0 {
        let fewer = list.drop_last();
        assert forall|i: int| 0 <= i < fewer.len() implies #[trigger] fewer[i] is Text by {
            assert(fewer[i] == list[i]);
        }
        assert forall|i: int, j: int| 0 <= i < j < fewer.len() implies #[trigger] fewer[i]
            != #[trigger] fewer[j] by {
            assert(fewer[i] == list[i] && fewer[j] == list[j]);
        }
        plain_picks_are_taken(path, fewer);
        picks_are_what_the_plugin_said(path, fewer);
        let items = picked_list(path, fewer)->Ok_0;
        assert(list[list.len() - 1] == list.last());
        assert forall|i: int| 0 <= i < items.len() implies #[trigger] items[i].id
            != list.last()->Text_0 by {
            assert(says_pick(fewer[i], items[i]));
            assert(fewer[i] == list[i]);
        }
    }
}

/// An item carries along what the plugin attached to it and how much of it to take; one with
/// neither carries nothing.
pub proof fn an_item_carries_what_was_attached(item: PickedItem)
    ensures
        carried(item) is None <==> item.metadata is None && item.take_override is None,
        carried(item) matches Some(extra) ==> extra.take_override == item.take_override && (
        extra.metadata is Some <==> item.metadata is Some) && (item.metadata matches Some(held)
            ==> *extra.metadata->0 == held),
{
}

} // verus!
