//! What the mathematical values that contracts speak of stand for: every part of a value stands
//! for itself.

use vstd::prelude::*;

use crate::config::{Order, OrderModel};
use crate::constrain::{keys, ItemKeys};
use crate::datastore::{Datastore, Question, QuestionModel, Stop, Stopped};
use crate::draw::{PoolKeys, PoolRuntime, Series};
use crate::engine::ScoreCtx;
use crate::fault::{ConfigError, Fault, ResolveError};
use crate::item::{items, ResolvedItem};
use crate::names::{entry_of, texts};
use crate::playout::{playout, PlayoutItem, PlayoutSource, PlayoutSourceModel};
use crate::pool::{models, PoolSeries};
use crate::profile::{ItemRef, ItemRefModel, LoadedEntry, Reference, ReferenceModel};
use crate::resolve::{Context, Replies};
use crate::resume::{Checkpoint, ResumeMap};
use crate::score::{Capability, CapabilityModel, Halt, Halted, PickedItem};
use crate::script::{fields, scripts, Field, Script, ScriptValue};

verus! {

/// A value of a script stands for itself: a text for its characters, a list for its values, a
/// table for its fields.
pub proof fn a_script_value_stands_for_itself(value: ScriptValue)
    ensures
        value is Unit <==> value@ is Unit,
        value matches ScriptValue::Bool(b) ==> value@ == Script::Bool(b),
        value matches ScriptValue::Int(n) ==> value@ == Script::Int(n as int),
        value matches ScriptValue::Float(text, finite) ==> value@ == Script::Float(text@, finite),
        value matches ScriptValue::Char(c) ==> value@ == Script::Char(c),
        value matches ScriptValue::Text(text) ==> value@ == Script::Text(text@),
        value matches ScriptValue::Other(kind) ==> value@ == Script::Other(kind@),
        value matches ScriptValue::List(list) ==> (value@ matches Script::List(got) && got.len()
            == list@.len() && forall|i: int|
            0 <= i < got.len() ==> #[trigger] got[i] == list@[i]@),
        value matches ScriptValue::Table(list) ==> (value@ matches Script::Table(got) && got.len()
            == list@.len() && forall|i: int|
            0 <= i < got.len() ==> (#[trigger] got[i]).0 == list@[i].name@ && got[i].1
                == list@[i].value@),
{
}

/// Lists of values stand for their values, one for one.
pub proof fn lists_stand_for_their_values(
    values: Seq<ScriptValue>,
    table: Seq<Field>,
    list: Seq<ResolvedItem>,
    aired: Seq<PlayoutItem>,
    compared: Seq<ItemKeys>,
    series: Seq<Series>,
    names: Seq<String>,
)
    ensures
        scripts(values).len() == values.len() && forall|i: int|
            0 <= i < values.len() ==> #[trigger] scripts(values)[i] == values[i]@,
        fields(table).len() == table.len() && forall|i: int|
            0 <= i < table.len() ==> (#[trigger] fields(table)[i]).0 == table[i].name@ && fields(
                table,
            )[i].1 == table[i].value@,
        items(list).len() == list.len() && forall|i: int|
            0 <= i < list.len() ==> #[trigger] items(list)[i] == list[i]@,
        playout(aired).len() == aired.len() && forall|i: int|
            0 <= i < aired.len() ==> #[trigger] playout(aired)[i] == aired[i]@,
        keys(compared).len() == compared.len() && forall|i: int|
            0 <= i < compared.len() ==> #[trigger] keys(compared)[i] == compared[i]@,
        models(series).len() == series.len() && forall|i: int|
            0 <= i < series.len() ==> #[trigger] models(series)[i] == series[i]@,
        texts(names).len() == names.len() && forall|i: int|
            0 <= i < names.len() ==> #[trigger] texts(names)[i] == names[i]@,
{
}

/// An item on air stands for itself.
pub proof fn an_item_on_air_stands_for_itself(item: PlayoutItem)
    ensures
        item@.id == item.id@,
        item@.start == item.start,
        item@.finish == item.finish,
        item@.source is Some <==> item.source is Some,
        item.source matches Some(PlayoutSource::Local { path, in_point_ms, out_point_ms })
            ==> item@.source == Some(
            PlayoutSourceModel::Local { path: path@, in_point_ms, out_point_ms },
        ),
        item.source matches Some(PlayoutSource::Lavfi { params }) ==> item@.source == Some(
            PlayoutSourceModel::Lavfi { params: params@ },
        ),
        item.source matches Some(PlayoutSource::Http { uri, headers, user_agent }) ==> item@.source
            == Some(PlayoutSourceModel::Http { uri: uri@, headers: headers@, user_agent }),
        item@.program is Some <==> item.program is Some,
        item.program matches Some(p) ==> item@.program == Some(p@),
        item@.overlay == item.overlay,
        item@.metadata == item.metadata,
{
}

/// What the rules compare of an item stands for itself.
pub proof fn what_is_compared_stands_for_itself(item: ItemKeys)
    ensures
        item@.id == item.id@,
        item@.group == item.group@,
        item@.duration == item.duration,
{
}

/// An order stands for itself.
pub proof fn an_order_stands_for_itself(order: Order)
    ensures
        order is Manual <==> order@ is Manual,
        order is Random <==> order@ is Random,
        order matches Order::Sort(by) ==> order@ == OrderModel::Sort(by@),
{
}

/// A series, and a pool with its series, stand for themselves.
pub proof fn a_pool_stands_for_itself(
    series: Series,
    pool: PoolRuntime<'_>,
    made: PoolSeries,
    compared: PoolKeys,
    id: Seq<char>,
)
    ensures
        series@.key == series.key@,
        series@.show_key == series.show_key@,
        series@.ids == series.ids@,
        series@.cursor == series.cursor,
        pool@.cfg == *pool.cfg,
        pool@.series.len() == pool.series@.len(),
        forall|i: int|
            0 <= i < pool.series@.len() ==> #[trigger] pool@.series[i] == pool.series@[i]@,
        pool@.rotation == pool.rotation,
        pool@.limits == pool.limits,
        pool@.recent == keys(pool.recent@),
        pool@.forced == pool.forced,
        pool@.runtimes == pool.runtimes@,
        pool@.mean_runtime == pool.mean_runtime,
        (pool@.keys)(id) == pool.keys.key(id),
        made@.series == models(made.series@),
        made@.limits == made.limits,
        made@.durations == made.durations@,
        made@.mean == made.mean,
        (made@.keys)(id) == made.keys.key(id),
        compared.key(id).id == id,
        entry_of(compared.groups@, id) matches Some(values) ==> compared.key(id).group == values@,
        entry_of(compared.groups@, id) is None ==> compared.key(id).group.len() == 0,
        entry_of(compared.durations@, id) matches Some(d) ==> compared.key(id).duration == d,
        entry_of(compared.durations@, id) is None ==> compared.key(id).duration
            == compared.mean_duration,
{
}

/// What a picking script reads stands for itself.
pub proof fn what_a_script_reads_stands_for_itself(ctx: ScoreCtx)
    ensures
        ctx@.sets is Some <==> ctx.sets is Some,
        ctx.sets matches Some(sets) ==> ctx@.sets == Some((*sets)@),
        ctx@.pool == ctx.pool@,
        ctx@.config == (*ctx.config)@,
        ctx@.target_count == ctx.target_count,
        ctx@.now == ctx.now,
        ctx@.history is Some <==> ctx.history is Some,
        ctx.history matches Some(events) ==> ctx@.history == Some((*events)@),
        ctx@.recent == (*ctx.recent)@,
        ctx@.seed == ctx.seed,
        ctx@.datastores.len() == ctx.datastores@.len(),
        forall|i: int|
            0 <= i < ctx.datastores@.len() ==> (#[trigger] ctx@.datastores[i]).0
                == ctx.datastores@[i].0@ && ctx@.datastores[i].1 == ctx.datastores@[i].1@,
{
}

/// A datastore and what is put to it stand for themselves.
pub proof fn a_question_stands_for_itself(store: Datastore, question: Question, stop: Stop)
    ensures
        store@.path == store.path@,
        store@.answers == (*store.answers)@,
        question matches Question::EnrichmentFor { item_id, namespace } ==> question@ == (
        QuestionModel::EnrichmentFor { item_id: item_id@, namespace: namespace@ }),
        question matches Question::EnrichmentForMany { item_ids, namespace } ==> question@ == (
        QuestionModel::EnrichmentForMany { item_ids: texts(item_ids@), namespace: namespace@ }),
        question matches Question::EdgesFrom { item_id, edge_type } ==> question@ == (
        QuestionModel::EdgesFrom { item_id: item_id@, edge_type: edge_type@ }),
        question matches Question::EdgesTo { item_id, edge_type } ==> question@ == (
        QuestionModel::EdgesTo { item_id: item_id@, edge_type: edge_type@ }),
        question matches Question::TasteVectorFor { account } ==> question@ == (
        QuestionModel::TasteVectorFor { account }),
        question is PooledTasteVector <==> question@ is PooledTasteVector,
        stop matches Stop::Failed(why) ==> stop@ == Stopped::Failed(why@),
        stop matches Stop::Unasked { store: at, question: put } ==> stop@ == (Stopped::Unasked {
            store: at@,
            question: put@,
        }),
{
}

/// What a profile refers to, and an entry that was loaded, stand for themselves.
pub proof fn a_reference_stands_for_itself(
    item: ItemRef,
    reference: Reference,
    entry: LoadedEntry,
)
    ensures
        item matches ItemRef::External { ns, value } ==> item@ == (ItemRefModel::External {
            ns,
            value: value@,
        }),
        item matches ItemRef::TitleYear { title, year } ==> item@ == (ItemRefModel::TitleYear {
            title: title@,
            year: year as int,
        }),
        reference matches Reference::Keyword(word) ==> reference@ == ReferenceModel::Keyword(word@),
        reference matches Reference::Tag { namespace, value } ==> reference@ == (
        ReferenceModel::Tag { namespace: namespace@, value: value@ }),
        reference matches Reference::Item(meant) ==> reference@ == ReferenceModel::Item(meant@),
        reference matches Reference::Query(query) ==> reference@ == ReferenceModel::Query(query@),
        entry@.reference == entry.reference@,
        entry@.written == entry.written@,
        entry@.weight == entry.weight,
        entry@.origin == entry.origin@,
        entry@.position == entry.position,
{
}

/// Where pools resume stands for itself.
pub proof fn where_pools_resume_stands_for_itself(map: ResumeMap, note: Checkpoint)
    ensures
        map@.version == map.version,
        map@.pools == map.pools@,
        map@.position == map.position,
        map@.fingerprint == map.fingerprint,
        map@.checkpoints.len() == map.checkpoints@.len(),
        forall|i: int|
            0 <= i < map.checkpoints@.len() ==> #[trigger] map@.checkpoints[i]
                == map.checkpoints@[i]@,
        note@.start == note.start,
        note@.pools == note.pools@,
        note@.position == note.position,
{
}

/// What a plugin declares and picks stands for itself.
pub proof fn what_a_plugin_says_stands_for_itself(
    capability: Capability,
    item: PickedItem,
    halt: Halt,
)
    ensures
        capability is CatalogRead <==> capability@ is CatalogRead,
        capability is WatchHistory <==> capability@ is WatchHistory,
        capability matches Capability::Datastore(name) ==> capability@
            == CapabilityModel::Datastore(name@),
        item@.id == item.id@,
        item@.take_override == item.take_override,
        item@.metadata is Some <==> item.metadata is Some,
        item.metadata matches Some(value) ==> item@.metadata == Some(value@),
        halt matches Halt::Unasked(query) ==> halt@ == Halted::Unasked(query@),
        halt matches Halt::Failed(why) ==> halt@ == Halted::Failed(why@),
{
}

/// What a channel is generated from stands for itself.
pub proof fn what_a_channel_is_made_from_stands_for_itself(
    context: Context<'_>,
    replies: Replies,
)
    ensures
        context@.catalog is Some <==> context.catalog is Some,
        context.catalog matches Some(c) ==> context@.catalog == Some(*c),
        context@.replies == context.replies@,
        context@.state == *context.state,
        context@.seed == context.seed,
        context@.fill == context.fill,
        context@.from == context.from,
        context@.roots == context.identity_roots@,
        context@.index is Some <==> context.path_index is Some,
        context.path_index matches Some(index) ==> context@.index == Some(index@),
        context@.base == context.base_dir@,
        replies@.picks == replies.picks@,
        replies@.arranged == replies.arranged,
        replies@.metadata == replies.metadata@,
        replies@.guides == replies.guides@,
{
}

/// An error stands for itself: what it names, and where it stands.
pub proof fn an_error_stands_for_itself(error: ConfigError)
    ensures
        error@.kind == error.kind,
        error@.block == error.block,
        error@.fallback == error.fallback,
        error@.fault == error.error@,
        error.error matches ResolveError::UndeclaredGroup { pool, group } ==> error@.fault == (
        Fault::UndeclaredGroup { pool, group }),
        error.error matches ResolveError::ShowMissing { pool, show } ==> error@.fault == (
        Fault::ShowMissing { pool, show }),
        error.error matches ResolveError::PoolField { pool, field } ==> error@.fault == (
        Fault::PoolField { pool, field }),
        error.error matches ResolveError::GroupShowMissing { group, show } ==> error@.fault == (
        Fault::GroupShowMissing { group, show }),
        error.error matches ResolveError::EmptyCollection { name, id } ==> error@.fault == (
        Fault::EmptyCollection { name, id }),
        error.error matches ResolveError::UnknownField { field } ==> error@.fault == (
        Fault::UnknownField { field }),
        error.error matches ResolveError::FieldNeedsCatalog { field } ==> error@.fault == (
        Fault::FieldNeedsCatalog { field }),
        error.error matches ResolveError::NeedsCatalog { need } ==> error@.fault == (
        Fault::NeedsCatalog { need }),
        error.error matches ResolveError::NotInPools { script, id } ==> error@.fault == (
        Fault::NotInPools { script: script@, id }),
        error.error matches ResolveError::PoolVanished { pool, id } ==> error@.fault == (
        Fault::PoolVanished { pool, id }),
        error.error matches ResolveError::UnansweredQuery { query } ==> error@.fault == (
        Fault::UnansweredQuery { query }),
{
}

} // verus!
