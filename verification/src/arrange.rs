//! Running a sequencer script: what its `arrange()` is handed, and what comes back.

use vstd::prelude::*;

use crate::catalog::Catalog;
use crate::config::{Constraints, Pool, ShowGroup};
use crate::draw::{Series, SeriesModel};
use crate::engine::{call_with_value, called, compile, engine, listed, may_give, uncompilable, Handed};
use crate::fault::ResolveError;
use crate::names::{entry_of, texts};
use crate::pattern::{pool_lists, resolve_pool_sources, PluginReply};
use crate::pool::{flat, flatten_series, models};
use crate::resume::{records, GenerationState, PoolResume};
use crate::score::{field, item_maps, kind_of, kind_text, load_items, SourceRead};
use crate::script::{
    fields, lemma_script, option_text, scripts, Field, Script, ScriptValue,
};
use crate::sequence::{
    all_models, all_series, build, first_vanished, lemma_vanished, pool_names, resolve_series,
    sequenced, turns_after, ArrangeReply, Window,
};
use crate::text::{concat, decimal, write_decimal};

verus! {

/// The number of nanoseconds in a second.
pub const NANOS_PER_SEC: u64 = 1_000_000_000;

/// The items of each pool as a script sees them, by the pool's name.
pub open spec fn pool_maps(
    catalog: Catalog,
    pools: Seq<Pool>,
    made: Seq<Seq<SeriesModel>>,
) -> Seq<(Seq<char>, Script)> {
    Seq::new(
        pools.len(),
        |i: int|
            (pools[i].name@, Script::List(item_maps(catalog, flat(made[i]))->Ok_0)),
    )
}

/// The window as a script sees it: when it begins, and for how many seconds it should be
/// filled, which is unit when that is unbounded.
pub open spec fn window_map(window: Window) -> Script {
    Script::Table(
        seq![
            ("from"@, Script::Int(window.from as int)),
            (
                "fill_secs"@,
                match window.fill {
                    Some(fill) => Script::Int(fill as int / NANOS_PER_SEC as int),
                    None => Script::Unit,
                },
            ),
        ],
    )
}

/// The series whose turn is next in a pool.
pub open spec fn next_of(state: GenerationState, name: Seq<char>) -> Option<String> {
    match entry_of(state.resume@.pools, name) {
        Some(pool) => pool.next,
        None => None,
    }
}

/// Whose turn is next in each pool, as a script sees it.
pub open spec fn resume_maps(state: GenerationState, pools: Seq<Pool>) -> Seq<(Seq<char>, Script)> {
    Seq::new(
        pools.len(),
        |i: int|
            (
                pools[i].name@,
                Script::Table(seq![("next"@, option_text(next_of(state, pools[i].name@)))]),
            ),
    )
}

/// The item each series played last, as a script sees it.
pub open spec fn cursor_map(cursor: Seq<(String, String)>) -> Seq<(Seq<char>, Script)> {
    cursor.map_values(|c: (String, String)| (c.0@, Script::Text(c.1@)))
}

/// What a sequencer script is handed.
pub open spec fn arrange_ctx(
    catalog: Catalog,
    pools: Seq<Pool>,
    made: Seq<Seq<SeriesModel>>,
    state: GenerationState,
    window: Window,
    now: i64,
) -> Script {
    Script::Table(
        seq![
            ("pools"@, Script::Table(pool_maps(catalog, pools, made))),
            ("window"@, window_map(window)),
            ("resume"@, Script::Table(resume_maps(state, pools))),
            ("cursor"@, Script::Table(cursor_map(state.cursor@))),
            ("now"@, Script::Int(now as int)),
        ],
    )
}

fn pool_table(catalog: &Catalog, pools: &Vec<Pool>, made: &Vec<Vec<Series>>) -> (out: Vec<Field>)
    requires
        made.len() == pools.len(),
        forall|i: int|
            0 <= i < pools.len() ==> item_maps(
                *catalog,
                flat(#[trigger] models(made@[i]@)),
            ) is Ok,
    ensures
        fields(out@) == pool_maps(*catalog, pools@, all_models(made@)),
{
    let mut out: Vec<Field> = Vec::new();
    let mut i: usize = 0;
    while i < pools.len()
        invariant
            i <= pools.len(),
            out.len() == i,
            made.len() == pools.len(),
            forall|j: int|
                0 <= j < pools.len() ==> item_maps(
                    *catalog,
                    flat(#[trigger] models(made@[j]@)),
                ) is Ok,
            forall|j: int|
                0 <= j < i ==> (#[trigger] out@[j]).name@ == pools@[j].name@ && out@[j].value@
                    == Script::List(item_maps(*catalog, flat(models(made@[j]@)))->Ok_0),
        decreases pools.len() - i,
    {
        assert(item_maps(*catalog, flat(models(made@[i as int]@))) is Ok);
        let items: Vec<ScriptValue> = match load_items(catalog, &flatten_series(&made[i])) {
            Ok(items) => items,
            Err(_) => Vec::new(),
        };
        out.push(Field { name: pools[i].name.clone(), value: ScriptValue::of_list(items) });
        i += 1;
    }
    assert(fields(out@) =~= pool_maps(*catalog, pools@, all_models(made@)));
    out
}

fn window_value(window: Window) -> (out: ScriptValue)
    ensures
        out@ == window_map(window),
{
    let fill: ScriptValue = match window.fill {
        Some(fill) => ScriptValue::Int((fill / NANOS_PER_SEC) as i64),
        None => ScriptValue::Unit,
    };
    let mut table: Vec<Field> = Vec::new();
    table.push(field("from", ScriptValue::Int(window.from)));
    table.push(field("fill_secs", fill));
    assert(fields(table@) =~= window_map(window)->Table_0);
    ScriptValue::of_table(table)
}

fn resume_table(state: &GenerationState, pools: &Vec<Pool>) -> (out: Vec<Field>)
    ensures
        fields(out@) == resume_maps(*state, pools@),
{
    let mut out: Vec<Field> = Vec::new();
    let mut i: usize = 0;
    while i < pools.len()
        invariant
            i <= pools.len(),
            out.len() == i,
            forall|j: int|
                0 <= j < i ==> ((#[trigger] out@[j]).name@, out@[j].value@) == resume_maps(
                    *state,
                    pools@,
                )[j],
        decreases pools.len() - i,
    {
        let next: ScriptValue = match state.resume.pool(&pools[i].name) {
            Some(pool) => ScriptValue::of_option(&pool.next),
            None => ScriptValue::Unit,
        };
        let mut one: Vec<Field> = Vec::new();
        one.push(field("next", next));
        assert(fields(one@) =~= seq![
            ("next"@, option_text(next_of(*state, pools@[i as int].name@))),
        ]);
        out.push(Field { name: pools[i].name.clone(), value: ScriptValue::of_table(one) });
        i += 1;
    }
    assert(fields(out@) =~= resume_maps(*state, pools@));
    out
}

fn cursor_table(cursor: &Vec<(String, String)>) -> (out: Vec<Field>)
    ensures
        fields(out@) == cursor_map(cursor@),
{
    let mut out: Vec<Field> = Vec::new();
    let mut i: usize = 0;
    while i < cursor.len()
        invariant
            i <= cursor.len(),
            out.len() == i,
            forall|j: int|
                0 <= j < i ==> (#[trigger] out@[j]).name@ == cursor@[j].0@ && out@[j].value@
                    == Script::Text(cursor@[j].1@),
        decreases cursor.len() - i,
    {
        out.push(
            Field {
                name: cursor[i].0.clone(),
                value: ScriptValue::of_text(cursor[i].1.as_str()),
            },
        );
        i += 1;
    }
    assert(fields(out@) =~= cursor_map(cursor@));
    out
}

/// Puts together what a sequencer script is handed: the items of each pool in the order they
/// were left in, the window, whose turn is next in each pool, the item each series played
/// last, and the time.
pub fn arrange_value(
    catalog: &Catalog,
    pools: &Vec<Pool>,
    made: &Vec<Vec<Series>>,
    state: &GenerationState,
    window: Window,
    now: i64,
) -> (out: ScriptValue)
    requires
        made.len() == pools.len(),
        forall|i: int|
            0 <= i < pools.len() ==> item_maps(
                *catalog,
                flat(#[trigger] models(made@[i]@)),
            ) is Ok,
    ensures
        out@ == arrange_ctx(*catalog, pools@, all_models(made@), *state, window, now),
{
    let pools_table: ScriptValue = ScriptValue::of_table(pool_table(catalog, pools, made));
    let resume: ScriptValue = ScriptValue::of_table(resume_table(state, pools));
    let cursor: ScriptValue = ScriptValue::of_table(cursor_table(&state.cursor));
    let mut table: Vec<Field> = Vec::new();
    table.push(field("pools", pools_table));
    table.push(field("window", window_value(window)));
    table.push(field("resume", resume));
    table.push(field("cursor", cursor));
    table.push(field("now", ScriptValue::Int(now)));
    assert(fields(table@) =~= arrange_ctx(
        *catalog,
        pools@,
        all_models(made@),
        *state,
        window,
        now,
    )->Table_0);
    ScriptValue::of_table(table)
}

/// The items of a timeline; the first entry at fault counts.
pub open spec fn timeline(path: Seq<char>, list: Seq<Script>) -> Result<Seq<Seq<char>>, Seq<char>>
    decreases list.len(),
{
    if list.len() == 0 {
        Ok(Seq::empty())
    } else {
        match timeline(path, list.drop_last()) {
            Err(why) => Err(why),
            Ok(ids) => match list.last() {
                Script::Text(id) => Ok(ids.push(id)),
                other => Err(
                    "sequencer plugin "@ + path + ": arrange() item #"@ + decimal(
                        (list.len() - 1) as nat,
                    ) + " must be an entry_id string, got "@ + kind_text(other),
                ),
            },
        }
    }
}

/// The timeline that a sequencer script gave, by what its `arrange()` gave.
pub open spec fn arranged_of(path: Seq<char>, reply: Result<Seq<Script>, Seq<char>>) -> Result<
    Seq<Seq<char>>,
    Seq<char>,
> {
    match reply {
        Err(why) => Err("sequencer plugin "@ + path + ": arrange(): "@ + why),
        Ok(list) => timeline(path, list),
    }
}

/// A timeline, or why there is none.
pub open spec fn told(reply: ArrangeReply) -> Result<Seq<Seq<char>>, Seq<char>> {
    match reply {
        ArrangeReply::Items(ids) => Ok(texts(ids@)),
        ArrangeReply::Failed(why) => Err(why@),
    }
}

proof fn lemma_timeline_err(path: Seq<char>, list: Seq<Script>, i: int)
    requires
        0 <= i <= list.len(),
        timeline(path, list.take(i)) is Err,
    ensures
        timeline(path, list) == timeline(path, list.take(i)),
    decreases list.len() - i,
{
    if i < list.len() {
        assert(list.take(i + 1).drop_last() =~= list.take(i));
        lemma_timeline_err(path, list, i + 1);
    } else {
        assert(list.take(i) =~= list);
    }
}

/// Reads what a sequencer's `arrange()` returned: identities, in the order they air.
pub fn check_arranged(path: &str, reply: Result<Vec<ScriptValue>, String>) -> (out: ArrangeReply)
    ensures
        told(out) == arranged_of(path@, called(reply)),
{
    let list: Vec<ScriptValue> = match reply {
        Ok(list) => list,
        Err(why) => {
            let mut out: String = concat("sequencer plugin ", path, ": arrange(): ");
            out.append(why.as_str());
            return ArrangeReply::Failed(out);
        },
    };
    let ghost all = scripts(list@);
    let mut out: Vec<String> = Vec::new();
    let mut i: usize = 0;
    assert(all.take(0) =~= Seq::<Script>::empty());
    assert(texts(out@) =~= Seq::<Seq<char>>::empty());
    while i < list.len()
        invariant
            i <= list.len(),
            all == scripts(list@),
            called(reply) == Ok::<Seq<Script>, Seq<char>>(all),
            timeline(path@, all.take(i as int)) == Ok::<Seq<Seq<char>>, Seq<char>>(texts(out@)),
        decreases list.len() - i,
    {
        assert(all.take(i + 1).drop_last() =~= all.take(i as int));
        assert(all.take(i + 1).last() == list@[i as int]@);
        proof {
            lemma_script(list@[i as int]);
        }
        match &list[i] {
            ScriptValue::Text(id) => {
                let ghost before = texts(out@);
                out.push(id.clone());
                assert(texts(out@) =~= before.push(id@));
            },
            other => {
                proof {
                    lemma_timeline_err(path@, all, i + 1);
                }
                let mut why: String = concat("sequencer plugin ", path, ": arrange() item #");
                why.append(write_decimal(i as u64).as_str());
                why.append(" must be an entry_id string, got ");
                why.append(kind_of(other).as_str());
                return ArrangeReply::Failed(why);
            },
        }
        i += 1;
    }
    assert(all.take(i as int) =~= all);
    ArrangeReply::Items(out)
}

/// Whether a reply is one that a sequencer script may give when it is handed a value.
pub open spec fn may_arrange(
    path: Seq<char>,
    read: SourceRead,
    value: Script,
    reply: Result<Seq<Seq<char>>, Seq<char>>,
) -> bool {
    match read {
        SourceRead::Failed(why) => reply == Err::<Seq<Seq<char>>, Seq<char>>(
            "read sequencer plugin "@ + path + ": "@ + why@,
        ),
        SourceRead::Text(source) => match uncompilable(source@) {
            Some(why) => reply == Err::<Seq<Seq<char>>, Seq<char>>(
                "compile sequencer plugin "@ + path + ": "@ + why,
            ),
            None => exists|given: Result<Seq<Script>, Seq<char>>|
                #[trigger] may_give(source@, "arrange"@, Handed::Value(value), listed(given))
                    && reply == arranged_of(path, given),
        },
    }
}

/// Compiles a sequencer script, hands it a value and reads the timeline that its `arrange()`
/// returns. Neither the pools nor the window bind the timeline yet.
pub fn call_arrange(path: &str, read: &SourceRead, value: &ScriptValue) -> (out: ArrangeReply)
    ensures
        may_arrange(path@, *read, value@, told(out)),
{
    let source: &String = match read {
        SourceRead::Text(source) => source,
        SourceRead::Failed(why) => {
            let mut out: String = concat("read sequencer plugin ", path, ": ");
            out.append(why.as_str());
            return ArrangeReply::Failed(out);
        },
    };
    let (script, _) = match compile(source.as_str()) {
        Ok(done) => done,
        Err(why) => {
            let mut out: String = concat("compile sequencer plugin ", path, ": ");
            out.append(why.as_str());
            return ArrangeReply::Failed(out);
        },
    };
    check_arranged(path, call_with_value(&engine(), &script, "arrange", value))
}

proof fn lemma_all_items(
    catalog: Catalog,
    pools: Seq<Pool>,
    lists: Seq<Seq<String>>,
    block: Option<Constraints>,
    tail: Seq<String>,
    i: int,
)
    requires
        pools.len() == lists.len(),
        0 <= i < pools.len(),
        all_series(catalog, pools, lists, block, tail) is Ok,
    ensures
        all_series(catalog, pools, lists, block, tail)->Ok_0.len() == pools.len(),
        first_vanished(
            catalog,
            flat(all_series(catalog, pools, lists, block, tail)->Ok_0[i]),
        ) is None,
    decreases pools.len(),
{
    let shorter = all_series(catalog, pools.drop_last(), lists.drop_last(), block, tail);
    if i < pools.len() - 1 {
        lemma_all_items(catalog, pools.drop_last(), lists.drop_last(), block, tail, i);
    } else if pools.len() > 1 {
        lemma_all_items(catalog, pools.drop_last(), lists.drop_last(), block, tail, 0);
    } else {
        assert(shorter->Ok_0 =~= Seq::<Seq<SeriesModel>>::empty());
    }
}

/// Resolves the pools of a sequenced block, hands them to its script, and gives what the
/// script arranged. Neither the pools nor the window bind the timeline yet.
pub fn arrange_block(
    catalog: &Catalog,
    pools: &Vec<Pool>,
    groups: &Vec<ShowGroup>,
    picks: &Vec<(String, PluginReply)>,
    block: Option<&Constraints>,
    script: &String,
    read: &SourceRead,
    state: &GenerationState,
    window: Window,
    now: i64,
) -> (out: Result<ArrangeReply, ResolveError>)
    ensures
        match pool_lists(*catalog, groups@, picks@, pools@) {
            Err(fault) => out matches Err(got) && got@ == fault,
            Ok(lists) => match all_series(*catalog, pools@, lists, bound(block), state.tail@) {
                Err(fault) => out matches Err(got) && got@ == fault,
                Ok(made) => out matches Ok(reply) && may_arrange(
                    script@,
                    *read,
                    arrange_ctx(*catalog, pools@, made, *state, window, now),
                    told(reply),
                ),
            },
        },
{
    let given: Vec<Vec<String>> = match resolve_pool_sources(catalog, pools, groups, picks) {
        Ok(given) => given,
        Err(e) => return Err(e),
    };
    let made: Vec<Vec<Series>> = match resolve_series(catalog, pools, &given, block, &state.tail) {
        Ok(made) => made,
        Err(e) => return Err(e),
    };
    proof {
        let all = crate::pattern::lists(given@);
        assert forall|i: int| 0 <= i < pools.len() implies item_maps(
            *catalog,
            flat(#[trigger] models(made@[i]@)),
        ) is Ok by {
            lemma_all_items(*catalog, pools@, all, bound(block), state.tail@, i);
            assert(all_models(made@)[i] == models(made@[i]@));
            lemma_vanished(*catalog, flat(models(made@[i]@)));
        }
    }
    let value: ScriptValue = arrange_value(catalog, pools, &made, state, window, now);
    Ok(call_arrange(script.as_str(), read, &value))
}

/// What a sequenced block plays when its script is run: the pools are resolved and handed to
/// the script, and the timeline that comes back is held to the pools and to the window.
pub fn build_from_script(
    catalog: &Catalog,
    pools: &Vec<Pool>,
    groups: &Vec<ShowGroup>,
    picks: &Vec<(String, PluginReply)>,
    block: Option<&Constraints>,
    script: &String,
    read: &SourceRead,
    state: &GenerationState,
    window: Window,
    now: i64,
) -> (out: Result<(Vec<String>, Vec<(String, PoolResume)>), ResolveError>)
    ensures
        match pool_lists(*catalog, groups@, picks@, pools@) {
            Err(fault) => out matches Err(got) && got@ == fault,
            Ok(lists) => match all_series(*catalog, pools@, lists, bound(block), state.tail@) {
                Err(fault) => out matches Err(got) && got@ == fault,
                Ok(made) => exists|reply: ArrangeReply|
                    #[trigger] may_arrange(
                        script@,
                        *read,
                        arrange_ctx(*catalog, pools@, made, *state, window, now),
                        told(reply),
                    ) && match (out, sequenced(
                        *catalog,
                        pools@,
                        groups@,
                        picks@,
                        bound(block),
                        script@,
                        Some(reply),
                        state.tail@,
                        window,
                    )) {
                        (Ok(got), Ok(want)) => got.0@ == want.out && records(
                            pool_names(pools@),
                            turns_after(want.pools, want.out),
                            got.1@,
                        ),
                        (Err(got), Err(want)) => got@ == want,
                        _ => false,
                    },
            },
        },
{
    let reply: ArrangeReply = match arrange_block(
        catalog,
        pools,
        groups,
        picks,
        block,
        script,
        read,
        state,
        window,
        now,
    ) {
        Ok(reply) => reply,
        Err(e) => return Err(e),
    };
    build(catalog, pools, groups, picks, block, script, Some(&reply), state, window)
}

/// The rule of a block, as a mathematical value.
pub open spec fn bound(block: Option<&Constraints>) -> Option<Constraints> {
    match block {
        Some(b) => Some(*b),
        None => None,
    }
}

} // verus!
