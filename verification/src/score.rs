//! Scorer plugins: scripts that pick and rank the items of a pool.
//!
//! The station computes no taste of its own. It hands a script the catalog, the watch
//! history, what the channel aired lately and how many items are needed, and takes back an
//! ordered list of items. A script declares up front which hooks it implements and which
//! capabilities it needs.

use vstd::prelude::*;

use std::sync::Arc;

use vstd::utf8::encode_utf8;

use crate::engine::{
    call_for_entries, call_for_list, call_for_table, call_with_ctx, called, called_shown,
    called_table, compile, defines, ended, engine, entries, halted, lacks, listed, may_give,
    may_show_all, stores, tabled, uncompilable, unshown, Compiled, CtxModel, Handed, ScoreCtx,
};
use crate::catalog::{Answer, Catalog, Entry, Reply};
use crate::datastore::{answer_to, Answered, Datastore, QuestionModel, Stop, Stopped, StoreModel};
use crate::identity::{fnv1a, fnv1a_64};
use crate::names::{contains_name, entry_of, has_name, lookup, put, put_entry, same_text, texts};
use crate::paths::{join, joined};
use crate::pattern::{PluginReply, MAX_TAKE};
use crate::roll::{mix_seed, seed_mix};
use crate::script::{
    fields, find_field, field_of, lemma_script, lemma_smaller, option_number,
    option_text, scripts, share, text_list, Field, Script, ScriptValue,
};
use crate::sources::{pairs, PoolSources};
use crate::text::{
    concat, decimal, quoted, quoted_text, signed_decimal, trim, trimmed, write_decimal, write_signed,
};

verus! {

/// The text of a script, or why it could not be read.
#[derive(Debug)]
pub enum SourceRead {
    Text(String),
    Failed(String),
}

/// Names, or why there are none.
pub open spec fn named(out: Result<Vec<String>, String>) -> Result<Seq<Seq<char>>, Seq<char>> {
    match out {
        Ok(names) => Ok(texts(names@)),
        Err(why) => Err(why@),
    }
}

/// The type of a value, as the engine names it.
pub open spec fn kind_text(value: Script) -> Seq<char> {
    match value {
        Script::Unit => "()"@,
        Script::Bool(_) => "bool"@,
        Script::Int(_) => "i64"@,
        Script::Float(_, _) => "f64"@,
        Script::Char(_) => "char"@,
        Script::Text(_) => "string"@,
        Script::List(_) => "array"@,
        Script::Table(_) => "map"@,
        Script::Other(kind) => kind,
    }
}

/// The type of a value, as the engine names it.
pub fn kind_of(value: &ScriptValue) -> (out: String)
    ensures
        out@ == kind_text(value@),
{
    proof {
        lemma_script(*value);
    }
    match value {
        ScriptValue::Unit => "()".to_owned(),
        ScriptValue::Bool(_) => "bool".to_owned(),
        ScriptValue::Int(_) => "i64".to_owned(),
        ScriptValue::Float(_, _) => "f64".to_owned(),
        ScriptValue::Char(_) => "char".to_owned(),
        ScriptValue::Text(_) => "string".to_owned(),
        ScriptValue::List(_) => "array".to_owned(),
        ScriptValue::Table(_) => "map".to_owned(),
        ScriptValue::Other(kind) => kind.clone(),
    }
}

/// Whether the station knows a hook.
pub open spec fn known_hook(name: Seq<char>) -> bool {
    name == "pool_provider"@ || name == "sequencer"@
}

/// Whether the station knows a hook.
pub fn is_known_hook(name: &str) -> (out: bool)
    ensures
        out == known_hook(name@),
{
    same_text(name, "pool_provider") || same_text(name, "sequencer")
}

/// The hook that one entry of a declaration names.
pub open spec fn hook_name(path: Seq<char>, value: Script) -> Result<Seq<char>, Seq<char>> {
    match value {
        Script::Text(name) => if known_hook(name) {
            Ok(name)
        } else {
            Err(
                "plugin "@ + path + " declares unknown hook "@ + quoted_text(name)
                    + " — known hooks are: pool_provider, sequencer"@,
            )
        },
        _ => Err(
            "plugin "@ + path + ": hooks() must return an array of strings, got "@ + kind_text(value),
        ),
    }
}

/// The hooks that a declaration names; the first entry at fault counts.
pub open spec fn hook_names(path: Seq<char>, list: Seq<Script>) -> Result<
    Seq<Seq<char>>,
    Seq<char>,
>
    decreases list.len(),
{
    if list.len() == 0 {
        Ok(Seq::empty())
    } else {
        match hook_names(path, list.drop_last()) {
            Err(why) => Err(why),
            Ok(names) => match hook_name(path, list.last()) {
                Err(why) => Err(why),
                Ok(name) => Ok(names.push(name)),
            },
        }
    }
}

/// The hooks that a script declares, by what its `hooks()` gave: at least one.
pub open spec fn hooks_of(path: Seq<char>, reply: Result<Seq<Script>, Seq<char>>) -> Result<
    Seq<Seq<char>>,
    Seq<char>,
> {
    match reply {
        Err(why) => Err("plugin "@ + path + ": hooks(): "@ + why),
        Ok(list) => if list.len() == 0 {
            Err(
                "plugin "@ + path
                    + " declares no hooks — a plugin must declare at least one of: pool_provider, sequencer"@,
            )
        } else {
            hook_names(path, list)
        },
    }
}

proof fn lemma_hook_names_err(path: Seq<char>, list: Seq<Script>, i: int)
    requires
        0 <= i <= list.len(),
        hook_names(path, list.take(i)) is Err,
    ensures
        hook_names(path, list) == hook_names(path, list.take(i)),
    decreases list.len() - i,
{
    if i < list.len() {
        assert(list.take(i + 1).drop_last() =~= list.take(i));
        lemma_hook_names_err(path, list, i + 1);
    } else {
        assert(list.take(i) =~= list);
    }
}

fn one_hook(path: &str, value: &ScriptValue) -> (out: Result<String, String>)
    ensures
        match (out, hook_name(path@, value@)) {
            (Ok(got), Ok(want)) => got@ == want,
            (Err(got), Err(want)) => got@ == want,
            _ => false,
        },
{
    proof {
        lemma_script(*value);
    }
    match value {
        ScriptValue::Text(name) => {
            if is_known_hook(name.as_str()) {
                return Ok(name.clone());
            }
            let mut out: String = concat("plugin ", path, " declares unknown hook ");
            out.append(quoted(name.as_str()).as_str());
            out.append(" — known hooks are: pool_provider, sequencer");
            Err(out)
        },
        _ => {
            let mut out: String = concat(
                "plugin ",
                path,
                ": hooks() must return an array of strings, got ",
            );
            out.append(kind_of(value).as_str());
            Err(out)
        },
    }
}

/// Reads the hooks that a script declares out of what its `hooks()` gave. Every failure
/// names the script: a call that failed, no hook at all, an entry that is not a text, or a
/// name that the station does not know.
pub fn check_hooks(path: &str, reply: Result<Vec<ScriptValue>, String>) -> (out: Result<
    Vec<String>,
    String,
>)
    ensures
        named(out) == hooks_of(path@, called(reply)),
{
    let list: Vec<ScriptValue> = match reply {
        Ok(list) => list,
        Err(why) => {
            let mut out: String = concat("plugin ", path, ": hooks(): ");
            out.append(why.as_str());
            return Err(out);
        },
    };
    let ghost all = scripts(list@);
    if list.len() == 0 {
        return Err(
            concat(
                "plugin ",
                path,
                " declares no hooks — a plugin must declare at least one of: pool_provider, sequencer",
            ),
        );
    }
    let mut out: Vec<String> = Vec::new();
    let mut i: usize = 0;
    assert(all.take(0) =~= Seq::<Script>::empty());
    assert(texts(out@) =~= Seq::<Seq<char>>::empty());
    while i < list.len()
        invariant
            i <= list.len(),
            all == scripts(list@),
            called(reply) == Ok::<Seq<Script>, Seq<char>>(all),
            hook_names(path@, all.take(i as int)) == Ok::<Seq<Seq<char>>, Seq<char>>(texts(out@)),
        decreases list.len() - i,
    {
        assert(all.take(i + 1).drop_last() =~= all.take(i as int));
        assert(all.take(i + 1).last() == list@[i as int]@);
        match one_hook(path, &list[i]) {
            Ok(name) => {
                let ghost before = texts(out@);
                out.push(name);
                assert(texts(out@) =~= before.push(name@));
            },
            Err(why) => {
                proof {
                    lemma_hook_names_err(path@, all, i + 1);
                }
                return Err(why);
            },
        }
        i += 1;
    }
    assert(all.take(i as int) =~= all);
    Ok(out)
}

/// Reads the hooks that a script declares. It is compiled and its `hooks()` alone is called:
/// neither what it reads nor how it ranks is run.
pub fn declared_hooks(path: &str, read: &SourceRead) -> (out: Result<Vec<String>, String>)
    ensures
        match *read {
            SourceRead::Failed(why) => named(out) == Err::<Seq<Seq<char>>, Seq<char>>(
                "read plugin "@ + path@ + ": "@ + why@,
            ),
            SourceRead::Text(source) => match uncompilable(source@) {
                Some(why) => named(out) == Err::<Seq<Seq<char>>, Seq<char>>(
                    "compile plugin "@ + path@ + ": "@ + why,
                ),
                None => exists|reply: Result<Seq<Script>, Seq<char>>|
                    #[trigger] may_give(source@, "hooks"@, Handed::Nothing, listed(reply)) && named(out)
                        == hooks_of(path@, reply),
            },
        },
{
    let source: &String = match read {
        SourceRead::Text(source) => source,
        SourceRead::Failed(why) => {
            let mut out: String = concat("read plugin ", path, ": ");
            out.append(why.as_str());
            return Err(out);
        },
    };
    let (script, _) = match compile(source.as_str()) {
        Ok(done) => done,
        Err(why) => {
            let mut out: String = concat("compile plugin ", path, ": ");
            out.append(why.as_str());
            return Err(out);
        },
    };
    check_hooks(path, call_for_list(&engine(), &script, "hooks"))
}

/// Something of the host's that a script can declare a need for.
#[derive(Debug, PartialEq, Eq)]
pub enum Capability {
    /// Opens `ctx.sets`.
    CatalogRead,
    /// Opens `ctx.history`.
    WatchHistory,
    /// A named store that the channel has to grant.
    Datastore(String),
}

/// A capability as mathematical values.
pub enum CapabilityModel {
    CatalogRead,
    WatchHistory,
    Datastore(Seq<char>),
}

impl View for Capability {
    type V = CapabilityModel;

    open spec fn view(&self) -> CapabilityModel {
        match *self {
            Capability::CatalogRead => CapabilityModel::CatalogRead,
            Capability::WatchHistory => CapabilityModel::WatchHistory,
            Capability::Datastore(name) => CapabilityModel::Datastore(name@),
        }
    }
}

impl CapabilityModel {
    /// The one name that a capability answers to.
    pub open spec fn name(self) -> Seq<char> {
        match self {
            CapabilityModel::CatalogRead => "catalog_read"@,
            CapabilityModel::WatchHistory => "watch_history"@,
            CapabilityModel::Datastore(name) => name,
        }
    }
}

impl Capability {
    /// The one name that this capability answers to: what a script declares, and what a pool
    /// grants.
    pub fn name(&self) -> (out: &str)
        ensures
            out@ == self@.name(),
    {
        match self {
            Capability::CatalogRead => "catalog_read",
            Capability::WatchHistory => "watch_history",
            Capability::Datastore(name) => name.as_str(),
        }
    }
}

/// Capabilities as mathematical values.
pub open spec fn capabilities(list: Seq<Capability>) -> Seq<CapabilityModel> {
    list.map_values(|c: Capability| c@)
}

/// The capability that one entry of a declaration names. `shown` is how the engine writes the
/// entry for debugging.
pub open spec fn capability(path: Seq<char>, value: Script, shown: Seq<char>) -> Result<
    CapabilityModel,
    Seq<char>,
> {
    match value {
        Script::Table(table) => match field_of(table, "datastore"@) {
            None => Err(
                "plugin "@ + path + ": capabilities() entry "@ + shown
                    + " is not a recognized capability — expected a string or `#{ datastore: \"name\" }`"@,
            ),
            Some(Script::Text(name)) => if trimmed(name).len() == 0 {
                Err(
                    "plugin "@ + path
                        + ": capabilities() declares a datastore with an empty name"@,
                )
            } else {
                Ok(CapabilityModel::Datastore(name))
            },
            Some(other) => Err(
                "plugin "@ + path + ": capabilities() datastore name must be a string, got "@
                    + kind_text(other),
            ),
        },
        Script::Text(name) => if name == "catalog_read"@ {
            Ok(CapabilityModel::CatalogRead)
        } else if name == "watch_history"@ {
            Ok(CapabilityModel::WatchHistory)
        } else {
            Err(
                "plugin "@ + path + " declares unknown capability "@ + quoted_text(name)
                    + " — known capabilities are: catalog_read, watch_history, or `#{ datastore: \"name\" }`"@,
            )
        },
        _ => Err(
            "plugin "@ + path
                + ": capabilities() must return an array of strings or `#{ datastore: \"name\" }` maps, got "@
                + kind_text(value),
        ),
    }
}

/// The capabilities that a declaration names; the first entry at fault counts.
pub open spec fn capability_list(path: Seq<char>, list: Seq<(Script, Seq<char>)>) -> Result<
    Seq<CapabilityModel>,
    Seq<char>,
>
    decreases list.len(),
{
    if list.len() == 0 {
        Ok(Seq::empty())
    } else {
        match capability_list(path, list.drop_last()) {
            Err(why) => Err(why),
            Ok(found) => match capability(path, list.last().0, list.last().1) {
                Err(why) => Err(why),
                Ok(one) => Ok(found.push(one)),
            },
        }
    }
}

/// The capabilities that a script declares, by what its `capabilities()` gave.
pub open spec fn capabilities_of(
    path: Seq<char>,
    reply: Result<Seq<(Script, Seq<char>)>, Seq<char>>,
) -> Result<Seq<CapabilityModel>, Seq<char>> {
    match reply {
        Err(why) => Err("plugin "@ + path + ": capabilities(): "@ + why),
        Ok(list) => capability_list(path, list),
    }
}

/// Capabilities, or why there are none.
pub open spec fn declared(out: Result<Vec<Capability>, String>) -> Result<
    Seq<CapabilityModel>,
    Seq<char>,
> {
    match out {
        Ok(list) => Ok(capabilities(list@)),
        Err(why) => Err(why@),
    }
}

proof fn lemma_capability_list_err(path: Seq<char>, list: Seq<(Script, Seq<char>)>, i: int)
    requires
        0 <= i <= list.len(),
        capability_list(path, list.take(i)) is Err,
    ensures
        capability_list(path, list) == capability_list(path, list.take(i)),
    decreases list.len() - i,
{
    if i < list.len() {
        assert(list.take(i + 1).drop_last() =~= list.take(i));
        lemma_capability_list_err(path, list, i + 1);
    } else {
        assert(list.take(i) =~= list);
    }
}

fn named_capability(path: &str, name: &String) -> (out: Result<Capability, String>)
    ensures
        match (out, capability(path@, Script::Text(name@), Seq::empty())) {
            (Ok(got), Ok(want)) => got@ == want,
            (Err(got), Err(want)) => got@ == want,
            _ => false,
        },
{
    if same_text(name.as_str(), "catalog_read") {
        return Ok(Capability::CatalogRead);
    }
    if same_text(name.as_str(), "watch_history") {
        return Ok(Capability::WatchHistory);
    }
    let mut out: String = concat("plugin ", path, " declares unknown capability ");
    out.append(quoted(name.as_str()).as_str());
    out.append(
        " — known capabilities are: catalog_read, watch_history, or `#{ datastore: \"name\" }`",
    );
    Err(out)
}

fn datastore_capability(path: &str, table: &Vec<Field>, shown: &str) -> (out: Result<
    Capability,
    String,
>)
    ensures
        match (out, capability(path@, Script::Table(fields(table@)), shown@)) {
            (Ok(got), Ok(want)) => got@ == want,
            (Err(got), Err(want)) => got@ == want,
            _ => false,
        },
{
    match find_field(table, "datastore") {
        None => {
            let mut out: String = concat("plugin ", path, ": capabilities() entry ");
            out.append(shown);
            out.append(
                " is not a recognized capability — expected a string or `#{ datastore: \"name\" }`",
            );
            Err(out)
        },
        Some(value) => {
            proof {
                lemma_script(*value);
            }
            match value {
                ScriptValue::Text(name) => {
                    if trim(name.as_str()).unicode_len() == 0 {
                        return Err(
                            concat(
                                "plugin ",
                                path,
                                ": capabilities() declares a datastore with an empty name",
                            ),
                        );
                    }
                    Ok(Capability::Datastore(name.clone()))
                },
                _ => {
                    let mut out: String = concat(
                        "plugin ",
                        path,
                        ": capabilities() datastore name must be a string, got ",
                    );
                    out.append(kind_of(value).as_str());
                    Err(out)
                },
            }
        },
    }
}

fn one_capability(path: &str, value: &ScriptValue, shown: &str) -> (out: Result<Capability, String>)
    ensures
        match (out, capability(path@, value@, shown@)) {
            (Ok(got), Ok(want)) => got@ == want,
            (Err(got), Err(want)) => got@ == want,
            _ => false,
        },
{
    proof {
        lemma_script(*value);
    }
    match value {
        ScriptValue::Table(table) => datastore_capability(path, table, shown),
        ScriptValue::Text(name) => named_capability(path, name),
        _ => {
            let mut out: String = concat(
                "plugin ",
                path,
                ": capabilities() must return an array of strings or `#{ datastore: \"name\" }` maps, got ",
            );
            out.append(kind_of(value).as_str());
            Err(out)
        },
    }
}

/// Reads the capabilities that a script declares out of what its `capabilities()` gave: the
/// entries, each with how the engine writes it for debugging. Every failure names the script.
pub fn check_capabilities(path: &str, reply: Result<Vec<(ScriptValue, String)>, String>) -> (out:
    Result<Vec<Capability>, String>)
    ensures
        declared(out) == capabilities_of(path@, called_shown(reply)),
{
    let list: Vec<(ScriptValue, String)> = match reply {
        Ok(list) => list,
        Err(why) => {
            let mut out: String = concat("plugin ", path, ": capabilities(): ");
            out.append(why.as_str());
            return Err(out);
        },
    };
    let ghost all = entries(list@);
    let mut out: Vec<Capability> = Vec::new();
    let mut i: usize = 0;
    assert(all.take(0) =~= Seq::<(Script, Seq<char>)>::empty());
    assert(capabilities(out@) =~= Seq::<CapabilityModel>::empty());
    while i < list.len()
        invariant
            i <= list.len(),
            all == entries(list@),
            called_shown(reply) == Ok::<Seq<(Script, Seq<char>)>, Seq<char>>(all),
            capability_list(path@, all.take(i as int)) == Ok::<Seq<CapabilityModel>, Seq<char>>(
                capabilities(out@),
            ),
        decreases list.len() - i,
    {
        assert(all.take(i + 1).drop_last() =~= all.take(i as int));
        assert(all.take(i + 1).last() == (list@[i as int].0@, list@[i as int].1@));
        match one_capability(path, &list[i].0, list[i].1.as_str()) {
            Ok(one) => {
                let ghost before = capabilities(out@);
                out.push(one);
                assert(capabilities(out@) =~= before.push(one@));
            },
            Err(why) => {
                proof {
                    lemma_capability_list_err(path@, all, i + 1);
                }
                return Err(why);
            },
        }
        i += 1;
    }
    assert(all.take(i as int) =~= all);
    Ok(out)
}

/// Reads the capabilities that a script declares. A script without a `capabilities()`
/// declares none: whether there is one is told by what the script defines, so one that
/// fails is not taken for one that is absent. Neither what the script reads nor how it ranks
/// is run.
pub fn declared_capabilities(path: &str, read: &SourceRead) -> (out: Result<
    Vec<Capability>,
    String,
>)
    ensures
        match *read {
            SourceRead::Failed(why) => declared(out) == Err::<Seq<CapabilityModel>, Seq<char>>(
                "read plugin "@ + path@ + ": "@ + why@,
            ),
            SourceRead::Text(source) => match uncompilable(source@) {
                Some(why) => declared(out) == Err::<Seq<CapabilityModel>, Seq<char>>(
                    "compile plugin "@ + path@ + ": "@ + why,
                ),
                None => if defines(source@, "capabilities"@) {
                    exists|reply: Result<Seq<(Script, Seq<char>)>, Seq<char>>|
                        #[trigger] may_give(
                            source@,
                            "capabilities"@,
                            Handed::Nothing,
                            listed(unshown(reply)),
                        ) && (reply matches Ok(list) ==> may_show_all(list)) && declared(out)
                            == capabilities_of(path@, reply)
                } else {
                    declared(out) == Ok::<Seq<CapabilityModel>, Seq<char>>(Seq::empty())
                },
            },
        },
{
    let source: &String = match read {
        SourceRead::Text(source) => source,
        SourceRead::Failed(why) => {
            let mut out: String = concat("read plugin ", path, ": ");
            out.append(why.as_str());
            return Err(out);
        },
    };
    let (script, functions) = match compile(source.as_str()) {
        Ok(done) => done,
        Err(why) => {
            let mut out: String = concat("compile plugin ", path, ": ");
            out.append(why.as_str());
            return Err(out);
        },
    };
    let wanted: String = "capabilities".to_owned();
    let defined: bool = contains_name(&functions, &wanted);
    proof {
        reveal_strlit("capabilities");
        assert(!"capabilities"@.contains('$'));
    }
    if !defined {
        let none: Vec<Capability> = Vec::new();
        assert(capabilities(none@) =~= Seq::<CapabilityModel>::empty());
        return Ok(none);
    }
    let reply: Result<Vec<(ScriptValue, String)>, String> = call_for_entries(
        &engine(),
        &script,
        "capabilities",
    );
    let ghost given = called_shown(reply);
    assert(may_give(source@, "capabilities"@, Handed::Nothing, listed(unshown(given))));
    check_capabilities(path, reply)
}

/// One row of the catalog as a script sees it: every column, and every kind of tag. A column
/// without a value is unit.
pub open spec fn item_fields(e: Entry) -> Seq<(Seq<char>, Script)> {
    seq![
        ("entry_id"@, Script::Text(e.entry_id@)),
        ("type"@, Script::Text(e.kind@)),
        ("title"@, Script::Text(e.title@)),
        ("title_sort"@, option_text(e.title_sort)),
        ("show"@, option_text(e.show)),
        ("show_id"@, option_text(e.show_id)),
        ("season"@, option_number(e.season)),
        ("episode"@, option_number(e.episode)),
        ("absolute_episode"@, option_number(e.absolute_episode)),
        ("edition"@, option_text(e.edition)),
        ("studio"@, option_text(e.studio)),
        ("year"@, option_number(e.year)),
        ("release_date"@, option_text(e.release_date)),
        ("duration_ms"@, option_number(e.duration_ms)),
        ("content_rating"@, option_text(e.content_rating)),
        ("library"@, option_text(e.library)),
        ("genres"@, text_list(e.tags.genres@)),
        ("labels"@, text_list(e.tags.labels@)),
        ("cast"@, text_list(e.tags.cast@)),
        ("directors"@, text_list(e.tags.directors@)),
        ("writers"@, text_list(e.tags.writers@)),
        ("producers"@, text_list(e.tags.producers@)),
        ("countries"@, text_list(e.tags.countries@)),
    ]
}

/// A field of a table.
pub fn field(name: &str, value: ScriptValue) -> (out: Field)
    ensures
        out.name@ == name@,
        out.value@ == value@,
{
    Field { name: name.to_owned(), value }
}

fn item_columns(e: &Entry) -> (out: Vec<Field>)
    ensures
        fields(out@) == item_fields(*e).take(16),
{
    let mut out: Vec<Field> = Vec::new();
    out.push(field("entry_id", ScriptValue::of_text(e.entry_id.as_str())));
    out.push(field("type", ScriptValue::of_text(e.kind.as_str())));
    out.push(field("title", ScriptValue::of_text(e.title.as_str())));
    out.push(field("title_sort", ScriptValue::of_option(&e.title_sort)));
    out.push(field("show", ScriptValue::of_option(&e.show)));
    out.push(field("show_id", ScriptValue::of_option(&e.show_id)));
    out.push(field("season", ScriptValue::of_number(e.season)));
    out.push(field("episode", ScriptValue::of_number(e.episode)));
    out.push(field("absolute_episode", ScriptValue::of_number(e.absolute_episode)));
    out.push(field("edition", ScriptValue::of_option(&e.edition)));
    out.push(field("studio", ScriptValue::of_option(&e.studio)));
    out.push(field("year", ScriptValue::of_number(e.year)));
    out.push(field("release_date", ScriptValue::of_option(&e.release_date)));
    out.push(field("duration_ms", ScriptValue::of_number(e.duration_ms)));
    out.push(field("content_rating", ScriptValue::of_option(&e.content_rating)));
    out.push(field("library", ScriptValue::of_option(&e.library)));
    assert(fields(out@) =~= item_fields(*e).take(16));
    out
}

fn item_tags(e: &Entry) -> (out: Vec<Field>)
    ensures
        fields(out@) == item_fields(*e).skip(16),
{
    let mut out: Vec<Field> = Vec::new();
    out.push(field("genres", ScriptValue::of_names(&e.tags.genres)));
    out.push(field("labels", ScriptValue::of_names(&e.tags.labels)));
    out.push(field("cast", ScriptValue::of_names(&e.tags.cast)));
    out.push(field("directors", ScriptValue::of_names(&e.tags.directors)));
    out.push(field("writers", ScriptValue::of_names(&e.tags.writers)));
    out.push(field("producers", ScriptValue::of_names(&e.tags.producers)));
    out.push(field("countries", ScriptValue::of_names(&e.tags.countries)));
    assert(fields(out@) =~= item_fields(*e).skip(16));
    out
}

/// One row of the catalog as a script sees it.
pub fn item_map(e: &Entry) -> (out: ScriptValue)
    ensures
        out@ == Script::Table(item_fields(*e)),
{
    let mut table: Vec<Field> = item_columns(e);
    let mut tags: Vec<Field> = item_tags(e);
    let ghost columns = table@;
    let ghost others = tags@;
    table.append(&mut tags);
    assert(fields(table@) =~= fields(columns) + fields(others));
    assert(fields(table@) =~= item_fields(*e));
    ScriptValue::of_table(table)
}

/// The items as a script sees them; the first that is not in the catalog counts.
pub open spec fn item_maps(catalog: Catalog, ids: Seq<String>) -> Result<Seq<Script>, Seq<char>>
    decreases ids.len(),
{
    if ids.len() == 0 {
        Ok(Seq::empty())
    } else {
        match item_maps(catalog, ids.drop_last()) {
            Err(why) => Err(why),
            Ok(maps) => match catalog.row(ids.last()@) {
                None => Err(
                    "entry "@ + quoted_text(ids.last()@)
                        + " vanished from the catalog mid-resolution"@,
                ),
                Some(e) => Ok(maps.push(Script::Table(item_fields(e)))),
            },
        }
    }
}

proof fn lemma_item_maps_err(catalog: Catalog, ids: Seq<String>, i: int)
    requires
        0 <= i <= ids.len(),
        item_maps(catalog, ids.take(i)) is Err,
    ensures
        item_maps(catalog, ids) == item_maps(catalog, ids.take(i)),
    decreases ids.len() - i,
{
    if i < ids.len() {
        assert(ids.take(i + 1).drop_last() =~= ids.take(i));
        lemma_item_maps_err(catalog, ids, i + 1);
    } else {
        assert(ids.take(i) =~= ids);
    }
}

/// Loads the items as a script sees them: every column of a row, and every kind of tag.
pub fn load_items(catalog: &Catalog, ids: &Vec<String>) -> (out: Result<Vec<ScriptValue>, String>)
    ensures
        called(out) == item_maps(*catalog, ids@),
{
    let mut out: Vec<ScriptValue> = Vec::new();
    let mut i: usize = 0;
    assert(ids@.take(0) =~= Seq::<String>::empty());
    assert(scripts(out@) =~= Seq::<Script>::empty());
    while i < ids.len()
        invariant
            i <= ids.len(),
            item_maps(*catalog, ids@.take(i as int)) == Ok::<Seq<Script>, Seq<char>>(scripts(out@)),
        decreases ids.len() - i,
    {
        assert(ids@.take(i + 1).drop_last() =~= ids@.take(i as int));
        assert(ids@.take(i + 1).last() == ids@[i as int]);
        match catalog.entry(&ids[i]) {
            None => {
                proof {
                    lemma_item_maps_err(*catalog, ids@, i + 1);
                }
                return Err(
                    concat(
                        "entry ",
                        quoted(ids[i].as_str()).as_str(),
                        " vanished from the catalog mid-resolution",
                    ),
                );
            },
            Some(e) => {
                let ghost before = scripts(out@);
                let one: ScriptValue = item_map(e);
                out.push(one);
                assert(scripts(out@) =~= before.push(one@));
            },
        }
        i += 1;
    }
    assert(ids@.take(i as int) =~= ids@);
    Ok(out)
}

/// Why something stopped.
#[derive(Debug)]
pub enum Halt {
    /// This query has to be put to the catalog before it can go on.
    Unasked(String),
    /// It failed.
    Failed(String),
}

/// Why something stopped, as mathematical values.
pub enum Halted {
    Unasked(Seq<char>),
    Failed(Seq<char>),
}

impl View for Halt {
    type V = Halted;

    open spec fn view(&self) -> Halted {
        match *self {
            Halt::Unasked(query) => Halted::Unasked(query@),
            Halt::Failed(why) => Halted::Failed(why@),
        }
    }
}

/// The query that one entry of a script's `sources()` declares.
pub open spec fn source_query(path: Seq<char>, entry: (Seq<char>, Script)) -> Result<
    (Seq<char>, Seq<char>),
    Seq<char>,
> {
    match entry.1 {
        Script::Text(query) => Ok((entry.0, query)),
        other => Err(
            "scorer plugin "@ + path + ": source "@ + quoted_text(entry.0)
                + " must be a CEL string, got "@ + kind_text(other),
        ),
    }
}

/// The queries that the entries of a script's `sources()` declare; the first at fault
/// counts.
pub open spec fn source_queries(path: Seq<char>, table: Seq<(Seq<char>, Script)>) -> Result<
    Seq<(Seq<char>, Seq<char>)>,
    Seq<char>,
>
    decreases table.len(),
{
    if table.len() == 0 {
        Ok(Seq::empty())
    } else {
        match source_queries(path, table.drop_last()) {
            Err(why) => Err(why),
            Ok(found) => match source_query(path, table.last()) {
                Err(why) => Err(why),
                Ok(one) => Ok(found.push(one)),
            },
        }
    }
}

/// The queries that a script declares, by what its `sources()` gave.
pub open spec fn sources_of(
    path: Seq<char>,
    reply: Result<Seq<(Seq<char>, Script)>, Seq<char>>,
) -> Result<Seq<(Seq<char>, Seq<char>)>, Seq<char>> {
    match reply {
        Err(why) => Err("scorer plugin "@ + path + ": sources(): "@ + why),
        Ok(table) => source_queries(path, table),
    }
}

proof fn lemma_source_queries_err(path: Seq<char>, table: Seq<(Seq<char>, Script)>, i: int)
    requires
        0 <= i <= table.len(),
        source_queries(path, table.take(i)) is Err,
    ensures
        source_queries(path, table) == source_queries(path, table.take(i)),
    decreases table.len() - i,
{
    if i < table.len() {
        assert(table.take(i + 1).drop_last() =~= table.take(i));
        lemma_source_queries_err(path, table, i + 1);
    } else {
        assert(table.take(i) =~= table);
    }
}

/// Reads the queries that a script declares out of what its `sources()` gave.
pub fn check_sources(path: &str, reply: Result<Vec<Field>, String>) -> (out: Result<
    Vec<(String, String)>,
    String,
>)
    ensures
        match (out, sources_of(path@, called_table(reply))) {
            (Ok(got), Ok(want)) => pairs(got@) == want,
            (Err(got), Err(want)) => got@ == want,
            _ => false,
        },
{
    let table: Vec<Field> = match reply {
        Ok(table) => table,
        Err(why) => {
            let mut out: String = concat("scorer plugin ", path, ": sources(): ");
            out.append(why.as_str());
            return Err(out);
        },
    };
    let ghost all = fields(table@);
    let mut out: Vec<(String, String)> = Vec::new();
    let mut i: usize = 0;
    assert(all.take(0) =~= Seq::<(Seq<char>, Script)>::empty());
    assert(pairs(out@) =~= Seq::<(Seq<char>, Seq<char>)>::empty());
    while i < table.len()
        invariant
            i <= table.len(),
            all == fields(table@),
            called_table(reply) == Ok::<Seq<(Seq<char>, Script)>, Seq<char>>(all),
            source_queries(path@, all.take(i as int)) == Ok::<
                Seq<(Seq<char>, Seq<char>)>,
                Seq<char>,
            >(pairs(out@)),
        decreases table.len() - i,
    {
        assert(all.take(i + 1).drop_last() =~= all.take(i as int));
        assert(all.take(i + 1).last() == (table@[i as int].name@, table@[i as int].value@));
        proof {
            lemma_script(table@[i as int].value);
        }
        let name: &String = &table[i].name;
        match &table[i].value {
            ScriptValue::Text(query) => {
                let ghost before = pairs(out@);
                out.push((name.clone(), query.clone()));
                assert(pairs(out@) =~= before.push((name@, query@)));
            },
            other => {
                proof {
                    lemma_source_queries_err(path@, all, i + 1);
                }
                let mut why: String = concat("scorer plugin ", path, ": source ");
                why.append(quoted(name.as_str()).as_str());
                why.append(" must be a CEL string, got ");
                why.append(kind_of(other).as_str());
                return Err(why);
            },
        }
        i += 1;
    }
    assert(all.take(i as int) =~= all);
    Ok(out)
}

/// The items that one query gives, as a script sees them. `whose` says who wrote the query.
pub open spec fn resolved_set(
    catalog: Catalog,
    whose: Seq<char>,
    name: Seq<char>,
    query: Seq<char>,
) -> Result<Script, Halted> {
    match catalog.query_answer(query) {
        Answer::Unasked => Err(Halted::Unasked(query)),
        Answer::Failed(why) => Err(
            Halted::Failed(whose + " "@ + quoted_text(name) + " ("@ + query + "): "@ + why@),
        ),
        Answer::Items(ids) => match item_maps(catalog, ids) {
            Err(why) => Err(Halted::Failed(whose + " "@ + quoted_text(name) + ": "@ + why)),
            Ok(maps) => Ok(Script::List(maps)),
        },
    }
}

/// The items that the queries give, as a script sees them; the first query at fault counts.
pub open spec fn resolved_sets(
    catalog: Catalog,
    whose: Seq<char>,
    queries: Seq<(Seq<char>, Seq<char>)>,
) -> Result<Seq<(Seq<char>, Script)>, Halted>
    decreases queries.len(),
{
    if queries.len() == 0 {
        Ok(Seq::empty())
    } else {
        match resolved_sets(catalog, whose, queries.drop_last()) {
            Err(halted) => Err(halted),
            Ok(sets) => match resolved_set(catalog, whose, queries.last().0, queries.last().1) {
                Err(halted) => Err(halted),
                Ok(set) => Ok(sets.push((queries.last().0, set))),
            },
        }
    }
}

proof fn lemma_resolved_sets_err(
    catalog: Catalog,
    whose: Seq<char>,
    queries: Seq<(Seq<char>, Seq<char>)>,
    i: int,
)
    requires
        0 <= i <= queries.len(),
        resolved_sets(catalog, whose, queries.take(i)) is Err,
    ensures
        resolved_sets(catalog, whose, queries) == resolved_sets(catalog, whose, queries.take(i)),
    decreases queries.len() - i,
{
    if i < queries.len() {
        assert(queries.take(i + 1).drop_last() =~= queries.take(i));
        lemma_resolved_sets_err(catalog, whose, queries, i + 1);
    } else {
        assert(queries.take(i) =~= queries);
    }
}

fn resolve_set(catalog: &Catalog, whose: &str, name: &String, query: &String) -> (out: Result<
    ScriptValue,
    Halt,
>)
    ensures
        match (out, resolved_set(*catalog, whose@, name@, query@)) {
            (Ok(got), Ok(want)) => got@ == want,
            (Err(got), Err(want)) => got@ == want,
            _ => false,
        },
{
    match catalog.resolve_query(query) {
        None => Err(Halt::Unasked(query.clone())),
        Some(Reply::Failed(why)) => {
            let mut out: String = concat(whose, " ", quoted(name.as_str()).as_str());
            out.append(" (");
            out.append(query.as_str());
            out.append("): ");
            out.append(why.as_str());
            Err(Halt::Failed(out))
        },
        Some(Reply::Items(ids)) => match load_items(catalog, &ids) {
            Err(why) => {
                let mut out: String = concat(whose, " ", quoted(name.as_str()).as_str());
                out.append(": ");
                out.append(why.as_str());
                Err(Halt::Failed(out))
            },
            Ok(maps) => Ok(ScriptValue::of_list(maps)),
        },
    }
}

/// Resolves the queries against the catalog. A bad query fails here, before any ranking,
/// and says who wrote it.
pub fn resolve_sets(catalog: &Catalog, whose: &str, queries: &Vec<(String, String)>) -> (out:
    Result<Vec<Field>, Halt>)
    ensures
        match (out, resolved_sets(*catalog, whose@, pairs(queries@))) {
            (Ok(got), Ok(want)) => fields(got@) == want,
            (Err(got), Err(want)) => got@ == want,
            _ => false,
        },
{
    let ghost all = pairs(queries@);
    let mut out: Vec<Field> = Vec::new();
    let mut i: usize = 0;
    assert(all.take(0) =~= Seq::<(Seq<char>, Seq<char>)>::empty());
    assert(fields(out@) =~= Seq::<(Seq<char>, Script)>::empty());
    while i < queries.len()
        invariant
            i <= queries.len(),
            all == pairs(queries@),
            resolved_sets(*catalog, whose@, all.take(i as int)) == Ok::<
                Seq<(Seq<char>, Script)>,
                Halted,
            >(fields(out@)),
        decreases queries.len() - i,
    {
        assert(all.take(i + 1).drop_last() =~= all.take(i as int));
        assert(all.take(i + 1).last() == (queries@[i as int].0@, queries@[i as int].1@));
        match resolve_set(catalog, whose, &queries[i].0, &queries[i].1) {
            Ok(set) => {
                let ghost before = fields(out@);
                out.push(Field { name: queries[i].0.clone(), value: set });
                assert(fields(out@) =~= before.push((queries@[i as int].0@, set@)));
            },
            Err(halt) => {
                proof {
                    lemma_resolved_sets_err(*catalog, whose@, all, i + 1);
                }
                return Err(halt);
            },
        }
        i += 1;
    }
    assert(all.take(i as int) =~= all);
    Ok(out)
}

/// A script that is ready to rank: compiled, and what it reads resolved.
pub struct CachedScript {
    pub path: String,
    /// The queries that the pool brought along; the script's own when absent.
    pub sources: Option<PoolSources>,
    pub script: Compiled,
    pub sets: Arc<ScriptValue>,
}

/// The queries a script is resolved against, as mathematical values.
pub open spec fn brought(sources: Option<PoolSources>) -> Option<Seq<(Seq<char>, Seq<char>)>> {
    match sources {
        Some(table) => Some(table@),
        None => None,
    }
}

/// The queries a script is resolved against, as mathematical values.
pub open spec fn brought_by(sources: Option<&PoolSources>) -> Option<Seq<(Seq<char>, Seq<char>)>> {
    match sources {
        Some(table) => Some(table@),
        None => None,
    }
}

/// Whether a cached script answers to a path and the queries it is resolved against.
pub open spec fn answers_to(
    entry: CachedScript,
    path: Seq<char>,
    sources: Option<Seq<(Seq<char>, Seq<char>)>>,
) -> bool {
    entry.path@ == path && brought(entry.sources) == sources
}

/// Where the cached script stands that answers to a path and the queries it is resolved
/// against.
pub open spec fn cached_at(
    entries: Seq<CachedScript>,
    path: Seq<char>,
    sources: Option<Seq<(Seq<char>, Seq<char>)>>,
) -> Option<int>
    decreases entries.len(),
{
    if entries.len() == 0 {
        None
    } else {
        match cached_at(entries.drop_last(), path, sources) {
            Some(i) => Some(i),
            None => if answers_to(entries.last(), path, sources) {
                Some(entries.len() - 1)
            } else {
                None
            },
        }
    }
}

proof fn lemma_cached_at(
    entries: Seq<CachedScript>,
    path: Seq<char>,
    sources: Option<Seq<(Seq<char>, Seq<char>)>>,
    i: int,
)
    requires
        0 <= i <= entries.len(),
        cached_at(entries.take(i), path, sources) is Some,
    ensures
        cached_at(entries, path, sources) == cached_at(entries.take(i), path, sources),
    decreases entries.len() - i,
{
    if i < entries.len() {
        assert(entries.take(i + 1).drop_last() =~= entries.take(i));
        lemma_cached_at(entries, path, sources, i + 1);
    } else {
        assert(entries.take(i) =~= entries);
    }
}

/// One generation's compiled scripts and what they read, by the script and the queries it is
/// resolved against: two pools that name one script with the same queries share one entry.
///
/// Beside them stands what the picked items carried, by the pool and the item.
pub struct ScoreCache {
    pub entries: Vec<CachedScript>,
    pub picked_extras: Vec<PickedRow>,
}

/// What a picked item carried besides its identity.
#[derive(Debug)]
pub struct PickedExtra {
    pub metadata: Option<Arc<ScriptValue>>,
    pub take_override: Option<usize>,
}

/// What an item carried in what the plugin of a pool picked.
#[derive(Debug)]
pub struct PickedRow {
    pub pool: String,
    pub id: String,
    pub extra: PickedExtra,
}

/// Who wrote the queries, as an error says it: the file the author has to go and edit.
pub open spec fn whose_text(path: Seq<char>, sources: Option<Seq<(Seq<char>, Seq<char>)>>) -> Seq<
    char,
> {
    match sources {
        Some(_) => "channel-authored source"@,
        None => "scorer plugin "@ + path + ": source"@,
    }
}

/// What a script reads: the pool's own queries when it brought any, and else the ones the
/// script declared in `reply`.
pub open spec fn readied(
    catalog: Catalog,
    path: Seq<char>,
    sources: Option<Seq<(Seq<char>, Seq<char>)>>,
    reply: Result<Seq<(Seq<char>, Script)>, Seq<char>>,
) -> Result<Script, Halted> {
    let queries = match sources {
        Some(table) => Ok(table),
        None => sources_of(path, reply),
    };
    match queries {
        Err(why) => Err(Halted::Failed(why)),
        Ok(list) => match resolved_sets(catalog, whose_text(path, sources), list) {
            Err(halted) => Err(halted),
            Ok(sets) => Ok(Script::Table(sets)),
        },
    }
}

/// Whether a script was made ready as told.
pub open spec fn ready_as(
    out: Result<CachedScript, Halt>,
    want: Result<Script, Halted>,
    path: Seq<char>,
    sources: Option<Seq<(Seq<char>, Seq<char>)>>,
    source: Seq<char>,
) -> bool {
    match (out, want) {
        (Ok(entry), Ok(sets)) => {
            &&& answers_to(entry, path, sources)
            &&& entry.script.source() == source
            &&& (*entry.sets)@ == sets
        },
        (Err(got), Err(halted)) => got@ == halted,
        _ => false,
    }
}

/// Whether a script was made ready as it has to be: by its text, and, where the pool brought
/// no queries along, by something that its `sources()` may give.
pub open spec fn made_ready(
    out: Result<CachedScript, Halt>,
    catalog: Catalog,
    path: Seq<char>,
    read: SourceRead,
    sources: Option<Seq<(Seq<char>, Seq<char>)>>,
) -> bool {
    match read {
        SourceRead::Failed(why) => out matches Err(halt) && halt@ == Halted::Failed(
            "read scorer plugin "@ + path + ": "@ + why@,
        ),
        SourceRead::Text(source) => match uncompilable(source@) {
            Some(why) => out matches Err(halt) && halt@ == Halted::Failed(
                "compile scorer plugin "@ + path + ": "@ + why,
            ),
            None => match sources {
                Some(table) => ready_as(
                    out,
                    readied(catalog, path, sources, Ok(Seq::empty())),
                    path,
                    sources,
                    source@,
                ),
                None => exists|reply: Result<Seq<(Seq<char>, Script)>, Seq<char>>|
                    #[trigger] may_give(source@, "sources"@, Handed::Nothing, tabled(reply))
                        && ready_as(
                        out,
                        readied(catalog, path, sources, reply),
                        path,
                        sources,
                        source@,
                    ),
            },
        },
    }
}

/// Resolves what a script reads, when the queries are known.
fn resolve_for(
    catalog: &Catalog,
    path: &str,
    sources: Option<&PoolSources>,
    script: Compiled,
    queries: &Vec<(String, String)>,
) -> (out: Result<CachedScript, Halt>)
    ensures
        ready_as(
            out,
            match resolved_sets(*catalog, whose_text(path@, brought_by(sources)), pairs(queries@)) {
                Err(halted) => Err(halted),
                Ok(sets) => Ok(Script::Table(sets)),
            },
            path@,
            brought_by(sources),
            script.source(),
        ),
{
    let whose: String = match sources {
        Some(_) => "channel-authored source".to_owned(),
        None => concat("scorer plugin ", path, ": source"),
    };
    let sets: Vec<Field> = match resolve_sets(catalog, whose.as_str(), queries) {
        Ok(sets) => sets,
        Err(halt) => return Err(halt),
    };
    let table: ScriptValue = ScriptValue::of_table(sets);
    let kept: Option<PoolSources> = match sources {
        Some(table) => Some(table.copy()),
        None => None,
    };
    Ok(CachedScript { path: path.to_owned(), sources: kept, script, sets: Arc::new(table) })
}

/// Compiles a script and resolves every query it will read: the pool's own where it brought
/// any, which leaves the script's `sources()` uncalled.
pub fn compile_and_resolve(
    catalog: &Catalog,
    path: &str,
    read: &SourceRead,
    sources: Option<&PoolSources>,
) -> (out: Result<CachedScript, Halt>)
    ensures
        made_ready(out, *catalog, path@, *read, brought_by(sources)),
{
    let source: &String = match read {
        SourceRead::Text(source) => source,
        SourceRead::Failed(why) => {
            let mut out: String = concat("read scorer plugin ", path, ": ");
            out.append(why.as_str());
            return Err(Halt::Failed(out));
        },
    };
    let (script, _) = match compile(source.as_str()) {
        Ok(done) => done,
        Err(why) => {
            let mut out: String = concat("compile scorer plugin ", path, ": ");
            out.append(why.as_str());
            return Err(Halt::Failed(out));
        },
    };
    match sources {
        Some(table) => resolve_for(catalog, path, sources, script, table.rows()),
        None => {
            let reply: Result<Vec<Field>, String> = call_for_table(&engine(), &script, "sources");
            let ghost given = called_table(reply);
            assert(may_give(source@, "sources"@, Handed::Nothing, tabled(given)));
            match check_sources(path, reply) {
                Err(why) => Err(Halt::Failed(why)),
                Ok(queries) => resolve_for(catalog, path, sources, script, &queries),
            }
        },
    }
}

impl ScoreCache {
    /// A cache without a script.
    pub fn new() -> (out: ScoreCache)
        ensures
            out.entries@ == Seq::<CachedScript>::empty(),
            out.picked_extras@ == Seq::<PickedRow>::empty(),
    {
        ScoreCache { entries: Vec::new(), picked_extras: Vec::new() }
    }

    /// Where the script stands that answers to a path and the queries it is resolved against.
    pub fn position(&self, path: &str, sources: Option<&PoolSources>) -> (out: Option<usize>)
        ensures
            out is Some <==> cached_at(self.entries@, path@, brought_by(sources)) is Some,
            out matches Some(i) ==> cached_at(self.entries@, path@, brought_by(sources)) == Some(
                i as int,
            ) && i < self.entries.len() && answers_to(
                self.entries@[i as int],
                path@,
                brought_by(sources),
            ),
    {
        let ghost key = brought_by(sources);
        let mut i: usize = 0;
        assert(self.entries@.take(0) =~= Seq::<CachedScript>::empty());
        while i < self.entries.len()
            invariant
                i <= self.entries.len(),
                key == brought_by(sources),
                cached_at(self.entries@.take(i as int), path@, key) is None,
            decreases self.entries.len() - i,
        {
            assert(self.entries@.take(i + 1).drop_last() =~= self.entries@.take(i as int));
            assert(self.entries@.take(i + 1).last() == self.entries@[i as int]);
            let entry: &CachedScript = &self.entries[i];
            let alike: bool = match (&entry.sources, sources) {
                (Some(x), Some(y)) => x.same(y),
                (None, None) => true,
                _ => false,
            };
            if alike && same_text(entry.path.as_str(), path) {
                proof {
                    lemma_cached_at(self.entries@, path@, key, i + 1);
                }
                return Some(i);
            }
            i += 1;
        }
        assert(self.entries@.take(i as int) =~= self.entries@);
        None
    }

    /// Compiles a script and resolves what it reads, unless the cache has done so already for
    /// these queries. This is the only half of scoring that reads the catalog.
    pub fn prepare(
        &mut self,
        catalog: &Catalog,
        path: &str,
        read: &SourceRead,
        sources: Option<&PoolSources>,
    ) -> (out: Result<(), Halt>)
        ensures
            match cached_at(old(self).entries@, path@, brought_by(sources)) {
                Some(_) => out is Ok && final(self).entries@ == old(self).entries@,
                None => exists|made: Result<CachedScript, Halt>|
                    #[trigger] made_ready(made, *catalog, path@, *read, brought_by(sources))
                        && match (out, made) {
                        (Ok(_), Ok(entry)) => final(self).entries@ == old(self).entries@.push(
                            entry,
                        ),
                        (Err(got), Err(halt)) => got@ == halt@ && final(self).entries@ == old(
                            self,
                        ).entries@,
                        _ => false,
                    },
            },
            final(self).picked_extras@ == old(self).picked_extras@,
    {
        if self.position(path, sources).is_some() {
            return Ok(());
        }
        let made: Result<CachedScript, Halt> = compile_and_resolve(catalog, path, read, sources);
        let ghost given = made;
        assert(made_ready(given, *catalog, path@, *read, brought_by(sources)));
        match made {
            Ok(entry) => {
                self.entries.push(entry);
                Ok(())
            },
            Err(halt) => Err(halt),
        }
    }
}

/// A script that was made ready is found under its path and its queries, and what any other
/// path or queries find stays as it was: no pool is handed another pool's items.
pub proof fn a_prepared_script_is_found(
    entries: Seq<CachedScript>,
    entry: CachedScript,
    path: Seq<char>,
    sources: Option<Seq<(Seq<char>, Seq<char>)>>,
)
    requires
        answers_to(entry, path, sources),
        cached_at(entries, path, sources) is None,
    ensures
        cached_at(entries.push(entry), path, sources) == Some(entries.len() as int),
        forall|other: Seq<char>, table: Option<Seq<(Seq<char>, Seq<char>)>>|
            other != path || table != sources ==> #[trigger] cached_at(
                entries.push(entry),
                other,
                table,
            ) == cached_at(entries, other, table),
{
    assert(entries.push(entry).drop_last() =~= entries);
}

/// One watch event.
#[derive(Debug)]
pub struct WatchEvent {
    pub entry_id: String,
    /// When the watch stopped, in seconds since the epoch.
    pub watched_at: i64,
    /// Who watched, where that is known.
    pub watcher: Option<String>,
}

/// What the station hands a plugin besides the catalog.
#[derive(Debug)]
pub struct ScoreInputs {
    /// How many items the generation needs.
    pub target_count: usize,
    /// Recent watch activity.
    pub history: Vec<WatchEvent>,
    /// What the channel aired most recently, newest last.
    pub recent: Vec<String>,
    /// When the generation runs, in seconds since the epoch.
    pub now: i64,
    /// What was put to each datastore so far and what came of it, by where the datastore lies.
    pub stores: Vec<(String, Arc<Vec<Answered>>)>,
}

/// Which capabilities a channel granted a plugin.
#[derive(Debug)]
pub struct GrantedCapabilities {
    pub catalog_read: bool,
    pub watch_history: bool,
    /// The datastores that were granted and could be opened: where each lies, by its name.
    pub datastores: Vec<(String, String)>,
}

impl GrantedCapabilities {
    /// No capability.
    pub fn none() -> (out: GrantedCapabilities)
        ensures
            !out.catalog_read && !out.watch_history,
            (out.datastores@ == Seq::<(String, String)>::empty()),
    {
        GrantedCapabilities {
            catalog_read: false,
            watch_history: false,
            datastores: Vec::new(),
        }
    }

    /// The capabilities that a pool's grants name. A name that is none of them, such as that
    /// of a datastore, is passed over.
    pub fn from_names(names: &Vec<String>) -> (out: GrantedCapabilities)
        ensures
            out.catalog_read == has_name(names@, "catalog_read"@),
            out.watch_history == has_name(names@, "watch_history"@),
            (out.datastores@ == Seq::<(String, String)>::empty()),
    {
        let reading: String = "catalog_read".to_owned();
        let watching: String = "watch_history".to_owned();
        GrantedCapabilities {
            catalog_read: contains_name(names, &reading),
            watch_history: contains_name(names, &watching),
            datastores: Vec::new(),
        }
    }
}

/// One watch event as a script sees it. Nobody is the empty text, so that a script compares
/// it without a test of its type.
pub open spec fn event_map(e: WatchEvent) -> Script {
    Script::Table(
        seq![
            ("entry_id"@, Script::Text(e.entry_id@)),
            ("watched_at"@, Script::Int(e.watched_at as int)),
            (
                "watcher"@,
                Script::Text(
                    match e.watcher {
                        Some(name) => name@,
                        None => ""@,
                    },
                ),
            ),
        ],
    )
}

fn event_value(e: &WatchEvent) -> (out: ScriptValue)
    ensures
        out@ == event_map(*e),
{
    let watcher: String = match &e.watcher {
        Some(name) => name.clone(),
        None => "".to_owned(),
    };
    let mut table: Vec<Field> = Vec::new();
    table.push(field("entry_id", ScriptValue::of_text(e.entry_id.as_str())));
    table.push(field("watched_at", ScriptValue::Int(e.watched_at)));
    table.push(field("watcher", ScriptValue::Text(watcher)));
    assert(Script::Table(fields(table@)) == event_map(*e)) by {
        assert(fields(table@) =~= event_map(*e)->Table_0);
    }
    ScriptValue::of_table(table)
}

/// The watch events as a script sees them.
pub open spec fn history_list(events: Seq<WatchEvent>) -> Script {
    Script::List(events.map_values(|e: WatchEvent| event_map(e)))
}

fn history_value(events: &Vec<WatchEvent>) -> (out: ScriptValue)
    ensures
        out@ == history_list(events@),
{
    let mut list: Vec<ScriptValue> = Vec::new();
    let mut i: usize = 0;
    while i < events.len()
        invariant
            i <= events.len(),
            list.len() == i,
            forall|j: int| 0 <= j < i ==> (#[trigger] list@[j])@ == event_map(events@[j]),
        decreases events.len() - i,
    {
        list.push(event_value(&events[i]));
        i += 1;
    }
    assert(scripts(list@) =~= events@.map_values(|e: WatchEvent| event_map(e)));
    ScriptValue::of_list(list)
}

/// The seed that a pool's script may draw from: the channel's seed folded with the pool's
/// name, without the highest bit, so that it is never negative.
pub open spec fn seed_for(seed: u64, pool: Seq<char>) -> i64 {
    (seed_mix(seed, fnv1a(encode_utf8(pool))) & 0x7fff_ffff_ffff_ffff) as i64
}

/// The seed that a pool's script may draw from: two pools that name one script draw apart,
/// and one pool's seed is the same in every generation of one channel seed.
pub fn mixed_seed(seed: u64, pool: &str) -> (out: i64)
    ensures
        out == seed_for(seed, pool@),
        out >= 0,
{
    let mixed: u64 = mix_seed(seed, fnv1a_64(pool));
    assert(mixed & 0x7fff_ffff_ffff_ffff <= 0x7fff_ffff_ffff_ffff) by (bit_vector);
    (mixed & 0x7fff_ffff_ffff_ffff) as i64
}

/// What was put to the datastore at a path so far; nothing where nothing was.
pub open spec fn answers_at(known: Seq<(String, Arc<Vec<Answered>>)>, path: Seq<char>) -> Seq<
    Answered,
> {
    match entry_of(known, path) {
        Some(answers) => (*answers)@,
        None => Seq::empty(),
    }
}

/// The datastores that were granted, by name, each with what was put to it so far.
pub open spec fn granted_stores(
    granted: Seq<(String, String)>,
    known: Seq<(String, Arc<Vec<Answered>>)>,
) -> Seq<(Seq<char>, StoreModel)> {
    granted.map_values(
        |g: (String, String)|
            (g.0@, StoreModel { path: g.1@, answers: answers_at(known, g.1@) }),
    )
}

fn open_stores(granted: &Vec<(String, String)>, known: &Vec<(String, Arc<Vec<Answered>>)>) -> (out:
    Vec<(String, Datastore)>)
    ensures
        stores(out@) == granted_stores(granted@, known@),
{
    let mut out: Vec<(String, Datastore)> = Vec::new();
    let mut i: usize = 0;
    while i < granted.len()
        invariant
            i <= granted.len(),
            out.len() == i,
            forall|j: int|
                0 <= j < i ==> (#[trigger] out@[j]).0@ == granted@[j].0@ && out@[j].1@ == (
                StoreModel { path: granted@[j].1@, answers: answers_at(known@, granted@[j].1@) }),
        decreases granted.len() - i,
    {
        let (name, path): &(String, String) = &granted[i];
        let answers: Arc<Vec<Answered>> = match lookup(known, path) {
            Some(answers) => share(answers),
            None => Arc::new(Vec::new()),
        };
        out.push((name.clone(), Datastore { path: path.clone(), answers }));
        i += 1;
    }
    assert(stores(out@) =~= granted_stores(granted@, known@));
    out
}

/// A question that a datastore was asked in vain was not put to it before: what was answered
/// once is never asked again.
pub proof fn an_answered_question_is_not_asked_again(
    sets: Script,
    inputs: ScoreInputs,
    seed: u64,
    pool: Seq<char>,
    config: Option<Script>,
    granted: GrantedCapabilities,
    store: Seq<char>,
    question: QuestionModel,
)
    requires
        lacks(handed(sets, inputs, seed, pool, config, granted), store, question),
    ensures
        answer_to(answers_at(inputs.stores@, store), question) is None,
{
}

/// What a plugin is handed: the resolved sets and the watch history only where they were
/// granted. A pool without a configuration hands an empty table.
pub open spec fn handed(
    sets: Script,
    inputs: ScoreInputs,
    seed: u64,
    pool: Seq<char>,
    config: Option<Script>,
    granted: GrantedCapabilities,
) -> CtxModel {
    CtxModel {
        sets: if granted.catalog_read {
            Some(sets)
        } else {
            None
        },
        pool,
        config: match config {
            Some(value) => value,
            None => Script::Table(Seq::empty()),
        },
        target_count: (inputs.target_count as i64) as int,
        now: inputs.now as int,
        history: if granted.watch_history {
            Some(history_list(inputs.history@))
        } else {
            None
        },
        recent: text_list(inputs.recent@),
        datastores: granted_stores(granted.datastores@, inputs.stores@),
        seed: seed_for(seed, pool) as int,
    }
}

/// A pool's configuration, as mathematical values.
pub open spec fn configured(config: Option<&Arc<ScriptValue>>) -> Option<Script> {
    match config {
        Some(value) => Some((**value)@),
        None => None,
    }
}

/// A pool's configuration as its script reads it: an empty table where there is none.
pub fn pool_config(config: Option<&Arc<ScriptValue>>) -> (out: Arc<ScriptValue>)
    ensures
        (*out)@ == match config {
            Some(value) => (**value)@,
            None => Script::Table(Seq::empty()),
        },
{
    match config {
        Some(value) => share(value),
        None => {
            let none: Vec<Field> = Vec::new();
            assert(fields(none@) =~= Seq::<(Seq<char>, Script)>::empty());
            Arc::new(ScriptValue::of_table(none))
        },
    }
}

/// Puts together what a plugin is handed.
pub fn context(
    sets: &Arc<ScriptValue>,
    inputs: &ScoreInputs,
    seed: u64,
    pool: &str,
    config: Option<&Arc<ScriptValue>>,
    granted: &GrantedCapabilities,
) -> (out: ScoreCtx)
    ensures
        out@ == handed(
            (**sets)@,
            *inputs,
            seed,
            pool@,
            configured(config),
            *granted,
        ),
{
    ScoreCtx {
        sets: if granted.catalog_read {
            Some(share(sets))
        } else {
            None
        },
        pool: pool.to_owned(),
        config: pool_config(config),
        target_count: inputs.target_count as i64,
        now: inputs.now,
        history: if granted.watch_history {
            Some(Arc::new(history_value(&inputs.history)))
        } else {
            None
        },
        recent: Arc::new(ScriptValue::of_names(&inputs.recent)),
        datastores: open_stores(&granted.datastores, &inputs.stores),
        seed: mixed_seed(seed, pool),
    }
}

/// One item that a plugin picked.
#[derive(Debug)]
pub struct PickedItem {
    pub id: String,
    /// What the plugin attached to it.
    pub metadata: Option<ScriptValue>,
    /// How much of the item's series to take, where the plugin says so.
    pub take_override: Option<usize>,
}

/// One item that a plugin picked, as mathematical values.
pub struct Picked {
    pub id: Seq<char>,
    pub metadata: Option<Script>,
    pub take_override: Option<usize>,
}

impl View for PickedItem {
    type V = Picked;

    open spec fn view(&self) -> Picked {
        Picked {
            id: self.id@,
            metadata: match self.metadata {
                Some(value) => Some(value@),
                None => None,
            },
            take_override: self.take_override,
        }
    }
}

/// Picked items as mathematical values.
pub open spec fn picked_items(list: Seq<PickedItem>) -> Seq<Picked> {
    list.map_values(|p: PickedItem| p@)
}

/// Picked items, or why there are none.
pub open spec fn picked_result(out: Result<Vec<PickedItem>, String>) -> Result<
    Seq<Picked>,
    Seq<char>,
> {
    match out {
        Ok(list) => Ok(picked_items(list@)),
        Err(why) => Err(why@),
    }
}

/// What is said of a number that is not finite, or of a value that cannot be carried, under
/// a key; nothing is said of a value that can be carried whole.
pub open spec fn unfit(value: Script, key: Seq<char>) -> Option<Seq<char>>
    decreases value,
{
    match value {
        Script::Float(_, finite) => if finite {
            None
        } else {
            Some("`"@ + key + "` is not a finite number"@)
        },
        Script::Other(kind) => Some(
            "`"@ + key + "` holds a value of type "@ + kind + ", which cannot be carried"@,
        ),
        Script::List(list) => unfit_list(list, key),
        Script::Table(table) => unfit_table(table),
        _ => None,
    }
}

/// What is said of the first value of a list that cannot be carried.
pub open spec fn unfit_list(list: Seq<Script>, key: Seq<char>) -> Option<Seq<char>>
    decreases list,
{
    if list.len() == 0 {
        None
    } else {
        match unfit_list(list.drop_last(), key) {
            Some(why) => Some(why),
            None => unfit(list.last(), key),
        }
    }
}

/// What is said of the first field of a table that cannot be carried.
pub open spec fn unfit_table(table: Seq<(Seq<char>, Script)>) -> Option<Seq<char>>
    decreases table,
{
    if table.len() == 0 {
        None
    } else {
        match unfit_table(table.drop_last()) {
            Some(why) => Some(why),
            None => unfit(table.last().1, table.last().0),
        }
    }
}

proof fn lemma_unfit_list(list: Seq<Script>, key: Seq<char>, i: int)
    requires
        0 <= i <= list.len(),
        unfit_list(list.take(i), key) is Some,
    ensures
        unfit_list(list, key) == unfit_list(list.take(i), key),
    decreases list.len() - i,
{
    if i < list.len() {
        assert(list.take(i + 1).drop_last() =~= list.take(i));
        lemma_unfit_list(list, key, i + 1);
    } else {
        assert(list.take(i) =~= list);
    }
}

proof fn lemma_unfit_table(table: Seq<(Seq<char>, Script)>, i: int)
    requires
        0 <= i <= table.len(),
        unfit_table(table.take(i)) is Some,
    ensures
        unfit_table(table) == unfit_table(table.take(i)),
    decreases table.len() - i,
{
    if i < table.len() {
        assert(table.take(i + 1).drop_last() =~= table.take(i));
        lemma_unfit_table(table, i + 1);
    } else {
        assert(table.take(i) =~= table);
    }
}

/// Finds the first thing in a value that cannot be carried, and says what it is.
pub fn find_unfit(value: &ScriptValue, key: &str) -> (out: Option<String>)
    ensures
        match (out, unfit(value@, key@)) {
            (Some(got), Some(want)) => got@ == want,
            (None, None) => true,
            _ => false,
        },
    decreases *value,
{
    proof {
        lemma_script(*value);
    }
    match value {
        ScriptValue::Float(_, finite) => if *finite {
            None
        } else {
            Some(concat("`", key, "` is not a finite number"))
        },
        ScriptValue::Other(kind) => {
            let mut out: String = concat("`", key, "` holds a value of type ");
            out.append(kind.as_str());
            out.append(", which cannot be carried");
            Some(out)
        },
        ScriptValue::List(list) => {
            let ghost all = scripts(list@);
            let mut i: usize = 0;
            assert(all.take(0) =~= Seq::<Script>::empty());
            while i < list.len()
                invariant
                    i <= list.len(),
                    *value == ScriptValue::List(*list),
                    value@ == Script::List(all),
                    all == scripts(list@),
                    unfit_list(all.take(i as int), key@) is None,
                decreases list.len() - i,
            {
                proof {
                    lemma_smaller(*value, i as int);
                }
                assert(all.take(i + 1).drop_last() =~= all.take(i as int));
                assert(all.take(i + 1).last() == list@[i as int]@);
                match find_unfit(&list[i], key) {
                    Some(why) => {
                        proof {
                            lemma_unfit_list(all, key@, i + 1);
                        }
                        return Some(why);
                    },
                    None => {},
                }
                i += 1;
            }
            assert(all.take(i as int) =~= all);
            None
        },
        ScriptValue::Table(table) => {
            let ghost all = fields(table@);
            let mut i: usize = 0;
            assert(all.take(0) =~= Seq::<(Seq<char>, Script)>::empty());
            while i < table.len()
                invariant
                    i <= table.len(),
                    *value == ScriptValue::Table(*table),
                    value@ == Script::Table(all),
                    all == fields(table@),
                    unfit_table(all.take(i as int)) is None,
                decreases table.len() - i,
            {
                proof {
                    lemma_smaller(*value, i as int);
                }
                assert(all.take(i + 1).drop_last() =~= all.take(i as int));
                assert(all.take(i + 1).last() == (
                    table@[i as int].name@,
                    table@[i as int].value@,
                ));
                match find_unfit(&table[i].value, table[i].name.as_str()) {
                    Some(why) => {
                        proof {
                            lemma_unfit_table(all, i + 1);
                        }
                        return Some(why);
                    },
                    None => {},
                }
                i += 1;
            }
            assert(all.take(i as int) =~= all);
            None
        },
        _ => None,
    }
}

/// How an error names the item at a position.
pub open spec fn item_head(path: Seq<char>, index: nat) -> Seq<char> {
    "scorer plugin "@ + path + ": pick() item #"@ + decimal(index)
}

/// How an error names the item at a position whose identity is known.
pub open spec fn about(path: Seq<char>, index: nat, id: Seq<char>) -> Seq<char> {
    item_head(path, index) + " ("@ + quoted_text(id) + ")"@
}

/// What a record attaches to its item. Unit attaches nothing.
pub open spec fn picked_metadata(
    path: Seq<char>,
    index: nat,
    id: Seq<char>,
    value: Option<Script>,
) -> Result<Option<Script>, Seq<char>> {
    match value {
        None => Ok(None),
        Some(Script::Unit) => Ok(None),
        Some(held) => match unfit(held, "metadata"@) {
            Some(why) => Err(about(path, index, id) + " metadata: "@ + why),
            None => Ok(Some(held)),
        },
    }
}

/// How much of the item's series a record takes: a whole number, positive and no more than a
/// step may take.
pub open spec fn picked_take(
    path: Seq<char>,
    index: nat,
    id: Seq<char>,
    value: Option<Script>,
) -> Result<Option<usize>, Seq<char>> {
    match value {
        None => Ok(None),
        Some(Script::Int(n)) => if n <= 0 {
            Err(
                about(path, index, id) + " names a take override of "@ + signed_decimal(n)
                    + ", which must be positive"@,
            )
        } else if n > MAX_TAKE {
            Err(
                about(path, index, id) + " names a take override of "@ + signed_decimal(n)
                    + ", which exceeds the maximum of "@ + decimal(MAX_TAKE as nat),
            )
        } else {
            Ok(Some(n as usize))
        },
        Some(other) => Err(
            about(path, index, id) + "'s `take` must be a whole number, got "@ + kind_text(other),
        ),
    }
}

/// The item that one entry of what a plugin returned names: a bare identity, or a record with
/// one.
pub open spec fn picked(path: Seq<char>, index: nat, value: Script) -> Result<Picked, Seq<char>> {
    match value {
        Script::Text(id) => Ok(Picked { id, metadata: None, take_override: None }),
        Script::Table(table) => match field_of(table, "entry_id"@) {
            None => Err(item_head(path, index) + " is a record but names no `entry_id`"@),
            Some(Script::Text(id)) => match picked_metadata(
                path,
                index,
                id,
                field_of(table, "metadata"@),
            ) {
                Err(why) => Err(why),
                Ok(metadata) => match picked_take(path, index, id, field_of(table, "take"@)) {
                    Err(why) => Err(why),
                    Ok(take_override) => Ok(Picked { id, metadata, take_override }),
                },
            },
            Some(other) => Err(
                item_head(path, index) + "'s `entry_id` must be a string, got "@ + kind_text(other),
            ),
        },
        other => Err(
            item_head(path, index)
                + " must be an entry_id string or a record naming one, got "@ + kind_text(other),
        ),
    }
}

fn write_head(path: &str, index: usize) -> (out: String)
    ensures
        out@ == item_head(path@, index as nat),
{
    let mut out: String = concat("scorer plugin ", path, ": pick() item #");
    out.append(write_decimal(index as u64).as_str());
    out
}

fn write_about(path: &str, index: usize, id: &str) -> (out: String)
    ensures
        out@ == about(path@, index as nat, id@),
{
    let mut out: String = write_head(path, index);
    out.append(" (");
    out.append(quoted(id).as_str());
    out.append(")");
    out
}

/// A field that may be absent, as mathematical values.
pub open spec fn read_field(value: Option<&ScriptValue>) -> Option<Script> {
    match value {
        Some(v) => Some(v@),
        None => None,
    }
}

fn parse_metadata(path: &str, index: usize, id: &str, value: Option<&ScriptValue>) -> (out: Result<
    Option<ScriptValue>,
    String,
>)
    ensures
        match (out, picked_metadata(path@, index as nat, id@, read_field(value))) {
            (Ok(got), Ok(want)) => match (got, want) {
                (Some(x), Some(y)) => x@ == y,
                (None, None) => true,
                _ => false,
            },
            (Err(got), Err(want)) => got@ == want,
            _ => false,
        },
{
    match value {
        None => Ok(None),
        Some(held) => {
            proof {
                lemma_script(*held);
            }
            match held {
                ScriptValue::Unit => Ok(None),
                _ => match find_unfit(held, "metadata") {
                    Some(why) => {
                        let mut out: String = write_about(path, index, id);
                        out.append(" metadata: ");
                        out.append(why.as_str());
                        Err(out)
                    },
                    None => Ok(Some(held.copy())),
                },
            }
        },
    }
}

fn parse_take(path: &str, index: usize, id: &str, value: Option<&ScriptValue>) -> (out: Result<
    Option<usize>,
    String,
>)
    ensures
        match (out, picked_take(path@, index as nat, id@, read_field(value))) {
            (Ok(got), Ok(want)) => got == want,
            (Err(got), Err(want)) => got@ == want,
            _ => false,
        },
{
    match value {
        None => Ok(None),
        Some(held) => {
            proof {
                lemma_script(*held);
            }
            match held {
                ScriptValue::Int(n) => {
                    if *n > 0 && *n <= MAX_TAKE as i64 {
                        return Ok(Some(*n as usize));
                    }
                    let mut out: String = write_about(path, index, id);
                    out.append(" names a take override of ");
                    out.append(write_signed(*n).as_str());
                    if *n <= 0 {
                        out.append(", which must be positive");
                    } else {
                        out.append(", which exceeds the maximum of ");
                        out.append(write_decimal(MAX_TAKE as u64).as_str());
                    }
                    Err(out)
                },
                other => {
                    let mut out: String = write_about(path, index, id);
                    out.append("'s `take` must be a whole number, got ");
                    out.append(kind_of(other).as_str());
                    Err(out)
                },
            }
        },
    }
}

fn parse_record(path: &str, index: usize, table: &Vec<Field>) -> (out: Result<PickedItem, String>)
    ensures
        match (out, picked(path@, index as nat, Script::Table(fields(table@)))) {
            (Ok(got), Ok(want)) => got@ == want,
            (Err(got), Err(want)) => got@ == want,
            _ => false,
        },
{
    let id: &String = match find_field(table, "entry_id") {
        None => {
            let mut out: String = write_head(path, index);
            out.append(" is a record but names no `entry_id`");
            return Err(out);
        },
        Some(value) => {
            proof {
                lemma_script(*value);
            }
            match value {
                ScriptValue::Text(id) => id,
                other => {
                    let mut out: String = write_head(path, index);
                    out.append("'s `entry_id` must be a string, got ");
                    out.append(kind_of(other).as_str());
                    return Err(out);
                },
            }
        },
    };
    let metadata: Option<ScriptValue> = match parse_metadata(
        path,
        index,
        id.as_str(),
        find_field(table, "metadata"),
    ) {
        Ok(metadata) => metadata,
        Err(why) => return Err(why),
    };
    let take_override: Option<usize> = match parse_take(
        path,
        index,
        id.as_str(),
        find_field(table, "take"),
    ) {
        Ok(take) => take,
        Err(why) => return Err(why),
    };
    Ok(PickedItem { id: id.clone(), metadata, take_override })
}

/// Reads one entry of what a plugin's `pick()` returned: a bare identity, or a record that
/// names one and may attach something to it or say how much of its series to take. Anything
/// else is refused by its position and what arrived instead.
pub fn parse_picked_item(path: &str, index: usize, value: &ScriptValue) -> (out: Result<
    PickedItem,
    String,
>)
    ensures
        match (out, picked(path@, index as nat, value@)) {
            (Ok(got), Ok(want)) => got@ == want,
            (Err(got), Err(want)) => got@ == want,
            _ => false,
        },
{
    proof {
        lemma_script(*value);
    }
    match value {
        ScriptValue::Text(id) => Ok(
            PickedItem { id: id.clone(), metadata: None, take_override: None },
        ),
        ScriptValue::Table(table) => parse_record(path, index, table),
        other => {
            let mut out: String = write_head(path, index);
            out.append(" must be an entry_id string or a record naming one, got ");
            out.append(kind_of(other).as_str());
            Err(out)
        },
    }
}

/// Whether an identity was picked.
pub open spec fn has_pick(items: Seq<Picked>, id: Seq<char>) -> bool {
    exists|i: int| 0 <= i < items.len() && #[trigger] items[i].id == id
}

/// The items that the entries of what a plugin returned name; the first entry at fault
/// counts, and one that names an item again is at fault.
pub open spec fn picked_list(path: Seq<char>, list: Seq<Script>) -> Result<Seq<Picked>, Seq<char>>
    decreases list.len(),
{
    if list.len() == 0 {
        Ok(Seq::empty())
    } else {
        match picked_list(path, list.drop_last()) {
            Err(why) => Err(why),
            Ok(items) => match picked(path, (list.len() - 1) as nat, list.last()) {
                Err(why) => Err(why),
                Ok(item) => if has_pick(items, item.id) {
                    Err(
                        "scorer plugin "@ + path + ": pick() returned "@ + quoted_text(item.id)
                            + " more than once"@,
                    )
                } else {
                    Ok(items.push(item))
                },
            },
        }
    }
}

/// The items that a plugin picked, by what its `pick()` gave: at least one, and none twice.
pub open spec fn picks_of(path: Seq<char>, reply: Result<Seq<Script>, Seq<char>>) -> Result<
    Seq<Picked>,
    Seq<char>,
> {
    match reply {
        Err(why) => Err("scorer plugin "@ + path + ": pick(): "@ + why),
        Ok(list) => if list.len() == 0 {
            Err(
                "scorer plugin "@ + path
                    + " picked nothing — an empty pool would silently shorten the channel"@,
            )
        } else {
            picked_list(path, list)
        },
    }
}

proof fn lemma_picked_list_err(path: Seq<char>, list: Seq<Script>, i: int)
    requires
        0 <= i <= list.len(),
        picked_list(path, list.take(i)) is Err,
    ensures
        picked_list(path, list) == picked_list(path, list.take(i)),
    decreases list.len() - i,
{
    if i < list.len() {
        assert(list.take(i + 1).drop_last() =~= list.take(i));
        lemma_picked_list_err(path, list, i + 1);
    } else {
        assert(list.take(i) =~= list);
    }
}

fn was_picked(items: &Vec<PickedItem>, id: &String) -> (out: bool)
    ensures
        out == has_pick(picked_items(items@), id@),
{
    let ghost all = picked_items(items@);
    let mut i: usize = 0;
    while i < items.len()
        invariant
            i <= items.len(),
            all == picked_items(items@),
            forall|j: int| 0 <= j < i ==> #[trigger] all[j].id != id@,
        decreases items.len() - i,
    {
        assert(all[i as int].id == items@[i as int].id@);
        if items[i].id == *id {
            return true;
        }
        i += 1;
    }
    false
}

/// Reads what a plugin's `pick()` returned, in its order. An item that is named twice would
/// hold two positions in one pool, and an empty list would shorten the channel in silence:
/// both are refused.
pub fn collect_picks(path: &str, reply: Result<Vec<ScriptValue>, String>) -> (out: Result<
    Vec<PickedItem>,
    String,
>)
    ensures
        picked_result(out) == picks_of(path@, called(reply)),
{
    let list: Vec<ScriptValue> = match reply {
        Ok(list) => list,
        Err(why) => {
            let mut out: String = concat("scorer plugin ", path, ": pick(): ");
            out.append(why.as_str());
            return Err(out);
        },
    };
    let ghost all = scripts(list@);
    if list.len() == 0 {
        return Err(
            concat(
                "scorer plugin ",
                path,
                " picked nothing — an empty pool would silently shorten the channel",
            ),
        );
    }
    let mut out: Vec<PickedItem> = Vec::new();
    let mut i: usize = 0;
    assert(all.take(0) =~= Seq::<Script>::empty());
    assert(picked_items(out@) =~= Seq::<Picked>::empty());
    while i < list.len()
        invariant
            i <= list.len(),
            all == scripts(list@),
            called(reply) == Ok::<Seq<Script>, Seq<char>>(all),
            picked_list(path@, all.take(i as int)) == Ok::<Seq<Picked>, Seq<char>>(
                picked_items(out@),
            ),
        decreases list.len() - i,
    {
        assert(all.take(i + 1).drop_last() =~= all.take(i as int));
        assert(all.take(i + 1).last() == list@[i as int]@);
        let item: PickedItem = match parse_picked_item(path, i, &list[i]) {
            Ok(item) => item,
            Err(why) => {
                proof {
                    lemma_picked_list_err(path@, all, i + 1);
                }
                return Err(why);
            },
        };
        if was_picked(&out, &item.id) {
            proof {
                lemma_picked_list_err(path@, all, i + 1);
            }
            let mut why: String = concat("scorer plugin ", path, ": pick() returned ");
            why.append(quoted(item.id.as_str()).as_str());
            why.append(" more than once");
            return Err(why);
        }
        let ghost before = picked_items(out@);
        out.push(item);
        assert(picked_items(out@) =~= before.push(item@));
        i += 1;
    }
    assert(all.take(i as int) =~= all);
    Ok(out)
}

/// Picked items, or why a plugin stopped.
pub open spec fn picked_outcome(out: Result<Vec<PickedItem>, Stop>) -> Result<
    Seq<Picked>,
    Stopped,
> {
    match out {
        Ok(list) => Ok(picked_items(list@)),
        Err(stop) => Err(stop@),
    }
}

/// The items that a plugin picked, by how its `pick()` ended. A question that it asked a
/// datastore in vain is handed on.
pub open spec fn picks_from(path: Seq<char>, reply: Result<Seq<Script>, Stopped>) -> Result<
    Seq<Picked>,
    Stopped,
> {
    match reply {
        Ok(list) => failing(picks_of(path, Ok(list))),
        Err(Stopped::Failed(why)) => failing(picks_of(path, Err(why))),
        Err(unasked) => Err(unasked),
    }
}

/// Picked items, or a failure, as the way a plugin ended.
pub open spec fn failing(out: Result<Seq<Picked>, Seq<char>>) -> Result<Seq<Picked>, Stopped> {
    match out {
        Ok(items) => Ok(items),
        Err(why) => Err(Stopped::Failed(why)),
    }
}

/// Reads how a plugin's `pick()` ended: what it chose, how it failed, or what it asked a
/// datastore in vain.
pub fn finish_picks(path: &str, reply: Result<Vec<ScriptValue>, Stop>) -> (out: Result<
    Vec<PickedItem>,
    Stop,
>)
    ensures
        picked_outcome(out) == picks_from(path@, halted(reply)),
{
    let given: Result<Vec<ScriptValue>, String> = match reply {
        Ok(list) => Ok(list),
        Err(Stop::Failed(why)) => Err(why),
        Err(unasked) => return Err(unasked),
    };
    match collect_picks(path, given) {
        Ok(items) => Ok(items),
        Err(why) => Err(Stop::Failed(why)),
    }
}

/// Whether the `pick()` of a script that was made ready, handed this, may end so: with what it
/// chose, with a failure, or with a question that a datastore it was handed lacks the answer to.
pub open spec fn may_end(
    entry: CachedScript,
    path: Seq<char>,
    ctx: CtxModel,
    out: Result<Seq<Picked>, Stopped>,
) -> bool {
    &&& exists|reply: Result<Seq<Script>, Stopped>|
        #[trigger] may_give(entry.script.source(), "pick"@, Handed::Ctx(ctx), ended(reply)) && out
            == picks_from(path, reply)
    &&& out matches Err(Stopped::Unasked { store, question }) ==> lacks(ctx, store, question)
}

/// Runs the `pick()` of a script that was made ready and returns what it chose, in its
/// order. It reads no catalog: ranking works on what `prepare` resolved. A question that it
/// asks a datastore in vain comes back.
pub fn pick(
    cache: &ScoreCache,
    path: &str,
    sources: Option<&PoolSources>,
    inputs: &ScoreInputs,
    seed: u64,
    pool: &str,
    config: Option<&Arc<ScriptValue>>,
    granted: &GrantedCapabilities,
) -> (out: Result<Vec<PickedItem>, Stop>)
    ensures
        match cached_at(cache.entries@, path@, brought_by(sources)) {
            None => picked_outcome(out) == Err::<Seq<Picked>, Stopped>(
                Stopped::Failed(
                    "scorer plugin "@ + path@
                        + ": pick() called before prepare() — this is a bug in etv-station, not in the script"@,
                ),
            ),
            Some(at) => may_end(
                cache.entries@[at],
                path@,
                handed(
                    (*cache.entries@[at].sets)@,
                    *inputs,
                    seed,
                    pool@,
                    configured(config),
                    *granted,
                ),
                picked_outcome(out),
            ),
        },
{
    let at: usize = match cache.position(path, sources) {
        Some(at) => at,
        None => return Err(
            Stop::Failed(
                concat(
                    "scorer plugin ",
                    path,
                    ": pick() called before prepare() — this is a bug in etv-station, not in the script",
                ),
            ),
        ),
    };
    let entry: &CachedScript = &cache.entries[at];
    let ctx: ScoreCtx = context(&entry.sets, inputs, seed, pool, config, granted);
    let ghost given = ctx@;
    let reply: Result<Vec<ScriptValue>, Stop> = call_with_ctx(&engine(), &entry.script, "pick", ctx);
    assert(may_give(entry.script.source(), "pick"@, Handed::Ctx(given), ended(halted(reply))));
    finish_picks(path, reply)
}

proof fn lemma_picked_once(path: Seq<char>, list: Seq<Script>)
    requires
        picked_list(path, list) is Ok,
    ensures
        picked_list(path, list)->Ok_0.len() == list.len(),
        forall|i: int, j: int|
            0 <= i < j < list.len() ==> (#[trigger] picked_list(path, list)->Ok_0[i]).id != (
            #[trigger] picked_list(path, list)->Ok_0[j]).id,
    decreases list.len(),
{
    if list.len() > 0 {
        lemma_picked_once(path, list.drop_last());
    }
}

/// What a plugin picked is never empty and holds no item twice; it holds as many items as
/// the plugin returned.
pub proof fn picks_hold_no_item_twice(path: Seq<char>, reply: Result<Seq<Script>, Seq<char>>)
    ensures
        picks_of(path, reply) matches Ok(items) ==> {
            &&& items.len() > 0
            &&& reply is Ok && items.len() == reply->Ok_0.len()
            &&& forall|i: int, j: int|
                0 <= i < j < items.len() ==> (#[trigger] items[i]).id != (#[trigger] items[j]).id
        },
{
    if picks_of(path, reply) is Ok {
        lemma_picked_once(path, reply->Ok_0);
    }
}

/// Where a plugin lies: an absolute path stands as it is written, and a relative one is taken
/// from the folder of the channel's configuration.
pub fn resolve_plugin_path(base_dir: &str, plugin: &str) -> (out: String)
    ensures
        out@ == joined(base_dir@, plugin@),
{
    join(base_dir, plugin)
}

/// What a plugin is handed besides the catalog, and the folder its path is taken from.
#[derive(Debug)]
pub struct ScoreEnv<'a> {
    pub inputs: &'a ScoreInputs,
    pub base_dir: &'a str,
}

impl ScoreEnv<'_> {
    /// Where a plugin lies.
    pub fn resolve_path(&self, plugin: &str) -> (out: String)
        ensures
            out@ == joined(self.base_dir@, plugin@),
    {
        resolve_plugin_path(self.base_dir, plugin)
    }
}

/// What a plugin picked, as the pattern walk and the sequencer take it: the identities in
/// their order, or the failure.
pub open spec fn pool_reply(out: Result<Seq<Picked>, Seq<char>>) -> Result<
    Seq<Seq<char>>,
    Seq<char>,
> {
    match out {
        Ok(items) => Ok(items.map_values(|p: Picked| p.id)),
        Err(why) => Err(why),
    }
}

/// Hands what a plugin picked on to the pattern walk: the identities in their order, or the
/// failure.
pub fn pick_reply(out: &Result<Vec<PickedItem>, String>) -> (reply: PluginReply)
    ensures
        match (reply, pool_reply(picked_result(*out))) {
            (PluginReply::Items(got), Ok(want)) => texts(got@) == want,
            (PluginReply::Failed(got), Err(want)) => got@ == want,
            _ => false,
        },
{
    match out {
        Err(why) => PluginReply::Failed(why.clone()),
        Ok(items) => {
            let mut ids: Vec<String> = Vec::new();
            let mut i: usize = 0;
            while i < items.len()
                invariant
                    i <= items.len(),
                    ids.len() == i,
                    forall|j: int| 0 <= j < i ==> (#[trigger] ids@[j])@ == items@[j].id@,
                decreases items.len() - i,
            {
                ids.push(items[i].id.clone());
                i += 1;
            }
            assert(texts(ids@) =~= picked_items(items@).map_values(|p: Picked| p.id));
            PluginReply::Items(ids)
        },
    }
}

/// Where the row of a pool and an item stands.
pub open spec fn row_for(rows: Seq<PickedRow>, pool: Seq<char>, id: Seq<char>) -> Option<int>
    decreases rows.len(),
{
    if rows.len() == 0 {
        None
    } else {
        match row_for(rows.drop_last(), pool, id) {
            Some(i) => Some(i),
            None => if rows.last().pool@ == pool && rows.last().id@ == id {
                Some(rows.len() - 1)
            } else {
                None
            },
        }
    }
}

/// What an item carried in what the plugin of a pool picked.
pub open spec fn extra_of(rows: Seq<PickedRow>, pool: Seq<char>, id: Seq<char>) -> Option<
    PickedExtra,
> {
    match row_for(rows, pool, id) {
        Some(i) => Some(rows[i].extra),
        None => None,
    }
}

/// The rows with one more: in place of the one of the same pool and item, or at the end.
pub open spec fn with_row(rows: Seq<PickedRow>, row: PickedRow) -> Seq<PickedRow> {
    match row_for(rows, row.pool@, row.id@) {
        Some(i) => rows.update(i, row),
        None => rows.push(row),
    }
}

/// What a picked item carried besides its identity, where it carried anything.
pub open spec fn carried(item: PickedItem) -> Option<PickedExtra> {
    if item.metadata is None && item.take_override is None {
        None
    } else {
        Some(
            PickedExtra {
                metadata: match item.metadata {
                    Some(value) => Some(Arc::new(value)),
                    None => None,
                },
                take_override: item.take_override,
            },
        )
    }
}

/// The rows with what the items that the plugin of a pool picked carried. An item that
/// carried nothing has no row.
pub open spec fn recorded(rows: Seq<PickedRow>, pool: String, items: Seq<PickedItem>) -> Seq<
    PickedRow,
>
    decreases items.len(),
{
    if items.len() == 0 {
        rows
    } else {
        let earlier = recorded(rows, pool, items.drop_last());
        match carried(items.last()) {
            Some(extra) => with_row(earlier, PickedRow { pool, id: items.last().id, extra }),
            None => earlier,
        }
    }
}

/// What plugins attached to items, by item; where several pools attached to one item, what
/// was recorded last counts.
pub open spec fn flattened(rows: Seq<PickedRow>) -> Seq<(String, Arc<ScriptValue>)>
    decreases rows.len(),
{
    if rows.len() == 0 {
        Seq::empty()
    } else {
        match rows.last().extra.metadata {
            Some(value) => put(flattened(rows.drop_last()), rows.last().id, value),
            None => flattened(rows.drop_last()),
        }
    }
}

proof fn lemma_row_for(rows: Seq<PickedRow>, pool: Seq<char>, id: Seq<char>)
    ensures
        match row_for(rows, pool, id) {
            Some(i) => {
                &&& 0 <= i < rows.len()
                &&& rows[i].pool@ == pool && rows[i].id@ == id
                &&& forall|j: int|
                    0 <= j < i ==> (#[trigger] rows[j]).pool@ != pool || rows[j].id@ != id
            },
            None => forall|j: int|
                0 <= j < rows.len() ==> (#[trigger] rows[j]).pool@ != pool || rows[j].id@ != id,
        },
    decreases rows.len(),
{
    if rows.len() > 0 {
        let shorter = rows.drop_last();
        lemma_row_for(shorter, pool, id);
        assert forall|j: int| 0 <= j < shorter.len() implies rows[j] == shorter[j] by {}
    }
}

proof fn lemma_row_for_is(rows: Seq<PickedRow>, pool: Seq<char>, id: Seq<char>, i: int)
    requires
        0 <= i < rows.len(),
        rows[i].pool@ == pool && rows[i].id@ == id,
        forall|j: int| 0 <= j < i ==> (#[trigger] rows[j]).pool@ != pool || rows[j].id@ != id,
    ensures
        row_for(rows, pool, id) == Some(i),
{
    lemma_row_for(rows, pool, id);
    match row_for(rows, pool, id) {
        None => {
            assert(rows[i].pool@ != pool || rows[i].id@ != id);
        },
        Some(k) => {
            if k < i {
                assert(rows[k].pool@ != pool || rows[k].id@ != id);
            } else if i < k {
                assert(rows[i].pool@ != pool || rows[i].id@ != id);
            }
        },
    }
}

proof fn lemma_same_rows_elsewhere(
    a: Seq<PickedRow>,
    b: Seq<PickedRow>,
    i: int,
    pool: Seq<char>,
    id: Seq<char>,
)
    requires
        a.len() == b.len(),
        forall|j: int| 0 <= j < a.len() && j != i ==> a[j] == b[j],
        0 <= i < a.len() ==> (a[i].pool@ != pool || a[i].id@ != id) && (b[i].pool@ != pool
            || b[i].id@ != id),
    ensures
        row_for(a, pool, id) == row_for(b, pool, id),
        row_for(a, pool, id) != Some(i),
    decreases a.len(),
{
    if a.len() > 0 {
        lemma_same_rows_elsewhere(a.drop_last(), b.drop_last(), i, pool, id);
        lemma_row_for(a.drop_last(), pool, id);
    }
}

proof fn lemma_with_row(rows: Seq<PickedRow>, row: PickedRow)
    ensures
        extra_of(with_row(rows, row), row.pool@, row.id@) == Some(row.extra),
        forall|pool: Seq<char>, id: Seq<char>|
            pool != row.pool@ || id != row.id@ ==> #[trigger] extra_of(
                with_row(rows, row),
                pool,
                id,
            ) == extra_of(rows, pool, id),
{
    let after = with_row(rows, row);
    lemma_row_for(rows, row.pool@, row.id@);
    match row_for(rows, row.pool@, row.id@) {
        Some(i) => {
            assert forall|j: int| 0 <= j < i implies (#[trigger] after[j]).pool@ != row.pool@
                || after[j].id@ != row.id@ by {
                assert(rows[j].pool@ != row.pool@ || rows[j].id@ != row.id@);
            }
            lemma_row_for_is(after, row.pool@, row.id@, i);
            assert forall|pool: Seq<char>, id: Seq<char>|
                pool != row.pool@ || id != row.id@ implies #[trigger] extra_of(after, pool, id)
                == extra_of(rows, pool, id) by {
                lemma_same_rows_elsewhere(rows, after, i, pool, id);
                lemma_row_for(rows, pool, id);
            }
        },
        None => {
            assert(after.drop_last() =~= rows);
            assert forall|pool: Seq<char>, id: Seq<char>|
                pool != row.pool@ || id != row.id@ implies #[trigger] extra_of(after, pool, id)
                == extra_of(rows, pool, id) by {
                lemma_row_for(rows, pool, id);
            }
        },
    }
}

/// What the plugin of one pool attached stays as it is when another pool is recorded: a second
/// pool that picks the same item overwrites nothing of the first.
pub proof fn a_pool_keeps_what_its_own_plugin_attached(
    rows: Seq<PickedRow>,
    other: String,
    items: Seq<PickedItem>,
    pool: Seq<char>,
    id: Seq<char>,
)
    requires
        pool != other@,
    ensures
        extra_of(recorded(rows, other, items), pool, id) == extra_of(rows, pool, id),
    decreases items.len(),
{
    if items.len() > 0 {
        a_pool_keeps_what_its_own_plugin_attached(rows, other, items.drop_last(), pool, id);
        if carried(items.last()) is Some {
            lemma_with_row(
                recorded(rows, other, items.drop_last()),
                PickedRow {
                    pool: other,
                    id: items.last().id,
                    extra: carried(items.last())->0,
                },
            );
        }
    }
}

fn put_row(rows: &mut Vec<PickedRow>, row: PickedRow)
    ensures
        final(rows)@ == with_row(old(rows)@, row),
{
    let mut i: usize = 0;
    while i < rows.len()
        invariant
            i <= rows.len(),
            rows@ == old(rows)@,
            forall|j: int|
                0 <= j < i ==> (#[trigger] rows@[j]).pool@ != row.pool@ || rows@[j].id@ != row.id@,
        decreases rows.len() - i,
    {
        if rows[i].pool == row.pool && rows[i].id == row.id {
            proof {
                lemma_row_for_is(rows@, row.pool@, row.id@, i as int);
            }
            rows.set(i, row);
            return;
        }
        i += 1;
    }
    proof {
        lemma_row_for(rows@, row.pool@, row.id@);
    }
    rows.push(row);
}

impl ScoreCache {
    /// Keeps what the items that the plugin of a pool picked carried besides their identities.
    pub fn record_picked(&mut self, pool_name: &String, picked: Vec<PickedItem>)
        ensures
            final(self).picked_extras@ == recorded(old(self).picked_extras@, *pool_name, picked@),
            final(self).entries@ == old(self).entries@,
    {
        let ghost all = picked@;
        let ghost start = self.picked_extras@;
        let mut rest: Vec<PickedItem> = picked;
        let ghost mut i: int = 0;
        assert(all.take(0) =~= Seq::<PickedItem>::empty());
        assert(all.skip(0) =~= all);
        while rest.len() > 0
            invariant
                0 <= i <= all.len(),
                rest@ == all.skip(i),
                self.picked_extras@ == recorded(start, *pool_name, all.take(i)),
                self.entries@ == old(self).entries@,
            decreases rest.len(),
        {
            let item: PickedItem = rest.remove(0);
            assert(item == all[i]);
            assert(rest@ =~= all.skip(i + 1));
            assert(all.take(i + 1).drop_last() =~= all.take(i));
            assert(all.take(i + 1).last() == all[i]);
            if item.metadata.is_some() || item.take_override.is_some() {
                let metadata: Option<Arc<ScriptValue>> = match item.metadata {
                    Some(value) => Some(Arc::new(value)),
                    None => None,
                };
                let extra: PickedExtra = PickedExtra {
                    metadata,
                    take_override: item.take_override,
                };
                put_row(
                    &mut self.picked_extras,
                    PickedRow { pool: pool_name.clone(), id: item.id, extra },
                );
            }
            proof {
                i = i + 1;
            }
        }
        assert(all.take(i) =~= all);
    }

    /// What plugins attached to items, by item.
    pub fn attached(&self) -> (out: Vec<(String, Arc<ScriptValue>)>)
        ensures
            out@ == flattened(self.picked_extras@),
    {
        let rows: &Vec<PickedRow> = &self.picked_extras;
        let mut out: Vec<(String, Arc<ScriptValue>)> = Vec::new();
        let mut i: usize = 0;
        assert(rows@.take(0) =~= Seq::<PickedRow>::empty());
        while i < rows.len()
            invariant
                i <= rows.len(),
                out@ == flattened(rows@.take(i as int)),
            decreases rows.len() - i,
        {
            assert(rows@.take(i + 1).drop_last() =~= rows@.take(i as int));
            match &rows[i].extra.metadata {
                Some(value) => put_entry(&mut out, rows[i].id.clone(), share(value)),
                None => {},
            }
            i += 1;
        }
        assert(rows@.take(i as int) =~= rows@);
        out
    }
}

/// A datastore that a channel grants a pool, and why it could not be opened, if it could not.
#[derive(Debug)]
pub struct DatastoreGrant {
    pub name: String,
    pub path: String,
    pub failure: Option<String>,
}

/// The datastores that are open when those granted are added to some: where each lies, by its
/// name. The first that could not be opened counts, and of two of one name the last.
pub open spec fn opened(have: Seq<(String, String)>, grants: Seq<DatastoreGrant>) -> Result<
    Seq<(String, String)>,
    Seq<char>,
>
    decreases grants.len(),
{
    if grants.len() == 0 {
        Ok(have)
    } else {
        match opened(have, grants.drop_last()) {
            Err(why) => Err(why),
            Ok(stores) => match grants.last().failure {
                None => Ok(put(stores, grants.last().name, grants.last().path)),
                Some(why) => Err(
                    "datastore "@ + quoted_text(grants.last().name@) + " at "@ + quoted_text(
                        grants.last().path@,
                    ) + ": "@ + why@,
                ),
            },
        }
    }
}

proof fn lemma_opened_err(have: Seq<(String, String)>, grants: Seq<DatastoreGrant>, i: int)
    requires
        0 <= i <= grants.len(),
        opened(have, grants.take(i)) is Err,
    ensures
        opened(have, grants) == opened(have, grants.take(i)),
    decreases grants.len() - i,
{
    if i < grants.len() {
        assert(grants.take(i + 1).drop_last() =~= grants.take(i));
        lemma_opened_err(have, grants, i + 1);
    } else {
        assert(grants.take(i) =~= grants);
    }
}

impl GrantedCapabilities {
    /// These capabilities with the datastores that were granted. One that could not be opened
    /// fails it, by its name, its path and the reason.
    pub fn with_datastores(self, grants: &Vec<DatastoreGrant>) -> (out: Result<
        GrantedCapabilities,
        String,
    >)
        ensures
            match (out, opened(self.datastores@, grants@)) {
                (Ok(got), Ok(stores)) => {
                    &&& got.catalog_read == self.catalog_read
                    &&& got.watch_history == self.watch_history
                    &&& got.datastores@ == stores
                },
                (Err(got), Err(why)) => got@ == why,
                _ => false,
            },
    {
        let ghost have = self.datastores@;
        let mut stores: Vec<(String, String)> = self.datastores;
        let mut i: usize = 0;
        assert(grants@.take(0) =~= Seq::<DatastoreGrant>::empty());
        while i < grants.len()
            invariant
                i <= grants.len(),
                have == self.datastores@,
                (opened(have, grants@.take(i as int)) == Ok::<Seq<(String, String)>, Seq<char>>(
                    stores@,
                )),
            decreases grants.len() - i,
        {
            assert(grants@.take(i + 1).drop_last() =~= grants@.take(i as int));
            assert(grants@.take(i + 1).last() == grants@[i as int]);
            match &grants[i].failure {
                None => put_entry(&mut stores, grants[i].name.clone(), grants[i].path.clone()),
                Some(why) => {
                    proof {
                        lemma_opened_err(have, grants@, i + 1);
                    }
                    let mut out: String = concat(
                        "datastore ",
                        quoted(grants[i].name.as_str()).as_str(),
                        " at ",
                    );
                    out.append(quoted(grants[i].path.as_str()).as_str());
                    out.append(": ");
                    out.append(why.as_str());
                    return Err(out);
                },
            }
            i += 1;
        }
        assert(grants@.take(i as int) =~= grants@);
        Ok(
            GrantedCapabilities {
                catalog_read: self.catalog_read,
                watch_history: self.watch_history,
                datastores: stores,
            },
        )
    }
}

} // verus!
