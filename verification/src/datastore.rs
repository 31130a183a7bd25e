//! The datastores that scripts read: the questions that a script puts to one, the answers that
//! were read for it so far, and each answer as the script sees it.
//!
//! A question that no answer was read for stops the script. It comes back by the datastore and
//! the question; whoever reads datastores adds the answer, and the script runs again.

use vstd::prelude::*;

use std::sync::Arc;

use crate::names::{same_text, texts};
use crate::score::{field, kind_of, kind_text};
use crate::script::{fields, lemma_script, scripts, text_list, Field, Script, ScriptValue};
use crate::text::{quoted, quoted_text, signed_decimal, write_signed};

verus! {

/// One fact about an item.
#[derive(Debug)]
pub struct EnrichmentFact {
    pub namespace: String,
    pub key: String,
    pub value: ScriptValue,
    pub fetched_at: ScriptValue,
}

/// One edge between two items.
#[derive(Debug)]
pub struct Edge {
    pub from_id: String,
    pub to_id: String,
    pub edge_type: String,
    pub rank: ScriptValue,
    pub fetched_at: ScriptValue,
}

/// One attribute of a taste, and its weight.
#[derive(Debug)]
pub struct TasteAttribute {
    pub namespace: String,
    pub key: String,
    pub value: ScriptValue,
    pub weight: ScriptValue,
}

/// A taste.
#[derive(Debug)]
pub struct TasteVector {
    pub attributes: Vec<TasteAttribute>,
    pub shows_without_seasons: Vec<String>,
}

/// A fact as a script sees it.
pub open spec fn fact_map(fact: EnrichmentFact) -> Script {
    Script::Table(
        seq![
            ("namespace"@, Script::Text(fact.namespace@)),
            ("key"@, Script::Text(fact.key@)),
            ("value"@, fact.value@),
            ("fetched_at"@, fact.fetched_at@),
        ],
    )
}

/// An edge as a script sees it.
pub open spec fn edge_map(edge: Edge) -> Script {
    Script::Table(
        seq![
            ("from_id"@, Script::Text(edge.from_id@)),
            ("to_id"@, Script::Text(edge.to_id@)),
            ("edge_type"@, Script::Text(edge.edge_type@)),
            ("rank"@, edge.rank@),
            ("fetched_at"@, edge.fetched_at@),
        ],
    )
}

/// An attribute of a taste as a script sees it.
pub open spec fn attribute_map(a: TasteAttribute) -> Script {
    Script::Table(
        seq![
            ("namespace"@, Script::Text(a.namespace@)),
            ("key"@, Script::Text(a.key@)),
            ("value"@, a.value@),
            ("weight"@, a.weight@),
        ],
    )
}

/// A taste as a script sees it.
pub open spec fn taste_map(vector: TasteVector) -> Script {
    Script::Table(
        seq![
            (
                "attributes"@,
                Script::List(vector.attributes@.map_values(|a: TasteAttribute| attribute_map(a))),
            ),
            ("shows_without_seasons"@, text_list(vector.shows_without_seasons@)),
        ],
    )
}

/// Hands a fact to a script.
pub fn enrichment_fact_to_dynamic(fact: &EnrichmentFact) -> (out: ScriptValue)
    ensures
        out@ == fact_map(*fact),
{
    let mut table: Vec<Field> = Vec::new();
    table.push(field("namespace", ScriptValue::of_text(fact.namespace.as_str())));
    table.push(field("key", ScriptValue::of_text(fact.key.as_str())));
    table.push(field("value", fact.value.copy()));
    table.push(field("fetched_at", fact.fetched_at.copy()));
    assert(fields(table@) =~= fact_map(*fact)->Table_0);
    ScriptValue::of_table(table)
}

/// Hands an edge to a script.
pub fn edge_to_dynamic(edge: &Edge) -> (out: ScriptValue)
    ensures
        out@ == edge_map(*edge),
{
    let mut table: Vec<Field> = Vec::new();
    table.push(field("from_id", ScriptValue::of_text(edge.from_id.as_str())));
    table.push(field("to_id", ScriptValue::of_text(edge.to_id.as_str())));
    table.push(field("edge_type", ScriptValue::of_text(edge.edge_type.as_str())));
    table.push(field("rank", edge.rank.copy()));
    table.push(field("fetched_at", edge.fetched_at.copy()));
    assert(fields(table@) =~= edge_map(*edge)->Table_0);
    ScriptValue::of_table(table)
}

fn attribute_value(a: &TasteAttribute) -> (out: ScriptValue)
    ensures
        out@ == attribute_map(*a),
{
    let mut table: Vec<Field> = Vec::new();
    table.push(field("namespace", ScriptValue::of_text(a.namespace.as_str())));
    table.push(field("key", ScriptValue::of_text(a.key.as_str())));
    table.push(field("value", a.value.copy()));
    table.push(field("weight", a.weight.copy()));
    assert(fields(table@) =~= attribute_map(*a)->Table_0);
    ScriptValue::of_table(table)
}

/// Hands a taste to a script: nothing is renamed and nothing dropped.
pub fn taste_vector_to_dynamic(vector: &TasteVector) -> (out: ScriptValue)
    ensures
        out@ == taste_map(*vector),
{
    let mut list: Vec<ScriptValue> = Vec::new();
    let mut i: usize = 0;
    while i < vector.attributes.len()
        invariant
            i <= vector.attributes.len(),
            list.len() == i,
            forall|j: int|
                0 <= j < i ==> (#[trigger] list@[j])@ == attribute_map(vector.attributes@[j]),
        decreases vector.attributes.len() - i,
    {
        list.push(attribute_value(&vector.attributes[i]));
        i += 1;
    }
    assert(scripts(list@) =~= vector.attributes@.map_values(
        |a: TasteAttribute| attribute_map(a),
    ));
    let mut table: Vec<Field> = Vec::new();
    table.push(field("attributes", ScriptValue::of_list(list)));
    table.push(
        field("shows_without_seasons", ScriptValue::of_names(&vector.shows_without_seasons)),
    );
    assert(fields(table@) =~= taste_map(*vector)->Table_0);
    ScriptValue::of_table(table)
}

/// The identities that a script asks facts for; the first that is not a text counts.
pub open spec fn asked_ids(list: Seq<Script>) -> Result<Seq<Seq<char>>, Seq<char>>
    decreases list.len(),
{
    if list.len() == 0 {
        Ok(Seq::empty())
    } else {
        match asked_ids(list.drop_last()) {
            Err(why) => Err(why),
            Ok(ids) => match list.last() {
                Script::Text(id) => Ok(ids.push(id)),
                other => Err(
                    "datastore: enrichment_for_many: item id must be a string, got "@ + kind_text(
                        other,
                    ),
                ),
            },
        }
    }
}

proof fn lemma_asked_ids_err(list: Seq<Script>, i: int)
    requires
        0 <= i <= list.len(),
        asked_ids(list.take(i)) is Err,
    ensures
        asked_ids(list) == asked_ids(list.take(i)),
    decreases list.len() - i,
{
    if i < list.len() {
        assert(list.take(i + 1).drop_last() =~= list.take(i));
        lemma_asked_ids_err(list, i + 1);
    } else {
        assert(list.take(i) =~= list);
    }
}

/// Reads the identities that a script asks facts for, all in one call.
pub fn enrichment_ids(list: &Vec<ScriptValue>) -> (out: Result<Vec<String>, String>)
    ensures
        match (out, asked_ids(scripts(list@))) {
            (Ok(got), Ok(want)) => texts(got@) == want,
            (Err(got), Err(want)) => got@ == want,
            _ => false,
        },
{
    let ghost all = scripts(list@);
    let mut out: Vec<String> = Vec::new();
    let mut i: usize = 0;
    assert(all.take(0) =~= Seq::<Script>::empty());
    assert(texts(out@) =~= Seq::<Seq<char>>::empty());
    while i < list.len()
        invariant
            i <= list.len(),
            all == scripts(list@),
            asked_ids(all.take(i as int)) == Ok::<Seq<Seq<char>>, Seq<char>>(texts(out@)),
        decreases list.len() - i,
    {
        assert(all.take(i + 1).drop_last() =~= all.take(i as int));
        assert(all.take(i + 1).last() == list@[i as int]@);
        proof {
            lemma_script(list@[i as int]);
        }
        match &list[i] {
            ScriptValue::Text(id) => {
                let ghost before = texts(out@);
                out.push(id.clone());
                assert(texts(out@) =~= before.push(id@));
            },
            other => {
                proof {
                    lemma_asked_ids_err(all, i + 1);
                }
                let mut why: String =
                    "datastore: enrichment_for_many: item id must be a string, got ".to_owned();
                why.append(kind_of(other).as_str());
                return Err(why);
            },
        }
        i += 1;
    }
    assert(all.take(i as int) =~= all);
    Ok(out)
}

/// Facts as a script sees them, one after the other.
pub open spec fn fact_list(facts: Seq<EnrichmentFact>) -> Script {
    Script::List(facts.map_values(|f: EnrichmentFact| fact_map(f)))
}

fn facts_value(facts: &Vec<EnrichmentFact>) -> (out: ScriptValue)
    ensures
        out@ == fact_list(facts@),
{
    let mut list: Vec<ScriptValue> = Vec::new();
    let mut i: usize = 0;
    while i < facts.len()
        invariant
            i <= facts.len(),
            list.len() == i,
            forall|j: int| 0 <= j < i ==> (#[trigger] list@[j])@ == fact_map(facts@[j]),
        decreases facts.len() - i,
    {
        list.push(enrichment_fact_to_dynamic(&facts[i]));
        i += 1;
    }
    assert(scripts(list@) =~= facts@.map_values(|f: EnrichmentFact| fact_map(f)));
    ScriptValue::of_list(list)
}

/// Edges as a script sees them, one after the other.
pub open spec fn edge_list(edges: Seq<Edge>) -> Script {
    Script::List(edges.map_values(|e: Edge| edge_map(e)))
}

fn edges_value(edges: &Vec<Edge>) -> (out: ScriptValue)
    ensures
        out@ == edge_list(edges@),
{
    let mut list: Vec<ScriptValue> = Vec::new();
    let mut i: usize = 0;
    while i < edges.len()
        invariant
            i <= edges.len(),
            list.len() == i,
            forall|j: int| 0 <= j < i ==> (#[trigger] list@[j])@ == edge_map(edges@[j]),
        decreases edges.len() - i,
    {
        list.push(edge_to_dynamic(&edges[i]));
        i += 1;
    }
    assert(scripts(list@) =~= edges@.map_values(|e: Edge| edge_map(e)));
    ScriptValue::of_list(list)
}

/// Facts about many items as a script sees them: by the identity of each item, its facts.
pub open spec fn facts_by_item(table: Seq<(String, Vec<EnrichmentFact>)>) -> Script {
    Script::Table(
        table.map_values(|row: (String, Vec<EnrichmentFact>)| (row.0@, fact_list(row.1@))),
    )
}

fn facts_by_item_value(rows: &Vec<(String, Vec<EnrichmentFact>)>) -> (out: ScriptValue)
    ensures
        out@ == facts_by_item(rows@),
{
    let mut table: Vec<Field> = Vec::new();
    let mut i: usize = 0;
    while i < rows.len()
        invariant
            i <= rows.len(),
            table.len() == i,
            forall|j: int|
                0 <= j < i ==> (#[trigger] table@[j]).name@ == rows@[j].0@ && table@[j].value@
                    == fact_list(rows@[j].1@),
        decreases rows.len() - i,
    {
        table.push(field(rows[i].0.as_str(), facts_value(&rows[i].1)));
        i += 1;
    }
    assert(fields(table@) =~= facts_by_item(rows@)->Table_0);
    ScriptValue::of_table(table)
}

/// What a script asks of a datastore.
#[derive(Clone, Debug, PartialEq, Eq)]
pub enum Question {
    /// The facts about an item.
    EnrichmentFor { item_id: String, namespace: String },
    /// The facts about many items.
    EnrichmentForMany { item_ids: Vec<String>, namespace: String },
    /// The edges that lead from an item.
    EdgesFrom { item_id: String, edge_type: String },
    /// The edges that lead to an item.
    EdgesTo { item_id: String, edge_type: String },
    /// The taste of one account.
    TasteVectorFor { account: i64 },
    /// The taste of all accounts together.
    PooledTasteVector,
}

/// What a script asks of a datastore, as mathematical values.
pub enum QuestionModel {
    EnrichmentFor { item_id: Seq<char>, namespace: Seq<char> },
    EnrichmentForMany { item_ids: Seq<Seq<char>>, namespace: Seq<char> },
    EdgesFrom { item_id: Seq<char>, edge_type: Seq<char> },
    EdgesTo { item_id: Seq<char>, edge_type: Seq<char> },
    TasteVectorFor { account: i64 },
    PooledTasteVector,
}

impl View for Question {
    type V = QuestionModel;

    open spec fn view(&self) -> QuestionModel {
        match *self {
            Question::EnrichmentFor { item_id, namespace } => QuestionModel::EnrichmentFor {
                item_id: item_id@,
                namespace: namespace@,
            },
            Question::EnrichmentForMany { item_ids, namespace } =>
                QuestionModel::EnrichmentForMany {
                item_ids: texts(item_ids@),
                namespace: namespace@,
            },
            Question::EdgesFrom { item_id, edge_type } => QuestionModel::EdgesFrom {
                item_id: item_id@,
                edge_type: edge_type@,
            },
            Question::EdgesTo { item_id, edge_type } => QuestionModel::EdgesTo {
                item_id: item_id@,
                edge_type: edge_type@,
            },
            Question::TasteVectorFor { account } => QuestionModel::TasteVectorFor { account },
            Question::PooledTasteVector => QuestionModel::PooledTasteVector,
        }
    }
}

/// How a question about an item is told.
pub open spec fn item_question(name: Seq<char>, item_id: Seq<char>, about: Seq<char>) -> Seq<char> {
    name + "("@ + quoted_text(item_id) + ", "@ + quoted_text(about) + ")"@
}

fn write_item_question(name: &str, item_id: &str, about: &str) -> (out: String)
    ensures
        out@ == item_question(name@, item_id@, about@),
{
    let mut out: String = name.to_owned();
    out.append("(");
    out.append(quoted(item_id).as_str());
    out.append(", ");
    out.append(quoted(about).as_str());
    out.append(")");
    out
}

impl QuestionModel {
    /// How a question is told.
    pub open spec fn text(self) -> Seq<char> {
        match self {
            QuestionModel::EnrichmentFor { item_id, namespace } => item_question(
                "enrichment_for"@,
                item_id,
                namespace,
            ),
            QuestionModel::EnrichmentForMany { item_ids, namespace } => "enrichment_for_many("@
                + quoted_text(namespace) + ")"@,
            QuestionModel::EdgesFrom { item_id, edge_type } => item_question(
                "edges_from"@,
                item_id,
                edge_type,
            ),
            QuestionModel::EdgesTo { item_id, edge_type } => item_question(
                "edges_to"@,
                item_id,
                edge_type,
            ),
            QuestionModel::TasteVectorFor { account } => "taste_vector_for("@ + signed_decimal(
                account as int,
            ) + ")"@,
            QuestionModel::PooledTasteVector => "pooled_taste_vector()"@,
        }
    }
}

impl Question {
    /// How the question is told.
    pub fn text(&self) -> (out: String)
        ensures
            out@ == self@.text(),
    {
        match self {
            Question::EnrichmentFor { item_id, namespace } => write_item_question(
                "enrichment_for",
                item_id.as_str(),
                namespace.as_str(),
            ),
            Question::EnrichmentForMany { item_ids: _, namespace } => {
                let mut out: String = "enrichment_for_many(".to_owned();
                out.append(quoted(namespace.as_str()).as_str());
                out.append(")");
                out
            },
            Question::EdgesFrom { item_id, edge_type } => write_item_question(
                "edges_from",
                item_id.as_str(),
                edge_type.as_str(),
            ),
            Question::EdgesTo { item_id, edge_type } => write_item_question(
                "edges_to",
                item_id.as_str(),
                edge_type.as_str(),
            ),
            Question::TasteVectorFor { account } => {
                let mut out: String = "taste_vector_for(".to_owned();
                out.append(write_signed(*account).as_str());
                out.append(")");
                out
            },
            Question::PooledTasteVector => "pooled_taste_vector()".to_owned(),
        }
    }
}

/// A question that was put to a datastore, and what came of it: the answer, or why there is
/// none.
#[derive(Debug)]
pub enum Answered {
    EnrichmentFor {
        item_id: String,
        namespace: String,
        reply: Result<Vec<EnrichmentFact>, String>,
    },
    EnrichmentForMany {
        item_ids: Vec<String>,
        namespace: String,
        reply: Result<Vec<(String, Vec<EnrichmentFact>)>, String>,
    },
    EdgesFrom { item_id: String, edge_type: String, reply: Result<Vec<Edge>, String> },
    EdgesTo { item_id: String, edge_type: String, reply: Result<Vec<Edge>, String> },
    TasteVectorFor { account: i64, reply: Result<TasteVector, String> },
    PooledTasteVector { reply: Result<TasteVector, String> },
}

/// What a script gets: what was answered, or why nothing was, told with the question.
pub open spec fn given(question: QuestionModel, reply: Result<Script, Seq<char>>) -> Result<
    Script,
    Seq<char>,
> {
    match reply {
        Ok(value) => Ok(value),
        Err(why) => Err("datastore: "@ + question.text() + ": "@ + why),
    }
}

impl Answered {
    /// The question that was put.
    pub open spec fn question(self) -> QuestionModel {
        match self {
            Answered::EnrichmentFor { item_id, namespace, .. } => QuestionModel::EnrichmentFor {
                item_id: item_id@,
                namespace: namespace@,
            },
            Answered::EnrichmentForMany { item_ids, namespace, .. } =>
                QuestionModel::EnrichmentForMany {
                item_ids: texts(item_ids@),
                namespace: namespace@,
            },
            Answered::EdgesFrom { item_id, edge_type, .. } => QuestionModel::EdgesFrom {
                item_id: item_id@,
                edge_type: edge_type@,
            },
            Answered::EdgesTo { item_id, edge_type, .. } => QuestionModel::EdgesTo {
                item_id: item_id@,
                edge_type: edge_type@,
            },
            Answered::TasteVectorFor { account, .. } => QuestionModel::TasteVectorFor { account },
            Answered::PooledTasteVector { .. } => QuestionModel::PooledTasteVector,
        }
    }

    /// What came of the question, as a script sees it.
    pub open spec fn reply(self) -> Result<Script, Seq<char>> {
        match self {
            Answered::EnrichmentFor { reply, .. } => match reply {
                Ok(facts) => Ok(fact_list(facts@)),
                Err(why) => Err(why@),
            },
            Answered::EnrichmentForMany { reply, .. } => match reply {
                Ok(rows) => Ok(facts_by_item(rows@)),
                Err(why) => Err(why@),
            },
            Answered::EdgesFrom { reply, .. } => match reply {
                Ok(edges) => Ok(edge_list(edges@)),
                Err(why) => Err(why@),
            },
            Answered::EdgesTo { reply, .. } => match reply {
                Ok(edges) => Ok(edge_list(edges@)),
                Err(why) => Err(why@),
            },
            Answered::TasteVectorFor { reply, .. } => match reply {
                Ok(vector) => Ok(taste_map(vector)),
                Err(why) => Err(why@),
            },
            Answered::PooledTasteVector { reply } => match reply {
                Ok(vector) => Ok(taste_map(vector)),
                Err(why) => Err(why@),
            },
        }
    }

    /// What came of the question, as a script sees it.
    fn value(&self) -> (out: Result<ScriptValue, String>)
        ensures
            match (out, self.reply()) {
                (Ok(got), Ok(want)) => got@ == want,
                (Err(got), Err(want)) => got@ == want,
                _ => false,
            },
    {
        match self {
            Answered::EnrichmentFor { reply, .. } => match reply {
                Ok(facts) => Ok(facts_value(facts)),
                Err(why) => Err(why.clone()),
            },
            Answered::EnrichmentForMany { reply, .. } => match reply {
                Ok(rows) => Ok(facts_by_item_value(rows)),
                Err(why) => Err(why.clone()),
            },
            Answered::EdgesFrom { reply, .. } => match reply {
                Ok(edges) => Ok(edges_value(edges)),
                Err(why) => Err(why.clone()),
            },
            Answered::EdgesTo { reply, .. } => match reply {
                Ok(edges) => Ok(edges_value(edges)),
                Err(why) => Err(why.clone()),
            },
            Answered::TasteVectorFor { reply, .. } => match reply {
                Ok(vector) => Ok(taste_vector_to_dynamic(vector)),
                Err(why) => Err(why.clone()),
            },
            Answered::PooledTasteVector { reply } => match reply {
                Ok(vector) => Ok(taste_vector_to_dynamic(vector)),
                Err(why) => Err(why.clone()),
            },
        }
    }

    /// Whether this is what came of a question.
    pub fn answers(&self, question: &Question) -> (out: bool)
        ensures
            out == (self.question() == question@),
    {
        match (self, question) {
            (
                Answered::EnrichmentFor { item_id, namespace, .. },
                Question::EnrichmentFor { item_id: i, namespace: n },
            ) => same_text(item_id.as_str(), i.as_str()) && same_text(
                namespace.as_str(),
                n.as_str(),
            ),
            (
                Answered::EnrichmentForMany { item_ids, namespace, .. },
                Question::EnrichmentForMany { item_ids: i, namespace: n },
            ) => same_names(item_ids, i) && same_text(namespace.as_str(), n.as_str()),
            (
                Answered::EdgesFrom { item_id, edge_type, .. },
                Question::EdgesFrom { item_id: i, edge_type: e },
            ) => same_text(item_id.as_str(), i.as_str()) && same_text(
                edge_type.as_str(),
                e.as_str(),
            ),
            (
                Answered::EdgesTo { item_id, edge_type, .. },
                Question::EdgesTo { item_id: i, edge_type: e },
            ) => same_text(item_id.as_str(), i.as_str()) && same_text(
                edge_type.as_str(),
                e.as_str(),
            ),
            (Answered::TasteVectorFor { account, .. }, Question::TasteVectorFor { account: a }) =>
                *account == *a,
            (Answered::PooledTasteVector { .. }, Question::PooledTasteVector) => true,
            _ => false,
        }
    }
}

fn same_names(a: &Vec<String>, b: &Vec<String>) -> (out: bool)
    ensures
        out == (texts(a@) == texts(b@)),
{
    if a.len() != b.len() {
        assert(texts(a@).len() != texts(b@).len());
        return false;
    }
    let mut i: usize = 0;
    while i < a.len()
        invariant
            i <= a.len(),
            a.len() == b.len(),
            forall|j: int| 0 <= j < i ==> (#[trigger] a@[j])@ == b@[j]@,
        decreases a.len() - i,
    {
        if !same_text(a[i].as_str(), b[i].as_str()) {
            assert(texts(a@)[i as int] != texts(b@)[i as int]);
            return false;
        }
        i += 1;
    }
    assert(texts(a@) =~= texts(b@));
    true
}

/// What came of a question, among all that was put to a datastore; the first one counts.
pub open spec fn answer_to(answers: Seq<Answered>, question: QuestionModel) -> Option<Answered>
    decreases answers.len(),
{
    if answers.len() == 0 {
        None
    } else if answers[0].question() == question {
        Some(answers[0])
    } else {
        answer_to(answers.skip(1), question)
    }
}

/// Why a script stopped.
#[derive(Clone, Debug, PartialEq, Eq)]
pub enum Stop {
    /// It failed.
    Failed(String),
    /// It asked a datastore what no answer was read for.
    Unasked { store: String, question: Question },
}

/// Why a script stopped, as mathematical values.
pub enum Stopped {
    Failed(Seq<char>),
    Unasked { store: Seq<char>, question: QuestionModel },
}

impl View for Stop {
    type V = Stopped;

    open spec fn view(&self) -> Stopped {
        match *self {
            Stop::Failed(why) => Stopped::Failed(why@),
            Stop::Unasked { store, question } => Stopped::Unasked {
                store: store@,
                question: question@,
            },
        }
    }
}

/// How a question is told that no answer was read for.
pub open spec fn unasked_text(store: Seq<char>, question: QuestionModel) -> Seq<char> {
    "the datastore at "@ + quoted_text(store) + " was not asked "@ + question.text()
}

/// How a question is told that no answer was read for.
pub fn write_unasked(store: &str, question: &Question) -> (out: String)
    ensures
        out@ == unasked_text(store@, question@),
{
    let mut out: String = "the datastore at ".to_owned();
    out.append(quoted(store).as_str());
    out.append(" was not asked ");
    out.append(question.text().as_str());
    out
}

impl Stop {
    /// What is said of it.
    pub fn message(&self) -> (out: String)
        ensures
            out@ == match self@ {
                Stopped::Failed(why) => why,
                Stopped::Unasked { store, question } => unasked_text(store, question),
            },
    {
        match self {
            Stop::Failed(why) => why.clone(),
            Stop::Unasked { store, question } => write_unasked(store.as_str(), question),
        }
    }
}

/// What a script gets, or why it stops.
pub open spec fn outcome(out: Result<ScriptValue, Stop>) -> Result<Script, Stopped> {
    match out {
        Ok(value) => Ok(value@),
        Err(stop) => Err(stop@),
    }
}

/// A granted datastore, as a script holds it.
#[derive(Clone, Debug)]
pub struct Datastore {
    /// Where it lies.
    pub path: String,
    /// What was put to it so far, and what came of it.
    pub answers: Arc<Vec<Answered>>,
}

/// A granted datastore, as mathematical values.
pub struct StoreModel {
    pub path: Seq<char>,
    pub answers: Seq<Answered>,
}

impl View for Datastore {
    type V = StoreModel;

    open spec fn view(&self) -> StoreModel {
        StoreModel { path: self.path@, answers: (*self.answers)@ }
    }
}

impl StoreModel {
    /// What a script gets when it puts a question to the datastore. What was answered it gets;
    /// what could not be answered fails it; and where the question was not put yet, it stops.
    pub open spec fn asked(self, question: QuestionModel) -> Result<Script, Stopped> {
        match answer_to(self.answers, question) {
            Some(answered) => match given(question, answered.reply()) {
                Ok(value) => Ok(value),
                Err(why) => Err(Stopped::Failed(why)),
            },
            None => Err(Stopped::Unasked { store: self.path, question }),
        }
    }
}

impl Datastore {
    /// Puts a question to the datastore.
    pub fn ask(&self, question: Question) -> (out: Result<ScriptValue, Stop>)
        ensures
            outcome(out) == self@.asked(question@),
    {
        let answers: &Vec<Answered> = &self.answers;
        let mut i: usize = 0;
        assert(answers@.skip(0) =~= answers@);
        while i < answers.len()
            invariant
                i <= answers.len(),
                answers@ == self@.answers,
                answer_to(answers@, question@) == answer_to(
                    answers@.skip(i as int),
                    question@,
                ),
            decreases answers.len() - i,
        {
            assert(answers@.skip(i as int)[0] == answers@[i as int]);
            assert(answers@.skip(i as int).skip(1) =~= answers@.skip(i + 1));
            if answers[i].answers(&question) {
                return match answers[i].value() {
                    Ok(value) => Ok(value),
                    Err(why) => {
                        let mut out: String = "datastore: ".to_owned();
                        out.append(question.text().as_str());
                        out.append(": ");
                        out.append(why.as_str());
                        Err(Stop::Failed(out))
                    },
                };
            }
            i += 1;
        }
        Err(Stop::Unasked { store: self.path.clone(), question })
    }

    /// The facts about an item.
    pub fn enrichment_for(&self, item_id: &str, namespace: &str) -> (out: Result<ScriptValue, Stop>)
        ensures
            outcome(out) == self@.asked(
                QuestionModel::EnrichmentFor { item_id: item_id@, namespace: namespace@ },
            ),
    {
        self.ask(
            Question::EnrichmentFor { item_id: item_id.to_owned(), namespace: namespace.to_owned() },
        )
    }

    /// The facts about many items, all in one call. Every identity has to be a text.
    pub fn enrichment_for_many(&self, item_ids: &Vec<ScriptValue>, namespace: &str) -> (out: Result<
        ScriptValue,
        Stop,
    >)
        ensures
            outcome(out) == (match asked_ids(scripts(item_ids@)) {
                Ok(ids) => self@.asked(
                    QuestionModel::EnrichmentForMany { item_ids: ids, namespace: namespace@ },
                ),
                Err(why) => Err(Stopped::Failed(why)),
            }),
    {
        match enrichment_ids(item_ids) {
            Ok(ids) => self.ask(
                Question::EnrichmentForMany { item_ids: ids, namespace: namespace.to_owned() },
            ),
            Err(why) => Err(Stop::Failed(why)),
        }
    }

    /// The edges that lead from an item.
    pub fn edges_from(&self, item_id: &str, edge_type: &str) -> (out: Result<ScriptValue, Stop>)
        ensures
            outcome(out) == self@.asked(
                QuestionModel::EdgesFrom { item_id: item_id@, edge_type: edge_type@ },
            ),
    {
        self.ask(
            Question::EdgesFrom { item_id: item_id.to_owned(), edge_type: edge_type.to_owned() },
        )
    }

    /// The edges that lead to an item.
    pub fn edges_to(&self, item_id: &str, edge_type: &str) -> (out: Result<ScriptValue, Stop>)
        ensures
            outcome(out) == self@.asked(
                QuestionModel::EdgesTo { item_id: item_id@, edge_type: edge_type@ },
            ),
    {
        self.ask(Question::EdgesTo { item_id: item_id.to_owned(), edge_type: edge_type.to_owned() })
    }

    /// The taste of one account.
    pub fn taste_vector_for(&self, account: i64) -> (out: Result<ScriptValue, Stop>)
        ensures
            outcome(out) == self@.asked(QuestionModel::TasteVectorFor { account }),
    {
        self.ask(Question::TasteVectorFor { account })
    }

    /// The taste of all accounts together.
    pub fn pooled_taste_vector(&self) -> (out: Result<ScriptValue, Stop>)
        ensures
            outcome(out) == self@.asked(QuestionModel::PooledTasteVector),
    {
        self.ask(Question::PooledTasteVector)
    }
}

/// An answer that is added to a datastore is what a script gets from then on, and what it gets
/// to every other question stays: nothing has to be asked twice.
pub proof fn an_answer_settles_its_question(
    store: StoreModel,
    answered: Answered,
    other: QuestionModel,
)
    requires
        answer_to(store.answers, answered.question()) is None,
    ensures
        ({
            let after = StoreModel { answers: store.answers.push(answered), ..store };
            &&& answer_to(after.answers, answered.question()) == Some(answered)
            &&& !(after.asked(answered.question()) matches Err(Stopped::Unasked { .. }))
            &&& other != answered.question() ==> after.asked(other) == store.asked(other)
        }),
{
    lemma_answer_pushed(store.answers, answered, answered.question());
    lemma_answer_pushed(store.answers, answered, other);
}

proof fn lemma_answer_pushed(answers: Seq<Answered>, answered: Answered, question: QuestionModel)
    ensures
        answer_to(answers.push(answered), question) == (match answer_to(answers, question) {
            Some(found) => Some(found),
            None => if answered.question() == question {
                Some(answered)
            } else {
                None
            },
        }),
    decreases answers.len(),
{
    let all = answers.push(answered);
    if answers.len() == 0 {
        assert(all[0] == answered);
        assert(all.skip(1) =~= Seq::<Answered>::empty());
    } else {
        assert(all[0] == answers[0]);
        assert(all.skip(1) =~= answers.skip(1).push(answered));
        lemma_answer_pushed(answers.skip(1), answered, question);
    }
}

} // verus!
