//! Values that pass between the station and a script.

use vstd::prelude::*;

use std::sync::Arc;

use crate::names::same_text;

verus! {

/// A value as a script knows it.
#[derive(Debug)]
pub enum ScriptValue {
    Unit,
    Bool(bool),
    Int(i64),
    /// A floating-point number, written out, and whether it is finite.
    Float(String, bool),
    Char(char),
    Text(String),
    List(Vec<ScriptValue>),
    Table(Vec<Field>),
    /// A value of some other type; with the name of that type.
    Other(String),
}

/// One field of a table.
#[derive(Debug)]
pub struct Field {
    pub name: String,
    pub value: ScriptValue,
}

/// A value as a script knows it, as mathematical values.
pub enum Script {
    Unit,
    Bool(bool),
    Int(int),
    Float(Seq<char>, bool),
    Char(char),
    Text(Seq<char>),
    List(Seq<Script>),
    Table(Seq<(Seq<char>, Script)>),
    Other(Seq<char>),
}

/// What a value is.
pub open spec fn script(value: ScriptValue) -> Script
    decreases value,
{
    match value {
        ScriptValue::Unit => Script::Unit,
        ScriptValue::Bool(b) => Script::Bool(b),
        ScriptValue::Int(n) => Script::Int(n as int),
        ScriptValue::Float(text, finite) => Script::Float(text@, finite),
        ScriptValue::Char(c) => Script::Char(c),
        ScriptValue::Text(text) => Script::Text(text@),
        ScriptValue::List(list) => Script::List(
            Seq::new(
                list@.len(),
                |i: int|
                    if 0 <= i < list@.len() {
                        script(list@[i])
                    } else {
                        Script::Unit
                    },
            ),
        ),
        ScriptValue::Table(fields) => Script::Table(
            Seq::new(
                fields@.len(),
                |i: int|
                    if 0 <= i < fields@.len() {
                        (fields@[i].name@, script(fields@[i].value))
                    } else {
                        (Seq::empty(), Script::Unit)
                    },
            ),
        ),
        ScriptValue::Other(kind) => Script::Other(kind@),
    }
}

impl View for ScriptValue {
    type V = Script;

    open spec fn view(&self) -> Script {
        script(*self)
    }
}

/// `Arc::clone` gives another pointer to the same value.
#[verifier::external_body]
pub(crate) fn share<T>(value: &Arc<T>) -> (out: Arc<T>)
    ensures
        out == *value,
{
    Arc::clone(value)
}

/// The values of a list.
pub open spec fn scripts(list: Seq<ScriptValue>) -> Seq<Script> {
    list.map_values(|v: ScriptValue| v@)
}

/// The fields of a table.
pub open spec fn fields(list: Seq<Field>) -> Seq<(Seq<char>, Script)> {
    list.map_values(|f: Field| (f.name@, f.value@))
}

/// What a list and a table are, told by what they hold.
pub proof fn lemma_script(value: ScriptValue)
    ensures
        value matches ScriptValue::List(list) ==> value@ == Script::List(scripts(list@)),
        value matches ScriptValue::Table(table) ==> value@ == Script::Table(fields(table@)),
{
    match value {
        ScriptValue::List(list) => {
            assert(value@->List_0 =~= scripts(list@));
        },
        ScriptValue::Table(table) => {
            assert(value@->Table_0 =~= fields(table@));
        },
        _ => {},
    }
}

/// What a list or a table holds is smaller than the list or the table.
pub proof fn lemma_smaller(value: ScriptValue, i: int)
    ensures
        value matches ScriptValue::List(list) ==> 0 <= i < list@.len() ==> decreases_to!(value
            => list@[i]),
        value matches ScriptValue::Table(table) ==> 0 <= i < table@.len() ==> decreases_to!(value
            => table@[i].value),
{
    match value {
        ScriptValue::List(list) => {
            if 0 <= i < list@.len() {
                assert(decreases_to!(value => list));
                assert(decreases_to!(list => list@));
                assert(decreases_to!(list@ => list@[i]));
            }
        },
        ScriptValue::Table(table) => {
            if 0 <= i < table@.len() {
                assert(decreases_to!(value => table));
                assert(decreases_to!(table => table@));
                assert(decreases_to!(table@ => table@[i]));
                assert(decreases_to!(table@[i] => table@[i].value));
            }
        },
        _ => {},
    }
}

impl ScriptValue {
    /// A text.
    pub fn of_text(text: &str) -> (out: ScriptValue)
        ensures
            out@ == Script::Text(text@),
    {
        ScriptValue::Text(text.to_owned())
    }

    /// A text that may be absent: unit when it is.
    pub fn of_option(text: &Option<String>) -> (out: ScriptValue)
        ensures
            out@ == option_text(*text),
    {
        match text {
            Some(t) => ScriptValue::Text(t.clone()),
            None => ScriptValue::Unit,
        }
    }

    /// A number that may be absent: unit when it is.
    pub fn of_number(n: Option<i64>) -> (out: ScriptValue)
        ensures
            out@ == option_number(n),
    {
        match n {
            Some(v) => ScriptValue::Int(v),
            None => ScriptValue::Unit,
        }
    }

    /// A list of texts.
    pub fn of_names(names: &Vec<String>) -> (out: ScriptValue)
        ensures
            out@ == text_list(names@),
    {
        let mut list: Vec<ScriptValue> = Vec::new();
        let mut i: usize = 0;
        while i < names.len()
            invariant
                i <= names.len(),
                list.len() == i,
                forall|j: int| 0 <= j < i ==> (#[trigger] list@[j])@ == Script::Text(names@[j]@),
            decreases names.len() - i,
        {
            list.push(ScriptValue::Text(names[i].clone()));
            i += 1;
        }
        let ghost made = scripts(list@);
        let out: ScriptValue = ScriptValue::List(list);
        proof {
            lemma_script(out);
            assert(made =~= names@.map_values(|n: String| Script::Text(n@)));
        }
        out
    }

    /// A list.
    pub fn of_list(list: Vec<ScriptValue>) -> (out: ScriptValue)
        ensures
            out@ == Script::List(scripts(list@)),
            out == ScriptValue::List(list),
    {
        let out: ScriptValue = ScriptValue::List(list);
        proof {
            lemma_script(out);
        }
        out
    }

    /// A table.
    pub fn of_table(table: Vec<Field>) -> (out: ScriptValue)
        ensures
            out@ == Script::Table(fields(table@)),
            out == ScriptValue::Table(table),
    {
        let out: ScriptValue = ScriptValue::Table(table);
        proof {
            lemma_script(out);
        }
        out
    }

    /// The same value again.
    pub fn copy(&self) -> (out: ScriptValue)
        ensures
            out@ == self@,
        decreases *self,
    {
        proof {
            lemma_script(*self);
        }
        match self {
            ScriptValue::Unit => ScriptValue::Unit,
            ScriptValue::Bool(b) => ScriptValue::Bool(*b),
            ScriptValue::Int(n) => ScriptValue::Int(*n),
            ScriptValue::Float(text, finite) => ScriptValue::Float(text.clone(), *finite),
            ScriptValue::Char(c) => ScriptValue::Char(*c),
            ScriptValue::Text(text) => ScriptValue::Text(text.clone()),
            ScriptValue::List(list) => {
                let mut out: Vec<ScriptValue> = Vec::new();
                let mut i: usize = 0;
                while i < list.len()
                    invariant
                        i <= list.len(),
                        out.len() == i,
                        *self == ScriptValue::List(*list),
                        forall|j: int| 0 <= j < i ==> (#[trigger] out@[j])@ == list@[j]@,
                    decreases list.len() - i,
                {
                    proof {
                        lemma_smaller(*self, i as int);
                    }
                    out.push(list[i].copy());
                    i += 1;
                }
                assert(scripts(out@) =~= scripts(list@));
                ScriptValue::of_list(out)
            },
            ScriptValue::Table(table) => {
                let mut out: Vec<Field> = Vec::new();
                let mut i: usize = 0;
                while i < table.len()
                    invariant
                        i <= table.len(),
                        out.len() == i,
                        *self == ScriptValue::Table(*table),
                        forall|j: int|
                            0 <= j < i ==> (#[trigger] out@[j]).name@ == table@[j].name@
                                && out@[j].value@ == table@[j].value@,
                    decreases table.len() - i,
                {
                    proof {
                        lemma_smaller(*self, i as int);
                    }
                    out.push(Field { name: table[i].name.clone(), value: table[i].value.copy() });
                    i += 1;
                }
                assert(fields(out@) =~= fields(table@));
                ScriptValue::of_table(out)
            },
            ScriptValue::Other(kind) => ScriptValue::Other(kind.clone()),
        }
    }
}

/// A text that may be absent, as a script sees it.
pub open spec fn option_text(text: Option<String>) -> Script {
    match text {
        Some(t) => Script::Text(t@),
        None => Script::Unit,
    }
}

/// A number that may be absent, as a script sees it.
pub open spec fn option_number(n: Option<i64>) -> Script {
    match n {
        Some(v) => Script::Int(v as int),
        None => Script::Unit,
    }
}

/// A list of texts, as a script sees it.
pub open spec fn text_list(names: Seq<String>) -> Script {
    Script::List(names.map_values(|n: String| Script::Text(n@)))
}

/// The value of the first field of a name in a table.
pub open spec fn field_of(table: Seq<(Seq<char>, Script)>, name: Seq<char>) -> Option<Script>
    decreases table.len(),
{
    if table.len() == 0 {
        None
    } else if table[0].0 == name {
        Some(table[0].1)
    } else {
        field_of(table.drop_first(), name)
    }
}

/// The value of the first field of a name in a table.
pub fn find_field<'a>(table: &'a Vec<Field>, name: &str) -> (out: Option<&'a ScriptValue>)
    ensures
        out is Some <==> field_of(fields(table@), name@) is Some,
        out matches Some(v) ==> field_of(fields(table@), name@) == Some(v@),
{
    let ghost all = fields(table@);
    let mut i: usize = 0;
    assert(all.skip(0) =~= all);
    while i < table.len()
        invariant
            i <= table.len(),
            all == fields(table@),
            field_of(all, name@) == field_of(all.skip(i as int), name@),
        decreases table.len() - i,
    {
        assert(all.skip(i as int)[0] == (table@[i as int].name@, table@[i as int].value@));
        if same_text(table[i].name.as_str(), name) {
            return Some(&table[i].value);
        }
        assert(all.skip(i as int).drop_first() =~= all.skip(i + 1));
        i += 1;
    }
    None
}

} // verus!
