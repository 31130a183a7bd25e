//! Lists of names: where a name stands in a list.

use vstd::prelude::*;

verus! {

/// The texts of a list of names.
pub open spec fn texts(names: Seq<String>) -> Seq<Seq<char>> {
    names.map_values(|s: String| s@)
}

/// Whether `name` stands somewhere in `names`.
pub open spec fn has_name(names: Seq<String>, name: Seq<char>) -> bool {
    exists|i: int| 0 <= i < names.len() && #[trigger] names[i]@ == name
}

/// Where `name` stands first in `names`.
pub open spec fn first_index(names: Seq<String>, name: Seq<char>) -> Option<int>
    decreases names.len(),
{
    if names.len() == 0 {
        None
    } else {
        match first_index(names.drop_last(), name) {
            Some(i) => Some(i),
            None => if names.last()@ == name {
                Some(names.len() - 1)
            } else {
                None
            },
        }
    }
}

/// What `first_index` gives: the first position that holds the name, if one does.
pub proof fn lemma_first_index(names: Seq<String>, name: Seq<char>)
    ensures
        first_index(names, name) is Some <==> has_name(names, name),
        first_index(names, name) matches Some(i) ==> {
            &&& 0 <= i < names.len()
            &&& names[i]@ == name
            &&& forall|j: int| 0 <= j < i ==> #[trigger] names[j]@ != name
        },
    decreases names.len(),
{
    if names.len() > 0 {
        let shorter = names.drop_last();
        lemma_first_index(shorter, name);
        assert(forall|j: int| 0 <= j < shorter.len() ==> names[j] == shorter[j]);
        if has_name(names, name) && !has_name(shorter, name) {
            let i = choose|i: int| 0 <= i < names.len() && #[trigger] names[i]@ == name;
            assert(i == names.len() - 1) by {
                if i < shorter.len() {
                    assert(shorter[i]@ == name);
                }
            }
        }
        if first_index(shorter, name) is None {
            assert forall|j: int| 0 <= j < shorter.len() implies #[trigger] names[j]@ != name by {
                assert(shorter[j]@ != name);
            }
            if names.last()@ == name {
                assert(names[names.len() - 1]@ == name);
            }
        } else {
            let i = first_index(shorter, name)->0;
            assert(names[i]@ == name);
            assert forall|j: int| 0 <= j < i implies #[trigger] names[j]@ != name by {
                assert(shorter[j]@ != name);
            }
        }
    }
}

/// The first position at which a name satisfying the condition of `first_index` stands
/// is the only such position.
pub proof fn lemma_first_index_is(names: Seq<String>, name: Seq<char>, i: int)
    requires
        0 <= i < names.len(),
        names[i]@ == name,
        forall|j: int| 0 <= j < i ==> #[trigger] names[j]@ != name,
    ensures
        first_index(names, name) == Some(i),
{
    lemma_first_index(names, name);
    let k = first_index(names, name)->0;
    if k < i {
        assert(names[k]@ != name);
    }
    if i < k {
        assert(names[i]@ != name);
    }
}

/// Where `name` stands first in `names`.
pub fn position_of(names: &Vec<String>, name: &String) -> (out: Option<usize>)
    ensures
        out is Some <==> first_index(names@, name@) is Some,
        out matches Some(i) ==> first_index(names@, name@) == Some(i as int) && i < names.len(),
{
    let mut i: usize = 0;
    while i < names.len()
        invariant
            i <= names.len(),
            forall|j: int| 0 <= j < i ==> #[trigger] names@[j]@ != name@,
        decreases names.len() - i,
    {
        if names[i] == *name {
            proof {
                lemma_first_index_is(names@, name@, i as int);
            }
            return Some(i);
        }
        i += 1;
    }
    proof {
        lemma_first_index(names@, name@);
    }
    None
}

/// Whether `name` stands somewhere in `names`.
pub fn contains_name(names: &Vec<String>, name: &String) -> (out: bool)
    ensures
        out == has_name(names@, name@),
{
    proof {
        lemma_first_index(names@, name@);
    }
    position_of(names, name).is_some()
}

/// Whether two texts are the same.
pub fn same_text(a: &str, b: &str) -> (out: bool)
    ensures
        out == (a@ == b@),
{
    a.to_owned() == b.to_owned()
}

/// A copy of a list of names.
pub fn copy_names(names: &Vec<String>) -> (out: Vec<String>)
    ensures
        out@ == names@,
{
    let out: Vec<String> = names.clone();
    assert(out@ =~= names@);
    out
}

/// Appends a copy of the names of `more`.
pub fn extend_names(names: &mut Vec<String>, more: &Vec<String>)
    ensures
        final(names)@ == old(names)@ + more@,
{
    let mut i: usize = 0;
    while i < more.len()
        invariant
            i <= more.len(),
            names@ == old(names)@ + more@.take(i as int),
        decreases more.len() - i,
    {
        names.push(more[i].clone());
        i += 1;
        assert(more@.take(i as int) =~= more@.take(i - 1).push(more@[i - 1]));
    }
    assert(more@.take(i as int) =~= more@);
}

/// What a table holds under a name: the value of the first row of that name.
pub open spec fn entry_of<V>(table: Seq<(String, V)>, name: Seq<char>) -> Option<V>
    decreases table.len(),
{
    if table.len() == 0 {
        None
    } else {
        match entry_of(table.drop_last(), name) {
            Some(v) => Some(v),
            None => if table.last().0@ == name {
                Some(table.last().1)
            } else {
                None
            },
        }
    }
}

/// What `entry_of` gives: the value of the first row of that name, if there is one.
pub proof fn lemma_entry_of<V>(table: Seq<(String, V)>, name: Seq<char>)
    ensures
        entry_of(table, name) is Some <==> exists|i: int|
            0 <= i < table.len() && #[trigger] table[i].0@ == name,
        entry_of(table, name) matches Some(v) ==> exists|i: int| #![trigger table[i]]
            0 <= i < table.len() && table[i].0@ == name && table[i].1 == v && forall|j: int|
                0 <= j < i ==> #[trigger] table[j].0@ != name,
    decreases table.len(),
{
    if table.len() > 0 {
        let shorter = table.drop_last();
        lemma_entry_of(shorter, name);
        assert(forall|j: int| 0 <= j < shorter.len() ==> table[j] == shorter[j]);
        if entry_of(shorter, name) is Some {
            let i = choose|i: int| #![trigger shorter[i]]
                0 <= i < shorter.len() && shorter[i].0@ == name && shorter[i].1 == entry_of(
                    shorter,
                    name,
                )->0 && forall|j: int| 0 <= j < i ==> #[trigger] shorter[j].0@ != name;
            assert(table[i].0@ == name);
            assert forall|j: int| 0 <= j < i implies #[trigger] table[j].0@ != name by {
                assert(shorter[j].0@ != name);
            }
        } else {
            assert forall|j: int| 0 <= j < shorter.len() implies #[trigger] table[j].0@ != name by {
                assert(shorter[j].0@ != name);
            }
            if table.last().0@ == name {
                assert(table[table.len() - 1].0@ == name);
            }
        }
    }
}

/// The first row of a name is the one `entry_of` reads.
pub proof fn lemma_entry_of_is<V>(table: Seq<(String, V)>, name: Seq<char>, i: int)
    requires
        0 <= i < table.len(),
        table[i].0@ == name,
        forall|j: int| 0 <= j < i ==> #[trigger] table[j].0@ != name,
    ensures
        entry_of(table, name) == Some(table[i].1),
{
    lemma_entry_of(table, name);
    let k = choose|k: int| #![trigger table[k]]
        0 <= k < table.len() && table[k].0@ == name && table[k].1 == entry_of(table, name)->0
            && forall|j: int| 0 <= j < k ==> #[trigger] table[j].0@ != name;
    if k < i {
        assert(table[k].0@ != name);
    }
    if i < k {
        assert(table[i].0@ != name);
    }
}

/// What a table holds under a name: the value of the first row of that name.
pub fn lookup<'a, V>(table: &'a Vec<(String, V)>, name: &String) -> (out: Option<&'a V>)
    ensures
        out is Some <==> entry_of(table@, name@) is Some,
        out matches Some(v) ==> entry_of(table@, name@) == Some(*v),
{
    let mut i: usize = 0;
    while i < table.len()
        invariant
            i <= table.len(),
            forall|j: int| 0 <= j < i ==> #[trigger] table@[j].0@ != name@,
        decreases table.len() - i,
    {
        if table[i].0 == *name {
            proof {
                lemma_entry_of_is(table@, name@, i as int);
            }
            return Some(&table[i].1);
        }
        i += 1;
    }
    proof {
        lemma_entry_of(table@, name@);
    }
    None
}

/// Where the first row of a name stands.
pub open spec fn row_of<V>(table: Seq<(String, V)>, name: Seq<char>) -> Option<int>
    decreases table.len(),
{
    if table.len() == 0 {
        None
    } else {
        match row_of(table.drop_last(), name) {
            Some(i) => Some(i),
            None => if table.last().0@ == name {
                Some(table.len() - 1)
            } else {
                None
            },
        }
    }
}

/// What `row_of` gives: the first row of that name, if there is one.
pub proof fn lemma_row_of<V>(table: Seq<(String, V)>, name: Seq<char>)
    ensures
        row_of(table, name) matches Some(i) ==> 0 <= i < table.len() && table[i].0@ == name
            && entry_of(table, name) == Some(table[i].1),
        row_of(table, name) is None ==> entry_of(table, name) is None && forall|j: int|
            0 <= j < table.len() ==> #[trigger] table[j].0@ != name,
        row_of(table, name) matches Some(i) ==> forall|j: int|
            0 <= j < i ==> #[trigger] table[j].0@ != name,
    decreases table.len(),
{
    if table.len() > 0 {
        let shorter = table.drop_last();
        lemma_row_of(shorter, name);
        assert forall|j: int| 0 <= j < shorter.len() implies table[j] == shorter[j] by {}
    }
}

/// A table with the value of a name replaced, or put at its end when the name is new.
pub open spec fn put<V>(table: Seq<(String, V)>, name: String, value: V) -> Seq<(String, V)> {
    match row_of(table, name@) {
        Some(i) => table.update(i, (table[i].0, value)),
        None => table.push((name, value)),
    }
}

/// Replaces the value of a name, or puts it at the end of the table when the name is new.
pub fn put_entry<V>(table: &mut Vec<(String, V)>, name: String, value: V)
    ensures
        final(table)@ == put(old(table)@, name, value),
{
    let mut i: usize = 0;
    while i < table.len()
        invariant
            i <= table.len(),
            table@ == old(table)@,
            forall|j: int| 0 <= j < i ==> #[trigger] table@[j].0@ != name@,
        decreases table.len() - i,
    {
        if table[i].0 == name {
            proof {
                lemma_row_of(table@, name@);
                let k = row_of(table@, name@);
                if k is None {
                    assert(table@[i as int].0@ != name@);
                } else if k->0 < i {
                    assert(table@[k->0].0@ != name@);
                } else if i < k->0 {
                    assert(table@[i as int].0@ != name@);
                }
            }
            let kept: String = table[i].0.clone();
            table.set(i, (kept, value));
            return;
        }
        i += 1;
    }
    proof {
        lemma_row_of(table@, name@);
        if row_of(table@, name@) is Some {
            assert(table@[row_of(table@, name@)->0].0@ != name@);
        }
    }
    table.push((name, value));
}

/// What a table holds under a name after `put`: the new value under that name, and under
/// every other name what it held before.
pub proof fn putting_changes_one_name<V>(table: Seq<(String, V)>, name: String, value: V)
    ensures
        entry_of(put(table, name, value), name@) == Some(value),
        forall|other: Seq<char>|
            other != name@ ==> #[trigger] entry_of(put(table, name, value), other) == entry_of(
                table,
                other,
            ),
{
    let after = put(table, name, value);
    lemma_row_of(table, name@);
    match row_of(table, name@) {
        Some(i) => {
            assert forall|j: int| 0 <= j < i implies #[trigger] after[j].0@ != name@ by {
                assert(table[j].0@ != name@);
            }
            lemma_entry_of_is(after, name@, i);
            assert forall|other: Seq<char>| other != name@ implies #[trigger] entry_of(after, other)
                == entry_of(table, other) by {
                lemma_same_elsewhere(table, after, i, other);
            }
        },
        None => {
            assert(after.drop_last() =~= table);
            assert(after.last().0@ == name@);
        },
    }
}

proof fn lemma_same_elsewhere<V>(
    a: Seq<(String, V)>,
    b: Seq<(String, V)>,
    i: int,
    name: Seq<char>,
)
    requires
        a.len() == b.len(),
        forall|j: int| 0 <= j < a.len() && j != i ==> a[j] == b[j],
        0 <= i < a.len() ==> a[i].0@ != name && b[i].0@ != name,
    ensures
        entry_of(a, name) == entry_of(b, name),
    decreases a.len(),
{
    if a.len() > 0 {
        lemma_same_elsewhere(a.drop_last(), b.drop_last(), i, name);
    }
}

} // verus!
