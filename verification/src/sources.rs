//! A table of queries that a pool brings along, kept in the order of its names, so that one
//! table written in two ways is one table.

use vstd::prelude::*;

use crate::text::chars_of;

verus! {

/// Whether one text stands before another: by the first character in which they differ, and
/// else by which ends first.
pub open spec fn stands_before(a: Seq<char>, b: Seq<char>) -> bool
    decreases a.len(),
{
    if b.len() == 0 {
        false
    } else if a.len() == 0 {
        true
    } else if a[0] == b[0] {
        stands_before(a.skip(1), b.skip(1))
    } else {
        (a[0] as int) < (b[0] as int)
    }
}

/// No text stands before itself, no two stand before each other, and of two different texts
/// one stands before the other.
pub proof fn lemma_one_stands_before(a: Seq<char>, b: Seq<char>)
    ensures
        !stands_before(a, a),
        !(stands_before(a, b) && stands_before(b, a)),
        a != b ==> stands_before(a, b) || stands_before(b, a),
    decreases a.len(),
{
    if a.len() == 0 {
        if b.len() == 0 {
            assert(a =~= b);
        }
    } else {
        lemma_one_stands_before(a.skip(1), a.skip(1));
        if b.len() > 0 {
            if a[0] == b[0] {
                lemma_one_stands_before(a.skip(1), b.skip(1));
                if a.skip(1) == b.skip(1) {
                    assert(a =~= seq![a[0]] + a.skip(1));
                    assert(b =~= seq![b[0]] + b.skip(1));
                }
            } else {
                assert((a[0] as int) != (b[0] as int));
            }
        }
    }
}

/// What stands before a text stands before all that the text stands before.
pub proof fn lemma_before_carries(a: Seq<char>, b: Seq<char>, c: Seq<char>)
    requires
        stands_before(a, b),
        stands_before(b, c),
    ensures
        stands_before(a, c),
    decreases a.len(),
{
    if a.len() > 0 && a[0] == b[0] && b[0] == c[0] {
        lemma_before_carries(a.skip(1), b.skip(1), c.skip(1));
    }
}

/// How two texts stand to each other.
#[derive(Clone, Copy, Debug, PartialEq, Eq, Structural)]
pub enum Standing {
    Before,
    Same,
    After,
}

/// How two texts stand to each other.
pub fn standing(a: &str, b: &str) -> (out: Standing)
    ensures
        out == Standing::Before <==> stands_before(a@, b@),
        out == Standing::Same <==> a@ == b@,
        out == Standing::After <==> stands_before(b@, a@),
{
    let x: Vec<char> = chars_of(a);
    let y: Vec<char> = chars_of(b);
    let mut i: usize = 0;
    assert(x@.skip(0) =~= x@);
    assert(y@.skip(0) =~= y@);
    proof {
        lemma_one_stands_before(x@, y@);
    }
    while i < x.len() && i < y.len() && x[i] == y[i]
        invariant
            i <= x.len(),
            i <= y.len(),
            x@.take(i as int) == y@.take(i as int),
            stands_before(x@, y@) == stands_before(x@.skip(i as int), y@.skip(i as int)),
            stands_before(y@, x@) == stands_before(y@.skip(i as int), x@.skip(i as int)),
        decreases x.len() - i,
    {
        assert(x@.skip(i as int).skip(1) =~= x@.skip(i + 1));
        assert(y@.skip(i as int).skip(1) =~= y@.skip(i + 1));
        assert(x@.take(i + 1) =~= x@.take(i as int).push(x@[i as int]));
        assert(y@.take(i + 1) =~= y@.take(i as int).push(y@[i as int]));
        i += 1;
    }
    if i == x.len() && i == y.len() {
        assert(x@.take(i as int) =~= x@);
        assert(y@.take(i as int) =~= y@);
        return Standing::Same;
    }
    if i == y.len() {
        return Standing::After;
    }
    if i == x.len() {
        return Standing::Before;
    }
    let c: char = x[i];
    let d: char = y[i];
    if c < d {
        Standing::Before
    } else {
        Standing::After
    }
}

/// The queries that a pool brings along: by name, an expression.
#[derive(Debug)]
pub struct PoolSources {
    rows: Vec<(String, String)>,
}

/// Rows as mathematical values.
pub open spec fn pairs(rows: Seq<(String, String)>) -> Seq<(Seq<char>, Seq<char>)> {
    rows.map_values(|r: (String, String)| (r.0@, r.1@))
}

/// Whether every name stands before the ones after it.
pub open spec fn in_name_order(rows: Seq<(Seq<char>, Seq<char>)>) -> bool {
    forall|i: int, j: int|
        0 <= i < j < rows.len() ==> stands_before(#[trigger] rows[i].0, #[trigger] rows[j].0)
}

/// Whether a table gives this expression for this name.
pub open spec fn gives(rows: Seq<(Seq<char>, Seq<char>)>, name: Seq<char>, expr: Seq<char>) -> bool {
    exists|i: int| 0 <= i < rows.len() && #[trigger] rows[i] == (name, expr)
}

impl View for PoolSources {
    type V = Seq<(Seq<char>, Seq<char>)>;

    closed spec fn view(&self) -> Seq<(Seq<char>, Seq<char>)> {
        pairs(self.rows@)
    }
}

impl PoolSources {
    /// Whether the rows stand in the order of their names.
    #[verifier::type_invariant]
    spec fn ordered(self) -> bool {
        in_name_order(pairs(self.rows@))
    }

    /// A table without a query.
    pub fn new() -> (out: PoolSources)
        ensures
            out@ == Seq::<(Seq<char>, Seq<char>)>::empty(),
    {
        let rows: Vec<(String, String)> = Vec::new();
        assert(pairs(rows@) =~= Seq::<(Seq<char>, Seq<char>)>::empty());
        PoolSources { rows }
    }

    /// The table with a query put in: what the name gave before is replaced, and every other
    /// name gives what it gave.
    pub fn insert(self, name: String, expr: String) -> (out: PoolSources)
        ensures
            forall|n: Seq<char>, x: Seq<char>|
                #[trigger] gives(out@, n, x) <==> if n == name@ {
                    x == expr@
                } else {
                    gives(self@, n, x)
                },
    {
        proof {
            use_type_invariant(&self);
        }
        let mut rows: Vec<(String, String)> = self.rows;
        let ghost old_rows = pairs(rows@);
        let mut at: usize = 0;
        while at < rows.len() && standing(rows[at].0.as_str(), name.as_str()) == Standing::Before
            invariant
                at <= rows.len(),
                old_rows == pairs(rows@),
                forall|j: int| 0 <= j < at ==> stands_before(#[trigger] rows@[j].0@, name@),
            decreases rows.len() - at,
        {
            at += 1;
        }
        let replaced: bool = at < rows.len() && standing(rows[at].0.as_str(), name.as_str())
            == Standing::Same;
        if replaced {
            rows.remove(at);
        }
        let ghost kept = pairs(rows@);
        assert(replaced ==> kept =~= old_rows.remove(at as int));
        proof {
            lemma_kept(old_rows, name@, at as int, replaced, kept);
        }
        rows.insert(at, (name, expr));
        assert(pairs(rows@) =~= kept.insert(at as int, (name@, expr@)));
        proof {
            lemma_put_in(kept, name@, expr@, at as int);
            assert forall|n: Seq<char>, x: Seq<char>| #[trigger]
                gives(pairs(rows@), n, x) <==> if n == name@ {
                    x == expr@
                } else {
                    gives(old_rows, n, x)
                } by {
                if n != name@ {
                    assert(gives(kept, n, x) <==> gives(old_rows, n, x));
                }
            }
        }
        PoolSources { rows }
    }

    /// The names and their expressions, in the order of the names.
    pub fn rows(&self) -> (out: &Vec<(String, String)>)
        ensures
            pairs(out@) == self@,
            in_name_order(self@),
    {
        proof {
            use_type_invariant(self);
        }
        &self.rows
    }

    /// The same table again.
    pub fn copy(&self) -> (out: PoolSources)
        ensures
            out@ == self@,
    {
        proof {
            use_type_invariant(self);
        }
        let mut rows: Vec<(String, String)> = Vec::new();
        let mut i: usize = 0;
        while i < self.rows.len()
            invariant
                i <= self.rows.len(),
                rows.len() == i,
                forall|j: int|
                    0 <= j < i ==> (#[trigger] rows@[j]).0@ == self.rows@[j].0@ && rows@[j].1@
                        == self.rows@[j].1@,
            decreases self.rows.len() - i,
        {
            rows.push((self.rows[i].0.clone(), self.rows[i].1.clone()));
            i += 1;
        }
        assert(pairs(rows@) =~= pairs(self.rows@));
        PoolSources { rows }
    }

    /// Whether two tables hold the same.
    pub fn same(&self, other: &PoolSources) -> (out: bool)
        ensures
            out == (self@ == other@),
    {
        if self.rows.len() != other.rows.len() {
            assert(self@.len() != other@.len());
            return false;
        }
        let mut i: usize = 0;
        while i < self.rows.len()
            invariant
                i <= self.rows.len(),
                self.rows.len() == other.rows.len(),
                forall|j: int|
                    0 <= j < i ==> #[trigger] pairs(self.rows@)[j] == pairs(other.rows@)[j],
            decreases self.rows.len() - i,
        {
            let alike: bool = self.rows[i].0 == other.rows[i].0 && self.rows[i].1
                == other.rows[i].1;
            assert(pairs(self.rows@)[i as int] == (
                self.rows@[i as int].0@,
                self.rows@[i as int].1@,
            ));
            assert(pairs(other.rows@)[i as int] == (
                other.rows@[i as int].0@,
                other.rows@[i as int].1@,
            ));
            if !alike {
                return false;
            }
            i += 1;
        }
        assert(pairs(self.rows@) =~= pairs(other.rows@));
        true
    }
}

proof fn lemma_kept(
    rows: Seq<(Seq<char>, Seq<char>)>,
    name: Seq<char>,
    at: int,
    replaced: bool,
    kept: Seq<(Seq<char>, Seq<char>)>,
)
    requires
        in_name_order(rows),
        0 <= at <= rows.len(),
        forall|j: int| 0 <= j < at ==> stands_before(#[trigger] rows[j].0, name),
        at < rows.len() ==> !stands_before(rows[at].0, name),
        replaced == (at < rows.len() && rows[at].0 == name),
        kept == if replaced {
            rows.remove(at)
        } else {
            rows
        },
    ensures
        in_name_order(kept),
        at <= kept.len(),
        forall|j: int| 0 <= j < at ==> stands_before(#[trigger] kept[j].0, name),
        forall|j: int| at <= j < kept.len() ==> stands_before(name, #[trigger] kept[j].0),
        forall|n: Seq<char>, x: Seq<char>|
            n != name ==> (#[trigger] gives(kept, n, x) <==> gives(rows, n, x)),
{
    if at < rows.len() {
        lemma_one_stands_before(rows[at].0, name);
    }
    assert forall|j: int| at <= j < kept.len() implies stands_before(name, #[trigger] kept[j].0) by {
        if replaced {
            assert(kept[j] == rows[j + 1]);
            assert(stands_before(rows[at].0, rows[j + 1].0));
        } else if j > at {
            assert(stands_before(rows[at].0, rows[j].0));
            lemma_before_carries(name, rows[at].0, rows[j].0);
        }
    }
    assert forall|n: Seq<char>, x: Seq<char>| n != name implies (#[trigger] gives(kept, n, x)
        <==> gives(rows, n, x)) by {
        if gives(rows, n, x) {
            let i = choose|i: int| 0 <= i < rows.len() && #[trigger] rows[i] == (n, x);
            if replaced && i > at {
                assert(kept[i - 1] == (n, x));
            } else {
                assert(kept[i] == (n, x));
            }
        }
        if gives(kept, n, x) {
            let i = choose|i: int| 0 <= i < kept.len() && #[trigger] kept[i] == (n, x);
            if replaced && i >= at {
                assert(rows[i + 1] == (n, x));
            } else {
                assert(rows[i] == (n, x));
            }
        }
    }
}

proof fn lemma_put_in(
    kept: Seq<(Seq<char>, Seq<char>)>,
    name: Seq<char>,
    expr: Seq<char>,
    at: int,
)
    requires
        in_name_order(kept),
        0 <= at <= kept.len(),
        forall|j: int| 0 <= j < at ==> stands_before(#[trigger] kept[j].0, name),
        forall|j: int| at <= j < kept.len() ==> stands_before(name, #[trigger] kept[j].0),
    ensures
        in_name_order(kept.insert(at, (name, expr))),
        forall|n: Seq<char>, x: Seq<char>|
            #[trigger] gives(kept.insert(at, (name, expr)), n, x) <==> if n == name {
                x == expr
            } else {
                gives(kept, n, x)
            },
{
    let rows = kept.insert(at, (name, expr));
    assert forall|i: int, j: int| 0 <= i < j < rows.len() implies stands_before(
        #[trigger] rows[i].0,
        #[trigger] rows[j].0,
    ) by {
        if i == at {
            assert(rows[j] == kept[j - 1]);
        } else if j == at {
            assert(rows[i] == kept[i]);
        } else {
            let a = if i < at {
                i
            } else {
                i - 1
            };
            let b = if j < at {
                j
            } else {
                j - 1
            };
            assert(rows[i] == kept[a] && rows[j] == kept[b]);
        }
    }
    assert forall|n: Seq<char>, x: Seq<char>| #[trigger] gives(rows, n, x) <==> if n == name {
        x == expr
    } else {
        gives(kept, n, x)
    } by {
        assert(rows[at] == (name, expr));
        if gives(rows, n, x) {
            let i = choose|i: int| 0 <= i < rows.len() && #[trigger] rows[i] == (n, x);
            lemma_one_stands_before(name, name);
            if i < at {
                assert(kept[i] == (n, x));
                assert(stands_before(kept[i].0, name));
            } else if i > at {
                assert(kept[i - 1] == (n, x));
                assert(stands_before(name, kept[i - 1].0));
            }
        }
        if n == name && x == expr {
            assert(rows[at] == (n, x));
            assert(gives(rows, n, x));
        }
        if n != name && gives(kept, n, x) {
            let i = choose|i: int| 0 <= i < kept.len() && #[trigger] kept[i] == (n, x);
            if i < at {
                assert(rows[i] == (n, x));
            } else {
                assert(rows[i + 1] == (n, x));
            }
        }
    }
}

proof fn lemma_one_table(
    a: Seq<(Seq<char>, Seq<char>)>,
    b: Seq<(Seq<char>, Seq<char>)>,
    i: int,
)
    requires
        in_name_order(a),
        in_name_order(b),
        forall|n: Seq<char>, x: Seq<char>| #[trigger] gives(a, n, x) <==> gives(b, n, x),
        0 <= i < a.len(),
        i < b.len(),
        forall|j: int| 0 <= j < i ==> a[j] == b[j],
    ensures
        a[i] == b[i],
{
    assert(gives(a, a[i].0, a[i].1)) by {
        assert(a[i] == (a[i].0, a[i].1));
    }
    assert(gives(b, b[i].0, b[i].1)) by {
        assert(b[i] == (b[i].0, b[i].1));
    }
    assert(gives(b, a[i].0, a[i].1) && gives(a, b[i].0, b[i].1));
    let p = choose|p: int| 0 <= p < b.len() && #[trigger] b[p] == (a[i].0, a[i].1);
    let q = choose|q: int| 0 <= q < a.len() && #[trigger] a[q] == (b[i].0, b[i].1);
    lemma_one_stands_before(a[i].0, b[i].0);
    if p < i {
        assert(stands_before(a[p].0, a[i].0));
        lemma_one_stands_before(a[p].0, a[i].0);
    }
    if q < i {
        assert(stands_before(b[q].0, b[i].0));
        lemma_one_stands_before(b[q].0, b[i].0);
    }
    if p > i && q > i {
        assert(stands_before(b[i].0, b[p].0));
        assert(stands_before(a[i].0, a[q].0));
    }
}

/// Two tables that give the same expression for every name are one table, whatever order
/// they were written in.
pub proof fn one_table_is_written_one_way(
    a: Seq<(Seq<char>, Seq<char>)>,
    b: Seq<(Seq<char>, Seq<char>)>,
)
    requires
        in_name_order(a),
        in_name_order(b),
        forall|n: Seq<char>, x: Seq<char>| #[trigger] gives(a, n, x) <==> gives(b, n, x),
    ensures
        a == b,
{
    let least = if a.len() < b.len() {
        a.len()
    } else {
        b.len()
    };
    lemma_alike_up_to(a, b, least as int);
    if a.len() < b.len() {
        let i = a.len() as int;
        assert(gives(b, b[i].0, b[i].1)) by {
            assert(b[i] == (b[i].0, b[i].1));
        }
        assert(gives(a, b[i].0, b[i].1));
        let q = choose|q: int| 0 <= q < a.len() && #[trigger] a[q] == (b[i].0, b[i].1);
        assert(stands_before(b[q].0, b[i].0));
        lemma_one_stands_before(b[q].0, b[i].0);
    }
    if b.len() < a.len() {
        let i = b.len() as int;
        assert(gives(a, a[i].0, a[i].1)) by {
            assert(a[i] == (a[i].0, a[i].1));
        }
        let p = choose|p: int| 0 <= p < b.len() && #[trigger] b[p] == (a[i].0, a[i].1);
        assert(stands_before(a[p].0, a[i].0));
        lemma_one_stands_before(a[p].0, a[i].0);
    }
    assert(a =~= b);
}

proof fn lemma_alike_up_to(
    a: Seq<(Seq<char>, Seq<char>)>,
    b: Seq<(Seq<char>, Seq<char>)>,
    n: int,
)
    requires
        in_name_order(a),
        in_name_order(b),
        forall|m: Seq<char>, x: Seq<char>| #[trigger] gives(a, m, x) <==> gives(b, m, x),
        0 <= n <= a.len(),
        n <= b.len(),
    ensures
        forall|j: int| 0 <= j < n ==> a[j] == b[j],
    decreases n,
{
    if n > 0 {
        lemma_alike_up_to(a, b, n - 1);
        lemma_one_table(a, b, n - 1);
    }
}

} // verus!
