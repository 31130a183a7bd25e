//! Turning a pool's resolved items into the runtime that a pattern draws from.

use vstd::prelude::*;

use crate::catalog::{Answer, Catalog, Reply, TagNs};
use crate::config::{Advance, Constraints, GroupBy, Pool};
use crate::constrain::{
    arranged, arranging_is_a_permutation, ints, keys, order_constrained, upto, Arrangement,
    ItemKeys, Key, Limits, RepeatGap,
};
use crate::draw::{keys_of, PoolKeys, PoolModel, PoolRuntime, Series, SeriesModel};
use crate::fault::{Fault, ResolveError};
use crate::names::{
    contains_name, copy_names, entry_of, extend_names, first_index, has_name, lemma_entry_of,
    lookup, position_of, same_text, texts,
};
use crate::orders::{at_positions, completed, completing_keeps_every_item, is_selection};
use crate::resume::{GenerationState, PoolResume};
use crate::text::{signed_decimal, write_signed};

verus! {

/// The rule that forbids nothing.
pub open spec fn no_rule() -> Limits {
    Limits { no_repeat: RepeatGap::Positions(0), separate: 0 }
}

/// The `[constraints]` table that holds for a pool: its own, else that of its block.
pub open spec fn table_for(cfg: Pool, block: Option<Constraints>) -> Option<Constraints> {
    match cfg.constraints {
        Some(own) => Some(own),
        None => block,
    }
}

/// The adjacency rule of a pool.
pub open spec fn limits_for(cfg: Pool, block: Option<Constraints>) -> Limits {
    match table_for(cfg, block) {
        Some(table) => table.rule(),
        None => no_rule(),
    }
}

/// The field whose values a pool keeps apart.
pub open spec fn field_for(cfg: Pool, block: Option<Constraints>) -> Option<String> {
    match table_for(cfg, block) {
        Some(table) => table.separate_by,
        None => None,
    }
}

/// The namespace of tags that a `separate_by` field names.
pub open spec fn field_ns(field: Seq<char>) -> Option<TagNs> {
    if field == "genres"@ {
        Some(TagNs::Genre)
    } else if field == "labels"@ {
        Some(TagNs::Label)
    } else if field == "cast"@ {
        Some(TagNs::Cast)
    } else if field == "directors"@ {
        Some(TagNs::Director)
    } else if field == "writers"@ {
        Some(TagNs::Writer)
    } else if field == "producers"@ {
        Some(TagNs::Producer)
    } else if field == "countries"@ {
        Some(TagNs::Country)
    } else {
        None
    }
}

impl TagNs {
    /// The namespace of tags that a `separate_by` field names: the words that an expression
    /// uses for an item's tags.
    pub fn for_separate_by(field: &String) -> (out: Option<TagNs>)
        ensures
            out == field_ns(field@),
    {
        let f: &str = field.as_str();
        if same_text(f, "genres") {
            Some(TagNs::Genre)
        } else if same_text(f, "labels") {
            Some(TagNs::Label)
        } else if same_text(f, "cast") {
            Some(TagNs::Cast)
        } else if same_text(f, "directors") {
            Some(TagNs::Director)
        } else if same_text(f, "writers") {
            Some(TagNs::Writer)
        } else if same_text(f, "producers") {
            Some(TagNs::Producer)
        } else if same_text(f, "countries") {
            Some(TagNs::Country)
        } else {
            None
        }
    }
}

/// The items of a list that have a usable length, each once, with that length.
pub open spec fn known_lengths(catalog: Catalog, ids: Seq<String>) -> Seq<(String, u64)>
    decreases ids.len(),
{
    if ids.len() == 0 {
        Seq::empty()
    } else {
        let earlier = known_lengths(catalog, ids.drop_last());
        match (entry_of(earlier, ids.last()@), catalog.length(ids.last()@)) {
            (None, Some(ns)) => earlier.push((ids.last(), ns)),
            _ => earlier,
        }
    }
}

/// The sum of the lengths of a table.
pub open spec fn sum_lengths(table: Seq<(String, u64)>) -> int
    decreases table.len(),
{
    if table.len() == 0 {
        0
    } else {
        sum_lengths(table.drop_last()) + table.last().1
    }
}

/// The mean of the lengths of a table, rounded down; nothing when it is empty.
pub open spec fn mean_length(table: Seq<(String, u64)>) -> int {
    if table.len() == 0 {
        0
    } else {
        sum_lengths(table) / (table.len() as int)
    }
}

/// The mean of the lengths of a table, rounded down; nothing when it is empty.
pub fn mean_of(table: &Vec<(String, u64)>) -> (out: u64)
    ensures
        out == mean_length(table@),
{
    let n: usize = table.len();
    if n == 0 {
        return 0;
    }
    let mut sum: u128 = 0;
    let mut i: usize = 0;
    while i < n
        invariant
            n == table.len(),
            i <= n,
            sum == sum_lengths(table@.take(i as int)),
            sum <= i * 0xFFFF_FFFF_FFFF_FFFF,
        decreases n - i,
    {
        sum += table[i].1 as u128;
        i += 1;
        assert(table@.take(i as int).drop_last() =~= table@.take(i - 1));
    }
    assert(table@.take(i as int) =~= table@);
    let mean: u128 = sum / (n as u128);
    assert(mean <= 0xFFFF_FFFF_FFFF_FFFF) by (nonlinear_arith)
        requires
            mean == sum / (n as u128),
            n > 0,
            sum <= n * 0xFFFF_FFFF_FFFF_FFFF,
    ;
    mean as u64
}

/// Every usable length that a pool's items have on record, and the mean over them.
pub fn pool_runtimes(catalog: &Catalog, ids: &Vec<String>) -> (out: (Vec<(String, u64)>, u64))
    ensures
        out.0@ == known_lengths(*catalog, ids@),
        out.1 == mean_length(out.0@),
{
    let mut table: Vec<(String, u64)> = Vec::new();
    let mut i: usize = 0;
    while i < ids.len()
        invariant
            i <= ids.len(),
            table@ == known_lengths(*catalog, ids@.take(i as int)),
        decreases ids.len() - i,
    {
        if lookup(&table, &ids[i]).is_none() {
            match catalog.length_for(&ids[i]) {
                Some(ns) => table.push((ids[i].clone(), ns)),
                None => {},
            }
        }
        i += 1;
        assert(ids@.take(i as int).drop_last() =~= ids@.take(i - 1));
    }
    assert(ids@.take(i as int) =~= ids@);
    let mean: u64 = mean_of(&table);
    (table, mean)
}

/// What the adjacency rule compares of an item of a pool.
pub open spec fn pool_key(
    catalog: Catalog,
    ids: Seq<String>,
    ns: Option<TagNs>,
    durations: Seq<(String, u64)>,
    mean: int,
    id: Seq<char>,
) -> Key {
    Key {
        id,
        group: match ns {
            Some(ns) => if has_name(ids, id) {
                catalog.tags(id, ns)
            } else {
                Seq::empty()
            },
            None => Seq::empty(),
        },
        duration: match entry_of(durations, id) {
            Some(d) => d as nat,
            None => mean as nat,
        },
    }
}

/// The values of the field that a pool keeps apart, for each of its items.
pub fn pool_keys(
    catalog: &Catalog,
    ids: &Vec<String>,
    field: Option<&String>,
    pool: &String,
) -> (out: Result<PoolKeys, ResolveError>)
    ensures
        match (field, out) {
            (None, Ok(k)) => forall|id: Seq<char>| #[trigger]
                k.key(id) == pool_key(*catalog, ids@, None, Seq::empty(), 0, id),
            (None, Err(_)) => false,
            (Some(f), Ok(k)) => field_ns(f@) is Some && forall|id: Seq<char>| #[trigger]
                k.key(id) == pool_key(*catalog, ids@, field_ns(f@), Seq::empty(), 0, id),
            (Some(f), Err(e)) => field_ns(f@) is None && e@ == (Fault::PoolField {
                pool: *pool,
                field: *f,
            }),
        },
{
    let ns: TagNs = match field {
        None => {
            return Ok(PoolKeys { groups: Vec::new(), durations: Vec::new(), mean_duration: 0 });
        },
        Some(f) => match TagNs::for_separate_by(f) {
            Some(ns) => ns,
            None => {
                return Err(ResolveError::PoolField { pool: pool.clone(), field: f.clone() });
            },
        },
    };
    let mut groups: Vec<(String, Vec<String>)> = Vec::new();
    let mut i: usize = 0;
    while i < ids.len()
        invariant
            i <= ids.len(),
            groups.len() == i,
            forall|j: int|
                0 <= j < i ==> (#[trigger] groups@[j]).0 == ids@[j] && groups@[j].1@
                    == catalog.tags(ids@[j]@, ns),
        decreases ids.len() - i,
    {
        let values: Vec<String> = catalog.tags_for(&ids[i], ns);
        groups.push((ids[i].clone(), values));
        i += 1;
    }
    let out: PoolKeys = PoolKeys { groups, durations: Vec::new(), mean_duration: 0 };
    assert forall|id: Seq<char>| #[trigger]
        out.key(id) == pool_key(*catalog, ids@, Some(ns), Seq::empty(), 0, id) by {
        lemma_entry_of(out.groups@, id);
        if has_name(ids@, id) {
            let j = choose|j: int| 0 <= j < ids@.len() && #[trigger] ids@[j]@ == id;
            assert(out.groups@[j].0@ == id);
        } else if entry_of(out.groups@, id) is Some {
            let j = choose|j: int| 0 <= j < out.groups@.len() && #[trigger] out.groups@[j].0@ == id;
            assert(ids@[j]@ == id);
        }
    }
    Ok(out)
}

/// The part of what aired lately that a pool could have supplied.
pub open spec fn seam(tail: Seq<String>, ids: Seq<String>) -> Seq<String> {
    tail.filter(|id: String| has_name(ids, id@))
}

/// The part of what aired lately that a pool could have supplied.
pub fn seam_of(tail: &Vec<String>, ids: &Vec<String>) -> (out: Vec<String>)
    ensures
        out@ == seam(tail@, ids@),
{
    let ghost own = |id: String| has_name(ids@, id@);
    let mut out: Vec<String> = Vec::new();
    let mut i: usize = 0;
    assert(tail@.take(0).filter(own) =~= Seq::<String>::empty()) by {
        reveal(Seq::filter);
    }
    while i < tail.len()
        invariant
            i <= tail.len(),
            own == (|id: String| has_name(ids@, id@)),
            out@ == tail@.take(i as int).filter(own),
        decreases tail.len() - i,
    {
        if contains_name(ids, &tail[i]) {
            out.push(tail[i].clone());
        }
        i += 1;
        proof {
            assert(tail@.take(i as int).drop_last() =~= tail@.take(i - 1));
            reveal(Seq::filter);
        }
    }
    assert(tail@.take(i as int) =~= tail@);
    out
}

/// The same rule for each of `n` items.
pub open spec fn same_limits(limits: Limits, n: nat) -> Seq<Limits> {
    Seq::new(n, |i: int| limits)
}

/// A pool's list, ordered so that it keeps the pool's rule.
pub open spec fn constrained(
    limits: Limits,
    key: spec_fn(Seq<char>) -> Key,
    seam: Seq<String>,
    ids: Seq<String>,
) -> Seq<String> {
    if limits.free() || ids.len() == 0 {
        ids
    } else {
        at_positions(
            ids,
            arranged(
                keys_of(key, ids),
                same_limits(limits, ids.len()),
                upto(ids.len()),
                keys_of(key, seam),
            ),
        )
    }
}

/// What an arrangement of the first `n` positions holds: each of them once.
pub proof fn lemma_arranged_range(
    items: Seq<Key>,
    limits: Seq<Limits>,
    n: nat,
    placed: Seq<Key>,
)
    ensures
        arranged(items, limits, upto(n), placed).len() == n,
        arranged(items, limits, upto(n), placed).no_duplicates(),
        forall|j: int|
            0 <= j < n ==> 0 <= #[trigger] arranged(items, limits, upto(n), placed)[j] < n,
{
    broadcast use vstd::seq_lib::group_to_multiset_ensures;

    let order = arranged(items, limits, upto(n), placed);
    arranging_is_a_permutation(items, limits, upto(n), placed);
    assert forall|j: int| 0 <= j < n implies 0 <= #[trigger] order[j] < n by {
        assert(order.to_multiset().contains(order[j]));
        assert(upto(n).contains(order[j]));
    }
    assert(upto(n).no_duplicates());
    upto(n).lemma_multiset_has_no_duplicates();
    order.lemma_multiset_has_no_duplicates_conv();
}

/// Orders a pool's list so that it keeps the pool's rule, as far as that goes. A pool
/// without a rule is left as it is.
pub fn constrain_pool(
    limits: Limits,
    pool: &PoolKeys,
    seam: &Vec<String>,
    ids: Vec<String>,
) -> (out: Vec<String>)
    ensures
        out@ == constrained(limits, pool@, seam@, ids@),
{
    if limits.is_unconstrained() || ids.len() == 0 {
        return ids;
    }
    let items: Vec<ItemKeys> = pool.many(&ids);
    let preceding: Vec<ItemKeys> = pool.many(seam);
    let mut rules: Vec<Limits> = Vec::new();
    while rules.len() < ids.len()
        invariant
            rules.len() <= ids.len(),
            rules@ =~= same_limits(limits, rules@.len()),
        decreases ids.len() - rules.len(),
    {
        rules.push(limits);
    }
    proof {
        assert(items.len() == ids.len()) by {
            assert(keys(items@).len() == keys_of(pool@, ids@).len());
        }
        lemma_arranged_range(keys(items@), rules@, ids@.len(), keys(preceding@));
    }
    let result: Arrangement = order_constrained(&items, &rules, &preceding);
    let mut out: Vec<String> = Vec::new();
    let mut i: usize = 0;
    while i < result.order.len()
        invariant
            i <= result.order.len(),
            ints(result.order@).len() == ids.len(),
            forall|j: int| 0 <= j < ids.len() ==> 0 <= #[trigger] ints(result.order@)[j] < ids.len(),
            out@ =~= at_positions(ids@, ints(result.order@).take(i as int)),
        decreases result.order.len() - i,
    {
        let at: usize = result.order[i];
        assert(ints(result.order@)[i as int] == at);
        out.push(ids[at].clone());
        i += 1;
    }
    assert(ints(result.order@).take(i as int) =~= ints(result.order@));
    out
}

/// What an item's airings are filed under: its show, or the item itself when it has none.
pub open spec fn show_key(catalog: Catalog, id: Seq<char>) -> Seq<char> {
    match catalog.show_id(id) {
        Some(show) => show@,
        None => id,
    }
}

/// What the series of an item is called: its show, cut by season where the pool asks for
/// that and the catalog knows the season.
pub open spec fn series_key(catalog: Catalog, by: GroupBy, id: Seq<char>) -> Seq<char> {
    match (by, catalog.season(id)) {
        (GroupBy::Season, Some(season)) => show_key(catalog, id) + "|S"@ + signed_decimal(
            season as int,
        ),
        _ => show_key(catalog, id),
    }
}

/// Where the first series of a name stands.
pub open spec fn find_series(series: Seq<SeriesModel>, key: Seq<char>) -> Option<int>
    decreases series.len(),
{
    if series.len() == 0 {
        None
    } else {
        match find_series(series.drop_last(), key) {
            Some(i) => Some(i),
            None => if series.last().key == key {
                Some(series.len() - 1)
            } else {
                None
            },
        }
    }
}

pub(crate) proof fn lemma_find_series(series: Seq<SeriesModel>, key: Seq<char>)
    ensures
        find_series(series, key) matches Some(i) ==> 0 <= i < series.len() && series[i].key == key
            && forall|j: int| 0 <= j < i ==> (#[trigger] series[j]).key != key,
        find_series(series, key) is None ==> forall|j: int|
            0 <= j < series.len() ==> (#[trigger] series[j]).key != key,
    decreases series.len(),
{
    if series.len() > 0 {
        let shorter = series.drop_last();
        lemma_find_series(shorter, key);
        assert forall|j: int| 0 <= j < shorter.len() implies series[j] == shorter[j] by {}
    }
}

proof fn lemma_find_series_is(series: Seq<SeriesModel>, key: Seq<char>, i: int)
    requires
        0 <= i < series.len(),
        series[i].key == key,
        forall|j: int| 0 <= j < i ==> (#[trigger] series[j]).key != key,
    ensures
        find_series(series, key) == Some(i),
{
    lemma_find_series(series, key);
    if find_series(series, key) is None {
        assert(series[i].key != key);
    } else {
        let k = find_series(series, key)->0;
        if k < i {
            assert(series[k].key != key);
        }
        if i < k {
            assert(series[i].key != key);
        }
    }
}

/// The series as mathematical values.
pub open spec fn models(series: Seq<Series>) -> Seq<SeriesModel> {
    series.map_values(|s: Series| s@)
}

/// Where the first series of a name stands.
fn position_of_series(series: &Vec<Series>, key: &String) -> (out: Option<usize>)
    ensures
        out is Some <==> find_series(models(series@), key@) is Some,
        out matches Some(i) ==> find_series(models(series@), key@) == Some(i as int) && i
            < series.len(),
{
    let mut i: usize = 0;
    while i < series.len()
        invariant
            i <= series.len(),
            forall|j: int| 0 <= j < i ==> (#[trigger] models(series@)[j]).key != key@,
        decreases series.len() - i,
    {
        assert(models(series@)[i as int] == series@[i as int]@);
        if series[i].key == *key {
            proof {
                lemma_find_series_is(models(series@), key@, i as int);
            }
            return Some(i);
        }
        i += 1;
    }
    proof {
        lemma_find_series(models(series@), key@);
    }
    None
}

/// A list of items grouped into series, in order of first appearance.
pub open spec fn grouped(catalog: Catalog, by: GroupBy, ids: Seq<String>) -> Seq<SeriesModel>
    decreases ids.len(),
{
    if ids.len() == 0 {
        Seq::empty()
    } else {
        let earlier = grouped(catalog, by, ids.drop_last());
        let id = ids.last();
        let key = series_key(catalog, by, id@);
        match find_series(earlier, key) {
            Some(i) => earlier.update(
                i,
                SeriesModel { ids: earlier[i].ids.push(id), ..earlier[i] },
            ),
            None => earlier.push(
                SeriesModel { key, show_key: show_key(catalog, id@), ids: seq![id], cursor: 0 },
            ),
        }
    }
}

/// Every series of a grouped list is well formed and stands at its top.
pub proof fn grouping_is_well_formed(catalog: Catalog, by: GroupBy, ids: Seq<String>)
    ensures
        forall|i: int|
            0 <= i < grouped(catalog, by, ids).len() ==> (#[trigger] grouped(
                catalog,
                by,
                ids,
            )[i]).wf() && grouped(catalog, by, ids)[i].cursor == 0,
        grouped(catalog, by, ids).len() <= ids.len(),
        ids.len() > 0 ==> grouped(catalog, by, ids).len() > 0,
    decreases ids.len(),
{
    if ids.len() > 0 {
        grouping_is_well_formed(catalog, by, ids.drop_last());
        let earlier = grouped(catalog, by, ids.drop_last());
        lemma_find_series(earlier, series_key(catalog, by, ids.last()@));
        let all = grouped(catalog, by, ids);
        assert forall|i: int| 0 <= i < all.len() implies (#[trigger] all[i]).wf() && all[i].cursor
            == 0 by {
            if i < earlier.len() {
                assert(earlier[i].wf());
            }
        }
    }
}

/// Groups a list of items into series, in order of first appearance, so that the pool's
/// order fixes the rotation too.
pub fn group_series(catalog: &Catalog, by: GroupBy, ids: &Vec<String>) -> (out: Vec<Series>)
    ensures
        models(out@) == grouped(*catalog, by, ids@),
{
    let mut out: Vec<Series> = Vec::new();
    let mut i: usize = 0;
    assert(models(out@) =~= grouped(*catalog, by, ids@.take(0)));
    while i < ids.len()
        invariant
            i <= ids.len(),
            models(out@) == grouped(*catalog, by, ids@.take(i as int)),
        decreases ids.len() - i,
    {
        let ghost earlier = models(out@);
        let id: String = ids[i].clone();
        let show: String = match catalog.show_id_for(&id) {
            Some(show) => show,
            None => id.clone(),
        };
        let mut key: String = show.clone();
        if by == GroupBy::Season {
            match catalog.season_for(&id) {
                Some(season) => {
                    key.append("|S");
                    key.append(write_signed(season).as_str());
                },
                None => {},
            }
        }
        assert(key@ == series_key(*catalog, by, id@));
        i += 1;
        assert(ids@.take(i as int).drop_last() =~= ids@.take(i - 1));
        match position_of_series(&out, &key) {
            Some(at) => {
                out[at].ids.push(id);
                assert(models(out@) =~= grouped(*catalog, by, ids@.take(i as int)));
            },
            None => {
                let mut first: Vec<String> = Vec::new();
                first.push(id);
                assert(first@ =~= seq![id]);
                out.push(Series { key, show_key: show, ids: first, cursor: 0 });
                assert(models(out@) =~= grouped(*catalog, by, ids@.take(i as int)));
            },
        }
    }
    assert(ids@.take(i as int) =~= ids@);
    out
}

/// The items of all series, one series after the other.
pub open spec fn flat(series: Seq<SeriesModel>) -> Seq<String>
    decreases series.len(),
{
    if series.len() == 0 {
        Seq::empty()
    } else {
        flat(series.drop_last()) + series.last().ids
    }
}

/// The items of all series, one series after the other.
pub fn flatten_series(series: &Vec<Series>) -> (out: Vec<String>)
    ensures
        out@ == flat(models(series@)),
{
    let mut out: Vec<String> = Vec::new();
    let mut i: usize = 0;
    assert(models(series@).take(0) =~= Seq::<SeriesModel>::empty());
    while i < series.len()
        invariant
            i <= series.len(),
            out@ == flat(models(series@).take(i as int)),
        decreases series.len() - i,
    {
        extend_names(&mut out, &series[i].ids);
        i += 1;
        assert(models(series@).take(i as int).drop_last() =~= models(series@).take(i - 1));
        assert(models(series@).take(i as int).last() == series@[i - 1]@);
    }
    assert(models(series@).take(i as int) =~= models(series@));
    out
}

/// The first series that holds an item, from series `i` on.
pub open spec fn owner_of(series: Seq<SeriesModel>, id: Seq<char>, i: int) -> Option<int>
    decreases series.len() - i,
{
    if i >= series.len() {
        None
    } else if has_name(series[i].ids, id) {
        Some(i)
    } else {
        owner_of(series, id, i + 1)
    }
}

/// The series in the order in which their first items come in `ordered`; then, as they
/// stood, the series of which no item comes there.
pub open spec fn sequence(series: Seq<SeriesModel>, ordered: Seq<String>) -> Seq<int>
    decreases ordered.len(),
{
    if ordered.len() == 0 {
        Seq::empty()
    } else {
        let earlier = sequence(series, ordered.drop_last());
        match owner_of(series, ordered.last()@, 0) {
            Some(i) => if earlier.contains(i) {
                earlier
            } else {
                earlier.push(i)
            },
            None => earlier,
        }
    }
}

/// The series of a pool in the order that `ordered` puts their items in.
pub open spec fn resequenced(series: Seq<SeriesModel>, ordered: Seq<String>) -> Seq<SeriesModel> {
    at_positions(series, completed(sequence(series, ordered), series.len() as int))
}

proof fn lemma_owner_of(series: Seq<SeriesModel>, id: Seq<char>, i: int)
    requires
        0 <= i,
    ensures
        owner_of(series, id, i) matches Some(k) ==> i <= k < series.len() && has_name(
            series[k].ids,
            id,
        ),
    decreases series.len() - i,
{
    if i < series.len() {
        lemma_owner_of(series, id, i + 1);
    }
}

proof fn lemma_sequence(series: Seq<SeriesModel>, ordered: Seq<String>)
    ensures
        is_selection(sequence(series, ordered), series.len() as int),
    decreases ordered.len(),
{
    if ordered.len() > 0 {
        lemma_sequence(series, ordered.drop_last());
        lemma_owner_of(series, ordered.last()@, 0);
    }
}

/// Putting series in another order loses none of them and repeats none of them: every
/// position holds a series of the pool, and every series stands at exactly one position.
pub proof fn resequencing_keeps_every_series(series: Seq<SeriesModel>, ordered: Seq<String>)
    ensures
        ({
            let places = completed(sequence(series, ordered), series.len() as int);
            &&& is_selection(places, series.len() as int)
            &&& places.len() == series.len()
            &&& forall|i: int| 0 <= i < series.len() ==> #[trigger] places.contains(i)
        }),
{
    lemma_sequence(series, ordered);
    completing_keeps_every_item(sequence(series, ordered), series.len());
}

impl Series {
    /// The same series again.
    pub fn copy(&self) -> (out: Series)
        ensures
            out@ == self@,
    {
        Series {
            key: self.key.clone(),
            show_key: self.show_key.clone(),
            ids: copy_names(&self.ids),
            cursor: self.cursor,
        }
    }
}

fn find_owner(series: &Vec<Series>, id: &String) -> (out: Option<usize>)
    ensures
        out is Some <==> owner_of(models(series@), id@, 0) is Some,
        out matches Some(i) ==> owner_of(models(series@), id@, 0) == Some(i as int) && i
            < series.len(),
{
    let mut i: usize = 0;
    while i < series.len()
        invariant
            i <= series.len(),
            owner_of(models(series@), id@, 0) == owner_of(models(series@), id@, i as int),
        decreases series.len() - i,
    {
        assert(models(series@)[i as int] == series@[i as int]@);
        if contains_name(&series[i].ids, id) {
            return Some(i);
        }
        i += 1;
    }
    None
}

/// Puts the series of a pool in the order in which `ordered` puts their items. A series of
/// which no item is there is kept, at the back.
pub fn resequence(series: &Vec<Series>, ordered: &Vec<String>) -> (out: Vec<Series>)
    ensures
        models(out@) == resequenced(models(series@), ordered@),
{
    let ghost all = models(series@);
    let n: usize = series.len();
    let mut placed: Vec<bool> = Vec::new();
    while placed.len() < n
        invariant
            placed.len() <= n,
            forall|j: int| 0 <= j < placed.len() ==> !#[trigger] placed@[j],
        decreases n - placed.len(),
    {
        placed.push(false);
    }
    let mut out: Vec<Series> = Vec::new();
    let ghost mut places: Seq<int> = Seq::empty();
    let mut i: usize = 0;
    assert(sequence(all, ordered@.take(0)) =~= places);
    while i < ordered.len()
        invariant
            i <= ordered.len(),
            all == models(series@),
            n == series.len(),
            placed.len() == n,
            places == sequence(all, ordered@.take(i as int)),
            forall|j: int| 0 <= j < n ==> (#[trigger] placed@[j] <==> places.contains(j)),
            models(out@) =~= at_positions(all, places),
        decreases ordered.len() - i,
    {
        let owner: Option<usize> = find_owner(series, &ordered[i]);
        i += 1;
        assert(ordered@.take(i as int).drop_last() =~= ordered@.take(i - 1));
        match owner {
            Some(at) => {
                if !placed[at] {
                    placed.set(at, true);
                    let ghost made = models(out@);
                    out.push(series[at].copy());
                    assert(models(out@) =~= made.push(all[at as int]));
                    proof {
                        let before = places;
                        places = places.push(at as int);
                        assert forall|j: int| 0 <= j < n implies (#[trigger] placed@[j]
                            <==> places.contains(j)) by {
                            if j == at {
                                assert(places[places.len() - 1] == j);
                            } else if before.contains(j) {
                                let k = choose|k: int| 0 <= k < before.len() && before[k] == j;
                                assert(places[k] == j);
                            } else if places.contains(j) {
                                let k = choose|k: int| 0 <= k < places.len() && places[k] == j;
                                assert(before[k] == j);
                            }
                        }
                    }
                }
            },
            None => {},
        }
    }
    assert(ordered@.take(i as int) =~= ordered@);
    let ghost front = places;
    let mut k: usize = 0;
    while k < n
        invariant
            k <= n,
            n == series.len(),
            all == models(series@),
            placed.len() == n,
            places == completed(front, k as int),
            forall|j: int| 0 <= j < n ==> (#[trigger] placed@[j] <==> front.contains(j)),
            models(out@) =~= at_positions(all, places),
        decreases n - k,
    {
        if !placed[k] {
            let ghost made = models(out@);
            out.push(series[k].copy());
            assert(models(out@) =~= made.push(all[k as int]));
            proof {
                places = places.push(k as int);
            }
        }
        k += 1;
    }
    out
}

/// A pool's series and the rule they are drawn under.
#[derive(Debug)]
pub struct PoolSeries {
    pub series: Vec<Series>,
    pub limits: Limits,
    pub keys: PoolKeys,
    pub durations: Vec<(String, u64)>,
    pub mean: u64,
}

/// A pool's series and the rule they are drawn under, as mathematical values.
#[verifier::ext_equal]
pub struct Settled {
    pub series: Seq<SeriesModel>,
    pub limits: Limits,
    pub keys: spec_fn(Seq<char>) -> Key,
    pub durations: Seq<(String, u64)>,
    pub mean: u64,
}

impl View for PoolSeries {
    type V = Settled;

    open spec fn view(&self) -> Settled {
        Settled {
            series: models(self.series@),
            limits: self.limits,
            keys: self.keys@,
            durations: self.durations@,
            mean: self.mean,
        }
    }
}

/// Whether a pool's lengths are looked up: where something bounds the walk by airtime, or
/// the rule is measured in time.
pub open spec fn wants_lengths(limits: Limits, want_runtimes: bool) -> bool {
    want_runtimes || limits.no_repeat is Duration
}

/// The lengths that a pool is drawn with.
pub open spec fn lengths_for(catalog: Catalog, ids: Seq<String>, wanted: bool) -> Seq<(String, u64)> {
    if wanted {
        known_lengths(catalog, ids)
    } else {
        Seq::empty()
    }
}

/// The series of a pool, in the order of its rotation.
pub open spec fn ordered_series(catalog: Catalog, cfg: Pool, list: Seq<String>) -> Result<
    Seq<SeriesModel>,
    Fault,
> {
    let series = grouped(catalog, cfg.group_by, list);
    match cfg.bucket_order {
        None => Ok(series),
        Some(order) => match catalog.order_answer(texts(flat(series)), order@, 0) {
            Answer::Unasked => Err(
                Fault::UnansweredOrder { ids: texts(flat(series)), order: order@, seed: 0 },
            ),
            Answer::Failed(why) => Err(Fault::BucketOrder { pool: cfg.name, why }),
            Answer::Items(ordered) => Ok(resequenced(series, ordered)),
        },
    }
}

/// The series of a pool and the rule they are drawn under.
pub open spec fn settled(
    catalog: Catalog,
    cfg: Pool,
    ids: Seq<String>,
    block: Option<Constraints>,
    seam: Seq<String>,
    want_runtimes: bool,
) -> Result<Settled, Fault> {
    let limits = limits_for(cfg, block);
    let field = field_for(cfg, block);
    let ns = match field {
        Some(f) => field_ns(f@),
        None => None,
    };
    if field is Some && ns is None {
        Err(Fault::PoolField { pool: cfg.name, field: field->0 })
    } else {
        let durations = lengths_for(catalog, ids, wants_lengths(limits, want_runtimes));
        let mean = mean_length(durations) as u64;
        let keys = |id: Seq<char>| pool_key(catalog, ids, ns, durations, mean as int, id);
        match ordered_series(catalog, cfg, constrained(limits, keys, seam, ids)) {
            Ok(series) => Ok(Settled { series, limits, keys, durations, mean }),
            Err(fault) => Err(fault),
        }
    }
}

/// Settles a pool's series: orders its list under its rule, groups it, and puts the series
/// in their order.
pub fn resolve_pool_series(
    catalog: &Catalog,
    cfg: &Pool,
    ids: Vec<String>,
    block: Option<&Constraints>,
    seam: &Vec<String>,
    want_runtimes: bool,
) -> (out: Result<PoolSeries, ResolveError>)
    ensures
        match (out, settled(
            *catalog,
            *cfg,
            ids@,
            match block {
                Some(b) => Some(*b),
                None => None,
            },
            seam@,
            want_runtimes,
        )) {
            (Ok(got), Ok(want)) => got@ == want,
            (Err(got), Err(want)) => got@ == want,
            _ => false,
        },
{
    let table: Option<&Constraints> = match &cfg.constraints {
        Some(own) => Some(own),
        None => block,
    };
    let limits: Limits = match table {
        Some(t) => t.limits(),
        None => Limits { no_repeat: RepeatGap::Positions(0), separate: 0 },
    };
    let field: Option<&String> = match table {
        Some(t) => match &t.separate_by {
            Some(f) => Some(f),
            None => None,
        },
        None => None,
    };
    let timed: bool = match limits.no_repeat {
        RepeatGap::Duration(_) => true,
        RepeatGap::Positions(_) => false,
    };
    let (durations, mean): (Vec<(String, u64)>, u64) = if want_runtimes || timed {
        pool_runtimes(catalog, &ids)
    } else {
        (Vec::new(), 0)
    };
    let mut keys: PoolKeys = match pool_keys(catalog, &ids, field, &cfg.name) {
        Ok(k) => k,
        Err(e) => return Err(e),
    };
    let ghost bare = keys;
    let ghost ns = match field {
        Some(f) => field_ns(f@),
        None => None,
    };
    keys.durations = copy_lengths(&durations);
    keys.mean_duration = mean;
    let ghost key = |id: Seq<char>|
        pool_key(*catalog, ids@, ns, durations@, mean as int, id);
    assert forall|id: Seq<char>| #[trigger] keys.key(id) == key(id) by {
        assert(bare.key(id) == pool_key(*catalog, ids@, ns, Seq::empty(), 0, id));
    }
    assert(keys@ =~= key);
    let list: Vec<String> = constrain_pool(limits, &keys, seam, ids);
    let mut series: Vec<Series> = group_series(catalog, cfg.group_by, &list);
    match &cfg.bucket_order {
        Some(order) => {
            let all: Vec<String> = flatten_series(&series);
            match catalog.resolve_order(&all, order, 0) {
                None => {
                    return Err(
                        ResolveError::UnansweredOrder { ids: all, order: order.copy(), seed: 0 },
                    );
                },
                Some(Reply::Failed(why)) => {
                    return Err(ResolveError::BucketOrder { pool: cfg.name.clone(), why });
                },
                Some(Reply::Items(ordered)) => {
                    series = resequence(&series, &ordered);
                },
            }
        },
        None => {},
    }
    Ok(PoolSeries { series, limits, keys, durations, mean })
}

/// A copy of a table of lengths.
fn copy_lengths(table: &Vec<(String, u64)>) -> (out: Vec<(String, u64)>)
    ensures
        out@ == table@,
{
    let mut out: Vec<(String, u64)> = Vec::new();
    let mut i: usize = 0;
    while i < table.len()
        invariant
            i <= table.len(),
            out@ =~= table@.take(i as int),
        decreases table.len() - i,
    {
        out.push((table[i].0.clone(), table[i].1));
        i += 1;
    }
    assert(table@.take(i as int) =~= table@);
    out
}

/// The series that continues after the item its show played last; a series that does not
/// hold that item, or whose show never played, starts at its top.
pub open spec fn continued(s: SeriesModel, cursor: Seq<(String, String)>) -> SeriesModel {
    match entry_of(cursor, s.show_key) {
        None => s,
        Some(last) => match first_index(s.ids, last@) {
            None => s,
            Some(at) => SeriesModel {
                cursor: if at + 1 >= s.ids.len() {
                    0
                } else {
                    at + 1
                },
                ..s
            },
        },
    }
}

/// Where a rotation that continues stands: on the series whose turn was next.
pub open spec fn turn_of(
    series: Seq<SeriesModel>,
    pools: Seq<(String, PoolResume)>,
    pool: Seq<char>,
) -> int {
    match entry_of(pools, pool) {
        Some(PoolResume { next: Some(key) }) => match find_series(series, key@) {
            Some(at) => at,
            None => 0,
        },
        _ => 0,
    }
}

/// A pool ready to be drawn from.
pub open spec fn ready(
    catalog: Catalog,
    cfg: Pool,
    ids: Seq<String>,
    block: Option<Constraints>,
    state: GenerationState,
    want_runtimes: bool,
) -> Result<PoolModel, Fault> {
    let seam = seam(state.tail@, ids);
    match settled(catalog, cfg, ids, block, seam, want_runtimes) {
        Err(fault) => Err(fault),
        Ok(s) => {
            let resumes = cfg.advance == Advance::Resume;
            let series = if resumes {
                s.series.map_values(|m: SeriesModel| continued(m, state.cursor@))
            } else {
                s.series
            };
            let pool = PoolModel {
                cfg,
                series,
                rotation: if resumes {
                    turn_of(series, state.resume.pools@, cfg.name@)
                } else {
                    0
                },
                limits: s.limits,
                keys: s.keys,
                recent: Seq::empty(),
                forced: 0,
                runtimes: s.durations,
                mean_runtime: s.mean,
            };
            Ok(pool.remembering(seam))
        },
    }
}

/// Whether every series of a list is well formed.
pub open spec fn all_wf(series: Seq<SeriesModel>) -> bool {
    forall|i: int| 0 <= i < series.len() ==> (#[trigger] series[i]).wf()
}

proof fn lemma_ordered_series_wf(catalog: Catalog, cfg: Pool, list: Seq<String>)
    ensures
        ordered_series(catalog, cfg, list) matches Ok(series) ==> all_wf(series),
{
    grouping_is_well_formed(catalog, cfg.group_by, list);
    let series = grouped(catalog, cfg.group_by, list);
    assert forall|ordered: Seq<String>| all_wf(#[trigger] resequenced(series, ordered)) by {
        resequencing_keeps_every_series(series, ordered);
        let places = completed(sequence(series, ordered), series.len() as int);
        assert forall|i: int| 0 <= i < resequenced(series, ordered).len() implies (
        #[trigger] resequenced(series, ordered)[i]).wf() by {
            assert(0 <= places[i] < series.len());
        }
    }
}

fn continue_series(s: &mut Series, cursor: &Vec<(String, String)>)
    requires
        old(s)@.wf(),
    ensures
        final(s)@ == continued(old(s)@, cursor@),
        final(s)@.wf(),
{
    match lookup(cursor, &s.show_key) {
        Some(last) => match position_of(&s.ids, last) {
            Some(at) => {
                s.cursor = if at + 1 >= s.ids.len() {
                    0
                } else {
                    at + 1
                };
            },
            None => {},
        },
        None => {},
    }
}

/// Makes a pool ready to be drawn from: settles its series, seeds what the rule looks back
/// at from what aired lately, and, where the pool continues, seats each series after the
/// item its show played last and the rotation on the series whose turn was next.
pub fn pool_runtime<'a>(
    catalog: &Catalog,
    cfg: &'a Pool,
    ids: Vec<String>,
    block: Option<&Constraints>,
    state: &GenerationState,
    want_runtimes: bool,
) -> (out: Result<PoolRuntime<'a>, ResolveError>)
    ensures
        match (out, ready(
            *catalog,
            *cfg,
            ids@,
            match block {
                Some(b) => Some(*b),
                None => None,
            },
            *state,
            want_runtimes,
        )) {
            (Ok(got), Ok(want)) => got@ == want && got@.wf(),
            (Err(got), Err(want)) => got@ == want,
            _ => false,
        },
{
    let ghost all = ids@;
    let ghost held = match block {
        Some(b) => Some(*b),
        None => None,
    };
    let seam: Vec<String> = seam_of(&state.tail, &ids);
    let settled: PoolSeries = match resolve_pool_series(
        catalog,
        cfg,
        ids,
        block,
        &seam,
        want_runtimes,
    ) {
        Ok(s) => s,
        Err(e) => return Err(e),
    };
    let ghost found = settled@;
    let ghost keys = settled.keys@;
    proof {
        lemma_ordered_series_wf(
            *catalog,
            *cfg,
            constrained(found.limits, keys, seam@, all),
        );
        assert(all_wf(found.series));
    }
    let mut series: Vec<Series> = settled.series;
    let mut rotation: usize = 0;
    if cfg.advance == Advance::Resume {
        let ghost top = models(series@);
        let mut i: usize = 0;
        while i < series.len()
            invariant
                i <= series.len(),
                series.len() == top.len(),
                all_wf(top),
                forall|j: int|
                    0 <= j < i ==> (#[trigger] models(series@)[j]) == continued(
                        top[j],
                        state.cursor@,
                    ) && models(series@)[j].wf(),
                forall|j: int| i <= j < top.len() ==> (#[trigger] models(series@)[j]) == top[j],
            decreases series.len() - i,
        {
            assert(models(series@)[i as int] == series@[i as int]@);
            let ghost before = series@;
            continue_series(&mut series[i], &state.cursor);
            assert forall|j: int| 0 <= j < series.len() && j != i implies series@[j] == before[j] by {}
            assert forall|j: int| 0 <= j < series.len() && j != i implies #[trigger] models(
                series@,
            )[j] == models(before)[j] by {}
            i += 1;
        }
        assert(models(series@) =~= top.map_values(|m: SeriesModel| continued(m, state.cursor@)));
        match state.resume.pool(&cfg.name) {
            Some(pool) => match &pool.next {
                Some(key) => match position_of_series(&series, key) {
                    Some(at) => {
                        rotation = at;
                    },
                    None => {},
                },
                None => {},
            },
            None => {},
        }
    }
    let mut rt: PoolRuntime<'a> = PoolRuntime {
        cfg,
        series,
        rotation,
        limits: settled.limits,
        keys: settled.keys,
        recent: Vec::new(),
        forced: 0,
        runtimes: settled.durations,
        mean_runtime: settled.mean,
    };
    proof {
        assert(rt@.recent =~= Seq::<Key>::empty());
        assert(rt@.series =~= models(series@));
        assert(all_wf(models(series@)));
        assert(rt@.wf());
    }
    rt.remember(&seam);
    Ok(rt)
}

proof fn lemma_flat_update(series: Seq<SeriesModel>, i: int, id: String)
    requires
        0 <= i < series.len(),
    ensures
        flat(
            series.update(i, SeriesModel { ids: series[i].ids.push(id), ..series[i] }),
        ).to_multiset() == flat(series).to_multiset().insert(id),
    decreases series.len(),
{
    broadcast use vstd::seq_lib::group_to_multiset_ensures;

    let longer = series.update(i, SeriesModel { ids: series[i].ids.push(id), ..series[i] });
    if i == series.len() - 1 {
        assert(longer.drop_last() =~= series.drop_last());
        assert(flat(longer) =~= flat(series).push(id));
    } else {
        lemma_flat_update(series.drop_last(), i, id);
        let shorter = series.drop_last().update(
            i,
            SeriesModel { ids: series[i].ids.push(id), ..series[i] },
        );
        assert(longer.drop_last() =~= shorter);
        assert(longer.last() == series.last());
        vstd::seq_lib::lemma_multiset_commutative(flat(shorter), series.last().ids);
        vstd::seq_lib::lemma_multiset_commutative(flat(series.drop_last()), series.last().ids);
        assert(flat(longer).to_multiset() =~= flat(series).to_multiset().insert(id));
    }
}

/// Grouping a list into series loses no item and plays none twice: the series hold exactly the
/// items of the list.
pub proof fn grouping_keeps_every_item(catalog: Catalog, by: GroupBy, ids: Seq<String>)
    ensures
        flat(grouped(catalog, by, ids)).to_multiset() == ids.to_multiset(),
    decreases ids.len(),
{
    broadcast use vstd::seq_lib::group_to_multiset_ensures;

    if ids.len() > 0 {
        let shorter = ids.drop_last();
        let id = ids.last();
        grouping_keeps_every_item(catalog, by, shorter);
        let earlier = grouped(catalog, by, shorter);
        let key = series_key(catalog, by, id@);
        lemma_find_series(earlier, key);
        assert(ids =~= shorter.push(id));
        match find_series(earlier, key) {
            Some(i) => {
                lemma_flat_update(earlier, i, id);
            },
            None => {
                let one = SeriesModel {
                    key,
                    show_key: show_key(catalog, id@),
                    ids: seq![id],
                    cursor: 0,
                };
                assert(earlier.push(one).drop_last() =~= earlier);
                assert(flat(earlier.push(one)) =~= flat(earlier).push(id));
            },
        }
    } else {
        assert(flat(grouped(catalog, by, ids)) =~= ids);
    }
}

} // verus!
