//! What holds of the rules that keep items apart: what is compared of an item, what a rule
//! forbids, and what stands in a list where a rule could not be kept.

use vstd::prelude::*;

use crate::catalog::{Catalog, TagNs};
use crate::channel::{
    all_keys, block_field, block_rule, first_field, laid, separated, windowed, Laid, Windowed,
};
use crate::config::{Constraints, NoRepeatWithin};
use crate::constrain::{
    arranged, clashes, clashes_at, elapsed, first_fit, item_clashes, next_up, upto, Key, Limits,
    RepeatGap,
};
use crate::fault::{ConfigFault, ErrorKind, Fault};
use crate::item::{item_ids, ItemModel};
use crate::names::{has_name, texts};
use crate::orders::at_positions;
use crate::pool::{field_ns, pool_key};
use crate::resolve::{block_items, BlockInclude, ChannelConfig, Inputs};
use crate::score::item_fields;
use crate::script::field_of;
use crate::shown::{a_word_names_one_kind_of_tag, reads_texts};

verus! {

/// Whether two lists of values have one in common.
pub open spec fn in_common(a: Seq<String>, b: Seq<String>) -> bool {
    exists|i: int, j: int|
        #![trigger a[i], b[j]]
        0 <= i < a.len() && 0 <= j < b.len() && a[i]@ == b[j]@
}

/// How long some items run, one after the other.
pub open spec fn airtime(recent: Seq<Key>) -> int
    decreases recent.len(),
{
    if recent.len() == 0 {
        0
    } else {
        airtime(recent.drop_last()) + recent.last().duration
    }
}

/// Whether item `i` of what came lately is too near for an item of that identity and with
/// those values to come next.
pub open spec fn too_near(
    recent: Seq<Key>,
    i: int,
    id: Seq<char>,
    group: Seq<String>,
    limits: Limits,
) -> bool {
    ||| recent[i].id == id && match limits.no_repeat {
        RepeatGap::Positions(n) => recent.len() - i <= n,
        RepeatGap::Duration(d) => airtime(recent.skip(i)) < d,
    }
    ||| in_common(recent[i].group, group) && recent.len() - i <= limits.separate
}

proof fn lemma_airtime_first(recent: Seq<Key>)
    requires
        recent.len() > 0,
    ensures
        airtime(recent) == recent[0].duration + airtime(recent.skip(1)),
    decreases recent.len(),
{
    if recent.len() == 1 {
        assert(airtime(recent.drop_last()) == 0);
        assert(airtime(recent.skip(1)) == 0);
    } else {
        lemma_airtime_first(recent.drop_last());
        assert(recent.drop_last().skip(1) =~= recent.skip(1).drop_last());
        assert(recent.skip(1).last() == recent.last());
    }
}

proof fn lemma_airtime(recent: Seq<Key>, i: int)
    requires
        0 <= i <= recent.len(),
    ensures
        elapsed(recent, i) == airtime(recent.skip(i)),
    decreases recent.len() - i,
{
    if i < recent.len() {
        lemma_airtime(recent, i + 1);
        lemma_airtime_first(recent.skip(i));
        assert(recent.skip(i).skip(1) =~= recent.skip(i + 1));
    }
}

/// A rule forbids an item where the same item stands too few positions back, or started too
/// short a time ago; and where an item that shares a value with it stands too few positions
/// back. It forbids nothing else.
pub proof fn a_rule_forbids_what_is_too_near(
    recent: Seq<Key>,
    id: Seq<char>,
    group: Seq<String>,
    limits: Limits,
)
    ensures
        clashes(recent, id, group, limits) <==> exists|i: int|
            0 <= i < recent.len() && #[trigger] too_near(recent, i, id, group, limits),
{
    assert forall|i: int| 0 <= i < recent.len() implies (#[trigger] clashes_at(
        recent,
        i,
        id,
        group,
        limits,
    ) <==> too_near(recent, i, id, group, limits)) by {
        lemma_airtime(recent, i);
        let a = recent[i].group;
        if in_common(a, group) {
            let (x, y) = choose|x: int, y: int|
                #![trigger a[x], group[y]]
                0 <= x < a.len() && 0 <= y < group.len() && a[x]@ == group[y]@;
            assert(has_name(group, a[x]@));
        }
        if exists|x: int| 0 <= x < a.len() && has_name(group, #[trigger] a[x]@) {
            let x = choose|x: int| 0 <= x < a.len() && has_name(group, #[trigger] a[x]@);
            let y = choose|y: int| 0 <= y < group.len() && #[trigger] group[y]@ == a[x]@;
            assert(a[x]@ == group[y]@);
        }
    }
    if exists|i: int| 0 <= i < recent.len() && #[trigger] too_near(recent, i, id, group, limits) {
        let i = choose|i: int|
            0 <= i < recent.len() && #[trigger] too_near(recent, i, id, group, limits);
        assert(clashes_at(recent, i, id, group, limits));
    }
}

/// A rule is free where it asks for no gap at all, in positions, in time or between values.
pub proof fn a_rule_is_free_where_it_asks_for_nothing(limits: Limits)
    ensures
        limits.free() <==> limits.separate == 0 && match limits.no_repeat {
            RepeatGap::Positions(n) => n == 0,
            RepeatGap::Duration(d) => d == 0,
        },
{
}

/// What a table of rules asks for: no repeat within what it says, and nothing where it says
/// nothing; and, under a field, a gap of what it says, or of one item where it says nothing.
/// Without a field nothing is separated.
pub proof fn a_table_asks_for_its_gaps(table: Constraints)
    ensures
        table.no_repeat_within is None ==> table.rule().no_repeat == RepeatGap::Positions(0),
        table.no_repeat_within matches Some(NoRepeatWithin::Positions(n))
            ==> table.rule().no_repeat == RepeatGap::Positions(n),
        table.no_repeat_within matches Some(NoRepeatWithin::Duration(d))
            ==> table.rule().no_repeat == RepeatGap::Duration(d),
        table.separate_by is None ==> table.rule().separate == 0,
        table.separate_by is Some && table.separate_min_gap is None ==> table.rule().separate == 1,
        table.separate_by is Some && table.separate_min_gap is Some ==> table.rule().separate
            == table.separate_min_gap->0,
{
}

/// The values of an item that are compared under a field: those that its row of the catalog
/// has in the kind of tag that the field names, and none without a field.
pub open spec fn compared(
    catalog: Option<Catalog>,
    id: Seq<char>,
    field: Option<String>,
) -> Seq<String> {
    match (field, catalog) {
        (Some(f), Some(c)) => match (field_ns(f@), c.row(id)) {
            (Some(TagNs::Genre), Some(e)) => e.tags.genres@,
            (Some(TagNs::Label), Some(e)) => e.tags.labels@,
            (Some(TagNs::Cast), Some(e)) => e.tags.cast@,
            (Some(TagNs::Director), Some(e)) => e.tags.directors@,
            (Some(TagNs::Writer), Some(e)) => e.tags.writers@,
            (Some(TagNs::Producer), Some(e)) => e.tags.producers@,
            (Some(TagNs::Country), Some(e)) => e.tags.countries@,
            _ => Seq::empty(),
        },
        _ => Seq::empty(),
    }
}

/// What is compared of an item under a field is what a script reads of the item under it.
pub proof fn what_is_compared_is_what_a_script_reads(catalog: Catalog, id: Seq<char>, field: String)
    requires
        catalog.row(id) is Some,
        field_ns(field@) is Some,
    ensures
        reads_texts(
            field_of(item_fields(catalog.row(id)->0), field@),
            compared(Some(catalog), id, Some(field)),
        ),
{
    a_word_names_one_kind_of_tag(catalog, catalog.row(id)->0, field@);
}

/// Whether each of the first `n` items of a list can be compared: a field that is named is a
/// kind of tag, and there is a catalog to look it up in.
pub open spec fn can_compare(
    catalog: Option<Catalog>,
    fields: Seq<Option<String>>,
    n: int,
) -> bool {
    forall|i: int|
        0 <= i < n ==> ((#[trigger] fields[i]) matches Some(f) ==> field_ns(f@) is Some
            && catalog is Some)
}

/// Items are compared, one for one, by their identity, by the values that their rows of the
/// catalog have under the field, and by how long they run. That can be done of every list whose
/// fields name kinds of tags, and of no other; and without a catalog only where no field is
/// named.
pub proof fn items_are_compared_by_their_rows(
    catalog: Option<Catalog>,
    ids: Seq<Seq<char>>,
    fields: Seq<Option<String>>,
    durations: Seq<u64>,
    n: int,
)
    requires
        0 <= n,
    ensures
        all_keys(catalog, ids, fields, durations, n) is Ok <==> can_compare(catalog, fields, n),
        all_keys(catalog, ids, fields, durations, n) matches Ok(keys) ==> keys.len() == n
            && forall|i: int|
            #![trigger keys[i]]
            0 <= i < n ==> {
                &&& keys[i].id == ids[i]
                &&& keys[i].group == compared(catalog, ids[i], fields[i])
                &&& i < durations.len() ==> keys[i].duration == durations[i]
                &&& i >= durations.len() ==> keys[i].duration == 0
            },
        all_keys(catalog, ids, fields, durations, n) matches Err(fault) ==> exists|i: int|
            #![trigger fields[i]]
            0 <= i < n && fields[i] is Some && can_compare(catalog, fields, i) && fault
                == ConfigFault::of_channel(
                if field_ns(fields[i]->0@) is None {
                    ErrorKind::Validation
                } else {
                    ErrorKind::Unsupported
                },
                if field_ns(fields[i]->0@) is None {
                    Fault::UnknownField { field: fields[i]->0 }
                } else {
                    Fault::FieldNeedsCatalog { field: fields[i]->0 }
                },
            ),
    decreases n,
{
    if n > 0 {
        items_are_compared_by_their_rows(catalog, ids, fields, durations, n - 1);
        assert(can_compare(catalog, fields, n) <==> can_compare(catalog, fields, n - 1) && (
        fields[n - 1] matches Some(f) ==> field_ns(f@) is Some && catalog is Some)) by {
            if can_compare(catalog, fields, n) {
                assert(fields[n - 1] matches Some(f) ==> field_ns(f@) is Some && catalog is Some);
            }
        }
        if let Ok(earlier) = all_keys(catalog, ids, fields, durations, n - 1) {
            if let Ok(keys) = all_keys(catalog, ids, fields, durations, n) {
                assert forall|i: int| 0 <= i < n implies {
                    &&& (#[trigger] keys[i]).id == ids[i]
                    &&& keys[i].group == compared(catalog, ids[i], fields[i])
                    &&& i < durations.len() ==> keys[i].duration == durations[i]
                    &&& i >= durations.len() ==> keys[i].duration == 0
                } by {
                    if i < n - 1 {
                        assert(keys[i] == earlier[i]);
                    } else {
                        assert(keys[i].group =~= compared(catalog, ids[i], fields[i]));
                    }
                }
            } else {
                assert(fields[n - 1] is Some);
            }
        } else {
            let i = choose|i: int|
                #![trigger fields[i]]
                0 <= i < n - 1 && fields[i] is Some && can_compare(catalog, fields, i) && all_keys(
                    catalog,
                    ids,
                    fields,
                    durations,
                    n - 1,
                )->Err_0 == ConfigFault::of_channel(
                    if field_ns(fields[i]->0@) is None {
                        ErrorKind::Validation
                    } else {
                        ErrorKind::Unsupported
                    },
                    if field_ns(fields[i]->0@) is None {
                        Fault::UnknownField { field: fields[i]->0 }
                    } else {
                        Fault::FieldNeedsCatalog { field: fields[i]->0 }
                    },
                );
            assert(fields[i] is Some);
        }
    }
}

/// An item of a pool is compared by its identity and by the values that its row of the catalog
/// has in the kind of tag that is kept apart.
pub proof fn a_pool_compares_items_by_their_rows(
    catalog: Catalog,
    ids: Seq<String>,
    field: String,
    durations: Seq<(String, u64)>,
    mean: int,
    i: int,
)
    requires
        0 <= i < ids.len(),
        field_ns(field@) is Some,
    ensures
        pool_key(catalog, ids, field_ns(field@), durations, mean, ids[i]@).id == ids[i]@,
        pool_key(catalog, ids, field_ns(field@), durations, mean, ids[i]@).group == compared(
            Some(catalog),
            ids[i]@,
            Some(field),
        ),
        pool_key(catalog, ids, None, durations, mean, ids[i]@).id == ids[i]@,
        pool_key(catalog, ids, None, durations, mean, ids[i]@).group.len() == 0,
{
    assert(has_name(ids, ids[i]@));
    assert(pool_key(catalog, ids, field_ns(field@), durations, mean, ids[i]@).group =~= compared(
        Some(catalog),
        ids[i]@,
        Some(field),
    ));
}

proof fn lemma_first_fit(
    items: Seq<Key>,
    limits: Seq<Limits>,
    left: Seq<int>,
    placed: Seq<Key>,
    at: int,
)
    requires
        0 <= at,
    ensures
        first_fit(items, limits, left, placed, at) is None ==> forall|j: int|
            at <= j < left.len() ==> item_clashes(items, limits, #[trigger] left[j], placed),
        first_fit(items, limits, left, placed, at) matches Some(k) ==> at <= k < left.len()
            && !item_clashes(items, limits, left[k], placed) && forall|j: int|
            at <= j < k ==> item_clashes(items, limits, #[trigger] left[j], placed),
    decreases left.len() - at,
{
    if at < left.len() {
        lemma_first_fit(items, limits, left, placed, at + 1);
    }
}

pub proof fn lemma_arranged_members(
    items: Seq<Key>,
    limits: Seq<Limits>,
    left: Seq<int>,
    placed: Seq<Key>,
)
    ensures
        arranged(items, limits, left, placed).len() == left.len(),
        forall|j: int|
            0 <= j < left.len() ==> left.contains(
                #[trigger] arranged(items, limits, left, placed)[j],
            ),
    decreases left.len(),
{
    if left.len() > 0 {
        lemma_first_fit(items, limits, left, placed, 0);
        let at = next_up(items, limits, left, placed);
        let fewer = left.remove(at);
        let next = placed.push(items[left[at]]);
        lemma_arranged_members(items, limits, fewer, next);
        let order = arranged(items, limits, left, placed);
        let rest = arranged(items, limits, fewer, next);
        assert forall|j: int| 0 <= j < left.len() implies left.contains(#[trigger] order[j]) by {
            if j == 0 {
                assert(order[0] == left[at]);
            } else {
                assert(order[j] == rest[j - 1]);
                assert(fewer.contains(rest[j - 1]));
                let i = choose|i: int| 0 <= i < fewer.len() && fewer[i] == rest[j - 1];
                assert(left[if i < at {
                    i
                } else {
                    i + 1
                }] == order[j]);
            }
        }
    }
}

/// Whether a list of positions rises throughout.
pub open spec fn rises(left: Seq<int>) -> bool {
    forall|i: int, j: int| 0 <= i < j < left.len() ==> (#[trigger] left[i]) < #[trigger] left[j]
}

/// Each place of an arrangement goes to the earliest of the items that are left which may stand
/// there. Where it goes to one that may not, none of those that are left may, and it is the
/// earliest of them.
pub proof fn each_place_goes_to_the_earliest_that_may(
    items: Seq<Key>,
    limits: Seq<Limits>,
    left: Seq<int>,
    placed: Seq<Key>,
    k: int,
)
    requires
        rises(left),
        0 <= k < left.len(),
    ensures
        ({
            let order = arranged(items, limits, left, placed);
            let before = placed + at_positions(items, order.take(k));
            &&& order.len() == left.len()
            &&& item_clashes(items, limits, order[k], before) ==> forall|j: int|
                k < j < order.len() ==> item_clashes(items, limits, #[trigger] order[j], before)
                    && order[k] < order[j]
            &&& !item_clashes(items, limits, order[k], before) ==> forall|j: int|
                k < j < order.len() && (#[trigger] order[j]) < order[k] ==> item_clashes(
                    items,
                    limits,
                    order[j],
                    before,
                )
        }),
    decreases left.len(),
{
    lemma_first_fit(items, limits, left, placed, 0);
    let at = next_up(items, limits, left, placed);
    let fewer = left.remove(at);
    let next = placed.push(items[left[at]]);
    let order = arranged(items, limits, left, placed);
    let rest = arranged(items, limits, fewer, next);
    lemma_arranged_members(items, limits, left, placed);
    lemma_arranged_members(items, limits, fewer, next);
    assert(rises(fewer));
    let before = placed + at_positions(items, order.take(k));
    if k == 0 {
        assert(before =~= placed);
        assert forall|j: int| 0 < j < order.len() implies exists|i: int|
            #![trigger left[i]]
            0 <= i < left.len() && i != at && left[i] == #[trigger] order[j] by {
            assert(order[j] == rest[j - 1]);
            assert(fewer.contains(rest[j - 1]));
            let i = choose|i: int| 0 <= i < fewer.len() && fewer[i] == rest[j - 1];
            assert(left[if i < at {
                i
            } else {
                i + 1
            }] == order[j]);
        }
    } else {
        each_place_goes_to_the_earliest_that_may(items, limits, fewer, next, k - 1);
        assert(forall|j: int| 0 < j < order.len() ==> order[j] == rest[j - 1]);
        assert(before =~= next + at_positions(items, rest.take(k - 1)));
        assert(order[k] == rest[k - 1]);
        if item_clashes(items, limits, order[k], before) {
            assert forall|j: int| k < j < order.len() implies item_clashes(
                items,
                limits,
                #[trigger] order[j],
                before,
            ) && order[k] < order[j] by {
                assert(order[j] == rest[j - 1]);
            }
        } else {
            assert forall|j: int|
                k < j < order.len() && (#[trigger] order[j]) < order[k] implies item_clashes(
                items,
                limits,
                order[j],
                before,
            ) by {
                assert(order[j] == rest[j - 1]);
            }
        }
    }
}

/// The identities of what aired lately and of a list after it.
pub open spec fn aired(tail: Seq<String>, list: Seq<ItemModel>) -> Seq<Seq<char>> {
    texts(tail) + item_ids(list)
}

/// Whether an item may not stand after those identities: it stands among the last `n` of them,
/// or shares a value of the field with one of the last `gap`.
pub open spec fn forbidden(
    catalog: Catalog,
    field: String,
    n: usize,
    gap: usize,
    before: Seq<Seq<char>>,
    id: Seq<char>,
) -> bool {
    exists|p: int|
        #![trigger before[p]]
        0 <= p < before.len() && {
            ||| before.len() - p <= n && before[p] == id
            ||| before.len() - p <= gap && in_common(
                compared(Some(catalog), before[p], Some(field)),
                compared(Some(catalog), id, Some(field)),
            )
        }
}

/// In a generated list that is separated on a field of the catalog, an item stands where it
/// repeats one of the last `n`, or where its row of the catalog shares a value of the field with
/// the row of one of the last `gap`, only where no item that came after it in the list could have
/// stood there either. What aired lately counts.
pub proof fn a_list_breaks_a_rule_only_where_it_must(
    config: ChannelConfig,
    inputs: Inputs,
    w: Windowed,
    field: String,
    n: usize,
    gap: usize,
    q: int,
    r: int,
)
    requires
        inputs.catalog is Some,
        w.items.len() == w.limits.len(),
        w.items.len() == w.fields.len(),
        n > 0 || gap > 0,
        forall|i: int|
            0 <= i < w.items.len() ==> #[trigger] w.limits[i] == (Limits {
                no_repeat: RepeatGap::Positions(n),
                separate: gap,
            }),
        forall|i: int| 0 <= i < w.items.len() ==> #[trigger] w.fields[i] == Some(field),
        separated(config, inputs, w) is Ok,
        0 <= q <= r < w.items.len(),
    ensures
        ({
            let list = separated(config, inputs, w)->Ok_0;
            let before = aired(inputs.state.tail@, list.take(q));
            &&& list.len() == w.items.len()
            &&& forbidden(inputs.catalog->0, field, n, gap, before, list[q].id) ==> forbidden(
                inputs.catalog->0,
                field,
                n,
                gap,
                before,
                list[r].id,
            )
        }),
{
    let catalog = inputs.catalog->0;
    let tail = inputs.state.tail@;
    let len = w.items.len();
    assert(!w.limits[0].free());
    assert(w.fields[0] == Some(field));
    let none = Seq::<u64>::empty();
    let tail_fields = Seq::new(tail.len(), |i: int| first_field(w.fields));
    items_are_compared_by_their_rows(
        inputs.catalog,
        item_ids(w.items),
        w.fields,
        none,
        len as int,
    );
    items_are_compared_by_their_rows(
        inputs.catalog,
        texts(tail),
        tail_fields,
        none,
        tail.len() as int,
    );
    assert forall|i: int| 0 <= i < w.limits.len() implies !((
    #[trigger] w.limits[i]).no_repeat is Duration) by {}
    let items = all_keys(inputs.catalog, item_ids(w.items), w.fields, none, len as int)->Ok_0;
    let placed = all_keys(
        inputs.catalog,
        texts(tail),
        tail_fields,
        none,
        tail.len() as int,
    )->Ok_0;
    let order = arranged(items, w.limits, upto(len), placed);
    let list = separated(config, inputs, w)->Ok_0;
    lemma_arranged_members(items, w.limits, upto(len), placed);
    assert(list == at_positions(w.items, order));
    each_place_goes_to_the_earliest_that_may(items, w.limits, upto(len), placed, q);
    let keys = placed + at_positions(items, order.take(q));
    let before = aired(tail, list.take(q));
    assert(keys.len() == before.len());
    assert forall|j: int| 0 <= j < len implies 0 <= #[trigger] order[j] < len by {
        assert(upto(len).contains(order[j]));
    }
    assert forall|p: int| 0 <= p < before.len() implies (#[trigger] keys[p]).id == before[p]
        && keys[p].group == compared(inputs.catalog, before[p], Some(field)) by {
        if p < tail.len() {
            assert(tail_fields[p] == Some(field));
            assert(keys[p] == placed[p]);
            assert(before[p] == texts(tail)[p]);
        } else {
            let at = order[p - tail.len()];
            assert(keys[p] == items[at]);
            assert(w.fields[at] == Some(field));
            assert(before[p] == list[p - tail.len()].id);
            assert(item_ids(w.items)[at] == w.items[at].id);
        }
    }
    lemma_forbidden(inputs.catalog->0, field, n, gap, keys, before, items, w.limits, order[q]);
    lemma_forbidden(inputs.catalog->0, field, n, gap, keys, before, items, w.limits, order[r]);
    assert(list[q].id == item_ids(w.items)[order[q]]);
    assert(list[r].id == item_ids(w.items)[order[r]]);
}

proof fn lemma_forbidden(
    catalog: Catalog,
    field: String,
    n: usize,
    gap: usize,
    keys: Seq<Key>,
    before: Seq<Seq<char>>,
    items: Seq<Key>,
    limits: Seq<Limits>,
    x: int,
)
    requires
        keys.len() == before.len(),
        forall|p: int|
            0 <= p < before.len() ==> (#[trigger] keys[p]).id == before[p] && keys[p].group
                == compared(Some(catalog), before[p], Some(field)),
        items[x].group == compared(Some(catalog), items[x].id, Some(field)),
        limits[x] == (Limits { no_repeat: RepeatGap::Positions(n), separate: gap }),
    ensures
        item_clashes(items, limits, x, keys) <==> forbidden(
            catalog,
            field,
            n,
            gap,
            before,
            items[x].id,
        ),
{
    let id = items[x].id;
    let group = items[x].group;
    a_rule_forbids_what_is_too_near(keys, id, group, limits[x]);
    if item_clashes(items, limits, x, keys) {
        let p = choose|p: int|
            0 <= p < keys.len() && #[trigger] too_near(keys, p, id, group, limits[x]);
        assert(keys[p].id == before[p]);
    }
    if forbidden(catalog, field, n, gap, before, id) {
        let p = choose|p: int|
            #![trigger before[p]]
            0 <= p < before.len() && {
                ||| before.len() - p <= n && before[p] == id
                ||| before.len() - p <= gap && in_common(
                    compared(Some(catalog), before[p], Some(field)),
                    compared(Some(catalog), id, Some(field)),
                )
            };
        assert(keys[p].id == before[p]);
        assert(too_near(keys, p, id, group, limits[x]));
    }
}

/// The items of a block of entries stand under the rule and the field of the block's own table,
/// and those of a block without one, or that draws from pools, under none.
pub proof fn a_block_stands_under_its_own_table(block: BlockInclude)
    ensures
        !block.draws() && block.constraints is Some ==> block_rule(block)
            == block.constraints->0.rule() && block_field(block)
            == block.constraints->0.separate_by,
        block.draws() || block.constraints is None ==> block_rule(block).free() && block_field(
            block,
        ) is None,
{
}

/// Laying a block appends its items to those of the blocks before it, each with the rule and the
/// field of the block; and the items, the rules and the fields stay as many.
pub proof fn blocks_are_laid_one_after_the_other(config: ChannelConfig, inputs: Inputs, n: int)
    requires
        0 <= n < config.blocks@.len(),
        laid(config, inputs, n + 1) is Ok,
    ensures
        laid(config, inputs, n) is Ok,
        ({
            let before = laid(config, inputs, n)->Ok_0;
            let after = laid(config, inputs, n + 1)->Ok_0;
            let block = config.blocks@[n];
            let own = block_items(block, n as usize, config.groups@, config.guide, inputs);
            &&& own is Ok
            &&& after.items == before.items + own->Ok_0
            &&& after.items.len() == after.limits.len()
            &&& after.items.len() == after.fields.len()
            &&& after.limits.take(before.items.len() as int) == before.limits
            &&& after.fields.take(before.items.len() as int) == before.fields
            &&& forall|i: int|
                #![trigger after.limits[i]]
                before.items.len() <= i < after.items.len() ==> after.limits[i] == block_rule(block)
            &&& forall|i: int|
                #![trigger after.fields[i]]
                before.items.len() <= i < after.items.len() ==> after.fields[i] == block_field(
                    block,
                )
        }),
{
    lemma_laid_lengths(config, inputs, n);
    let before = laid(config, inputs, n)->Ok_0;
    let after = laid(config, inputs, n + 1)->Ok_0;
    assert(after.limits.take(before.items.len() as int) =~= before.limits);
    assert(after.fields.take(before.items.len() as int) =~= before.fields);
}

proof fn lemma_laid_lengths(config: ChannelConfig, inputs: Inputs, n: int)
    requires
        0 <= n,
    ensures
        laid(config, inputs, n) matches Ok(l) ==> l.items.len() == l.limits.len() && l.items.len()
            == l.fields.len(),
    decreases n,
{
    if n > 0 {
        lemma_laid_lengths(config, inputs, n - 1);
    }
}

/// An item that a cut keeps, keeps its rule and its field.
pub proof fn a_cut_keeps_rules_with_their_items(
    l: Laid,
    from: int,
    to: int,
    position: usize,
    fill: Option<u64>,
    catalog: Option<Catalog>,
    nominal: u64,
    k: int,
)
    requires
        0 <= from <= to <= l.items.len(),
        l.items.len() == l.limits.len(),
        l.items.len() == l.fields.len(),
        0 <= k < windowed(l, from, to, position, fill, catalog, nominal).items.len(),
    ensures
        ({
            let w = windowed(l, from, to, position, fill, catalog, nominal);
            &&& w.items.len() == w.limits.len()
            &&& w.items.len() == w.fields.len()
            &&& exists|i: int|
                #![trigger l.items[i]]
                w.items[k] == l.items[i] && w.limits[k] == l.limits[i] && w.fields[k] == l.fields[i]
        }),
{
    let w = windowed(l, from, to, position, fill, catalog, nominal);
    if from >= to {
        assert(w.items[k] == l.items[k]);
    } else {
        let total = to - from;
        let start = position as int % total;
        let taken = crate::window::window_take(
            l.items.subrange(from, to),
            start,
            fill,
            catalog,
            nominal,
        );
        let order = crate::window::cut_order(l.items.len() as int, from, to, start, taken as nat);
        assert(w.items[k] == l.items[order[k]]);
    }
}

} // verus!
