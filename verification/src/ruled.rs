//! What holds of a list that is kept under rules, whatever they are: what counts before each item
//! of it, and where it breaks a rule; and the same of the items of a pool.

use vstd::prelude::*;

use crate::apart::{
    a_rule_forbids_what_is_too_near, compared, each_place_goes_to_the_earliest_that_may,
    items_are_compared_by_their_rows, lemma_arranged_members, too_near,
};
use crate::catalog::Catalog;
use crate::channel::{
    all_keys, any_rule, any_timed, cut, first_field, generation, laid, loop_span, put_all,
    separated, windowed, Laid, Windowed,
};
use crate::config::{Advance, Constraints, Pool};
use crate::constrain::{arranged, clashes, item_clashes, upto, Key, Limits, RepeatGap};
use crate::draw::{keys_of, PoolModel};
use crate::drawing::what_is_drawn_is_remembered;
use crate::fault::{ConfigFault, ErrorKind};
use crate::item::{item_ids, ItemModel};
use crate::names::{entry_of, has_name, putting_changes_one_name, texts};
use crate::orders::{at_positions, is_selection};
use crate::pool::{
    constrained, continued, field_for, known_lengths, lemma_arranged_range, limits_for, mean_length,
    ready, same_limits, seam, settled, turn_of,
};
use crate::resolve::{nominal, ChannelConfig, Inputs};
use crate::resume::{GenerationState, PoolResume};
use crate::window::{cut_order, estimates, tail_estimates, window_take};

verus! {

/// Whether some rule counts in time.
pub open spec fn counts_in_time(limits: Seq<Limits>) -> bool {
    exists|i: int| 0 <= i < limits.len() && match (#[trigger] limits[i]).no_repeat {
        RepeatGap::Duration(_) => true,
        RepeatGap::Positions(_) => false,
    }
}

/// The field that what aired lately is compared under: the first that an item of the list names.
pub open spec fn leading_field(fields: Seq<Option<String>>, field: Option<String>) -> bool {
    match field {
        None => forall|i: int| 0 <= i < fields.len() ==> #[trigger] fields[i] is None,
        Some(f) => exists|i: int|
            0 <= i < fields.len() && #[trigger] fields[i] == Some(f) && forall|j: int|
                0 <= j < i ==> #[trigger] fields[j] is None,
    }
}

/// The first field that is named is the one before which none is.
pub proof fn the_first_field_leads(fields: Seq<Option<String>>)
    ensures
        leading_field(fields, first_field(fields)),
    decreases fields.len(),
{
    if fields.len() > 0 {
        if fields[0] is Some {
            assert(fields[0] == Some(fields[0]->0));
        } else {
            let rest = fields.drop_first();
            the_first_field_leads(rest);
            if let Some(f) = first_field(rest) {
                let i = choose|i: int|
                    0 <= i < rest.len() && #[trigger] rest[i] == Some(f) && forall|j: int|
                        0 <= j < i ==> #[trigger] rest[j] is None;
                assert(fields[i + 1] == Some(f));
                assert forall|j: int| 0 <= j < i + 1 implies #[trigger] fields[j] is None by {
                    if j > 0 {
                        assert(rest[j - 1] == fields[j]);
                    }
                }
            } else {
                assert forall|i: int| 0 <= i < fields.len() implies #[trigger] fields[i] is None by {
                    if i > 0 {
                        assert(rest[i - 1] == fields[i]);
                    }
                }
            }
        }
    }
}

/// What counts of an item of a list: its identity, its row's values of the field that it is
/// separated on, and, where some rule counts in time, how long it is taken to run.
pub open spec fn counts_as(
    config: ChannelConfig,
    inputs: Inputs,
    w: Windowed,
    x: int,
) -> Key {
    Key {
        id: w.items[x].id,
        group: compared(inputs.catalog, w.items[x].id, w.fields[x]),
        duration: if counts_in_time(w.limits) {
            estimates(inputs.catalog, w.items, nominal(config.nominal_item_secs) as u64)[x] as nat
        } else {
            0
        },
    }
}

/// What counts of something that aired lately.
pub open spec fn counted_as(
    config: ChannelConfig,
    inputs: Inputs,
    w: Windowed,
    p: int,
) -> Key {
    let id = inputs.state.tail@[p]@;
    Key {
        id,
        group: compared(inputs.catalog, id, first_field(w.fields)),
        duration: if counts_in_time(w.limits) {
            tail_estimates(
                inputs.catalog,
                inputs.state.tail@,
                nominal(config.nominal_item_secs) as u64,
            )[p] as nat
        } else {
            0
        },
    }
}

/// What counts before place `q` of an order of the list: what aired lately, and then the items that
/// come before that place.
pub open spec fn before(
    config: ChannelConfig,
    inputs: Inputs,
    w: Windowed,
    order: Seq<int>,
    q: int,
) -> Seq<Key> {
    Seq::new(inputs.state.tail@.len(), |p: int| counted_as(config, inputs, w, p)) + Seq::new(
        q as nat,
        |k: int| counts_as(config, inputs, w, order[k]),
    )
}

/// Whether the rule of an item forbids it at place `q` of an order.
pub open spec fn may_not_stand(
    config: ChannelConfig,
    inputs: Inputs,
    w: Windowed,
    order: Seq<int>,
    q: int,
    x: int,
) -> bool {
    let recent = before(config, inputs, w, order, q);
    let own = counts_as(config, inputs, w, x);
    exists|i: int|
        0 <= i < recent.len() && #[trigger] too_near(recent, i, own.id, own.group, w.limits[x])
}

/// Whether an order of a list breaks a rule only where it must: at each place stands the earliest
/// of the items that are left which may stand there; and where one stands that may not, none of
/// those that are left may, and it is the earliest of them.
pub open spec fn breaks_only_where_it_must(
    config: ChannelConfig,
    inputs: Inputs,
    w: Windowed,
    order: Seq<int>,
) -> bool {
    forall|q: int, r: int|
        #![trigger order[q], order[r]]
        0 <= q < r < order.len() ==> {
            &&& may_not_stand(config, inputs, w, order, q, order[q]) ==> may_not_stand(
                config,
                inputs,
                w,
                order,
                q,
                order[r],
            ) && order[q] < order[r]
            &&& order[r] < order[q] ==> may_not_stand(config, inputs, w, order, q, order[r])
        }
}

/// A generated list breaks the rules of its items only where it must.
pub proof fn a_ruled_list_breaks_a_rule_only_where_it_must(
    config: ChannelConfig,
    inputs: Inputs,
    w: Windowed,
) -> (order: Seq<int>)
    requires
        w.items.len() == w.limits.len(),
        w.items.len() == w.fields.len(),
        any_rule(w.limits),
        separated(config, inputs, w) is Ok,
    ensures
        is_selection(order, w.items.len() as int),
        order.len() == w.items.len(),
        separated(config, inputs, w)->Ok_0 == at_positions(w.items, order),
        breaks_only_where_it_must(config, inputs, w, order),
{
    let tail = inputs.state.tail@;
    let len = w.items.len();
    let length = nominal(config.nominal_item_secs) as u64;
    let timed = any_timed(w.limits);
    assert(timed == counts_in_time(w.limits)) by {
        if counts_in_time(w.limits) {
            let i = choose|i: int|
                0 <= i < w.limits.len() && match (#[trigger] w.limits[i]).no_repeat {
                    RepeatGap::Duration(_) => true,
                    RepeatGap::Positions(_) => false,
                };
            assert(w.limits[i].no_repeat is Duration);
        }
        if timed {
            let i = choose|i: int|
                0 <= i < w.limits.len() && (#[trigger] w.limits[i]).no_repeat is Duration;
            assert(match w.limits[i].no_repeat {
                RepeatGap::Duration(_) => true,
                RepeatGap::Positions(_) => false,
            });
        }
    }
    let lengths = if timed {
        estimates(inputs.catalog, w.items, length)
    } else {
        Seq::empty()
    };
    let past = if timed {
        tail_estimates(inputs.catalog, tail, length)
    } else {
        Seq::empty()
    };
    let tail_fields = Seq::new(tail.len(), |i: int| first_field(w.fields));
    items_are_compared_by_their_rows(
        inputs.catalog,
        item_ids(w.items),
        w.fields,
        lengths,
        len as int,
    );
    items_are_compared_by_their_rows(
        inputs.catalog,
        texts(tail),
        tail_fields,
        past,
        tail.len() as int,
    );
    let items = all_keys(inputs.catalog, item_ids(w.items), w.fields, lengths, len as int)->Ok_0;
    let placed = all_keys(
        inputs.catalog,
        texts(tail),
        tail_fields,
        past,
        tail.len() as int,
    )->Ok_0;
    let order = arranged(items, w.limits, upto(len), placed);
    lemma_arranged_range(items, w.limits, len, placed);
    lemma_arranged_members(items, w.limits, upto(len), placed);
    assert forall|x: int| 0 <= x < len implies #[trigger] items[x] == counts_as(
        config,
        inputs,
        w,
        x,
    ) by {
        assert(item_ids(w.items)[x] == w.items[x].id);
    }
    assert(placed =~= Seq::new(tail.len(), |p: int| counted_as(config, inputs, w, p))) by {
        assert forall|p: int| 0 <= p < tail.len() implies #[trigger] placed[p] == counted_as(
            config,
            inputs,
            w,
            p,
        ) by {
            assert(texts(tail)[p] == tail[p]@);
            assert(tail_fields[p] == first_field(w.fields));
        }
    }
    assert forall|q: int, r: int|
        #![trigger order[q], order[r]]
        0 <= q < r < order.len() implies {
        &&& may_not_stand(config, inputs, w, order, q, order[q]) ==> may_not_stand(
            config,
            inputs,
            w,
            order,
            q,
            order[r],
        ) && order[q] < order[r]
        &&& order[r] < order[q] ==> may_not_stand(config, inputs, w, order, q, order[r])
    } by {
        each_place_goes_to_the_earliest_that_may(items, w.limits, upto(len), placed, q);
        let recent = before(config, inputs, w, order, q);
        assert(placed + at_positions(items, order.take(q)) =~= recent) by {
            assert forall|k: int| 0 <= k < q implies at_positions(items, order.take(q))[k]
                == counts_as(config, inputs, w, order[k]) by {
                assert(0 <= order[k] < len);
                assert(items[order[k]] == counts_as(config, inputs, w, order[k]));
            }
        }
        let a = order[q];
        let b = order[r];
        assert(0 <= a < len && 0 <= b < len);
        a_rule_forbids_what_is_too_near(recent, items[a].id, items[a].group, w.limits[a]);
        a_rule_forbids_what_is_too_near(recent, items[b].id, items[b].group, w.limits[b]);
        assert(item_clashes(items, w.limits, a, recent) == may_not_stand(
            config,
            inputs,
            w,
            order,
            q,
            a,
        ));
        assert(item_clashes(items, w.limits, b, recent) == may_not_stand(
            config,
            inputs,
            w,
            order,
            q,
            b,
        ));
    }
    order
}

/// Where no rule forbids anything, a list is left as it is.
pub proof fn without_rules_a_list_stays(config: ChannelConfig, inputs: Inputs, w: Windowed)
    requires
        forall|i: int|
            0 <= i < w.limits.len() ==> (#[trigger] w.limits[i]).separate == 0 && (
            w.limits[i].no_repeat == RepeatGap::Positions(0) || w.limits[i].no_repeat
                == RepeatGap::Duration(0)),
    ensures
        separated(config, inputs, w) == Ok::<Seq<ItemModel>, ConfigFault>(w.items),
{
    assert(!any_rule(w.limits));
}

/// The loop of a channel without pools is all of its list; beside pools it is the one block of
/// entries; and several blocks of entries beside pools are refused.
pub proof fn what_the_loop_of_a_channel_is(config: ChannelConfig, inputs: Inputs, l: Laid)
    ensures
        l.spans.len() == 0 ==> loop_span(l) is None,
        l.spans.len() > 0 && !l.draws ==> loop_span(l) == Some((0int, l.items.len() as int)),
        l.spans.len() == 1 && l.draws ==> loop_span(l) == Some(l.spans[0]),
        l.spans.len() > 1 && l.draws ==> (cut(config, inputs, l) matches Err(fault) && fault.kind
            == ErrorKind::Unsupported && fault.fault is MixedBlocks),
        cut(config, inputs, l) is Err ==> l.spans.len() > 1 && l.draws,
        l.spans.len() == 0 ==> cut(config, inputs, l) == Ok::<Windowed, ConfigFault>(
            Windowed { items: l.items, limits: l.limits, fields: l.fields, position: 0 },
        ),
{
}

/// A loop plays on from its position: what is taken of it are the items from there on, round the
/// loop, and the next generation takes the one after them.
pub proof fn a_loop_plays_on_from_its_position(
    l: Laid,
    from: int,
    to: int,
    position: usize,
    fill: Option<u64>,
    catalog: Option<Catalog>,
    nominal: u64,
    k: int,
)
    requires
        0 <= from < to <= l.items.len(),
        0 <= position < to - from,
        window_take(l.items.subrange(from, to), position as int, fill, catalog, nominal) >= 0,
    ensures
        ({
            let w = windowed(l, from, to, position, fill, catalog, nominal);
            let taken = window_take(
                l.items.subrange(from, to),
                position as int,
                fill,
                catalog,
                nominal,
            );
            &&& w.items.len() == from + taken + (l.items.len() - to)
            &&& 0 <= k < taken && position + k < to - from ==> w.items[from + k] == l.items[from
                + position + k]
            &&& 0 <= k < taken && to - from <= position + k < 2 * (to - from) ==> w.items[from + k]
                == l.items[position + k - (to - from) + from]
            &&& position + taken < to - from ==> w.position == position + taken
            &&& to - from <= position + taken < 2 * (to - from) ==> w.position == position + taken
                - (to - from)
        }),
{
    let n = to - from;
    vstd::arithmetic::div_mod::lemma_small_mod(position as nat, n as nat);
    let taken = window_take(l.items.subrange(from, to), position as int, fill, catalog, nominal);
    let w = windowed(l, from, to, position, fill, catalog, nominal);
    let order = cut_order(l.items.len() as int, from, to, position as int, taken as nat);
    assert(w.items == at_positions(l.items, order));
    if 0 <= k < taken {
        assert(order[from + k] == from + (position + k) % n);
        if position + k < n {
            vstd::arithmetic::div_mod::lemma_small_mod((position + k) as nat, n as nat);
        } else if position + k < 2 * n {
            vstd::arithmetic::div_mod::lemma_mod_add_multiples_vanish(position + k - n, n);
            vstd::arithmetic::div_mod::lemma_small_mod((position + k - n) as nat, n as nat);
        }
    }
    if position + taken < n {
        vstd::arithmetic::div_mod::lemma_small_mod((position + taken) as nat, n as nat);
    } else if position + taken < 2 * n {
        vstd::arithmetic::div_mod::lemma_mod_add_multiples_vanish(position + taken - n, n);
        vstd::arithmetic::div_mod::lemma_small_mod((position + taken - n) as nat, n as nat);
    }
}

/// A channel is generated from its blocks, cut to its window and kept under its rules; one that
/// comes to nothing is refused.
pub proof fn a_channel_is_generated_from_its_blocks(config: ChannelConfig, inputs: Inputs)
    ensures
        generation(config, inputs) matches Ok(made) ==> {
            let l = laid(config, inputs, config.blocks@.len() as int);
            &&& l is Ok
            &&& cut(config, inputs, l->Ok_0) is Ok
            &&& cut(config, inputs, l->Ok_0)->Ok_0.items.len() > 0
            &&& separated(config, inputs, cut(config, inputs, l->Ok_0)->Ok_0) == Ok::<
                Seq<ItemModel>,
                ConfigFault,
            >(made.items)
            &&& made.position == cut(config, inputs, l->Ok_0)->Ok_0.position
        },
{
}

/// The pools of a later block replace those of an earlier one of the same name, and no others.
pub proof fn later_pools_replace_earlier_ones(
    table: Seq<(String, PoolResume)>,
    more: Seq<(String, PoolResume)>,
    name: Seq<char>,
)
    requires
        forall|i: int, j: int|
            0 <= i < j < more.len() ==> (#[trigger] more[i]).0@ != (#[trigger] more[j]).0@,
    ensures
        (forall|i: int| 0 <= i < more.len() ==> (#[trigger] more[i]).0@ != name) ==> entry_of(
            put_all(table, more),
            name,
        ) == entry_of(table, name),
        forall|i: int|
            0 <= i < more.len() && (#[trigger] more[i]).0@ == name ==> entry_of(
                put_all(table, more),
                name,
            ) == Some(more[i].1),
    decreases more.len(),
{
    if more.len() > 0 {
        let fewer = more.drop_last();
        assert forall|i: int, j: int| 0 <= i < j < fewer.len() implies (#[trigger] fewer[i]).0@ != (
        #[trigger] fewer[j]).0@ by {
            assert(fewer[i] == more[i] && fewer[j] == more[j]);
        }
        later_pools_replace_earlier_ones(table, fewer, name);
        putting_changes_one_name(put_all(table, fewer), more.last().0, more.last().1);
        assert(more[more.len() - 1] == more.last());
        if forall|i: int| 0 <= i < more.len() ==> (#[trigger] more[i]).0@ != name {
            assert(more[more.len() - 1].0@ != name);
            assert forall|i: int| 0 <= i < fewer.len() implies (#[trigger] fewer[i]).0@ != name by {
                assert(fewer[i] == more[i]);
            }
        }
        assert forall|i: int|
            0 <= i < more.len() && (#[trigger] more[i]).0@ == name implies entry_of(
            put_all(table, more),
            name,
        ) == Some(more[i].1) by {
            if i < fewer.len() {
                assert(fewer[i] == more[i]);
                assert(more[i].0@ != more[more.len() - 1].0@);
            }
        }
    }
}

/// The items of a pool, in an order that breaks its rule only where it must: at each place stands
/// the earliest of the items that are left which may stand there, and one that may not only where
/// none may.
pub proof fn a_pool_breaks_its_rule_only_where_it_must(
    limits: Limits,
    key: spec_fn(Seq<char>) -> Key,
    past: Seq<String>,
    ids: Seq<String>,
) -> (order: Seq<int>)
    requires
        !limits.free(),
    ensures
        is_selection(order, ids.len() as int),
        order.len() == ids.len(),
        constrained(limits, key, past, ids) == at_positions(ids, order),
        forall|q: int, r: int|
            #![trigger order[q], order[r]]
            0 <= q < r < order.len() ==> {
                let recent = keys_of(key, past + constrained(limits, key, past, ids).take(q));
                let here = key(ids[order[q]]@);
                let other = key(ids[order[r]]@);
                &&& (exists|i: int|
                    0 <= i < recent.len() && #[trigger] too_near(
                        recent,
                        i,
                        here.id,
                        here.group,
                        limits,
                    )) ==> (exists|i: int|
                    0 <= i < recent.len() && #[trigger] too_near(
                        recent,
                        i,
                        other.id,
                        other.group,
                        limits,
                    )) && order[q] < order[r]
                &&& order[r] < order[q] ==> (exists|i: int|
                    0 <= i < recent.len() && #[trigger] too_near(
                        recent,
                        i,
                        other.id,
                        other.group,
                        limits,
                    ))
            },
{
    let n = ids.len();
    let items = keys_of(key, ids);
    let all = same_limits(limits, n);
    let placed = keys_of(key, past);
    let order = arranged(items, all, upto(n), placed);
    lemma_arranged_range(items, all, n, placed);
    lemma_arranged_members(items, all, upto(n), placed);
    let out = constrained(limits, key, past, ids);
    if n == 0 {
        assert(order =~= Seq::<int>::empty());
        assert(at_positions(ids, order) =~= ids);
    }
    assert(out =~= at_positions(ids, order));
    assert forall|q: int, r: int|
        #![trigger order[q], order[r]]
        0 <= q < r < order.len() implies {
        let recent = keys_of(key, past + out.take(q));
        let here = key(ids[order[q]]@);
        let other = key(ids[order[r]]@);
        &&& (exists|i: int|
            0 <= i < recent.len() && #[trigger] too_near(recent, i, here.id, here.group, limits))
            ==> (exists|i: int|
            0 <= i < recent.len() && #[trigger] too_near(recent, i, other.id, other.group, limits))
            && order[q] < order[r]
        &&& order[r] < order[q] ==> (exists|i: int|
            0 <= i < recent.len() && #[trigger] too_near(recent, i, other.id, other.group, limits))
    } by {
        each_place_goes_to_the_earliest_that_may(items, all, upto(n), placed, q);
        let recent = keys_of(key, past + out.take(q));
        assert(placed + at_positions(items, order.take(q)) =~= recent) by {
            assert forall|k: int| 0 <= k < q implies at_positions(items, order.take(q))[k] == key(
                out[k]@,
            ) by {
                assert(0 <= order[k] < n);
            }
        }
        let a = order[q];
        let b = order[r];
        assert(0 <= a < n && 0 <= b < n);
        a_rule_forbids_what_is_too_near(recent, items[a].id, items[a].group, all[a]);
        a_rule_forbids_what_is_too_near(recent, items[b].id, items[b].group, all[b]);
    }
    order
}

/// A pool that is made ready keeps its configuration, stands under the rule of its table, and
/// compares its items by the values that their rows of the catalog have under the field of its
/// table.
pub proof fn a_ready_pool_compares_by_its_own_table(
    catalog: Catalog,
    cfg: Pool,
    ids: Seq<String>,
    block: Option<Constraints>,
    state: GenerationState,
    want_runtimes: bool,
    i: int,
)
    requires
        ready(catalog, cfg, ids, block, state, want_runtimes) is Ok,
        0 <= i < ids.len(),
    ensures
        ({
            let pool = ready(catalog, cfg, ids, block, state, want_runtimes)->Ok_0;
            &&& pool.cfg == cfg
            &&& pool.limits == limits_for(cfg, block)
            &&& (pool.keys)(ids[i]@).id == ids[i]@
            &&& (pool.keys)(ids[i]@).group == compared(
                Some(catalog),
                ids[i]@,
                field_for(cfg, block),
            )
            &&& pool.forced == 0
        }),
{
    let pool = ready(catalog, cfg, ids, block, state, want_runtimes)->Ok_0;
    assert(has_name(ids, ids[i]@));
    assert((pool.keys)(ids[i]@).group =~= compared(
        Some(catalog),
        ids[i]@,
        field_for(cfg, block),
    ));
}

/// A pool that is made ready starts every series anew, unless it resumes: then each series goes on
/// after what it played last, and the series is up that was noted.
pub proof fn a_ready_pool_goes_on_where_it_should(
    catalog: Catalog,
    cfg: Pool,
    ids: Seq<String>,
    block: Option<Constraints>,
    state: GenerationState,
    want_runtimes: bool,
    i: int,
)
    requires
        ready(catalog, cfg, ids, block, state, want_runtimes) is Ok,
        0 <= i < ready(catalog, cfg, ids, block, state, want_runtimes)->Ok_0.series.len(),
    ensures
        ({
            let pool = ready(catalog, cfg, ids, block, state, want_runtimes)->Ok_0;
            let made = settled(
                catalog,
                cfg,
                ids,
                block,
                seam(state.tail@, ids),
                want_runtimes,
            )->Ok_0.series;
            &&& pool.series.len() == made.len()
            &&& pool.series[i].ids == made[i].ids
            &&& pool.series[i].key == made[i].key
            &&& cfg.advance == Advance::Restart ==> pool.series[i] == made[i] && pool.rotation == 0
            &&& cfg.advance == Advance::Resume ==> pool.series[i] == continued(
                made[i],
                state.cursor@,
            ) && pool.rotation == turn_of(pool.series, state.resume.pools@, cfg.name@)
        }),
{
}

/// A pool that is made ready looks back on those of its items that aired lately.
pub proof fn a_ready_pool_looks_back_on_what_aired(
    catalog: Catalog,
    cfg: Pool,
    ids: Seq<String>,
    block: Option<Constraints>,
    state: GenerationState,
    want_runtimes: bool,
    id: Seq<char>,
    group: Seq<String>,
)
    requires
        ready(catalog, cfg, ids, block, state, want_runtimes) is Ok,
    ensures
        ({
            let pool = ready(catalog, cfg, ids, block, state, want_runtimes)->Ok_0;
            clashes(pool.recent, id, group, pool.limits) == clashes(
                keys_of(pool.keys, seam(state.tail@, ids)),
                id,
                group,
                pool.limits,
            )
        }),
{
    let past = seam(state.tail@, ids);
    let s = settled(catalog, cfg, ids, block, past, want_runtimes)->Ok_0;
    let pool = ready(catalog, cfg, ids, block, state, want_runtimes)->Ok_0;
    let bare = PoolModel { recent: Seq::empty(), ..pool };
    what_is_drawn_is_remembered(bare, past, Seq::empty(), id, group);
    assert(bare.remembering(past).recent =~= pool.recent);
    assert(pool.recent + Seq::<Key>::empty() =~= pool.recent);
    assert(bare.recent + keys_of(pool.keys, past) + Seq::<Key>::empty() =~= keys_of(
        pool.keys,
        past,
    ));
}

/// How long the items of a pool run is asked of the catalog only where a budget or a rule in time
/// needs it; what it does not say counts at the mean.
pub proof fn lengths_are_asked_for_where_they_are_needed(
    catalog: Catalog,
    cfg: Pool,
    ids: Seq<String>,
    block: Option<Constraints>,
    state: GenerationState,
    want_runtimes: bool,
)
    requires
        ready(catalog, cfg, ids, block, state, want_runtimes) is Ok,
    ensures
        ({
            let pool = ready(catalog, cfg, ids, block, state, want_runtimes)->Ok_0;
            let needed = want_runtimes || limits_for(cfg, block).no_repeat is Duration;
            &&& needed ==> pool.runtimes == known_lengths(catalog, ids) && pool.mean_runtime
                == mean_length(known_lengths(catalog, ids)) as u64
            &&& !needed ==> pool.runtimes.len() == 0 && pool.mean_runtime == 0
        }),
{
}

} // verus!
