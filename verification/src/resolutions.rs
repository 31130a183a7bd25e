//! What holds of whole resolutions of a channel, one beside the other: what a rule changes in
//! it, what the start of the window changes, and how one window follows another.

use vstd::prelude::*;

use crate::catalog::Catalog;
use crate::channel::{
    all_keys, any_rule, any_timed, cut, first_field, generation, laid, put_all, resumes, separated,
    separating_keeps_every_item, Generation, Laid, Windowed,
};
use crate::config::Order;
use crate::constrain::{a_legal_list_is_left_alone, upto, violations};
use crate::fault::ConfigFault;
use crate::item::{guide_over, item_ids, ItemModel};
use crate::names::texts;
use crate::orders::{at_positions, is_selection};
use crate::resolve::{
    all_entries, block_items, block_table, nominal, own_program, BlockEntry, BlockInclude,
    ChannelConfig, Fallback, Inputs, Surroundings,
};
use crate::resume::PoolResume;
use crate::window::{
    a_window_is_covered_once, cut_order, estimates, looped, tail_estimates, window_take,
    windows_continue_without_gap_or_repeat,
};

verus! {

/// Whether no block of a channel draws from pools.
pub open spec fn plays_entries(config: ChannelConfig) -> bool {
    forall|i: int| 0 <= i < config.blocks@.len() ==> !(#[trigger] config.blocks@[i]).draws()
}

/// Whether no block of a channel has a rule that keeps items apart.
pub open spec fn is_unruled(config: ChannelConfig) -> bool {
    forall|i: int|
        0 <= i < config.blocks@.len() ==> (#[trigger] config.blocks@[i]).constraints is None
}

/// Whether no block of a channel is arranged by a script.
pub open spec fn runs_no_sequencer(config: ChannelConfig) -> bool {
    forall|i: int|
        0 <= i < config.blocks@.len() ==> (#[trigger] config.blocks@[i]).patterned()
            || config.blocks@[i].sequencer is None
}

proof fn lemma_start_of_window(config: ChannelConfig, inputs: Inputs, from: i64, n: int)
    requires
        runs_no_sequencer(config),
        n <= config.blocks@.len(),
    ensures
        laid(config, inputs, n) == laid(config, Inputs { from, ..inputs }, n),
    decreases n,
{
    if n > 0 {
        lemma_start_of_window(config, inputs, from, n - 1);
        let block = config.blocks@[n - 1];
        assert(block.patterned() || block.sequencer is None);
    }
}

proof fn lemma_start_of_window_resumes(
    config: ChannelConfig,
    inputs: Inputs,
    from: i64,
    n: int,
    table: Seq<(String, PoolResume)>,
)
    requires
        runs_no_sequencer(config),
        n <= config.blocks@.len(),
        resumes(config, inputs, n, table),
    ensures
        resumes(config, Inputs { from, ..inputs }, n, table),
    decreases n,
{
    if n > 0 {
        let block = config.blocks@[n - 1];
        assert(block.patterned() || block.sequencer is None);
        let (earlier, own) = choose|
            earlier: Seq<(String, PoolResume)>,
            own: Seq<(String, PoolResume)>,
        |
            #![trigger put_all(earlier, own)]
            resumes(config, inputs, n - 1, earlier) && block_table(
                block,
                n - 1,
                config.groups@,
                inputs,
                own,
            ) && table == put_all(earlier, own);
        lemma_start_of_window_resumes(config, inputs, from, n - 1, earlier);
        assert(block_table(block, n - 1, config.groups@, Inputs { from, ..inputs }, own));
    }
}

/// The start of the window is told to sequencer scripts and to nothing else: a channel without
/// one resolves to the same items, or fails for the same reason, whenever the window starts,
/// and leaves the same to resume from.
pub proof fn only_a_sequencer_sees_the_start_of_the_window(
    config: ChannelConfig,
    inputs: Inputs,
    from: i64,
)
    requires
        runs_no_sequencer(config),
    ensures
        generation(config, inputs) == generation(config, Inputs { from, ..inputs }),
        forall|table: Seq<(String, PoolResume)>|
            #[trigger] resumes(config, inputs, config.blocks@.len() as int, table) <==> resumes(
                config,
                Inputs { from, ..inputs },
                config.blocks@.len() as int,
                table,
            ),
{
    let n = config.blocks@.len() as int;
    let other = Inputs { from, ..inputs };
    lemma_start_of_window(config, inputs, from, n);
    assert forall|table: Seq<(String, PoolResume)>|
        #[trigger] resumes(config, inputs, n, table) <==> resumes(config, other, n, table) by {
        if resumes(config, inputs, n, table) {
            lemma_start_of_window_resumes(config, inputs, from, n, table);
        }
        if resumes(config, other, n, table) {
            assert(Inputs { from: inputs.from, ..other } == inputs);
            lemma_start_of_window_resumes(config, other, inputs.from, n, table);
        }
    }
}

/// Whether two channels are one but for the rules that keep items apart, of which the second
/// has none.
pub open spec fn differ_in_rules(ruled: ChannelConfig, free: ChannelConfig) -> bool {
    &&& ruled.nominal_item_secs == free.nominal_item_secs
    &&& ruled.guide == free.guide
    &&& ruled.groups@ == free.groups@
    &&& ruled.blocks@.len() == free.blocks@.len()
    &&& forall|i: int|
        #![trigger ruled.blocks@[i]]
        #![trigger free.blocks@[i]]
        0 <= i < ruled.blocks@.len() ==> free.blocks@[i] == (BlockInclude {
            constraints: None,
            ..ruled.blocks@[i]
        })
}

proof fn lemma_laid_alike(ruled: ChannelConfig, free: ChannelConfig, inputs: Inputs, n: int)
    requires
        differ_in_rules(ruled, free),
        plays_entries(ruled),
        0 <= n <= ruled.blocks@.len(),
    ensures
        match (laid(ruled, inputs, n), laid(free, inputs, n)) {
            (Ok(a), Ok(b)) => {
                &&& a.items == b.items
                &&& a.spans == b.spans
                &&& !a.draws && !b.draws
                &&& a.limits.len() == a.items.len()
                &&& b.limits.len() == b.items.len()
                &&& !any_rule(b.limits)
                &&& a.spans.len() == n
            },
            (Err(e), Err(f)) => e == f,
            _ => false,
        },
    decreases n,
{
    if n > 0 {
        lemma_laid_alike(ruled, free, inputs, n - 1);
        let block = ruled.blocks@[n - 1];
        let bare = free.blocks@[n - 1];
        assert(!block.draws());
        assert(bare == (BlockInclude { constraints: None, ..block }));
        assert(block_items(block, (n - 1) as usize, ruled.groups@, ruled.guide, inputs)
            == block_items(bare, (n - 1) as usize, free.groups@, free.guide, inputs));
    }
}

/// Whether a channel's list, played after what aired lately, breaks none of its rules: every
/// item may follow what stands before it. The first item does not follow the last.
pub open spec fn keeps_its_rules(config: ChannelConfig, inputs: Inputs, w: Windowed) -> bool {
    let length = nominal(config.nominal_item_secs) as u64;
    let timed = any_timed(w.limits);
    let tail = inputs.state.tail@;
    let own = all_keys(
        inputs.catalog,
        item_ids(w.items),
        w.fields,
        if timed {
            estimates(inputs.catalog, w.items, length)
        } else {
            Seq::empty()
        },
        w.items.len() as int,
    );
    let before = all_keys(
        inputs.catalog,
        texts(tail),
        Seq::new(tail.len(), |i: int| first_field(w.fields)),
        if timed {
            tail_estimates(inputs.catalog, tail, length)
        } else {
            Seq::empty()
        },
        tail.len() as int,
    );
    match (own, before) {
        (Ok(list), Ok(past)) => violations(list, w.limits, upto(w.items.len()), past) == 0,
        _ => false,
    }
}

/// The list that a channel cuts to the window, before its rules are kept.
pub open spec fn cut_list(config: ChannelConfig, inputs: Inputs) -> Windowed {
    cut(config, inputs, laid(config, inputs, config.blocks@.len() as int)->Ok_0)->Ok_0
}

/// A list that keeps its rules already is left as it is.
proof fn lemma_left_alone(config: ChannelConfig, inputs: Inputs, w: Windowed)
    requires
        keeps_its_rules(config, inputs, w),
    ensures
        separated(config, inputs, w) == Ok::<Seq<ItemModel>, ConfigFault>(w.items),
{
    if any_rule(w.limits) {
        let length = nominal(config.nominal_item_secs) as u64;
        let timed = any_timed(w.limits);
        let tail = inputs.state.tail@;
        let lengths = if timed {
            estimates(inputs.catalog, w.items, length)
        } else {
            Seq::empty()
        };
        let past = if timed {
            tail_estimates(inputs.catalog, tail, length)
        } else {
            Seq::empty()
        };
        let own = all_keys(
            inputs.catalog,
            item_ids(w.items),
            w.fields,
            lengths,
            w.items.len() as int,
        )->Ok_0;
        let before = all_keys(
            inputs.catalog,
            texts(tail),
            Seq::new(tail.len(), |i: int| first_field(w.fields)),
            past,
            tail.len() as int,
        )->Ok_0;
        a_legal_list_is_left_alone(own, w.limits, upto(w.items.len()), before);
        assert(at_positions(w.items, upto(w.items.len())) =~= w.items);
    }
}

/// How a resolution that succeeds came about, and when another over the same catalog does.
proof fn lemma_generation(
    config: ChannelConfig,
    inputs: Inputs,
    other: ChannelConfig,
    others: Inputs,
)
    requires
        generation(config, inputs) is Ok,
        others.catalog == inputs.catalog,
        other.groups@ == config.groups@,
    ensures
        ({
            let l = laid(config, inputs, config.blocks@.len() as int);
            let w = cut_list(config, inputs);
            let g = generation(config, inputs)->Ok_0;
            &&& l is Ok
            &&& cut(config, inputs, l->Ok_0) is Ok
            &&& w.items.len() > 0
            &&& separated(config, inputs, w) == Ok::<Seq<ItemModel>, ConfigFault>(g.items)
            &&& g.position == w.position
        }),
        ({
            let l = laid(other, others, other.blocks@.len() as int);
            let w = cut_list(other, others);
            &&& l is Ok
            &&& cut(other, others, l->Ok_0) is Ok
            &&& w.items.len() > 0
            &&& separated(other, others, w) is Ok
        }) ==> {
            let w = cut_list(other, others);
            generation(other, others) == Ok::<Generation, ConfigFault>(
                Generation { items: separated(other, others, w)->Ok_0, position: w.position },
            )
        },
{
}

proof fn lemma_cut_alike(
    ruled: ChannelConfig,
    free: ChannelConfig,
    inputs: Inputs,
    l: Laid,
    m: Laid,
)
    requires
        ruled.nominal_item_secs == free.nominal_item_secs,
        !l.draws && !m.draws,
        l.items == m.items,
        l.spans == m.spans,
        l.limits.len() == l.items.len(),
        m.limits.len() == m.items.len(),
        !any_rule(m.limits),
    ensures
        cut(ruled, inputs, l) is Ok,
        cut(free, inputs, m) is Ok,
        ({
            let w = cut(ruled, inputs, l)->Ok_0;
            let v = cut(free, inputs, m)->Ok_0;
            &&& w.items == v.items
            &&& w.position == v.position
            &&& w.limits.len() == w.items.len()
            &&& v.limits.len() == v.items.len()
            &&& !any_rule(v.limits)
        }),
{
    lemma_windowed_lengths(ruled, inputs, l);
    lemma_windowed_lengths(free, inputs, m);
}

/// Without its rules, a channel of entries resolves to what it cuts to the window.
proof fn lemma_without_rules(ruled: ChannelConfig, free: ChannelConfig, inputs: Inputs)
    requires
        differ_in_rules(ruled, free),
        plays_entries(ruled),
        generation(ruled, inputs) is Ok,
    ensures
        ({
            let w = cut_list(ruled, inputs);
            &&& w.limits.len() == w.items.len()
            &&& generation(free, inputs) == Ok::<Generation, ConfigFault>(
                Generation { items: w.items, position: w.position },
            )
        }),
{
    let n = ruled.blocks@.len() as int;
    lemma_laid_alike(ruled, free, inputs, n);
    lemma_generation(ruled, inputs, free, inputs);
    let l = laid(ruled, inputs, n)->Ok_0;
    let m = laid(free, inputs, n)->Ok_0;
    lemma_cut_alike(ruled, free, inputs, l, m);
    let v = cut_list(free, inputs);
    assert(separated(free, inputs, v) == Ok::<Seq<ItemModel>, ConfigFault>(v.items));
}

/// A rule that keeps items apart changes their order and nothing else: a channel of entries
/// resolves to the items that it resolves to without its rules, each of them once, even where
/// the rules cannot be kept, and the next generation starts at the same place. A list that
/// keeps the rules already, after what aired lately, is left as it is.
pub proof fn rules_only_reorder(ruled: ChannelConfig, free: ChannelConfig, inputs: Inputs)
    requires
        differ_in_rules(ruled, free),
        plays_entries(ruled),
        generation(ruled, inputs) is Ok,
    ensures
        generation(free, inputs) is Ok,
        ({
            let kept = generation(ruled, inputs)->Ok_0;
            let plain = generation(free, inputs)->Ok_0;
            &&& kept.position == plain.position
            &&& exists|order: Seq<int>|
                #![trigger at_positions(plain.items, order)]
                is_selection(order, plain.items.len() as int) && order.len() == plain.items.len()
                    && kept.items == at_positions(plain.items, order)
            &&& keeps_its_rules(ruled, inputs, cut_list(ruled, inputs)) ==> kept.items
                == plain.items
        }),
{
    let w = cut_list(ruled, inputs);
    let kept = generation(ruled, inputs)->Ok_0;
    lemma_without_rules(ruled, free, inputs);
    lemma_generation(ruled, inputs, free, inputs);
    separating_keeps_every_item(ruled, inputs, w);
    let order = choose|order: Seq<int>|
        #![trigger at_positions(w.items, order)]
        is_selection(order, w.items.len() as int) && order.len() == w.items.len() && kept.items
            == at_positions(w.items, order);
    assert(kept.items == at_positions(generation(free, inputs)->Ok_0.items, order));
    if keeps_its_rules(ruled, inputs, w) {
        lemma_left_alone(ruled, inputs, w);
    }
}

/// A channel of entries is cut as one loop: where a window takes some of it, those are the
/// items from where it stands on, round and round.
proof fn lemma_windowed_lengths(config: ChannelConfig, inputs: Inputs, l: Laid)
    requires
        !l.draws,
        l.limits.len() == l.items.len(),
    ensures
        cut(config, inputs, l) is Ok,
        ({
            let w = cut(config, inputs, l)->Ok_0;
            let total = l.items.len() as int;
            &&& w.limits.len() == w.items.len()
            &&& !any_rule(l.limits) ==> !any_rule(w.limits)
            &&& total > 0 && l.spans.len() > 0 ==> {
                let start = inputs.state.resume.position as int % total;
                let n = w.items.len() as int;
                &&& 0 <= start < total
                &&& 1 <= n <= total
                &&& w.items == at_positions(l.items, looped(0, total, start, n as nat))
                &&& w.position == (start + n) % total
            }
        }),
{
    let total = l.items.len() as int;
    let w = cut(config, inputs, l)->Ok_0;
    if total > 0 && l.spans.len() > 0 {
        let start = inputs.state.resume.position as int % total;
        vstd::arithmetic::div_mod::lemma_mod_bound(
            inputs.state.resume.position as int,
            total,
        );
        let length = nominal(config.nominal_item_secs) as u64;
        let span = l.items.subrange(0, total);
        let taken = window_take(span, start, inputs.fill, inputs.catalog, length);
        lemma_taken(span, start, inputs.fill, inputs.catalog, length);
        let order = cut_order(total, 0, total, start, taken as nat);
        let turn = looped(0, total, start, taken as nat);
        assert(order =~= turn);
        assert forall|k: int| 0 <= k < turn.len() implies 0 <= #[trigger] turn[k] < total by {
            vstd::arithmetic::div_mod::lemma_mod_bound(start + k, total);
        }
        if !any_rule(l.limits) {
            assert forall|k: int| 0 <= k < w.limits.len() implies (#[trigger] w.limits[k]).free() by {
                assert(w.limits[k] == l.limits[order[k]]);
                assert(0 <= turn[k] < total);
            }
        }
    }
}

proof fn lemma_taken(
    span: Seq<ItemModel>,
    start: int,
    fill: Option<u64>,
    catalog: Option<Catalog>,
    length: u64,
)
    requires
        span.len() > 0,
    ensures
        1 <= window_take(span, start, fill, catalog, length) <= span.len(),
{
    if let Some(f) = fill {
        let turned = at_positions(span, looped(0, span.len() as int, start, span.len()));
        a_window_is_covered_once(estimates(catalog, turned, length), f);
    }
}

/// Whether the entries of a block resolve to one list whatever the seed is: nothing in it is
/// put in an order of the catalog's.
pub open spec fn is_seedless(block: BlockInclude) -> bool {
    &&& block.order == Some(Order::Manual)
    &&& forall|i: int|
        0 <= i < block.entries@.len() ==> match #[trigger] block.entries@[i] {
            BlockEntry::Query(query) => query.order is None,
            _ => true,
        }
    &&& match block.fallback {
        Some(Fallback::Query(query)) => query.order is None,
        _ => true,
    }
}

/// Whether two resolutions of a channel start from the same entries: the same catalog and the
/// same paths, and the same seed where a seed counts. What aired, where the channel stands and
/// what it has to fill may differ.
pub open spec fn same_entries(config: ChannelConfig, first: Inputs, second: Inputs) -> bool {
    &&& first.catalog == second.catalog
    &&& first.roots == second.roots
    &&& first.index == second.index
    &&& first.seed == second.seed || forall|i: int|
        0 <= i < config.blocks@.len() ==> is_seedless(#[trigger] config.blocks@[i])
}

proof fn lemma_seedless_entries(
    catalog: Option<Catalog>,
    entries: Seq<BlockEntry>,
    around: Surroundings,
    seed: u64,
)
    requires
        forall|i: int|
            0 <= i < entries.len() ==> match #[trigger] entries[i] {
                BlockEntry::Query(query) => query.order is None,
                _ => true,
            },
    ensures
        all_entries(catalog, entries, around) == all_entries(
            catalog,
            entries,
            Surroundings { seed, ..around },
        ),
    decreases entries.len(),
{
    if entries.len() > 0 {
        assert forall|i: int| 0 <= i < entries.drop_last().len() implies match
            #[trigger] entries.drop_last()[i] {
            BlockEntry::Query(query) => query.order is None,
            _ => true,
        } by {
            assert(entries.drop_last()[i] == entries[i]);
        }
        lemma_seedless_entries(catalog, entries.drop_last(), around, seed);
        assert(entries.last() == entries[entries.len() - 1]);
    }
}

proof fn lemma_same_laid(config: ChannelConfig, first: Inputs, second: Inputs, n: int)
    requires
        plays_entries(config),
        is_unruled(config),
        same_entries(config, first, second),
        0 <= n <= config.blocks@.len(),
    ensures
        laid(config, first, n) == laid(config, second, n),
        laid(config, first, n) matches Ok(l) ==> {
            &&& !l.draws
            &&& l.limits.len() == l.items.len()
            &&& !any_rule(l.limits)
            &&& l.spans.len() == n
        },
    decreases n,
{
    if n > 0 {
        lemma_same_laid(config, first, second, n - 1);
        let block = config.blocks@[n - 1];
        assert(!block.draws());
        assert(block.constraints is None);
        if first.seed != second.seed {
            assert(is_seedless(block));
            let around = Surroundings {
                defaults: own_program(block),
                guide: guide_over(block.guide, config.guide),
                seed: first.seed,
                roots: first.roots,
                index: first.index,
            };
            lemma_seedless_entries(first.catalog, block.entries@, around, second.seed);
        }
        assert(block_items(block, (n - 1) as usize, config.groups@, config.guide, first)
            == block_items(block, (n - 1) as usize, config.groups@, config.guide, second));
    }
}

proof fn lemma_resumes_nothing(
    config: ChannelConfig,
    inputs: Inputs,
    n: int,
    table: Seq<(String, PoolResume)>,
)
    requires
        plays_entries(config),
        n <= config.blocks@.len(),
        resumes(config, inputs, n, table),
    ensures
        table.len() == 0,
    decreases n,
{
    if n > 0 {
        let block = config.blocks@[n - 1];
        assert(!block.draws());
        let (earlier, own) = choose|
            earlier: Seq<(String, PoolResume)>,
            own: Seq<(String, PoolResume)>,
        |
            #![trigger put_all(earlier, own)]
            resumes(config, inputs, n - 1, earlier) && block_table(
                block,
                n - 1,
                config.groups@,
                inputs,
                own,
            ) && table == put_all(earlier, own);
        lemma_resumes_nothing(config, inputs, n - 1, earlier);
    }
}

/// Two windows that follow one another play a channel of entries straight through. With `list`
/// all that its entries resolve to, and `position` where it stood, the items of the first
/// window and then of the second are those of the list from that place on, round and round:
/// none is skipped at the seam and none is played again. Each window plays at least one item
/// and no more than the list holds, the second stands where the first stopped, and nothing is
/// left to resume from but that place.
pub proof fn two_windows_play_straight_on(config: ChannelConfig, first: Inputs, second: Inputs)
    requires
        plays_entries(config),
        is_unruled(config),
        same_entries(config, first, second),
        generation(config, first) matches Ok(g) && second.state.resume.position == g.position,
    ensures
        generation(config, second) is Ok,
        ({
            let list = laid(config, first, config.blocks@.len() as int)->Ok_0.items;
            let total = list.len() as int;
            let position = first.state.resume.position as int;
            let a = generation(config, first)->Ok_0;
            let b = generation(config, second)->Ok_0;
            &&& 1 <= a.items.len() <= total
            &&& 1 <= b.items.len() <= total
            &&& forall|k: int|
                0 <= k < a.items.len() + b.items.len() ==> #[trigger] (a.items + b.items)[k]
                    == list[(position + k) % total]
            &&& a.position == (position + a.items.len()) % total
            &&& b.position == (position + a.items.len() + b.items.len()) % total
        }),
        forall|table: Seq<(String, PoolResume)>|
            #[trigger] resumes(config, first, config.blocks@.len() as int, table) ==> table.len()
                == 0,
{
    let n = config.blocks@.len() as int;
    lemma_same_laid(config, first, second, n);
    lemma_generation(config, first, config, second);
    let l = laid(config, first, n)->Ok_0;
    let total = l.items.len() as int;
    let v = cut_list(config, first);
    let w = cut_list(config, second);
    lemma_windowed_lengths(config, first, l);
    lemma_windowed_lengths(config, second, l);
    separating_keeps_every_item(config, first, v);
    separating_keeps_every_item(config, second, w);
    if total == 0 {
        lemma_cut_of_nothing(config, first, l);
    }
    let position = first.state.resume.position as int;
    lemma_straight_on(l.items, position, v.items.len(), w.items.len());
    assert forall|table: Seq<(String, PoolResume)>|
        #[trigger] resumes(config, first, n, table) implies table.len() == 0 by {
        lemma_resumes_nothing(config, first, n, table);
    }
}

/// A list that holds nothing is cut to nothing.
proof fn lemma_cut_of_nothing(config: ChannelConfig, inputs: Inputs, l: Laid)
    requires
        !l.draws,
        l.limits.len() == l.items.len(),
        l.items.len() == 0,
    ensures
        cut(config, inputs, l)->Ok_0.items.len() == 0,
{
}

/// A loop played on from where it stands, and then from where that stops.
proof fn lemma_straight_on(list: Seq<ItemModel>, position: int, m: nat, k: nat)
    requires
        list.len() > 0,
        0 <= position,
    ensures
        ({
            let total = list.len() as int;
            let start = position % total;
            let next = (start + m) % total;
            let a = at_positions(list, looped(0, total, start, m));
            let b = at_positions(list, looped(0, total, next % total, k));
            &&& next % total == next
            &&& next == (position + m) % total
            &&& (next + k) % total == (position + m + k) % total
            &&& forall|i: int|
                0 <= i < m + k ==> #[trigger] (a + b)[i] == list[(position + i) % total]
        }),
{
    let total = list.len() as int;
    let start = position % total;
    let next = (start + m) % total;
    vstd::arithmetic::div_mod::lemma_mod_bound(position, total);
    vstd::arithmetic::div_mod::lemma_mod_bound(start + m, total);
    vstd::arithmetic::div_mod::lemma_small_mod(next as nat, total as nat);
    vstd::arithmetic::div_mod::lemma_add_mod_noop_right(m as int, position, total);
    vstd::arithmetic::div_mod::lemma_add_mod_noop_right(k as int, position + m, total);
    windows_continue_without_gap_or_repeat(0, total, start, m, k);
    let turn = looped(0, total, start, m + k);
    let a = at_positions(list, looped(0, total, start, m));
    let b = at_positions(list, looped(0, total, next, k));
    assert forall|i: int| 0 <= i < m + k implies #[trigger] (a + b)[i]
        == list[(position + i) % total] by {
        vstd::arithmetic::div_mod::lemma_add_mod_noop_right(i, position, total);
        assert(turn[i] == (start + i) % total);
        if i >= m {
            assert((looped(0, total, start, m) + looped(0, total, next, k))[i] == turn[i]);
        }
    }
}

} // verus!
