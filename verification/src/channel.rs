//! Resolving a whole channel: its blocks one after the other, cut to the window, in an order
//! that keeps their adjacency rules.

use vstd::prelude::*;

use crate::catalog::Catalog;
use crate::constrain::{
    arranged, ints, keys, order_constrained, upto, Arrangement, ItemKeys, Key, Limits, RepeatGap,
};
use crate::fault::{ConfigError, ConfigFault, ErrorKind, Fault, ResolveError};
use crate::item::{item_ids, items, rows, unref, GuideConfig, ItemModel, ResolvedItem};
use crate::names::{put, put_entry, texts};
use crate::orders::{at_positions, is_selection, take_at};
use crate::pool::{field_ns, lemma_arranged_range, no_rule};
use crate::resolve::{
    block_items, block_table, missing_show, nominal, nominal_item_runtime, resolve_block,
    validate_groups_against_catalog, BlockInclude, ChannelConfig, Context, Inputs, Replies,
};
use crate::resume::{copy_pools, GenerationState, PoolResume, ResumeMap, ResumeModel};
use crate::window::{
    behind, cut_entries_window, cut_order, estimated_durations_for_ids, estimated_runtimes,
    estimates, tail_estimates, window_take, Cut,
};

verus! {

/// The blocks of a channel laid one after the other: the items, each with its rule and with
/// the field it separates on, and where the blocks of entries stand.
pub struct Laid {
    pub items: Seq<ItemModel>,
    pub limits: Seq<Limits>,
    pub fields: Seq<Option<String>>,
    pub spans: Seq<(int, int)>,
    /// Whether some block draws from pools.
    pub draws: bool,
}

/// The rule that the items of a block are ordered under. A block that draws from pools has
/// none: its pools are constrained where it is built.
pub open spec fn block_rule(block: BlockInclude) -> Limits {
    match (block.draws(), block.constraints) {
        (false, Some(table)) => table.rule(),
        _ => no_rule(),
    }
}

/// The field that the items of a block separate on.
pub open spec fn block_field(block: BlockInclude) -> Option<String> {
    match (block.draws(), block.constraints) {
        (false, Some(table)) => table.separate_by,
        _ => None,
    }
}

/// The first `n` blocks of a channel laid one after the other; the first one at fault
/// counts.
pub open spec fn laid(config: ChannelConfig, inputs: Inputs, n: int) -> Result<Laid, ConfigFault>
    decreases n,
{
    if n <= 0 {
        Ok(
            Laid {
                items: Seq::empty(),
                limits: Seq::empty(),
                fields: Seq::empty(),
                spans: Seq::empty(),
                draws: false,
            },
        )
    } else {
        match laid(config, inputs, n - 1) {
            Err(fault) => Err(fault),
            Ok(before) => {
                let block = config.blocks@[n - 1];
                match block_items(
                    block,
                    (n - 1) as usize,
                    config.groups@,
                    config.guide,
                    inputs,
                ) {
                    Err(fault) => Err(fault),
                    Ok(more) => Ok(
                        Laid {
                            items: before.items + more,
                            limits: before.limits + Seq::new(
                                more.len(),
                                |i: int| block_rule(block),
                            ),
                            fields: before.fields + Seq::new(
                                more.len(),
                                |i: int| block_field(block),
                            ),
                            spans: if block.draws() {
                                before.spans
                            } else {
                                before.spans.push(
                                    (
                                        before.items.len() as int,
                                        (before.items.len() + more.len()) as int,
                                    ),
                                )
                            },
                            draws: before.draws || block.draws(),
                        },
                    ),
                }
            },
        }
    }
}

/// A channel's list cut to the window, and the place in its loop where the next generation
/// starts.
pub struct Windowed {
    pub items: Seq<ItemModel>,
    pub limits: Seq<Limits>,
    pub fields: Seq<Option<String>>,
    pub position: int,
}

/// The stretch of a channel's list that is an authored loop: all of it when no block draws
/// from pools, else the one block of entries.
pub open spec fn loop_span(l: Laid) -> Option<(int, int)> {
    if l.spans.len() == 0 {
        None
    } else if !l.draws {
        Some((0, l.items.len() as int))
    } else if l.spans.len() == 1 {
        Some(l.spans[0])
    } else {
        None
    }
}

/// A list cut where a loop of it runs from `from` to `to`.
pub open spec fn windowed(
    l: Laid,
    from: int,
    to: int,
    position: usize,
    fill: Option<u64>,
    catalog: Option<Catalog>,
    nominal: u64,
) -> Windowed {
    if from >= to {
        Windowed { items: l.items, limits: l.limits, fields: l.fields, position: position as int }
    } else {
        let total = to - from;
        let start = position as int % total;
        let taken = window_take(l.items.subrange(from, to), start, fill, catalog, nominal);
        let order = cut_order(l.items.len() as int, from, to, start, taken as nat);
        Windowed {
            items: at_positions(l.items, order),
            limits: at_positions(l.limits, order),
            fields: at_positions(l.fields, order),
            position: (start + taken) % total,
        }
    }
}

/// A channel's list cut to the window. Several blocks of entries beside a block that draws
/// from pools have no one loop to continue, and are refused.
pub open spec fn cut(config: ChannelConfig, inputs: Inputs, l: Laid) -> Result<
    Windowed,
    ConfigFault,
> {
    if l.spans.len() > 1 && l.draws {
        Err(
            ConfigFault::of_channel(
                ErrorKind::Unsupported,
                Fault::MixedBlocks { count: l.spans.len() as usize },
            ),
        )
    } else {
        match loop_span(l) {
            None => Ok(
                Windowed { items: l.items, limits: l.limits, fields: l.fields, position: 0 },
            ),
            Some((from, to)) => Ok(
                windowed(
                    l,
                    from,
                    to,
                    inputs.state.resume.position,
                    inputs.fill,
                    inputs.catalog,
                    nominal(config.nominal_item_secs) as u64,
                ),
            ),
        }
    }
}

/// What the adjacency rule compares of one item.
pub open spec fn adjacency_key(
    catalog: Option<Catalog>,
    id: Seq<char>,
    field: Option<String>,
    duration: nat,
) -> Result<Key, ConfigFault> {
    match field {
        None => Ok(Key { id, group: Seq::empty(), duration }),
        Some(f) => match (field_ns(f@), catalog) {
            (None, _) => Err(
                ConfigFault::of_channel(ErrorKind::Validation, Fault::UnknownField { field: f }),
            ),
            (Some(_), None) => Err(
                ConfigFault::of_channel(
                    ErrorKind::Unsupported,
                    Fault::FieldNeedsCatalog { field: f },
                ),
            ),
            (Some(ns), Some(c)) => Ok(Key { id, group: c.tags(id, ns), duration }),
        },
    }
}

/// What the adjacency rule compares of the first `n` items of a list; the first one at fault
/// counts. Where no lengths are given, every item runs for no time.
pub open spec fn all_keys(
    catalog: Option<Catalog>,
    ids: Seq<Seq<char>>,
    fields: Seq<Option<String>>,
    durations: Seq<u64>,
    n: int,
) -> Result<Seq<Key>, ConfigFault>
    decreases n,
{
    if n <= 0 {
        Ok(Seq::empty())
    } else {
        match all_keys(catalog, ids, fields, durations, n - 1) {
            Err(fault) => Err(fault),
            Ok(earlier) => match adjacency_key(
                catalog,
                ids[n - 1],
                fields[n - 1],
                if n - 1 < durations.len() {
                    durations[n - 1] as nat
                } else {
                    0
                },
            ) {
                Err(fault) => Err(fault),
                Ok(key) => Ok(earlier.push(key)),
            },
        }
    }
}

proof fn lemma_all_keys_err(
    catalog: Option<Catalog>,
    ids: Seq<Seq<char>>,
    fields: Seq<Option<String>>,
    durations: Seq<u64>,
    i: int,
    n: int,
)
    requires
        0 <= i <= n,
        all_keys(catalog, ids, fields, durations, i) is Err,
    ensures
        all_keys(catalog, ids, fields, durations, n) == all_keys(
            catalog,
            ids,
            fields,
            durations,
            i,
        ),
    decreases n - i,
{
    if i < n {
        lemma_all_keys_err(catalog, ids, fields, durations, i, n - 1);
    }
}

/// What the adjacency rule compares of each item of a list: its identity, the values of the
/// field it separates on, and, where lengths are given, how long it runs.
pub fn adjacency_keys(
    ids: &Vec<String>,
    fields: &Vec<Option<String>>,
    durations: &Vec<u64>,
    catalog: Option<&Catalog>,
) -> (out: Result<Vec<ItemKeys>, ConfigError>)
    requires
        ids.len() == fields.len(),
    ensures
        match (out, all_keys(
            behind(catalog),
            texts(ids@),
            fields@,
            durations@,
            ids@.len() as int,
        )) {
            (Ok(got), Ok(want)) => keys(got@) == want && got.len() == ids.len(),
            (Err(got), Err(want)) => got@ == want,
            _ => false,
        },
{
    let ghost all = texts(ids@);
    let mut out: Vec<ItemKeys> = Vec::new();
    let mut i: usize = 0;
    assert(keys(out@) =~= Seq::<Key>::empty());
    while i < ids.len()
        invariant
            i <= ids.len(),
            out.len() == i,
            all == texts(ids@),
            ids.len() == fields.len(),
            all_keys(behind(catalog), all, fields@, durations@, i as int) == Ok::<
                Seq<Key>,
                ConfigFault,
            >(keys(out@)),
        decreases ids.len() - i,
    {
        let ghost before = keys(out@);
        assert(all[i as int] == ids@[i as int]@);
        let duration: u64 = if i < durations.len() {
            durations[i]
        } else {
            0
        };
        let group: Vec<String> = match &fields[i] {
            None => Vec::new(),
            Some(f) => match (crate::catalog::TagNs::for_separate_by(f), catalog) {
                (None, _) => {
                    proof {
                        lemma_all_keys_err(
                            behind(catalog),
                            all,
                            fields@,
                            durations@,
                            i + 1,
                            ids@.len() as int,
                        );
                    }
                    return Err(
                        ConfigError::of_channel(
                            ErrorKind::Validation,
                            ResolveError::UnknownField { field: f.clone() },
                        ),
                    );
                },
                (Some(_), None) => {
                    proof {
                        lemma_all_keys_err(
                            behind(catalog),
                            all,
                            fields@,
                            durations@,
                            i + 1,
                            ids@.len() as int,
                        );
                    }
                    return Err(
                        ConfigError::of_channel(
                            ErrorKind::Unsupported,
                            ResolveError::FieldNeedsCatalog { field: f.clone() },
                        ),
                    );
                },
                (Some(ns), Some(c)) => c.tags_for(&ids[i], ns),
            },
        };
        let ghost values = group@;
        out.push(ItemKeys { id: ids[i].clone(), group, duration });
        assert(keys(out@) =~= before.push(
            Key { id: ids@[i as int]@, group: values, duration: duration as nat },
        ));
        i += 1;
    }
    Ok(out)
}

/// Whether some rule of a list forbids anything.
pub open spec fn any_rule(limits: Seq<Limits>) -> bool {
    exists|i: int| 0 <= i < limits.len() && !(#[trigger] limits[i]).free()
}

/// Whether some rule of a list is measured in time.
pub open spec fn any_timed(limits: Seq<Limits>) -> bool {
    exists|i: int| 0 <= i < limits.len() && (#[trigger] limits[i]).no_repeat is Duration
}

/// The first field of a list that names one.
pub open spec fn first_field(fields: Seq<Option<String>>) -> Option<String>
    decreases fields.len(),
{
    if fields.len() == 0 {
        None
    } else if fields[0] is Some {
        fields[0]
    } else {
        first_field(fields.drop_first())
    }
}

/// A channel's list in an order that keeps its adjacency rules, as far as that goes; what
/// aired lately counts before it.
pub open spec fn separated(config: ChannelConfig, inputs: Inputs, w: Windowed) -> Result<
    Seq<ItemModel>,
    ConfigFault,
> {
    if !any_rule(w.limits) {
        Ok(w.items)
    } else {
        let length = nominal(config.nominal_item_secs) as u64;
        let timed = any_timed(w.limits);
        let lengths = if timed {
            estimates(inputs.catalog, w.items, length)
        } else {
            Seq::empty()
        };
        let tail = inputs.state.tail@;
        let past = if timed {
            tail_estimates(inputs.catalog, tail, length)
        } else {
            Seq::empty()
        };
        let field = first_field(w.fields);
        match all_keys(
            inputs.catalog,
            item_ids(w.items),
            w.fields,
            lengths,
            w.items.len() as int,
        ) {
            Err(fault) => Err(fault),
            Ok(list) => match all_keys(
                inputs.catalog,
                texts(tail),
                Seq::new(tail.len(), |i: int| field),
                past,
                tail.len() as int,
            ) {
                Err(fault) => Err(fault),
                Ok(before) => Ok(
                    at_positions(
                        w.items,
                        arranged(list, w.limits, upto(w.items.len()), before),
                    ),
                ),
            },
        }
    }
}

/// A resolved channel: its items, and the place in its loop where the next generation
/// starts.
pub struct Generation {
    pub items: Seq<ItemModel>,
    pub position: int,
}

/// What a channel resolves to.
pub open spec fn generation(config: ChannelConfig, inputs: Inputs) -> Result<
    Generation,
    ConfigFault,
> {
    let missing = match inputs.catalog {
        Some(c) => missing_show(c, config.groups@, 0, 0),
        None => None,
    };
    match missing {
        Some(fault) => Err(ConfigFault::of_channel(ErrorKind::Validation, fault)),
        None => match laid(config, inputs, config.blocks@.len() as int) {
            Err(fault) => Err(fault),
            Ok(l) => match cut(config, inputs, l) {
                Err(fault) => Err(fault),
                Ok(w) => if w.items.len() == 0 {
                    Err(ConfigFault::of_channel(ErrorKind::Validation, Fault::ZeroItems))
                } else {
                    match separated(config, inputs, w) {
                        Err(fault) => Err(fault),
                        Ok(list) => Ok(Generation { items: list, position: w.position }),
                    }
                },
            },
        },
    }
}

/// A table with the rows of another put into it.
pub open spec fn put_all(
    table: Seq<(String, PoolResume)>,
    more: Seq<(String, PoolResume)>,
) -> Seq<(String, PoolResume)>
    decreases more.len(),
{
    if more.len() == 0 {
        table
    } else {
        put(put_all(table, more.drop_last()), more.last().0, more.last().1)
    }
}

/// Whether a table is what the first `n` blocks of a channel leave to resume from, the pools
/// of a later block replacing those of an earlier with the same name.
pub open spec fn resumes(
    config: ChannelConfig,
    inputs: Inputs,
    n: int,
    table: Seq<(String, PoolResume)>,
) -> bool
    decreases n,
{
    if n <= 0 {
        table.len() == 0
    } else {
        exists|earlier: Seq<(String, PoolResume)>, own: Seq<(String, PoolResume)>|
            #![trigger put_all(earlier, own)]
            resumes(config, inputs, n - 1, earlier) && block_table(
                config.blocks@[n - 1],
                n - 1,
                config.groups@,
                inputs,
                own,
            ) && table == put_all(earlier, own)
    }
}

/// The blocks of a channel laid one after the other, with what they leave to resume from.
#[derive(Debug)]
struct Lay {
    items: Vec<ResolvedItem>,
    limits: Vec<Limits>,
    fields: Vec<Option<String>>,
    spans: Vec<(usize, usize)>,
    draws: bool,
    table: Vec<(String, PoolResume)>,
}

/// Stretches of a list as mathematical values.
pub open spec fn stretches(spans: Seq<(usize, usize)>) -> Seq<(int, int)> {
    spans.map_values(|s: (usize, usize)| (s.0 as int, s.1 as int))
}

impl View for Lay {
    type V = Laid;

    closed spec fn view(&self) -> Laid {
        Laid {
            items: items(self.items@),
            limits: self.limits@,
            fields: self.fields@,
            spans: stretches(self.spans@),
            draws: self.draws,
        }
    }
}

impl Lay {
    /// Every item has a rule and a field, and every stretch lies within the list.
    closed spec fn wf(self) -> bool {
        &&& self.items.len() == self.limits.len()
        &&& self.items.len() == self.fields.len()
        &&& forall|i: int|
            0 <= i < self.spans.len() ==> (#[trigger] self.spans@[i]).0 <= self.spans@[i].1
                <= self.items.len()
    }
}

proof fn lemma_laid_err(config: ChannelConfig, inputs: Inputs, i: int, n: int)
    requires
        0 <= i <= n,
        laid(config, inputs, i) is Err,
    ensures
        laid(config, inputs, n) == laid(config, inputs, i),
    decreases n - i,
{
    if i < n {
        lemma_laid_err(config, inputs, i, n - 1);
    }
}

/// Puts the rows of a table into another.
fn extend_table(table: &mut Vec<(String, PoolResume)>, more: &Vec<(String, PoolResume)>)
    ensures
        final(table)@ == put_all(old(table)@, more@),
{
    let mut i: usize = 0;
    while i < more.len()
        invariant
            i <= more.len(),
            table@ == put_all(old(table)@, more@.take(i as int)),
        decreases more.len() - i,
    {
        put_entry(table, more[i].0.clone(), more[i].1.copy());
        i += 1;
        assert(more@.take(i as int).drop_last() =~= more@.take(i - 1));
    }
    assert(more@.take(i as int) =~= more@);
}

/// The rule of a block's items, and the field they separate on.
fn rule_of(block: &BlockInclude) -> (out: (Limits, Option<String>))
    ensures
        out.0 == block_rule(*block),
        out.1 == block_field(*block),
{
    let draws: bool = block.is_pattern() || block.is_sequencer();
    match (draws, &block.constraints) {
        (false, Some(table)) => (table.limits(), crate::item::copy_text(&table.separate_by)),
        _ => (Limits { no_repeat: RepeatGap::Positions(0), separate: 0 }, None),
    }
}

fn lay_block(
    lay: Lay,
    block: &BlockInclude,
    made: Vec<ResolvedItem>,
    own: Vec<(String, PoolResume)>,
) -> (out: Lay)
    requires
        lay.wf(),
    ensures
        out.wf(),
        out@ == (Laid {
            items: lay@.items + items(made@),
            limits: lay@.limits + Seq::new(made@.len(), |i: int| block_rule(*block)),
            fields: lay@.fields + Seq::new(made@.len(), |i: int| block_field(*block)),
            spans: if block.draws() {
                lay@.spans
            } else {
                lay@.spans.push(
                    (lay@.items.len() as int, (lay@.items.len() + made@.len()) as int),
                )
            },
            draws: lay@.draws || block.draws(),
        }),
        out.table@ == put_all(lay.table@, own@),
{
    let mut made: Vec<ResolvedItem> = made;
    let mut lay: Lay = lay;
    let ghost before = lay;
    let ghost fresh = made@;
    let draws: bool = block.is_pattern() || block.is_sequencer();
    let (rule, field): (Limits, Option<String>) = rule_of(block);
    let n: usize = made.len();
    let from: usize = lay.items.len();
    let mut i: usize = 0;
    while i < n
        invariant
            i <= n,
            lay.items@ == before.items@,
            lay.spans@ == before.spans@,
            lay.draws == before.draws,
            lay.table@ == before.table@,
            rule == block_rule(*block),
            field == block_field(*block),
            lay.limits@ =~= before.limits@ + Seq::new(i as nat, |i: int| block_rule(*block)),
            lay.fields@ =~= before.fields@ + Seq::new(i as nat, |i: int| block_field(*block)),
        decreases n - i,
    {
        lay.limits.push(rule);
        lay.fields.push(crate::item::copy_text(&field));
        i += 1;
    }
    lay.items.append(&mut made);
    assert(items(lay.items@) =~= items(before.items@) + items(fresh));
    let to: usize = lay.items.len();
    if !draws {
        lay.spans.push((from, to));
        assert(stretches(lay.spans@) =~= stretches(before.spans@).push((from as int, to as int)));
    }
    lay.draws = lay.draws || draws;
    extend_table(&mut lay.table, &own);
    assert(lay.wf()) by {
        assert forall|i: int| 0 <= i < lay.spans.len() implies (#[trigger] lay.spans@[i]).0
            <= lay.spans@[i].1 <= lay.items.len() by {
            if i < before.spans.len() {
                assert(lay.spans@[i] == before.spans@[i]);
            }
        }
    }
    lay
}

#[verifier::spinoff_prover]
#[verifier::rlimit(40)]
fn lay_blocks(config: &ChannelConfig, context: &Context<'_>) -> (out: Result<Lay, ConfigError>)
    ensures
        match (out, laid(*config, context@, config.blocks@.len() as int)) {
            (Ok(got), Ok(want)) => got@ == want && got.wf() && resumes(
                *config,
                context@,
                config.blocks@.len() as int,
                got.table@,
            ),
            (Err(got), Err(want)) => got@ == want,
            _ => false,
        },
{
    let guide: Option<&GuideConfig> = match &config.guide {
        Some(g) => Some(g),
        None => None,
    };
    let mut lay: Lay = Lay {
        items: Vec::new(),
        limits: Vec::new(),
        fields: Vec::new(),
        spans: Vec::new(),
        draws: false,
        table: Vec::new(),
    };
    assert(items(lay.items@) =~= Seq::<ItemModel>::empty());
    assert(stretches(lay.spans@) =~= Seq::<(int, int)>::empty());
    assert(lay@ == laid(*config, context@, 0)->Ok_0);
    let mut i: usize = 0;
    while i < config.blocks.len()
        invariant
            i <= config.blocks.len(),
            unref(guide) == config.guide,
            lay.wf(),
            laid(*config, context@, i as int) == Ok::<Laid, ConfigFault>(lay@),
            resumes(*config, context@, i as int, lay.table@),
        decreases config.blocks.len() - i,
    {
        match resolve_block(&config.blocks[i], i, &config.groups, guide, context) {
            Err(e) => {
                proof {
                    lemma_laid_err(*config, context@, i + 1, config.blocks@.len() as int);
                }
                return Err(e);
            },
            Ok((made, own)) => {
                let ghost earlier = lay.table@;
                let ghost rows = own@;
                lay = lay_block(lay, &config.blocks[i], made, own);
                assert(lay.table@ == put_all(earlier, rows));
                assert(resumes(*config, context@, i + 1, lay.table@));
            },
        }
        i += 1;
    }
    Ok(lay)
}

/// Whether some rule of a list forbids anything.
pub fn any_constrained(limits: &Vec<Limits>) -> (out: bool)
    ensures
        out == any_rule(limits@),
{
    let mut i: usize = 0;
    while i < limits.len()
        invariant
            i <= limits.len(),
            forall|j: int| 0 <= j < i ==> (#[trigger] limits@[j]).free(),
        decreases limits.len() - i,
    {
        if !limits[i].is_unconstrained() {
            assert(!limits@[i as int].free());
            return true;
        }
        i += 1;
    }
    false
}

fn any_in_time(limits: &Vec<Limits>) -> (out: bool)
    ensures
        out == any_timed(limits@),
{
    let mut i: usize = 0;
    while i < limits.len()
        invariant
            i <= limits.len(),
            forall|j: int| 0 <= j < i ==> !((#[trigger] limits@[j]).no_repeat is Duration),
        decreases limits.len() - i,
    {
        match limits[i].no_repeat {
            RepeatGap::Duration(_) => {
                assert(limits@[i as int].no_repeat is Duration);
                return true;
            },
            RepeatGap::Positions(_) => {},
        }
        i += 1;
    }
    false
}

fn find_field(fields: &Vec<Option<String>>) -> (out: Option<String>)
    ensures
        out == first_field(fields@),
{
    let mut i: usize = 0;
    assert(fields@.skip(0) =~= fields@);
    while i < fields.len()
        invariant
            i <= fields.len(),
            first_field(fields@) == first_field(fields@.skip(i as int)),
        decreases fields.len() - i,
    {
        assert(fields@.skip(i as int)[0] == fields@[i as int]);
        match &fields[i] {
            Some(f) => return Some(f.clone()),
            None => {},
        }
        assert(fields@.skip(i as int).drop_first() =~= fields@.skip(i + 1));
        i += 1;
    }
    None
}

fn separate(
    config: &ChannelConfig,
    context: &Context<'_>,
    list: Vec<ResolvedItem>,
    limits: &Vec<Limits>,
    fields: &Vec<Option<String>>,
    Ghost(position): Ghost<int>,
) -> (out: Result<Vec<ResolvedItem>, ConfigError>)
    requires
        list.len() == limits.len(),
        list.len() == fields.len(),
    ensures
        match (out, separated(
            *config,
            context@,
            Windowed { items: items(list@), limits: limits@, fields: fields@, position },
        )) {
            (Ok(got), Ok(want)) => items(got@) == want,
            (Err(got), Err(want)) => got@ == want,
            _ => false,
        },
{
    if !any_constrained(limits) {
        return Ok(list);
    }
    let length: u64 = nominal_item_runtime(config);
    let timed: bool = any_in_time(limits);
    let lengths: Vec<u64> = if timed {
        estimated_runtimes(&list, context.catalog, length)
    } else {
        Vec::new()
    };
    let mut ids: Vec<String> = Vec::new();
    let mut i: usize = 0;
    while i < list.len()
        invariant
            i <= list.len(),
            ids.len() == i,
            forall|j: int| 0 <= j < i ==> #[trigger] ids@[j] == list@[j].id,
        decreases list.len() - i,
    {
        ids.push(list[i].id.clone());
        i += 1;
    }
    assert(texts(ids@) =~= item_ids(items(list@)));
    let own: Vec<ItemKeys> = match adjacency_keys(&ids, fields, &lengths, context.catalog) {
        Ok(own) => own,
        Err(e) => return Err(e),
    };
    let tail: &Vec<String> = &context.state.tail;
    let past: Vec<u64> = if timed {
        estimated_durations_for_ids(tail, context.catalog, length)
    } else {
        Vec::new()
    };
    let field: Option<String> = find_field(fields);
    let mut same: Vec<Option<String>> = Vec::new();
    while same.len() < tail.len()
        invariant
            same.len() <= tail.len(),
            same@ =~= Seq::new(same@.len(), |i: int| field),
        decreases tail.len() - same.len(),
    {
        same.push(crate::item::copy_text(&field));
    }
    let before: Vec<ItemKeys> = match adjacency_keys(tail, &same, &past, context.catalog) {
        Ok(before) => before,
        Err(e) => return Err(e),
    };
    proof {
        lemma_arranged_range(keys(own@), limits@, list@.len(), keys(before@));
    }
    let result: Arrangement = order_constrained(&own, limits, &before);
    proof {
        assert(is_selection(ints(result.order@), list@.len() as int));
        assert(items(at_positions(list@, ints(result.order@))) =~= at_positions(
            items(list@),
            ints(result.order@),
        )) by {
            assert forall|j: int| 0 <= j < result.order.len() implies items(
                at_positions(list@, ints(result.order@)),
            )[j] == at_positions(items(list@), ints(result.order@))[j] by {
                assert(0 <= ints(result.order@)[j] < list@.len());
            }
        }
    }
    Ok(take_at(list, &result.order))
}

/// Cuts a channel's list to the window.
fn cut_lay(config: &ChannelConfig, context: &Context<'_>, lay: Lay) -> (out: Result<
    Cut,
    ConfigError,
>)
    requires
        lay.wf(),
    ensures
        match (out, cut(*config, context@, lay@)) {
            (Ok(got), Ok(want)) => {
                &&& want == (Windowed {
                    items: items(got.items@),
                    limits: got.limits@,
                    fields: got.fields@,
                    position: got.position as int,
                })
                &&& got.items.len() == got.limits.len()
                &&& got.items.len() == got.fields.len()
            },
            (Err(got), Err(want)) => got@ == want,
            _ => false,
        },
{
    let ghost l = lay@;
    let count: usize = lay.spans.len();
    if count > 1 && lay.draws {
        return Err(
            ConfigError::of_channel(
                ErrorKind::Unsupported,
                ResolveError::MixedBlocks { count },
            ),
        );
    }
    if count == 0 {
        return Ok(
            Cut { items: lay.items, limits: lay.limits, fields: lay.fields, position: 0 },
        );
    }
    let (from, to): (usize, usize) = if lay.draws {
        lay.spans[0]
    } else {
        (0, lay.items.len())
    };
    assert(l.spans[0] == (lay.spans@[0].0 as int, lay.spans@[0].1 as int));
    let ghost whole = lay.items@;
    let done: Cut = cut_entries_window(
        lay.items,
        lay.limits,
        lay.fields,
        from,
        to,
        context.state.resume.position,
        context.fill,
        context.catalog,
        nominal_item_runtime(config),
    );
    proof {
        lemma_cut_items(*config, context@, l, whole, from as int, to as int, done);
    }
    Ok(done)
}

/// Everything that a generation resolves a channel from, with the seed that the channel's
/// author pinned, where there is one.
pub open spec fn pinned(config: ChannelConfig, inputs: Inputs) -> Inputs {
    Inputs {
        seed: match config.seed {
            Some(seed) => seed,
            None => inputs.seed,
        },
        ..inputs
    }
}

/// Whether what a channel resolved to is what is wanted of it.
pub open spec fn same_generation(
    config: ChannelConfig,
    inputs: Inputs,
    out: Result<(Vec<ResolvedItem>, ResumeMap), ConfigError>,
) -> bool {
    match (out, generation(config, inputs)) {
        (Ok(got), Ok(want)) => {
            &&& items(got.0@) == want.items
            &&& got.1@ == (ResumeModel {
                pools: got.1.pools@,
                position: want.position,
                ..ResumeModel::fresh()
            })
            &&& resumes(config, inputs, config.blocks@.len() as int, got.1.pools@)
        },
        (Err(got), Err(want)) => got@ == want,
        _ => false,
    }
}

/// Resolves a channel: gives its items, and what the next generation resumes from.
///
/// The seed in `context` counts for a channel that pins none.
pub fn resolve_channel_with_resume(config: &ChannelConfig, context: &Context<'_>) -> (out: Result<
    (Vec<ResolvedItem>, ResumeMap),
    ConfigError,
>)
    ensures
        same_generation(*config, pinned(*config, context@), out),
{
    let seed: u64 = match config.seed {
        Some(seed) => seed,
        None => context.seed,
    };
    let context: Context<'_> = Context {
        catalog: context.catalog,
        replies: context.replies,
        state: context.state,
        seed,
        fill: context.fill,
        from: context.from,
        identity_roots: context.identity_roots,
        path_index: context.path_index,
        base_dir: context.base_dir,
    };
    match context.catalog {
        Some(c) => match validate_groups_against_catalog(c, &config.groups) {
            Ok(_) => {},
            Err(e) => return Err(e),
        },
        None => {},
    }
    let lay: Lay = match lay_blocks(config, &context) {
        Ok(lay) => lay,
        Err(e) => return Err(e),
    };
    let ghost l = lay@;
    let table: Vec<(String, PoolResume)> = copy_pools(&lay.table);
    let done: Cut = match cut_lay(config, &context, lay) {
        Ok(done) => done,
        Err(e) => return Err(e),
    };
    let list: Vec<ResolvedItem> = done.items;
    let limits: Vec<Limits> = done.limits;
    let fields: Vec<Option<String>> = done.fields;
    let position: usize = done.position;
    if list.len() == 0 {
        return Err(ConfigError::of_channel(ErrorKind::Validation, ResolveError::ZeroItems));
    }
    let ghost place = position as int;
    let out: Vec<ResolvedItem> = match separate(
        config,
        &context,
        list,
        &limits,
        &fields,
        Ghost(place),
    ) {
        Ok(out) => out,
        Err(e) => return Err(e),
    };
    let mut resume: ResumeMap = ResumeMap::new();
    resume.pools = table;
    resume.position = position;
    Ok((out, resume))
}

/// A list that was cut is, as mathematical values, the one that was wanted.
proof fn lemma_cut_items(
    config: ChannelConfig,
    inputs: Inputs,
    l: Laid,
    whole: Seq<ResolvedItem>,
    from: int,
    to: int,
    done: Cut,
)
    requires
        l.items == items(whole),
        0 <= from <= to <= whole.len(),
        from == to ==> done.items@ == whole && done.limits@ == l.limits && done.fields@ == l.fields
            && done.position == inputs.state.resume.position,
        from < to ==> ({
            let total = to - from;
            let start = inputs.state.resume.position as int % total;
            let taken = window_take(
                items(whole).subrange(from, to),
                start,
                inputs.fill,
                inputs.catalog,
                nominal(config.nominal_item_secs) as u64,
            );
            let order = cut_order(whole.len() as int, from, to, start, taken as nat);
            &&& 1 <= taken <= total
            &&& done.items@ == at_positions(whole, order)
            &&& done.limits@ == at_positions(l.limits, order)
            &&& done.fields@ == at_positions(l.fields, order)
            &&& done.position == (start + taken) % total
        }),
    ensures
        windowed(
            l,
            from,
            to,
            inputs.state.resume.position,
            inputs.fill,
            inputs.catalog,
            nominal(config.nominal_item_secs) as u64,
        ) == (Windowed {
            items: items(done.items@),
            limits: done.limits@,
            fields: done.fields@,
            position: done.position as int,
        }),
{
    if from < to {
        let total = to - from;
        let start = inputs.state.resume.position as int % total;
        let taken = window_take(
            items(whole).subrange(from, to),
            start,
            inputs.fill,
            inputs.catalog,
            nominal(config.nominal_item_secs) as u64,
        );
        let order = cut_order(whole.len() as int, from, to, start, taken as nat);
        vstd::arithmetic::div_mod::lemma_mod_bound(
            inputs.state.resume.position as int,
            total,
        );
        crate::window::lemma_cut_order(whole.len() as int, from, to, start, taken as nat);
        assert(items(at_positions(whole, order)) =~= at_positions(items(whole), order)) by {
            assert forall|j: int| 0 <= j < order.len() implies items(at_positions(whole, order))[j]
                == at_positions(items(whole), order)[j] by {
                assert(0 <= order[j] < whole.len());
            }
        }
    }
}

/// Whether a state says that nothing has played yet.
pub open spec fn is_unplayed(state: GenerationState) -> bool {
    state.resume@ == ResumeModel::fresh() && state.cursor@.len() == 0 && state.tail@.len() == 0
}

/// Resolves a channel as if nothing had played on it yet, and without a window to fill.
pub fn resolve_channel(
    config: &ChannelConfig,
    catalog: Option<&Catalog>,
    replies: &Vec<Replies>,
    identity_roots: &Vec<String>,
    path_index: Option<&Vec<(String, String)>>,
    base_dir: &str,
    seed: u64,
    now: i64,
) -> (out: Result<Vec<ResolvedItem>, ConfigError>)
    ensures
        exists|state: GenerationState| #[trigger]
            is_unplayed(state) && match (out, generation(
                *config,
                pinned(
                    *config,
                    Inputs {
                        catalog: behind(catalog),
                        replies: replies@,
                        state,
                        seed,
                        fill: None,
                        from: now,
                        roots: identity_roots@,
                        index: rows(path_index),
                        base: base_dir@,
                    },
                ),
            )) {
                (Ok(got), Ok(want)) => items(got@) == want.items,
                (Err(got), Err(want)) => got@ == want,
                _ => false,
            },
{
    let state: GenerationState = GenerationState::empty();
    let context: Context<'_> = Context {
        catalog,
        replies,
        state: &state,
        seed,
        fill: None,
        from: now,
        identity_roots,
        path_index,
        base_dir,
    };
    assert(is_unplayed(state));
    match resolve_channel_with_resume(config, &context) {
        Ok((list, _)) => Ok(list),
        Err(e) => Err(e),
    }
}

/// Keeping a channel's items apart loses none of them and repeats none of them; and a
/// channel that has no rule keeps its order.
pub proof fn separating_keeps_every_item(config: ChannelConfig, inputs: Inputs, w: Windowed)
    requires
        w.items.len() == w.limits.len(),
    ensures
        separated(config, inputs, w) matches Ok(list) ==> exists|order: Seq<int>|
            #![trigger at_positions(w.items, order)]
            is_selection(order, w.items.len() as int) && order.len() == w.items.len() && list
                == at_positions(w.items, order),
        !any_rule(w.limits) ==> separated(config, inputs, w) == Ok::<Seq<ItemModel>, ConfigFault>(
            w.items,
        ),
{
    let n = w.items.len();
    if !any_rule(w.limits) {
        assert(at_positions(w.items, upto(n)) =~= w.items);
    } else {
        assert forall|list: Seq<Key>, before: Seq<Key>|
            is_selection(
                #[trigger] arranged(list, w.limits, upto(n), before),
                n as int,
            ) && arranged(list, w.limits, upto(n), before).len() == n by {
            lemma_arranged_range(list, w.limits, n, before);
        }
    }
}

/// Cutting a loop to the window leaves what stands before and after it in the list as it
/// is: a block that draws from pools is untouched by the cut of a block of entries.
pub proof fn a_cut_touches_only_the_loop(
    l: Laid,
    from: int,
    to: int,
    position: usize,
    fill: Option<u64>,
    catalog: Option<Catalog>,
    nominal: u64,
)
    requires
        0 <= from <= to <= l.items.len(),
    ensures
        ({
            let w = windowed(l, from, to, position, fill, catalog, nominal);
            let n = w.items.len() as int;
            let rest = l.items.len() - to;
            &&& n >= from + rest
            &&& w.items.take(from) == l.items.take(from)
            &&& w.items.skip(n - rest) == l.items.skip(to)
        }),
{
    let w = windowed(l, from, to, position, fill, catalog, nominal);
    let n = w.items.len() as int;
    let rest = l.items.len() - to;
    assert(w.items.take(from) =~= l.items.take(from));
    assert(w.items.skip(n - rest) =~= l.items.skip(to));
}

} // verus!
