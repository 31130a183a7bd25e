//! How much of a pattern's schedule a window takes: as few whole cycles as cover it.

use vstd::prelude::*;

use crate::catalog::Catalog;
use crate::config::{Constraints, PatternStep, Pool, ShowGroup, Take, TakeFrom};
use crate::constrain::{
    arranged, clashes, clashes_at, first_fit, lemma_needed, look_back, needed, next_up, upto, Key,
    Limits, RepeatGap,
};
use crate::draw::{keys_of, PoolModel, RANDOM_REROLLS, REROLL_STRIDE};
use crate::fault::Fault;
use crate::pattern::{
    all_ready, all_steps, cycled, drain_cycles, longest_drain, per_cycle, pool_lists, pool_named,
    schedule, stepped, walked, PluginReply, Walk,
};
use crate::pool::{
    constrained, field_for, field_ns, lengths_for, limits_for, mean_length, pool_key, ready,
    same_limits, seam, settled, wants_lengths,
};
use crate::resume::GenerationState;
use crate::roll::RollKey;

verus! {

/// Whether two items are one to a rule that counts positions: the rule does not ask how long
/// an item runs.
pub open spec fn key_alike(a: Key, b: Key) -> bool {
    a.id == b.id && a.group == b.group
}

/// Whether two lists of items are one to a rule that counts positions.
pub open spec fn keys_alike(a: Seq<Key>, b: Seq<Key>) -> bool {
    &&& a.len() == b.len()
    &&& forall|i: int|
        #![trigger a[i]]
        #![trigger b[i]]
        0 <= i < a.len() ==> key_alike(a[i], b[i])
}

proof fn lemma_clashes_alike(
    a: Seq<Key>,
    b: Seq<Key>,
    id: Seq<char>,
    group: Seq<String>,
    limits: Limits,
)
    requires
        keys_alike(a, b),
        limits.no_repeat is Positions,
    ensures
        clashes(a, id, group, limits) == clashes(b, id, group, limits),
{
    assert forall|i: int| 0 <= i < a.len() implies #[trigger] clashes_at(a, i, id, group, limits)
        == #[trigger] clashes_at(b, i, id, group, limits) by {
        assert(key_alike(a[i], b[i]));
    }
    if clashes(a, id, group, limits) {
        let i = choose|i: int| 0 <= i < a.len() && #[trigger] clashes_at(a, i, id, group, limits);
        assert(clashes_at(b, i, id, group, limits));
    }
    if clashes(b, id, group, limits) {
        let i = choose|i: int| 0 <= i < b.len() && #[trigger] clashes_at(b, i, id, group, limits);
        assert(clashes_at(a, i, id, group, limits));
    }
}

proof fn lemma_look_back_alike(a: Seq<Key>, b: Seq<Key>, limits: Limits, k: int)
    requires
        keys_alike(a, b),
        limits.no_repeat is Positions,
    ensures
        look_back(a, limits, k) == look_back(b, limits, k),
    decreases a.len() - k,
{
    if 0 <= k < a.len() {
        lemma_look_back_alike(a, b, limits, k + 1);
    }
}

proof fn lemma_first_fit_alike(
    a: Seq<Key>,
    b: Seq<Key>,
    limits: Seq<Limits>,
    left: Seq<int>,
    pa: Seq<Key>,
    pb: Seq<Key>,
    at: int,
)
    requires
        keys_alike(a, b),
        keys_alike(pa, pb),
        0 <= at,
        forall|j: int|
            0 <= j < left.len() ==> 0 <= #[trigger] left[j] < a.len()
                && limits[left[j]].no_repeat is Positions,
    ensures
        first_fit(a, limits, left, pa, at) == first_fit(b, limits, left, pb, at),
    decreases left.len() - at,
{
    if at < left.len() {
        let i = left[at];
        assert(key_alike(a[i], b[i]));
        lemma_clashes_alike(pa, pb, a[i].id, a[i].group, limits[i]);
        lemma_first_fit_alike(a, b, limits, left, pa, pb, at + 1);
    }
}

proof fn lemma_arranged_alike(
    a: Seq<Key>,
    b: Seq<Key>,
    limits: Seq<Limits>,
    left: Seq<int>,
    pa: Seq<Key>,
    pb: Seq<Key>,
)
    requires
        keys_alike(a, b),
        keys_alike(pa, pb),
        forall|j: int|
            0 <= j < left.len() ==> 0 <= #[trigger] left[j] < a.len()
                && limits[left[j]].no_repeat is Positions,
    ensures
        arranged(a, limits, left, pa) == arranged(b, limits, left, pb),
    decreases left.len(),
{
    if left.len() > 0 {
        lemma_first_fit_alike(a, b, limits, left, pa, pb, 0);
        let at = next_up(a, limits, left, pa);
        if 0 <= at < left.len() {
            let i = left[at];
            assert(key_alike(a[i], b[i]));
            let qa = pa.push(a[i]);
            let qb = pb.push(b[i]);
            assert(keys_alike(qa, qb));
            let rest = left.remove(at);
            assert forall|j: int| 0 <= j < rest.len() implies 0 <= #[trigger] rest[j] < a.len()
                && limits[rest[j]].no_repeat is Positions by {
                let from = if j < at {
                    j
                } else {
                    j + 1
                };
                assert(rest[j] == left[from]);
            }
            lemma_arranged_alike(a, b, limits, rest, qa, qb);
        }
    }
}

/// Whether two pools draw alike: they differ at most in the lengths of their items, and only
/// where their rule does not ask for those.
pub open spec fn draws_alike(p: PoolModel, q: PoolModel) -> bool {
    &&& p.cfg == q.cfg
    &&& p.series == q.series
    &&& p.rotation == q.rotation
    &&& p.limits == q.limits
    &&& p.forced == q.forced
    &&& match p.limits.no_repeat {
        RepeatGap::Duration(_) => p.keys == q.keys && p.recent == q.recent,
        RepeatGap::Positions(_) => {
            &&& forall|id: Seq<char>|
                #![trigger (p.keys)(id)]
                #![trigger (q.keys)(id)]
                key_alike((p.keys)(id), (q.keys)(id))
            &&& keys_alike(p.recent, q.recent)
        },
    }
}

proof fn lemma_eligible_alike(p: PoolModel, q: PoolModel, si: int)
    requires
        draws_alike(p, q),
    ensures
        p.eligible(si) == q.eligible(si),
{
    let id = p.next_id(si)@;
    if p.limits.no_repeat is Positions {
        assert(key_alike((p.keys)(id), (q.keys)(id)));
        let key = (p.keys)(id);
        lemma_clashes_alike(p.recent, q.recent, key.id, key.group, p.limits);
    }
}

proof fn lemma_scan_alike(p: PoolModel, q: PoolModel, start: int, step: int)
    requires
        draws_alike(p, q),
    ensures
        p.scan(start, step) == q.scan(start, step),
    decreases p.series.len() - step,
{
    if step < p.series.len() {
        lemma_eligible_alike(p, q, (start + step) % (p.series.len() as int));
        lemma_scan_alike(p, q, start, step + 1);
    }
}

proof fn lemma_reroll_alike(p: PoolModel, q: PoolModel, roll: RollKey, nonce: u64, attempt: int)
    requires
        draws_alike(p, q),
    ensures
        p.reroll(roll, nonce, attempt) == q.reroll(roll, nonce, attempt),
    decreases RANDOM_REROLLS + 1 - attempt,
{
    if attempt <= RANDOM_REROLLS {
        let at = nonce.wrapping_add((attempt as u64).wrapping_mul(REROLL_STRIDE));
        lemma_eligible_alike(p, q, roll.roll(at) as int % (p.series.len() as int));
        lemma_reroll_alike(p, q, roll, nonce, attempt + 1);
    }
}

proof fn lemma_from_start_alike(p: PoolModel, q: PoolModel, start: int)
    requires
        draws_alike(p, q),
    ensures
        draws_alike(p.from_start(start).0, q.from_start(start).0),
        p.from_start(start).1 == q.from_start(start).1,
{
    lemma_scan_alike(p, q, start, 0);
}

proof fn lemma_opening_alike(p: PoolModel, q: PoolModel, roll: RollKey, nonce: u64)
    requires
        draws_alike(p, q),
    ensures
        draws_alike(p.opening(roll, nonce).0, q.opening(roll, nonce).0),
        p.opening(roll, nonce).1 == q.opening(roll, nonce).1,
{
    if let Some(first) = p.choice(roll, nonce) {
        lemma_eligible_alike(p, q, first);
        lemma_reroll_alike(p, q, roll, nonce, 1);
        lemma_from_start_alike(p, q, first);
    }
}

proof fn lemma_remembering_alike(p: PoolModel, q: PoolModel, ids: Seq<String>)
    requires
        draws_alike(p, q),
    ensures
        draws_alike(p.remembering(ids), q.remembering(ids)),
{
    if p.limits.no_repeat is Positions {
        let a = p.recent + keys_of(p.keys, ids);
        let b = q.recent + keys_of(q.keys, ids);
        assert forall|i: int|
            #![trigger a[i]]
            #![trigger b[i]]
            0 <= i < a.len() implies key_alike(a[i], b[i]) by {
            if i < p.recent.len() {
                assert(key_alike(p.recent[i], q.recent[i]));
            } else {
                let id = ids[i - p.recent.len()]@;
                assert(key_alike((p.keys)(id), (q.keys)(id)));
            }
        }
        lemma_look_back_alike(a, b, p.limits, 0);
        lemma_needed(a, p.limits);
        assert(keys_alike(a.skip(a.len() - needed(a, p.limits)), b.skip(b.len() - needed(b, p.limits))));
    }
}

proof fn lemma_relief_alike(p: PoolModel, q: PoolModel, si: int)
    requires
        draws_alike(p, q),
    ensures
        draws_alike(p.relief(si).0, q.relief(si).0),
        p.relief(si).1 == q.relief(si).1,
{
    lemma_from_start_alike(p, q, (si + 1) % (p.series.len() as int));
    lemma_eligible_alike(p, q, si);
}

proof fn lemma_fill_alike(p: PoolModel, q: PoolModel, si: int, want: int)
    requires
        draws_alike(p, q),
    ensures
        draws_alike(p.fill(si, want).pool, q.fill(si, want).pool),
        p.fill(si, want).out == q.fill(si, want).out,
        p.fill(si, want).owners == q.fill(si, want).owners,
    decreases want,
{
    let taken = p.draw(si, want);
    assert(q.draw(si, want) == taken);
    if want > 0 && taken.len() > 0 {
        let at = p.series[si].cursor + p.draw_len(si, want);
        assert(draws_alike(p.seated(si, at), q.seated(si, at)));
        lemma_remembering_alike(p.seated(si, at), q.seated(si, at), taken);
        if taken.len() < want {
            let a = p.after_draw(si, want);
            let b = q.after_draw(si, want);
            lemma_relief_alike(a, b, si);
            if let Some(s) = a.relief(si).1 {
                lemma_fill_alike(a.relief(si).0, b.relief(si).0, s, want - taken.len());
            }
        }
    }
}

proof fn lemma_serving_alike(
    p: PoolModel,
    q: PoolModel,
    want: Take,
    from: TakeFrom,
    roll: RollKey,
    nonce: u64,
)
    requires
        draws_alike(p, q),
    ensures
        draws_alike(p.serving(want, from, roll, nonce).0, q.serving(want, from, roll, nonce).0),
        p.serving(want, from, roll, nonce).1 == q.serving(want, from, roll, nonce).1,
{
    lemma_opening_alike(p, q, roll, nonce);
    let (a, first) = p.opening(roll, nonce);
    let (b, _) = q.opening(roll, nonce);
    if let Some(si) = first {
        let take = a.quota(want, si);
        let at = a.start_at(si, take, from, roll, nonce);
        assert(draws_alike(a.seated(si, at), b.seated(si, at)));
        lemma_fill_alike(a.seated(si, at), b.seated(si, at), si, take);
    }
}

proof fn lemma_slots_alike(
    p: PoolModel,
    q: PoolModel,
    slot: int,
    n: int,
    from: TakeFrom,
    roll: RollKey,
)
    requires
        draws_alike(p, q),
    ensures
        draws_alike(p.slots(slot, n, from, roll).0, q.slots(slot, n, from, roll).0),
        p.slots(slot, n, from, roll).1 == q.slots(slot, n, from, roll).1,
    decreases n - slot,
{
    if slot < n {
        lemma_serving_alike(p, q, Take::Count(1), from, roll, slot as u64);
        lemma_slots_alike(
            p.serving(Take::Count(1), from, roll, slot as u64).0,
            q.serving(Take::Count(1), from, roll, slot as u64).0,
            slot + 1,
            n,
            from,
            roll,
        );
    }
}

proof fn lemma_visiting_alike(
    p: PoolModel,
    q: PoolModel,
    take: Take,
    from: TakeFrom,
    roll: RollKey,
)
    requires
        draws_alike(p, q),
    ensures
        draws_alike(p.visiting(take, from, roll).0, q.visiting(take, from, roll).0),
        p.visiting(take, from, roll).1 == q.visiting(take, from, roll).1,
{
    lemma_serving_alike(p, q, take, from, roll, 0);
    let n = match take {
        Take::Count(n) => n as int,
        Take::All => 1,
    };
    lemma_slots_alike(p, q, 0, n, from, roll);
}

proof fn lemma_constrained_alike(
    limits: Limits,
    a: spec_fn(Seq<char>) -> Key,
    b: spec_fn(Seq<char>) -> Key,
    seam: Seq<String>,
    ids: Seq<String>,
)
    requires
        limits.no_repeat is Positions,
        forall|id: Seq<char>|
            #![trigger a(id)]
            #![trigger b(id)]
            key_alike(a(id), b(id)),
    ensures
        constrained(limits, a, seam, ids) == constrained(limits, b, seam, ids),
{
    let rules = same_limits(limits, ids.len());
    let left = upto(ids.len());
    assert(keys_alike(keys_of(a, ids), keys_of(b, ids))) by {
        assert forall|i: int|
            #![trigger keys_of(a, ids)[i]]
            #![trigger keys_of(b, ids)[i]]
            0 <= i < ids.len() implies key_alike(keys_of(a, ids)[i], keys_of(b, ids)[i]) by {
            assert(key_alike(a(ids[i]@), b(ids[i]@)));
        }
    }
    assert(keys_alike(keys_of(a, seam), keys_of(b, seam))) by {
        assert forall|i: int|
            #![trigger keys_of(a, seam)[i]]
            #![trigger keys_of(b, seam)[i]]
            0 <= i < seam.len() implies key_alike(keys_of(a, seam)[i], keys_of(b, seam)[i]) by {
            assert(key_alike(a(seam[i]@), b(seam[i]@)));
        }
    }
    lemma_arranged_alike(
        keys_of(a, ids),
        keys_of(b, ids),
        rules,
        left,
        keys_of(a, seam),
        keys_of(b, seam),
    );
}

/// Whether a pool draws alike, measured or not; or cannot be drawn from, for one reason.
pub open spec fn ready_alike(a: Result<PoolModel, Fault>, b: Result<PoolModel, Fault>) -> bool {
    match (a, b) {
        (Ok(p), Ok(q)) => draws_alike(p, q),
        (Err(e), Err(f)) => e == f,
        _ => false,
    }
}

/// Measuring its items changes nothing in what a pool draws.
pub proof fn a_measured_pool_draws_alike(
    catalog: Catalog,
    cfg: Pool,
    ids: Seq<String>,
    block: Option<Constraints>,
    state: GenerationState,
)
    ensures
        ready_alike(
            ready(catalog, cfg, ids, block, state, true),
            ready(catalog, cfg, ids, block, state, false),
        ),
{
    let limits = limits_for(cfg, block);
    if limits.no_repeat is Positions {
        let tail = seam(state.tail@, ids);
        let ns = match field_for(cfg, block) {
            Some(f) => field_ns(f@),
            None => None,
        };
        let one = lengths_for(catalog, ids, wants_lengths(limits, true));
        let other = lengths_for(catalog, ids, wants_lengths(limits, false));
        let mean = mean_length(one) as u64;
        let none = mean_length(other) as u64;
        let a = |id: Seq<char>| pool_key(catalog, ids, ns, one, mean as int, id);
        let b = |id: Seq<char>| pool_key(catalog, ids, ns, other, none as int, id);
        lemma_constrained_alike(limits, a, b, tail, ids);
        let measured = settled(catalog, cfg, ids, block, tail, true);
        let bare = settled(catalog, cfg, ids, block, tail, false);
        if let Ok(s) = measured {
            assert(s.keys == a);
            assert(bare->Ok_0.keys == b);
            let p = ready(catalog, cfg, ids, block, state, true)->Ok_0;
            let q = ready(catalog, cfg, ids, block, state, false)->Ok_0;
            let fresh = PoolModel { recent: Seq::empty(), ..p };
            let plain = PoolModel { recent: Seq::empty(), ..q };
            assert(draws_alike(fresh, plain));
            assert(p == fresh.remembering(tail));
            assert(q == plain.remembering(tail));
            lemma_remembering_alike(fresh, plain, tail);
        }
    }
}

/// Whether lists of pools draw alike, pool by pool.
pub open spec fn pools_alike(a: Seq<PoolModel>, b: Seq<PoolModel>) -> bool {
    &&& a.len() == b.len()
    &&& forall|i: int|
        #![trigger a[i]]
        #![trigger b[i]]
        0 <= i < a.len() ==> draws_alike(a[i], b[i])
}

proof fn lemma_all_ready_alike(
    catalog: Catalog,
    pools: Seq<Pool>,
    lists: Seq<Seq<String>>,
    block: Option<Constraints>,
    state: GenerationState,
)
    ensures
        match (
            all_ready(catalog, pools, lists, block, state, true),
            all_ready(catalog, pools, lists, block, state, false),
        ) {
            (Ok(a), Ok(b)) => pools_alike(a, b),
            (Err(e), Err(f)) => e == f,
            _ => false,
        },
    decreases pools.len(),
{
    if pools.len() > 0 {
        lemma_all_ready_alike(catalog, pools.drop_last(), lists.drop_last(), block, state);
        a_measured_pool_draws_alike(catalog, pools.last(), lists.last(), block, state);
    }
}

proof fn lemma_pool_named_alike(a: Seq<PoolModel>, b: Seq<PoolModel>, name: Seq<char>)
    requires
        pools_alike(a, b),
    ensures
        pool_named(a, name) == pool_named(b, name),
        pool_named(a, name) matches Some(i) ==> 0 <= i < a.len(),
    decreases a.len(),
{
    if a.len() > 0 {
        assert(draws_alike(a.last(), b.last()));
        assert(pools_alike(a.drop_last(), b.drop_last()));
        lemma_pool_named_alike(a.drop_last(), b.drop_last(), name);
    }
}

proof fn lemma_per_cycle_alike(
    a: Seq<PoolModel>,
    b: Seq<PoolModel>,
    pattern: Seq<PatternStep>,
    i: int,
)
    requires
        pools_alike(a, b),
    ensures
        per_cycle(a, pattern, i) == per_cycle(b, pattern, i),
        all_steps(a, pattern, i) == all_steps(b, pattern, i),
    decreases pattern.len(),
{
    if pattern.len() > 0 {
        lemma_per_cycle_alike(a, b, pattern.drop_last(), i);
        lemma_pool_named_alike(a, b, pattern.last().pool@);
    }
}

proof fn lemma_drain_alike(
    a: Seq<PoolModel>,
    b: Seq<PoolModel>,
    pattern: Seq<PatternStep>,
    n: int,
)
    requires
        pools_alike(a, b),
        n <= a.len(),
    ensures
        longest_drain(a, pattern, n) == longest_drain(b, pattern, n),
        longest_drain(a, pattern, n) >= 0,
    decreases n,
{
    if n > 0 {
        lemma_drain_alike(a, b, pattern, n - 1);
        lemma_per_cycle_alike(a, b, pattern, n - 1);
        assert(draws_alike(a[n - 1], b[n - 1]));
    }
}

/// Whether walks went alike: the same items, from pools that draw alike.
pub open spec fn walks_alike(a: Result<Walk, Fault>, b: Result<Walk, Fault>) -> bool {
    match (a, b) {
        (Ok(v), Ok(w)) => v.out == w.out && pools_alike(v.pools, w.pools),
        (Err(e), Err(f)) => e == f,
        _ => false,
    }
}

proof fn lemma_stepped_alike(v: Walk, w: Walk, step: PatternStep, roll: RollKey)
    requires
        v.out == w.out,
        pools_alike(v.pools, w.pools),
    ensures
        walks_alike(stepped(v, step, roll, true), stepped(w, step, roll, false)),
{
    lemma_pool_named_alike(v.pools, w.pools, step.pool@);
    if let Some(i) = pool_named(v.pools, step.pool@) {
        assert(draws_alike(v.pools[i], w.pools[i]));
        lemma_visiting_alike(v.pools[i], w.pools[i], step.take, step.from, roll);
        let a = v.pools.update(i, v.pools[i].visiting(step.take, step.from, roll).0);
        let b = w.pools.update(i, w.pools[i].visiting(step.take, step.from, roll).0);
        assert forall|j: int|
            #![trigger a[j]]
            #![trigger b[j]]
            0 <= j < a.len() implies draws_alike(a[j], b[j]) by {
            assert(draws_alike(v.pools[j], w.pools[j]));
        }
    }
}

proof fn lemma_cycled_alike(
    v: Walk,
    w: Walk,
    pattern: Seq<PatternStep>,
    seed: u64,
    cycle: int,
    k: int,
)
    requires
        v.out == w.out,
        pools_alike(v.pools, w.pools),
    ensures
        walks_alike(
            cycled(v, pattern, seed, cycle, k, true),
            cycled(w, pattern, seed, cycle, k, false),
        ),
    decreases pattern.len() - k,
{
    if k < pattern.len() {
        let roll = RollKey { seed, cycle: cycle as u64, step: k as u64 };
        lemma_stepped_alike(v, w, pattern[k], roll);
        if let Ok(next) = stepped(v, pattern[k], roll, true) {
            let other = stepped(w, pattern[k], roll, false)->Ok_0;
            lemma_cycled_alike(next, other, pattern, seed, cycle, k + 1);
        }
    }
}

/// The walk after the first `n` cycles, each of them whole.
pub open spec fn whole_cycles(
    start: Walk,
    pattern: Seq<PatternStep>,
    seed: u64,
    n: int,
    measured: bool,
) -> Result<Walk, Fault>
    decreases n,
{
    if n <= 0 {
        Ok(start)
    } else {
        match whole_cycles(start, pattern, seed, n - 1, measured) {
            Err(fault) => Err(fault),
            Ok(walk) => cycled(walk, pattern, seed, n - 1, 0, measured),
        }
    }
}

proof fn lemma_whole_cycles_alike(
    v: Walk,
    w: Walk,
    pattern: Seq<PatternStep>,
    seed: u64,
    n: int,
)
    requires
        v.out == w.out,
        pools_alike(v.pools, w.pools),
    ensures
        walks_alike(
            whole_cycles(v, pattern, seed, n, true),
            whole_cycles(w, pattern, seed, n, false),
        ),
    decreases n,
{
    if n > 0 {
        lemma_whole_cycles_alike(v, w, pattern, seed, n - 1);
        if let Ok(a) = whole_cycles(v, pattern, seed, n - 1, true) {
            let b = whole_cycles(w, pattern, seed, n - 1, false)->Ok_0;
            lemma_cycled_alike(a, b, pattern, seed, n - 1, 0);
        }
    }
}

proof fn lemma_cycled_grows(
    walk: Walk,
    pattern: Seq<PatternStep>,
    seed: u64,
    cycle: int,
    k: int,
    measured: bool,
)
    ensures
        cycled(walk, pattern, seed, cycle, k, measured) matches Ok(after)
            ==> walk.out.is_prefix_of(after.out),
    decreases pattern.len() - k,
{
    if k < pattern.len() {
        let roll = RollKey { seed, cycle: cycle as u64, step: k as u64 };
        if let Ok(next) = stepped(walk, pattern[k], roll, measured) {
            assert(walk.out.is_prefix_of(next.out));
            lemma_cycled_grows(next, pattern, seed, cycle, k + 1, measured);
            if let Ok(after) = cycled(next, pattern, seed, cycle, k + 1, measured) {
                lemma_prefix_of_prefix(walk.out, next.out, after.out);
            }
        }
    }
}

proof fn lemma_prefix_of_prefix(a: Seq<String>, b: Seq<String>, c: Seq<String>)
    requires
        a.is_prefix_of(b),
        b.is_prefix_of(c),
    ensures
        a.is_prefix_of(c),
{
    assert(a =~= c.subrange(0, a.len() as int));
}

proof fn lemma_whole_cycles_grow(
    start: Walk,
    pattern: Seq<PatternStep>,
    seed: u64,
    c: int,
    n: int,
    measured: bool,
)
    requires
        c <= n,
        whole_cycles(start, pattern, seed, n, measured) is Ok,
    ensures
        whole_cycles(start, pattern, seed, c, measured) is Ok,
        whole_cycles(start, pattern, seed, c, measured)->Ok_0.out.is_prefix_of(
            whole_cycles(start, pattern, seed, n, measured)->Ok_0.out,
        ),
    decreases n - c,
{
    let last = whole_cycles(start, pattern, seed, n, measured)->Ok_0;
    assert(last.out =~= last.out.subrange(0, last.out.len() as int));
    if c < n && n > 0 {
        lemma_whole_cycles_grow(start, pattern, seed, c, n - 1, measured);
        let before = whole_cycles(start, pattern, seed, n - 1, measured)->Ok_0;
        lemma_cycled_grows(before, pattern, seed, n - 1, 0, measured);
        lemma_prefix_of_prefix(
            whole_cycles(start, pattern, seed, c, measured)->Ok_0.out,
            before.out,
            last.out,
        );
    }
}

proof fn lemma_walked_to_the_end(
    start: Walk,
    pattern: Seq<PatternStep>,
    seed: u64,
    c: int,
    n: int,
)
    requires
        0 <= c <= n,
        whole_cycles(start, pattern, seed, c, false) is Ok,
    ensures
        walked(
            whole_cycles(start, pattern, seed, c, false)->Ok_0,
            pattern,
            seed,
            c,
            n,
            None,
        ) == whole_cycles(start, pattern, seed, n, false),
    decreases n - c,
{
    if c < n {
        if whole_cycles(start, pattern, seed, c + 1, false) is Ok {
            lemma_walked_to_the_end(start, pattern, seed, c + 1, n);
        } else {
            lemma_whole_cycles_fail(start, pattern, seed, c + 1, n, false);
        }
    }
}

proof fn lemma_whole_cycles_fail(
    start: Walk,
    pattern: Seq<PatternStep>,
    seed: u64,
    c: int,
    n: int,
    measured: bool,
)
    requires
        0 <= c <= n,
        whole_cycles(start, pattern, seed, c, measured) is Err,
    ensures
        whole_cycles(start, pattern, seed, n, measured) == whole_cycles(
            start,
            pattern,
            seed,
            c,
            measured,
        ),
    decreases n - c,
{
    if c < n {
        lemma_whole_cycles_fail(start, pattern, seed, c, n - 1, measured);
    }
}

/// How much airtime the first `n` cycles of a walk lay down, where they can be walked: each
/// item at its own length, and one whose length is not known at the mean of its pool.
pub open spec fn airtime(start: Walk, pattern: Seq<PatternStep>, seed: u64, n: int) -> int {
    whole_cycles(start, pattern, seed, n, true)->Ok_0.laid
}

/// Whether a number of cycles is the least of those up to `n` that lay down an airtime, or is
/// `n` where none does.
pub open spec fn covers_first(
    start: Walk,
    pattern: Seq<PatternStep>,
    seed: u64,
    n: int,
    fill: u64,
    c: int,
) -> bool {
    &&& 0 <= c <= n
    &&& forall|j: int| 0 <= j < c ==> #[trigger] airtime(start, pattern, seed, j) < fill
    &&& c == n || airtime(start, pattern, seed, c) >= fill
}

proof fn lemma_walked_to_the_window(
    start: Walk,
    pattern: Seq<PatternStep>,
    seed: u64,
    c: int,
    n: int,
    fill: u64,
) -> (end: int)
    requires
        0 <= c <= n,
        whole_cycles(start, pattern, seed, n, true) is Ok,
        whole_cycles(start, pattern, seed, c, true) is Ok,
        forall|j: int| 0 <= j < c ==> #[trigger] airtime(start, pattern, seed, j) < fill,
    ensures
        c <= end <= n,
        covers_first(start, pattern, seed, n, fill, end),
        walked(
            whole_cycles(start, pattern, seed, c, true)->Ok_0,
            pattern,
            seed,
            c,
            n,
            Some(fill),
        ) == whole_cycles(start, pattern, seed, end, true),
    decreases n - c,
{
    if c == n || airtime(start, pattern, seed, c) >= fill {
        c
    } else {
        lemma_whole_cycles_grow(start, pattern, seed, c + 1, n, true);
        lemma_walked_to_the_window(start, pattern, seed, c + 1, n, fill)
    }
}

/// Everything that decides the schedule of a pattern whose author named no number of cycles,
/// besides how much airtime is still to be covered.
pub struct Plan {
    pub catalog: Catalog,
    pub pools: Seq<Pool>,
    pub groups: Seq<ShowGroup>,
    pub picks: Seq<(String, PluginReply)>,
    pub pattern: Seq<PatternStep>,
    pub block: Option<Constraints>,
    pub state: GenerationState,
    pub seed: u64,
}

impl Plan {
    /// The schedule that covers an airtime, or, without one, runs until the largest pool has
    /// drained.
    pub open spec fn scheduled(self, fill: Option<u64>) -> Result<Walk, Fault> {
        schedule(
            self.catalog,
            self.pools,
            self.groups,
            self.picks,
            self.pattern,
            None,
            self.block,
            self.state,
            self.seed,
            fill,
        )
    }

    /// Where a walk of the pattern starts, its items measured or not.
    pub open spec fn start(self, measured: bool) -> Result<Walk, Fault> {
        match pool_lists(self.catalog, self.groups, self.picks, self.pools) {
            Err(fault) => Err(fault),
            Ok(lists) => match all_ready(
                self.catalog,
                self.pools,
                lists,
                self.block,
                self.state,
                measured,
            ) {
                Err(fault) => Err(fault),
                Ok(made) => Ok(Walk { pools: made, out: Seq::empty(), laid: 0 }),
            },
        }
    }

    /// How many cycles the pattern runs until its largest pool has drained.
    pub open spec fn rounds(self) -> int {
        drain_cycles(self.start(false)->Ok_0.pools, self.pattern)
    }

    /// The items of the first `n` cycles of the schedule that no window bounds.
    pub open spec fn first_cycles(self, n: int) -> Seq<String> {
        whole_cycles(self.start(false)->Ok_0, self.pattern, self.seed, n, false)->Ok_0.out
    }

    /// Whether a number of cycles is the least that lays down an airtime before the pattern
    /// has drained its largest pool, or is all the cycles until then where none does.
    pub open spec fn covers_first(self, fill: u64, c: int) -> bool {
        covers_first(self.start(true)->Ok_0, self.pattern, self.seed, self.rounds(), fill, c)
    }
}

/// A window takes whole cycles, and as few of them as cover it: what a pattern schedules for
/// it are the items of the first `c` cycles of what it schedules without one, where `c` is the
/// least number whose cycles lay down the airtime, or all of them where even those do not.
/// So it is a beginning of the schedule without a window, it never cuts a cycle, and it runs
/// over by less than its last cycle.
pub proof fn a_window_takes_the_least_whole_cycles(plan: Plan, fill: u64) -> (c: int)
    requires
        plan.scheduled(None) is Ok,
    ensures
        plan.scheduled(None)->Ok_0.out == plan.first_cycles(plan.rounds()),
        plan.scheduled(Some(fill)) is Ok,
        plan.covers_first(fill, c),
        plan.scheduled(Some(fill))->Ok_0.out == plan.first_cycles(c),
        plan.first_cycles(c).is_prefix_of(plan.scheduled(None)->Ok_0.out),
{
    let lists = pool_lists(plan.catalog, plan.groups, plan.picks, plan.pools)->Ok_0;
    lemma_all_ready_alike(plan.catalog, plan.pools, lists, plan.block, plan.state);
    let measured = plan.start(true)->Ok_0;
    let bare = plan.start(false)->Ok_0;
    let n = plan.rounds();
    lemma_drain_alike(measured.pools, bare.pools, plan.pattern, bare.pools.len() as int);
    lemma_walked_to_the_end(bare, plan.pattern, plan.seed, 0, n);
    lemma_whole_cycles_alike(measured, bare, plan.pattern, plan.seed, n);
    let c = lemma_walked_to_the_window(measured, plan.pattern, plan.seed, 0, n, fill);
    lemma_whole_cycles_alike(measured, bare, plan.pattern, plan.seed, c);
    lemma_whole_cycles_grow(bare, plan.pattern, plan.seed, c, n, false);
    lemma_whole_cycles_grow(measured, plan.pattern, plan.seed, c, n, true);
    c
}

} // verus!
