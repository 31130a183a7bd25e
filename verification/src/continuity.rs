//! What holds of a whole walk of a pattern, and of one generation after another: a walk plays
//! nothing but its pools, and a pool that continues stands where the last generation stopped,
//! told by nothing but what aired and whose turn it is.

use vstd::prelude::*;

use crate::catalog::Catalog;
use crate::config::{Advance, Constraints, PatternStep, Pool, Rotate, Take, TakeFrom};
use crate::draw::{PoolModel, SeriesModel};
use crate::fault::Fault;
use crate::names::{
    entry_of, first_index, has_name, lemma_first_index_is, put, putting_changes_one_name,
};
use crate::pattern::{cycled, lemma_pool_named, pool_named, pools_wf, stepped, walked, Walk};
use crate::pool::{continued, find_series, lemma_find_series, limits_for, ready, seam, settled};
use crate::progress::{
    a_visit_is_filled, filling_plays_in_order, lemma_after_draw, lemma_relief, lemma_seated,
    opening_chooses_a_series, same_content, served, serving_keeps_the_pool,
};
use crate::resume::{GenerationState, PoolResume};
use crate::roll::{RollKey, CHANCE_WHOLE};

verus! {

/// What was played last of each series, after these items aired: each is filed under the
/// name of its series, and the last one counts.
pub open spec fn ledger(
    cursor: Seq<(String, String)>,
    aired: Seq<String>,
    filed: spec_fn(Seq<char>) -> String,
) -> Seq<(String, String)>
    decreases aired.len(),
{
    if aired.len() == 0 {
        cursor
    } else {
        put(ledger(cursor, aired.drop_last(), filed), filed(aired.last()@), aired.last())
    }
}

/// Whether the items of a pool are told apart by the ledger: no two series are filed under
/// one name, every item is filed under its own series, and no series holds an item twice.
pub open spec fn told_apart(pool: PoolModel, filed: spec_fn(Seq<char>) -> String) -> bool {
    &&& forall|s: int, t: int|
        0 <= s < t < pool.series.len() ==> (#[trigger] pool.series[s]).show_key != (
        #[trigger] pool.series[t]).show_key
    &&& forall|s: int, j: int|
        0 <= s < pool.series.len() && 0 <= j < pool.series[s].ids.len() ==> filed(
            (#[trigger] pool.series[s].ids[j])@,
        )@ == pool.series[s].show_key
    &&& forall|s: int, i: int, j: int|
        0 <= s < pool.series.len() && 0 <= i < j < pool.series[s].ids.len() ==> (
        #[trigger] pool.series[s].ids[i])@ != (#[trigger] pool.series[s].ids[j])@
}

/// Whether a series stands where the ledger would have it continue.
pub open spec fn follows(s: SeriesModel, cursor: Seq<(String, String)>) -> bool {
    s.cursor == continued(SeriesModel { cursor: 0, ..s }, cursor).cursor
}

/// Whether every series of a pool stands where the ledger would have it continue.
pub open spec fn keeps_up(pool: PoolModel, cursor: Seq<(String, String)>) -> bool {
    forall|s: int| 0 <= s < pool.series.len() ==> follows(#[trigger] pool.series[s], cursor)
}

spec fn keeps_up_but(pool: PoolModel, cursor: Seq<(String, String)>, si: int) -> bool {
    forall|s: int|
        0 <= s < pool.series.len() && s != si ==> follows(#[trigger] pool.series[s], cursor)
}

proof fn lemma_ledger(
    cursor: Seq<(String, String)>,
    aired: Seq<String>,
    filed: spec_fn(Seq<char>) -> String,
    name: Seq<char>,
)
    requires
        forall|j: int| 0 <= j < aired.len() ==> filed((#[trigger] aired[j])@)@ == name,
    ensures
        aired.len() > 0 ==> entry_of(ledger(cursor, aired, filed), name) == Some(aired.last()),
        forall|other: Seq<char>|
            other != name ==> #[trigger] entry_of(ledger(cursor, aired, filed), other) == entry_of(
                cursor,
                other,
            ),
    decreases aired.len(),
{
    if aired.len() > 0 {
        let earlier = aired.drop_last();
        assert forall|j: int| 0 <= j < earlier.len() implies filed(
            (#[trigger] earlier[j])@,
        )@ == name by {
            assert(earlier[j] == aired[j]);
        }
        lemma_ledger(cursor, earlier, filed, name);
        assert(aired[aired.len() - 1] == aired.last());
        putting_changes_one_name(
            ledger(cursor, earlier, filed),
            filed(aired.last()@),
            aired.last(),
        );
    }
}

proof fn lemma_ledger_concat(
    cursor: Seq<(String, String)>,
    a: Seq<String>,
    b: Seq<String>,
    filed: spec_fn(Seq<char>) -> String,
)
    ensures
        ledger(cursor, a + b, filed) == ledger(ledger(cursor, a, filed), b, filed),
    decreases b.len(),
{
    if b.len() > 0 {
        lemma_ledger_concat(cursor, a, b.drop_last(), filed);
        assert((a + b).drop_last() =~= a + b.drop_last());
    } else {
        assert(a + b =~= a);
    }
}

proof fn lemma_told_apart(
    pool: PoolModel,
    other: PoolModel,
    filed: spec_fn(Seq<char>) -> String,
)
    requires
        told_apart(pool, filed),
        same_content(pool, other),
    ensures
        told_apart(other, filed),
{
    assert forall|s: int, t: int| 0 <= s < t < other.series.len() implies (
    #[trigger] other.series[s]).show_key != (#[trigger] other.series[t]).show_key by {
        assert(pool.series[s].show_key != pool.series[t].show_key);
    }
    assert forall|s: int, j: int|
        0 <= s < other.series.len() && 0 <= j < other.series[s].ids.len() implies filed(
        (#[trigger] other.series[s].ids[j])@,
    )@ == other.series[s].show_key by {
        assert(pool.series[s].ids == other.series[s].ids);
        assert(filed(pool.series[s].ids[j]@)@ == pool.series[s].show_key);
    }
    assert forall|s: int, i: int, j: int|
        0 <= s < other.series.len() && 0 <= i < j < other.series[s].ids.len() implies (
    #[trigger] other.series[s].ids[i])@ != (#[trigger] other.series[s].ids[j])@ by {
        assert(pool.series[s].ids == other.series[s].ids);
        assert(pool.series[s].ids[i]@ != pool.series[s].ids[j]@);
    }
}

proof fn lemma_draw_keeps_up(
    pool: PoolModel,
    si: int,
    want: int,
    cursor: Seq<(String, String)>,
    filed: spec_fn(Seq<char>) -> String,
)
    requires
        pool.wf(),
        0 <= si < pool.series.len(),
        want > 0,
        told_apart(pool, filed),
        keeps_up_but(pool, cursor, si),
    ensures
        keeps_up(pool.after_draw(si, want), ledger(cursor, pool.draw(si, want), filed)),
{
    let taken = pool.draw(si, want);
    let after = pool.after_draw(si, want);
    let k = pool.draw_len(si, want);
    let s = pool.series[si];
    let then = ledger(cursor, taken, filed);
    lemma_after_draw(pool, si, want);
    assert(s.wf());
    assert forall|j: int| 0 <= j < taken.len() implies filed((#[trigger] taken[j])@)@
        == s.show_key by {
        assert(taken[j] == pool.series[si].ids[s.cursor + j]);
    }
    lemma_ledger(cursor, taken, filed, s.show_key);
    assert forall|t: int| 0 <= t < after.series.len() implies follows(
        #[trigger] after.series[t],
        then,
    ) by {
        if t == si {
            let at = s.cursor + k - 1;
            assert(taken.last() == s.ids[at]);
            assert forall|j: int| 0 <= j < at implies #[trigger] s.ids[j]@ != s.ids[at]@ by {
                assert(pool.series[si].ids[j]@ != pool.series[si].ids[at]@);
            }
            lemma_first_index_is(s.ids, s.ids[at]@, at);
        } else {
            assert(after.series[t] == pool.series[t]);
            assert(follows(pool.series[t], cursor));
            if t < si {
                assert(pool.series[t].show_key != pool.series[si].show_key);
            } else {
                assert(pool.series[si].show_key != pool.series[t].show_key);
            }
        }
    }
}

proof fn lemma_fill_keeps_up(
    pool: PoolModel,
    si: int,
    want: int,
    cursor: Seq<(String, String)>,
    filed: spec_fn(Seq<char>) -> String,
)
    requires
        pool.wf(),
        0 <= si < pool.series.len(),
        want > 0,
        told_apart(pool, filed),
        keeps_up_but(pool, cursor, si),
    ensures
        keeps_up(pool.fill(si, want).pool, ledger(cursor, pool.fill(si, want).out, filed)),
    decreases want,
{
    let taken = pool.draw(si, want);
    let after = pool.after_draw(si, want);
    let then = ledger(cursor, taken, filed);
    lemma_after_draw(pool, si, want);
    lemma_draw_keeps_up(pool, si, want, cursor, filed);
    lemma_relief(after, si);
    let (next, choice) = after.relief(si);
    assert(next.series == after.series);
    if taken.len() < want && choice is Some {
        let s = choice->0;
        assert(same_content(pool, next));
        lemma_told_apart(pool, next, filed);
        assert(next.wf());
        assert forall|t: int| 0 <= t < next.series.len() && t != s implies follows(
            #[trigger] next.series[t],
            then,
        ) by {
            assert(follows(after.series[t], then));
        }
        lemma_fill_keeps_up(next, s, want - taken.len(), then, filed);
        lemma_ledger_concat(cursor, taken, next.fill(s, want - taken.len()).out, filed);
    } else {
        assert forall|t: int| 0 <= t < next.series.len() implies follows(
            #[trigger] next.series[t],
            then,
        ) by {
            assert(follows(after.series[t], then));
        }
    }
}

proof fn lemma_serving_keeps_up(
    pool: PoolModel,
    want: Take,
    from: TakeFrom,
    roll: RollKey,
    nonce: u64,
    cursor: Seq<(String, String)>,
    filed: spec_fn(Seq<char>) -> String,
)
    requires
        pool.wf(),
        want != Take::Count(0),
        told_apart(pool, filed),
        keeps_up(pool, cursor),
    ensures
        ({
            let (after, out) = pool.serving(want, from, roll, nonce);
            keeps_up(after, ledger(cursor, out, filed))
        }),
{
    opening_chooses_a_series(pool, roll, nonce);
    let (opened, choice) = pool.opening(roll, nonce);
    assert(opened.series == pool.series);
    if choice is Some {
        let si = choice->0;
        assert(opened.series[si].wf());
        let take = opened.quota(want, si);
        let at = opened.start_at(si, take, from, roll, nonce);
        assert(0 <= at) by {
            let len = opened.series[si].ids.len() as int;
            let last_start = if take <= len {
                len - take
            } else {
                0
            };
            vstd::arithmetic::div_mod::lemma_mod_bound(
                roll.roll(nonce.wrapping_add(crate::draw::FROM_STRIDE)) as int,
                last_start + 1,
            );
        }
        lemma_seated(opened, si, at);
        let seated = opened.seated(si, at);
        assert(same_content(pool, seated));
        lemma_told_apart(pool, seated, filed);
        assert forall|t: int| 0 <= t < seated.series.len() && t != si implies follows(
            #[trigger] seated.series[t],
            cursor,
        ) by {
            assert(follows(pool.series[t], cursor));
        }
        lemma_fill_keeps_up(seated, si, take, cursor, filed);
        let drawn = seated.fill(si, take);
        let after = drawn.pool.parked(drawn.owners, drawn.out.len() >= take);
        assert(after.series == drawn.pool.series);
        assert forall|t: int| 0 <= t < after.series.len() implies follows(
            #[trigger] after.series[t],
            ledger(cursor, drawn.out, filed),
        ) by {
            assert(follows(drawn.pool.series[t], ledger(cursor, drawn.out, filed)));
        }
    } else {
        assert forall|t: int| 0 <= t < opened.series.len() implies follows(
            #[trigger] opened.series[t],
            cursor,
        ) by {
            assert(follows(pool.series[t], cursor));
        }
    }
}

proof fn lemma_slots_keep_up(
    pool: PoolModel,
    slot: int,
    n: int,
    from: TakeFrom,
    roll: RollKey,
    cursor: Seq<(String, String)>,
    filed: spec_fn(Seq<char>) -> String,
)
    requires
        pool.wf(),
        0 <= slot <= n,
        told_apart(pool, filed),
        keeps_up(pool, cursor),
    ensures
        ({
            let (after, out) = pool.slots(slot, n, from, roll);
            keeps_up(after, ledger(cursor, out, filed))
        }),
    decreases n - slot,
{
    if slot < n {
        let one = Take::Count(1);
        serving_keeps_the_pool(pool, one, from, roll, slot as u64);
        lemma_serving_keeps_up(pool, one, from, roll, slot as u64, cursor, filed);
        let (next, first) = pool.serving(one, from, roll, slot as u64);
        lemma_told_apart(pool, next, filed);
        lemma_slots_keep_up(
            next,
            slot + 1,
            n,
            from,
            roll,
            ledger(cursor, first, filed),
            filed,
        );
        lemma_ledger_concat(cursor, first, next.slots(slot + 1, n, from, roll).1, filed);
    }
}

/// A pool whose series stand where the ledger would have them continue still does after a
/// visit, once the ledger holds what the visit played: the ledger alone tells where each
/// series goes on, and no series resets another.
pub proof fn the_ledger_keeps_up_with_a_visit(
    pool: PoolModel,
    take: Take,
    from: TakeFrom,
    roll: RollKey,
    cursor: Seq<(String, String)>,
    filed: spec_fn(Seq<char>) -> String,
)
    requires
        pool.wf(),
        told_apart(pool, filed),
        keeps_up(pool, cursor),
    ensures
        ({
            let (after, out) = pool.visiting(take, from, roll);
            &&& after.wf()
            &&& told_apart(after, filed)
            &&& keeps_up(after, ledger(cursor, out, filed))
        }),
{
    a_visit_is_filled(pool, take, from, roll);
    let (after, out) = pool.visiting(take, from, roll);
    lemma_told_apart(pool, after, filed);
    if take != Take::Count(0) && pool.series.len() > 0 {
        match pool.cfg.rotate {
            Rotate::Slot => {
                let n = match take {
                    Take::Count(n) => n as int,
                    Take::All => 1,
                };
                lemma_slots_keep_up(pool, 0, n, from, roll, cursor, filed);
            },
            Rotate::Visit => {
                lemma_serving_keeps_up(pool, take, from, roll, 0, cursor, filed);
            },
        }
    }
}

/// Whether some series of a pool holds an item.
pub open spec fn pool_holds(pool: PoolModel, id: Seq<char>) -> bool {
    exists|s: int| 0 <= s < pool.series.len() && has_name((#[trigger] pool.series[s]).ids, id)
}

/// Whether a pool holds every one of these items.
pub open spec fn pool_holds_all(pool: PoolModel, aired: Seq<String>) -> bool {
    forall|j: int| 0 <= j < aired.len() ==> pool_holds(pool, (#[trigger] aired[j])@)
}

proof fn lemma_fill_held(pool: PoolModel, si: int, want: int)
    requires
        pool.wf(),
        0 <= si < pool.series.len(),
        want > 0,
    ensures
        pool_holds_all(pool, pool.fill(si, want).out),
{
    filling_plays_in_order(pool, si, want);
    let drawn = pool.fill(si, want);
    assert forall|j: int| 0 <= j < drawn.out.len() implies pool_holds(
        pool,
        (#[trigger] drawn.out[j])@,
    ) by {
        let s = drawn.owners[j];
        assert(pool.series[s].wf());
        let k = (pool.series[s].cursor + served(drawn.owners, s, j)) % (
        pool.series[s].ids.len() as int);
        vstd::arithmetic::div_mod::lemma_mod_bound(
            pool.series[s].cursor + served(drawn.owners, s, j),
            pool.series[s].ids.len() as int,
        );
        assert(pool.series[s].ids[k]@ == drawn.out[j]@);
    }
}

proof fn lemma_held_alike(pool: PoolModel, other: PoolModel, aired: Seq<String>)
    requires
        same_content(pool, other),
        pool_holds_all(other, aired),
    ensures
        pool_holds_all(pool, aired),
{
    assert forall|j: int| 0 <= j < aired.len() implies pool_holds(pool, (#[trigger] aired[j])@) by {
        assert(pool_holds(other, aired[j]@));
        let s = choose|s: int|
            0 <= s < other.series.len() && has_name((#[trigger] other.series[s]).ids, aired[j]@);
        assert(pool.series[s].ids == other.series[s].ids);
    }
}

proof fn lemma_serving_held(pool: PoolModel, want: Take, from: TakeFrom, roll: RollKey, nonce: u64)
    requires
        pool.wf(),
        want != Take::Count(0),
    ensures
        pool_holds_all(pool, pool.serving(want, from, roll, nonce).1),
{
    opening_chooses_a_series(pool, roll, nonce);
    let (opened, choice) = pool.opening(roll, nonce);
    assert(opened.series == pool.series);
    if choice is Some {
        let si = choice->0;
        assert(opened.series[si].wf());
        let take = opened.quota(want, si);
        let at = opened.start_at(si, take, from, roll, nonce);
        assert(0 <= at) by {
            let len = opened.series[si].ids.len() as int;
            let last_start = if take <= len {
                len - take
            } else {
                0
            };
            vstd::arithmetic::div_mod::lemma_mod_bound(
                roll.roll(nonce.wrapping_add(crate::draw::FROM_STRIDE)) as int,
                last_start + 1,
            );
        }
        lemma_seated(opened, si, at);
        let seated = opened.seated(si, at);
        assert(same_content(pool, seated));
        lemma_fill_held(seated, si, take);
        lemma_held_alike(pool, seated, seated.fill(si, take).out);
    }
}

proof fn lemma_slots_held(pool: PoolModel, slot: int, n: int, from: TakeFrom, roll: RollKey)
    requires
        pool.wf(),
        0 <= slot <= n,
    ensures
        pool_holds_all(pool, pool.slots(slot, n, from, roll).1),
    decreases n - slot,
{
    if slot < n {
        let one = Take::Count(1);
        serving_keeps_the_pool(pool, one, from, roll, slot as u64);
        lemma_serving_held(pool, one, from, roll, slot as u64);
        let (next, first) = pool.serving(one, from, roll, slot as u64);
        lemma_slots_held(next, slot + 1, n, from, roll);
        let rest = next.slots(slot + 1, n, from, roll).1;
        lemma_held_alike(pool, next, rest);
        assert forall|j: int| 0 <= j < (first + rest).len() implies pool_holds(
            pool,
            (#[trigger] (first + rest)[j])@,
        ) by {
            if j < first.len() {
                assert((first + rest)[j] == first[j]);
            } else {
                assert((first + rest)[j] == rest[j - first.len()]);
            }
        }
    }
}

/// A visit plays nothing but items of its pool.
pub proof fn a_visit_plays_only_its_pool(
    pool: PoolModel,
    take: Take,
    from: TakeFrom,
    roll: RollKey,
)
    requires
        pool.wf(),
    ensures
        pool_holds_all(pool, pool.visiting(take, from, roll).1),
{
    if take != Take::Count(0) && pool.series.len() > 0 {
        match pool.cfg.rotate {
            Rotate::Slot => {
                let n = match take {
                    Take::Count(n) => n as int,
                    Take::All => 1,
                };
                lemma_slots_held(pool, 0, n, from, roll);
            },
            Rotate::Visit => {
                lemma_serving_held(pool, take, from, roll, 0);
            },
        }
    }
}

/// Whether some pool holds an item.
pub open spec fn pools_hold(pools: Seq<PoolModel>, id: Seq<char>) -> bool {
    exists|p: int| 0 <= p < pools.len() && pool_holds(#[trigger] pools[p], id)
}

/// Whether two walks have pools of the same content.
pub open spec fn same_pools(a: Seq<PoolModel>, b: Seq<PoolModel>) -> bool {
    &&& a.len() == b.len()
    &&& forall|p: int| 0 <= p < a.len() ==> same_content(#[trigger] a[p], b[p])
}

/// Whether one walk goes on from another with nothing but items of its pools.
pub open spec fn plays_its_pools(from: Walk, to: Walk) -> bool {
    &&& pools_wf(to.pools)
    &&& same_pools(from.pools, to.pools)
    &&& to.out.len() >= from.out.len()
    &&& to.out.take(from.out.len() as int) == from.out
    &&& forall|j: int|
        from.out.len() <= j < to.out.len() ==> pools_hold(from.pools, (#[trigger] to.out[j])@)
}

proof fn lemma_step_plays(walk: Walk, step: PatternStep, roll: RollKey, measured: bool)
    requires
        pools_wf(walk.pools),
    ensures
        stepped(walk, step, roll, measured) matches Ok(next) ==> plays_its_pools(walk, next),
{
    let n = walk.out.len() as int;
    if roll.slice(u64::MAX) >= step.chance {
        assert(walk.out.take(n) =~= walk.out);
    } else if pool_named(walk.pools, step.pool@) is Some {
        let i = pool_named(walk.pools, step.pool@)->0;
        lemma_pool_named(walk.pools, step.pool@);
        let pool = walk.pools[i];
        assert(pool.wf());
        let (after, drawn) = pool.visiting(step.take, step.from, roll);
        a_visit_is_filled(pool, step.take, step.from, roll);
        a_visit_plays_only_its_pool(pool, step.take, step.from, roll);
        let next = stepped(walk, step, roll, measured)->Ok_0;
        assert(next.out.take(n) =~= walk.out);
        assert forall|j: int| n <= j < next.out.len() implies pools_hold(
            walk.pools,
            (#[trigger] next.out[j])@,
        ) by {
            assert(next.out[j] == drawn[j - n]);
            assert(pool_holds(walk.pools[i], next.out[j]@));
        }
        assert(pools_wf(next.pools)) by {
            assert forall|p: int| 0 <= p < next.pools.len() implies (
            #[trigger] next.pools[p]).wf() by {
                if p != i {
                    assert(walk.pools[p].wf());
                }
            }
        }
    }
}

proof fn lemma_plays_on(a: Walk, b: Walk, c: Walk)
    requires
        plays_its_pools(a, b),
        plays_its_pools(b, c),
    ensures
        plays_its_pools(a, c),
{
    let n = a.out.len() as int;
    let m = b.out.len() as int;
    assert(c.out.take(n) =~= c.out.take(m).take(n));
    assert forall|p: int| 0 <= p < a.pools.len() implies same_content(
        #[trigger] a.pools[p],
        c.pools[p],
    ) by {
        assert(same_content(a.pools[p], b.pools[p]));
        assert(same_content(b.pools[p], c.pools[p]));
    }
    assert forall|j: int| n <= j < c.out.len() implies pools_hold(
        a.pools,
        (#[trigger] c.out[j])@,
    ) by {
        if j < m {
            assert(c.out.take(m)[j] == c.out[j]);
            assert(pools_hold(a.pools, b.out[j]@));
        } else {
            let id = c.out[j]@;
            assert(pools_hold(b.pools, id));
            let p = choose|p: int| 0 <= p < b.pools.len() && pool_holds(#[trigger] b.pools[p], id);
            let s = choose|s: int|
                0 <= s < b.pools[p].series.len() && has_name(
                    (#[trigger] b.pools[p].series[s]).ids,
                    id,
                );
            assert(same_content(a.pools[p], b.pools[p]));
            assert(a.pools[p].series[s].ids == b.pools[p].series[s].ids);
            assert(pool_holds(a.pools[p], id));
        }
    }
}

proof fn lemma_cycle_plays(
    walk: Walk,
    pattern: Seq<PatternStep>,
    seed: u64,
    cycle: int,
    k: int,
    measured: bool,
)
    requires
        pools_wf(walk.pools),
        0 <= k,
    ensures
        cycled(walk, pattern, seed, cycle, k, measured) matches Ok(next) ==> plays_its_pools(
            walk,
            next,
        ),
    decreases pattern.len() - k,
{
    if k >= pattern.len() {
        assert(walk.out.take(walk.out.len() as int) =~= walk.out);
    } else {
        let roll = RollKey { seed, cycle: cycle as u64, step: k as u64 };
        lemma_step_plays(walk, pattern[k], roll, measured);
        if stepped(walk, pattern[k], roll, measured) is Ok {
            let next = stepped(walk, pattern[k], roll, measured)->Ok_0;
            lemma_cycle_plays(next, pattern, seed, cycle, k + 1, measured);
            if cycled(next, pattern, seed, cycle, k + 1, measured) is Ok {
                let last = cycled(next, pattern, seed, cycle, k + 1, measured)->Ok_0;
                lemma_plays_on(walk, next, last);
            }
        }
    }
}

/// A walk of a pattern plays nothing but items of its pools, and leaves the pools with the
/// content they had.
pub proof fn a_walk_plays_only_its_pools(
    walk: Walk,
    pattern: Seq<PatternStep>,
    seed: u64,
    cycle: int,
    cycles: int,
    budget: Option<u64>,
)
    requires
        pools_wf(walk.pools),
    ensures
        walked(walk, pattern, seed, cycle, cycles, budget) matches Ok(last) ==> plays_its_pools(
            walk,
            last,
        ),
    decreases cycles - cycle,
{
    if cycle >= cycles || (budget is Some && walk.laid >= budget->0) {
        assert(walk.out.take(walk.out.len() as int) =~= walk.out);
    } else {
        lemma_cycle_plays(walk, pattern, seed, cycle, 0, budget is Some);
        if cycled(walk, pattern, seed, cycle, 0, budget is Some) is Ok {
            let next = cycled(walk, pattern, seed, cycle, 0, budget is Some)->Ok_0;
            a_walk_plays_only_its_pools(next, pattern, seed, cycle + 1, cycles, budget);
            if walked(next, pattern, seed, cycle + 1, cycles, budget) is Ok {
                let last = walked(next, pattern, seed, cycle + 1, cycles, budget)->Ok_0;
                lemma_plays_on(walk, next, last);
            }
        }
    }
}

/// Whether a pool has a series of which items are filed under a name.
spec fn files_under(pool: PoolModel, name: Seq<char>) -> bool {
    exists|s: int| 0 <= s < pool.series.len() && (#[trigger] pool.series[s]).show_key == name
}

proof fn lemma_held_filed(pool: PoolModel, id: Seq<char>, filed: spec_fn(Seq<char>) -> String)
    requires
        told_apart(pool, filed),
        pool_holds(pool, id),
    ensures
        files_under(pool, filed(id)@),
{
    let s = choose|s: int|
        0 <= s < pool.series.len() && has_name((#[trigger] pool.series[s]).ids, id);
    let k = choose|k: int|
        0 <= k < pool.series[s].ids.len() && #[trigger] pool.series[s].ids[k]@ == id;
    assert(filed(pool.series[s].ids[k]@)@ == pool.series[s].show_key);
}

proof fn lemma_ledger_elsewhere(
    cursor: Seq<(String, String)>,
    aired: Seq<String>,
    filed: spec_fn(Seq<char>) -> String,
    name: Seq<char>,
)
    requires
        forall|j: int| 0 <= j < aired.len() ==> filed((#[trigger] aired[j])@)@ != name,
    ensures
        entry_of(ledger(cursor, aired, filed), name) == entry_of(cursor, name),
    decreases aired.len(),
{
    if aired.len() > 0 {
        let earlier = aired.drop_last();
        assert forall|j: int| 0 <= j < earlier.len() implies filed(
            (#[trigger] earlier[j])@,
        )@ != name by {
            assert(earlier[j] == aired[j]);
        }
        lemma_ledger_elsewhere(cursor, earlier, filed, name);
        assert(aired[aired.len() - 1] == aired.last());
        putting_changes_one_name(
            ledger(cursor, earlier, filed),
            filed(aired.last()@),
            aired.last(),
        );
    }
}

/// Whether the items of all these pools are told apart by the ledger: within each pool, and
/// because no two pools hold items of one series.
pub open spec fn all_told_apart(
    pools: Seq<PoolModel>,
    filed: spec_fn(Seq<char>) -> String,
) -> bool {
    &&& forall|p: int| 0 <= p < pools.len() ==> told_apart(#[trigger] pools[p], filed)
    &&& forall|p: int, q: int, s: int, t: int|
        0 <= p < pools.len() && 0 <= q < pools.len() && p != q && 0 <= s < pools[p].series.len()
            && 0 <= t < pools[q].series.len() ==> (#[trigger] pools[p].series[s]).show_key != (
        #[trigger] pools[q].series[t]).show_key
}

/// Whether every series of every pool stands where the ledger would have it continue.
pub open spec fn all_keep_up(pools: Seq<PoolModel>, cursor: Seq<(String, String)>) -> bool {
    forall|p: int| 0 <= p < pools.len() ==> keeps_up(#[trigger] pools[p], cursor)
}

/// What holds of a walk that the ledger keeps up with.
pub open spec fn kept_up(
    pools: Seq<PoolModel>,
    cursor: Seq<(String, String)>,
    filed: spec_fn(Seq<char>) -> String,
) -> bool {
    &&& pools_wf(pools)
    &&& all_told_apart(pools, filed)
    &&& all_keep_up(pools, cursor)
}

/// Whether one walk goes on from another, and the ledger keeps up with what it laid.
pub open spec fn goes_on(
    from: Walk,
    to: Walk,
    cursor: Seq<(String, String)>,
    filed: spec_fn(Seq<char>) -> String,
) -> bool {
    &&& to.out.len() >= from.out.len()
    &&& to.out.take(from.out.len() as int) == from.out
    &&& kept_up(to.pools, ledger(cursor, to.out.skip(from.out.len() as int), filed), filed)
}

proof fn lemma_step_kept_up(
    walk: Walk,
    step: PatternStep,
    roll: RollKey,
    measured: bool,
    cursor: Seq<(String, String)>,
    filed: spec_fn(Seq<char>) -> String,
)
    requires
        kept_up(walk.pools, cursor, filed),
    ensures
        stepped(walk, step, roll, measured) matches Ok(next) ==> goes_on(
            walk,
            next,
            cursor,
            filed,
        ),
{
    let n = walk.out.len() as int;
    if roll.slice(u64::MAX) >= step.chance {
        assert(walk.out.skip(n) =~= Seq::<String>::empty());
        assert(walk.out.take(n) =~= walk.out);
    } else if pool_named(walk.pools, step.pool@) is Some {
        let i = pool_named(walk.pools, step.pool@)->0;
        lemma_pool_named(walk.pools, step.pool@);
        let pool = walk.pools[i];
        assert(pool.wf());
        assert(told_apart(pool, filed));
        assert(keeps_up(pool, cursor));
        let (after, drawn) = pool.visiting(step.take, step.from, roll);
        the_ledger_keeps_up_with_a_visit(pool, step.take, step.from, roll, cursor, filed);
        a_visit_is_filled(pool, step.take, step.from, roll);
        a_visit_plays_only_its_pool(pool, step.take, step.from, roll);
        let next = stepped(walk, step, roll, measured)->Ok_0;
        assert(next.out.skip(n) =~= drawn);
        assert(next.out.take(n) =~= walk.out);
        let then = ledger(cursor, drawn, filed);
        assert forall|p: int| 0 <= p < next.pools.len() implies keeps_up(
            #[trigger] next.pools[p],
            then,
        ) by {
            if p != i {
                let other = walk.pools[p];
                assert(next.pools[p] == other);
                assert(keeps_up(other, cursor));
                assert forall|t: int| 0 <= t < other.series.len() implies follows(
                    #[trigger] other.series[t],
                    then,
                ) by {
                    let name = other.series[t].show_key;
                    assert(follows(other.series[t], cursor));
                    assert forall|j: int| 0 <= j < drawn.len() implies filed(
                        (#[trigger] drawn[j])@,
                    )@ != name by {
                        assert(pool_holds(pool, drawn[j]@));
                        lemma_held_filed(pool, drawn[j]@, filed);
                        let s = choose|s: int|
                            0 <= s < pool.series.len() && (#[trigger] pool.series[s]).show_key
                                == filed(drawn[j]@)@;
                        assert(walk.pools[i].series[s].show_key
                            != walk.pools[p].series[t].show_key);
                    }
                    lemma_ledger_elsewhere(cursor, drawn, filed, name);
                }
            }
        }
        assert forall|p: int| 0 <= p < next.pools.len() implies told_apart(
            #[trigger] next.pools[p],
            filed,
        ) by {
            if p != i {
                assert(told_apart(walk.pools[p], filed));
            }
        }
        assert forall|p: int, q: int, s: int, t: int|
            0 <= p < next.pools.len() && 0 <= q < next.pools.len() && p != q && 0 <= s
                < next.pools[p].series.len() && 0 <= t < next.pools[q].series.len() implies (
        #[trigger] next.pools[p].series[s]).show_key != (
        #[trigger] next.pools[q].series[t]).show_key by {
            assert(same_content(pool, after));
            assert(walk.pools[p].series[s].show_key == next.pools[p].series[s].show_key);
            assert(walk.pools[q].series[t].show_key == next.pools[q].series[t].show_key);
            assert(walk.pools[p].series[s].show_key != walk.pools[q].series[t].show_key);
        }
        assert(pools_wf(next.pools)) by {
            assert forall|p: int| 0 <= p < next.pools.len() implies (
            #[trigger] next.pools[p]).wf() by {
                if p != i {
                    assert(walk.pools[p].wf());
                }
            }
        }
    }
}

proof fn lemma_goes_on(
    a: Walk,
    b: Walk,
    c: Walk,
    cursor: Seq<(String, String)>,
    filed: spec_fn(Seq<char>) -> String,
)
    requires
        goes_on(a, b, cursor, filed),
        goes_on(b, c, ledger(cursor, b.out.skip(a.out.len() as int), filed), filed),
    ensures
        goes_on(a, c, cursor, filed),
{
    let n = a.out.len() as int;
    let m = b.out.len() as int;
    assert(c.out.take(n) =~= c.out.take(m).take(n));
    assert(c.out.skip(n) =~= c.out.take(m).skip(n) + c.out.skip(m));
    lemma_ledger_concat(cursor, b.out.skip(n), c.out.skip(m), filed);
}

proof fn lemma_cycle_kept_up(
    walk: Walk,
    pattern: Seq<PatternStep>,
    seed: u64,
    cycle: int,
    k: int,
    measured: bool,
    cursor: Seq<(String, String)>,
    filed: spec_fn(Seq<char>) -> String,
)
    requires
        kept_up(walk.pools, cursor, filed),
        0 <= k,
    ensures
        cycled(walk, pattern, seed, cycle, k, measured) matches Ok(next) ==> goes_on(
            walk,
            next,
            cursor,
            filed,
        ),
    decreases pattern.len() - k,
{
    if k >= pattern.len() {
        assert(walk.out.skip(walk.out.len() as int) =~= Seq::<String>::empty());
        assert(walk.out.take(walk.out.len() as int) =~= walk.out);
    } else {
        let roll = RollKey { seed, cycle: cycle as u64, step: k as u64 };
        lemma_step_kept_up(walk, pattern[k], roll, measured, cursor, filed);
        if stepped(walk, pattern[k], roll, measured) is Ok {
            let next = stepped(walk, pattern[k], roll, measured)->Ok_0;
            let then = ledger(cursor, next.out.skip(walk.out.len() as int), filed);
            lemma_cycle_kept_up(next, pattern, seed, cycle, k + 1, measured, then, filed);
            if cycled(next, pattern, seed, cycle, k + 1, measured) is Ok {
                let last = cycled(next, pattern, seed, cycle, k + 1, measured)->Ok_0;
                lemma_goes_on(walk, next, last, cursor, filed);
            }
        }
    }
}

/// However far a walk of a pattern gets, each series of its pools is left standing where the
/// ledger would have it continue, once the ledger holds what the walk laid: what aired tells
/// the next generation where every series goes on.
pub proof fn the_ledger_keeps_up_with_a_walk(
    walk: Walk,
    pattern: Seq<PatternStep>,
    seed: u64,
    cycle: int,
    cycles: int,
    budget: Option<u64>,
    cursor: Seq<(String, String)>,
    filed: spec_fn(Seq<char>) -> String,
)
    requires
        kept_up(walk.pools, cursor, filed),
    ensures
        walked(walk, pattern, seed, cycle, cycles, budget) matches Ok(last) ==> goes_on(
            walk,
            last,
            cursor,
            filed,
        ),
    decreases cycles - cycle,
{
    if cycle >= cycles || (budget is Some && walk.laid >= budget->0) {
        assert(walk.out.skip(walk.out.len() as int) =~= Seq::<String>::empty());
        assert(walk.out.take(walk.out.len() as int) =~= walk.out);
    } else {
        lemma_cycle_kept_up(walk, pattern, seed, cycle, 0, budget is Some, cursor, filed);
        if cycled(walk, pattern, seed, cycle, 0, budget is Some) is Ok {
            let next = cycled(walk, pattern, seed, cycle, 0, budget is Some)->Ok_0;
            let then = ledger(cursor, next.out.skip(walk.out.len() as int), filed);
            the_ledger_keeps_up_with_a_walk(
                next,
                pattern,
                seed,
                cycle + 1,
                cycles,
                budget,
                then,
                filed,
            );
            if walked(next, pattern, seed, cycle + 1, cycles, budget) is Ok {
                let last = walked(next, pattern, seed, cycle + 1, cycles, budget)->Ok_0;
                lemma_goes_on(walk, next, last, cursor, filed);
            }
        }
    }
}

/// Whether a pool holds these series, wherever they stand.
pub open spec fn holds_series(pool: PoolModel, series: Seq<SeriesModel>) -> bool {
    &&& pool.series.len() == series.len()
    &&& forall|i: int|
        0 <= i < series.len() ==> (#[trigger] series[i]) == (SeriesModel {
            cursor: 0,
            ..pool.series[i]
        })
}

/// A pool that continues is ready exactly where it stopped: when the ledger kept up with it,
/// its turn was recorded, and the catalog still gives it the same series, every series stands
/// on the item it would have played next and the same series is up.
pub proof fn a_continued_pool_stands_where_it_stopped(
    catalog: Catalog,
    cfg: Pool,
    ids: Seq<String>,
    block: Option<Constraints>,
    state: GenerationState,
    want_runtimes: bool,
    stopped: PoolModel,
)
    requires
        cfg.advance == Advance::Resume,
        settled(catalog, cfg, ids, block, seam(state.tail@, ids), want_runtimes) matches Ok(now)
            && holds_series(stopped, now.series),
        stopped.series.len() > 0,
        forall|i: int, j: int|
            0 <= i < j < stopped.series.len() ==> (#[trigger] stopped.series[i]).key != (
            #[trigger] stopped.series[j]).key,
        keeps_up(stopped, state.cursor@),
        entry_of(state.resume.pools@, cfg.name@) matches Some(PoolResume { next: Some(key) })
            && stopped.turn() == Some(key@),
    ensures
        ready(catalog, cfg, ids, block, state, want_runtimes) matches Ok(pool) && pool.series
            == stopped.series && pool.rotation == stopped.rotation % (
        stopped.series.len() as int),
{
    let now = settled(catalog, cfg, ids, block, seam(state.tail@, ids), want_runtimes)->Ok_0;
    let series = now.series.map_values(|m: SeriesModel| continued(m, state.cursor@));
    assert forall|i: int| 0 <= i < series.len() implies series[i] == stopped.series[i] by {
        assert(now.series[i] == (SeriesModel { cursor: 0, ..stopped.series[i] }));
        assert(follows(stopped.series[i], state.cursor@));
    }
    assert(series =~= stopped.series);
    let at = stopped.rotation % (stopped.series.len() as int);
    vstd::arithmetic::div_mod::lemma_mod_bound(stopped.rotation, stopped.series.len() as int);
    lemma_find_series(series, stopped.series[at].key);
    let found = find_series(series, stopped.series[at].key);
    assert(found is Some) by {
        assert(series[at].key == stopped.series[at].key);
    }
    assert(found->0 == at) by {
        if found->0 < at {
            assert(stopped.series[found->0].key != stopped.series[at].key);
        } else if at < found->0 {
            assert(stopped.series[at].key != stopped.series[found->0].key);
        }
    }
}

/// A pool that restarts does so whatever played: neither the ledger nor a recorded turn moves
/// it, and without a rule that keeps items apart neither does what aired just before.
pub proof fn a_restarting_pool_ignores_what_played(
    catalog: Catalog,
    cfg: Pool,
    ids: Seq<String>,
    block: Option<Constraints>,
    one: GenerationState,
    other: GenerationState,
    want_runtimes: bool,
)
    requires
        cfg.advance == Advance::Restart,
        seam(one.tail@, ids) == seam(other.tail@, ids) || limits_for(cfg, block).free(),
    ensures
        ready(catalog, cfg, ids, block, one, want_runtimes) == ready(
            catalog,
            cfg,
            ids,
            block,
            other,
            want_runtimes,
        ),
{
}

/// A series whose last item has gone from it starts over, and no other series is moved by
/// that: where a series continues depends on nothing but its own entry in the ledger.
pub proof fn a_lost_place_restarts_only_its_own_series(
    s: SeriesModel,
    one: Seq<(String, String)>,
    other: Seq<(String, String)>,
)
    ensures
        entry_of(one, s.show_key) matches Some(last) && first_index(s.ids, last@) is None
            ==> continued(s, one) == s,
        entry_of(one, s.show_key) == entry_of(other, s.show_key) ==> continued(s, one)
            == continued(s, other),
{
}

/// A step that its chance skips draws nothing and moves nothing, and a step that is certain
/// is never skipped.
pub proof fn a_skipped_step_consumes_nothing(
    walk: Walk,
    step: PatternStep,
    roll: RollKey,
    measured: bool,
)
    ensures
        roll.slice(u64::MAX) >= step.chance ==> stepped(walk, step, roll, measured) == Ok::<
            Walk,
            Fault,
        >(walk),
        step.chance >= CHANCE_WHOLE ==> roll.slice(u64::MAX) < step.chance,
{
    let x: u64 = roll.roll(u64::MAX);
    assert(x >> 11u64 < 0x20_0000_0000_0000u64) by (bit_vector);
}

} // verus!
