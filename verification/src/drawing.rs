//! What holds of drawing from a pool: which series a visit opens on, which of its items it draws,
//! who fills a visit that falls short, and whose turn comes after it.

use vstd::prelude::*;

use crate::apart::{a_rule_forbids_what_is_too_near, too_near};
use crate::config::{OnShort, Rotate, Select, Take, TakeFrom};
use crate::constrain::{clashes, forgetting_changes_no_answer, free_rule_never_clashes, Key};
use crate::draw::{keys_of, total_runtime, PoolModel};
use crate::names::entry_of;
use crate::roll::RollKey;

verus! {

/// A draw takes the items of a series one after the other from where the series stands: as many
/// as are wanted, or as are left of it.
pub proof fn a_draw_takes_what_comes_next(pool: PoolModel, si: int, want: int)
    requires
        0 <= si < pool.series.len(),
        pool.series[si].wf(),
        0 <= want,
    ensures
        ({
            let s = pool.series[si];
            let out = pool.draw(si, want);
            &&& out.len() <= want
            &&& out.len() <= s.ids.len() - s.cursor
            &&& out.len() == want || out.len() == s.ids.len() - s.cursor
            &&& forall|k: int| 0 <= k < out.len() ==> #[trigger] out[k] == s.ids[s.cursor + k]
        }),
{
}

/// After a draw its series stands behind the last item that was drawn, or at its start where that
/// was its last; the other series stand where they stood.
pub proof fn a_draw_moves_only_its_series(pool: PoolModel, si: int, want: int)
    requires
        0 <= si < pool.series.len(),
        pool.series[si].wf(),
        0 <= want,
    ensures
        ({
            let s = pool.series[si];
            let n = pool.draw(si, want).len();
            let after = pool.after_draw(si, want);
            &&& after.series.len() == pool.series.len()
            &&& after.series[si].ids == s.ids
            &&& after.series[si].key == s.key
            &&& s.cursor + n < s.ids.len() ==> after.series[si].cursor == s.cursor + n
            &&& s.cursor + n == s.ids.len() ==> after.series[si].cursor == 0
            &&& forall|j: int|
                0 <= j < pool.series.len() && j != si ==> #[trigger] after.series[j]
                    == pool.series[j]
            &&& after.rotation == pool.rotation
        }),
{
}

/// A series may play where what was drawn lately is not too near to its next item.
pub proof fn a_series_may_play_its_next_item(pool: PoolModel, si: int)
    requires
        0 <= si < pool.series.len(),
        pool.series[si].wf(),
    ensures
        ({
            let key = (pool.keys)(pool.series[si].ids[pool.series[si].cursor]@);
            pool.eligible(si) <==> !(exists|i: int|
                0 <= i < pool.recent.len() && #[trigger] too_near(
                    pool.recent,
                    i,
                    key.id,
                    key.group,
                    pool.limits,
                ))
        }),
{
    let key = (pool.keys)(pool.series[si].ids[pool.series[si].cursor]@);
    a_rule_forbids_what_is_too_near(pool.recent, key.id, key.group, pool.limits);
}

/// What is drawn is remembered for as long as a rule looks back on it: whatever is drawn after it,
/// an item is forbidden exactly where all that was drawn forbids it.
pub proof fn what_is_drawn_is_remembered(
    pool: PoolModel,
    ids: Seq<String>,
    more: Seq<Key>,
    id: Seq<char>,
    group: Seq<String>,
)
    ensures
        clashes(pool.remembering(ids).recent + more, id, group, pool.limits) == clashes(
            pool.recent + keys_of(pool.keys, ids) + more,
            id,
            group,
            pool.limits,
        ),
        pool.remembering(ids).series == pool.series,
        pool.remembering(ids).rotation == pool.rotation,
        pool.remembering(ids).limits == pool.limits,
        pool.remembering(ids).cfg == pool.cfg,
{
    let all = pool.recent + keys_of(pool.keys, ids);
    if pool.limits.free() {
        free_rule_never_clashes(pool.recent + more, id, group, pool.limits);
        free_rule_never_clashes(all + more, id, group, pool.limits);
    } else if ids.len() == 0 {
        assert(all =~= pool.recent);
    } else {
        forgetting_changes_no_answer(all, more, id, group, pool.limits);
    }
}

proof fn lemma_scan(pool: PoolModel, start: int, step: int)
    requires
        0 <= start < pool.series.len(),
        0 <= step <= pool.series.len(),
    ensures
        pool.scan(start, step) matches Some(si) ==> 0 <= si < pool.series.len() && pool.eligible(si)
            && exists|k: int|
            step <= k < pool.series.len() && si == #[trigger] ((start + k) % (
            pool.series.len() as int)) && forall|j: int|
                step <= j < k ==> !pool.eligible(#[trigger] ((start + j) % (
                pool.series.len() as int))),
        pool.scan(start, step) is None ==> forall|k: int|
            step <= k < pool.series.len() ==> !pool.eligible(#[trigger] ((start + k) % (
            pool.series.len() as int))),
    decreases pool.series.len() - step,
{
    let n = pool.series.len() as int;
    if step < n {
        vstd::arithmetic::div_mod::lemma_mod_bound(start + step, n);
        if !pool.eligible((start + step) % n) {
            lemma_scan(pool, start, step + 1);
        }
    }
}

proof fn lemma_round(start: int, x: int, n: int) -> (k: int)
    requires
        0 <= start < n,
        0 <= x < n,
    ensures
        0 <= k < n,
        (start + k) % n == x,
{
    let k = if x >= start {
        x - start
    } else {
        x + n - start
    };
    if x >= start {
        vstd::arithmetic::div_mod::lemma_small_mod(x as nat, n as nat);
    } else {
        vstd::arithmetic::div_mod::lemma_mod_add_multiples_vanish(x, n);
        vstd::arithmetic::div_mod::lemma_small_mod(x as nat, n as nat);
    }
    k
}

proof fn lemma_from_start(pool: PoolModel, start: int)
    requires
        0 <= start < pool.series.len(),
    ensures
        pool.from_start(start).1 matches Some(si) && 0 <= si < pool.series.len(),
        !pool.limits.free() && !pool.eligible(pool.from_start(start).1->0) ==> (forall|j: int|
            0 <= j < pool.series.len() ==> !#[trigger] pool.eligible(j)) && pool.from_start(
            start,
        ).1 == Some(start) && pool.from_start(start).0 == pool.forced_once(),
        pool.limits.free() || pool.eligible(pool.from_start(start).1->0) ==> pool.from_start(
            start,
        ).0 == pool,
{
    lemma_scan(pool, start, 0);
    if pool.scan(start, 0) is None {
        assert forall|j: int| 0 <= j < pool.series.len() implies !#[trigger] pool.eligible(j) by {
            let k = lemma_round(start, j, pool.series.len() as int);
            assert(!pool.eligible((start + k) % (pool.series.len() as int)));
        }
    }
}

proof fn lemma_reroll(pool: PoolModel, roll: RollKey, nonce: u64, attempt: int)
    requires
        pool.series.len() > 0,
    ensures
        pool.reroll(roll, nonce, attempt) matches Some(si) ==> 0 <= si < pool.series.len()
            && pool.eligible(si),
    decreases crate::draw::RANDOM_REROLLS + 1 - attempt,
{
    if attempt <= crate::draw::RANDOM_REROLLS {
        let at = nonce.wrapping_add((attempt as u64).wrapping_mul(crate::draw::REROLL_STRIDE));
        vstd::arithmetic::div_mod::lemma_mod_bound(
            roll.roll(at) as int,
            pool.series.len() as int,
        );
        lemma_reroll(pool, roll, nonce, attempt + 1);
    }
}

/// A visit opens on a series whose next item may play, as long as there is one. Where there is
/// none it opens all the same, and that is counted; else nothing is.
pub proof fn a_visit_opens_on_a_series_that_may_play(pool: PoolModel, roll: RollKey, nonce: u64)
    requires
        pool.series.len() > 0,
        pool.rotation >= 0,
    ensures
        pool.opening(roll, nonce).1 matches Some(si) && 0 <= si < pool.series.len(),
        !pool.limits.free() && !pool.eligible(pool.opening(roll, nonce).1->0) ==> (forall|j: int|
            0 <= j < pool.series.len() ==> !#[trigger] pool.eligible(j)) && pool.opening(
            roll,
            nonce,
        ).0 == pool.forced_once(),
        pool.limits.free() || pool.eligible(pool.opening(roll, nonce).1->0) ==> pool.opening(
            roll,
            nonce,
        ).0 == pool,
{
    let n = pool.series.len() as int;
    vstd::arithmetic::div_mod::lemma_mod_bound(pool.rotation, n);
    vstd::arithmetic::div_mod::lemma_mod_bound(roll.roll(nonce) as int, n);
    let first = pool.choice(roll, nonce)->0;
    lemma_from_start(pool, first);
    lemma_reroll(pool, roll, nonce, 1);
}

/// The series that a pool rolls at an attempt: the first roll is that of the visit, and every
/// attempt after it rolls by a number of its own.
pub open spec fn rolled(pool: PoolModel, roll: RollKey, nonce: u64, attempt: int) -> int {
    roll.roll(nonce.wrapping_add((attempt as u64).wrapping_mul(crate::draw::REROLL_STRIDE))) as int
        % (pool.series.len() as int)
}

/// A pool that draws at random rolls again, up to eight times, while it rolls a series that may not
/// play, and opens on the first that may.
pub proof fn a_random_visit_rolls_again(pool: PoolModel, roll: RollKey, nonce: u64, k: int)
    requires
        pool.series.len() > 0,
        pool.cfg.select == Select::Random,
        !pool.limits.free(),
        1 <= k <= 8,
        pool.eligible(rolled(pool, roll, nonce, k)),
        !pool.eligible(roll.roll(nonce) as int % (pool.series.len() as int)),
        forall|j: int| 1 <= j < k ==> !pool.eligible(#[trigger] rolled(pool, roll, nonce, j)),
    ensures
        pool.opening(roll, nonce) == (pool, Some(rolled(pool, roll, nonce, k))),
{
    lemma_reroll_is(pool, roll, nonce, 1, k);
}

proof fn lemma_reroll_is(pool: PoolModel, roll: RollKey, nonce: u64, attempt: int, k: int)
    requires
        1 <= attempt <= k <= 8,
        pool.eligible(rolled(pool, roll, nonce, k)),
        forall|j: int|
            attempt <= j < k ==> !pool.eligible(#[trigger] rolled(pool, roll, nonce, j)),
    ensures
        pool.reroll(roll, nonce, attempt) == Some(rolled(pool, roll, nonce, k)),
    decreases k - attempt,
{
    if attempt < k {
        assert(!pool.eligible(rolled(pool, roll, nonce, attempt)));
        lemma_reroll_is(pool, roll, nonce, attempt + 1, k);
    }
}

/// A pool that goes round opens on the series whose turn it is, where that may play.
pub proof fn a_round_opens_on_the_series_whose_turn_it_is(
    pool: PoolModel,
    roll: RollKey,
    nonce: u64,
)
    requires
        0 <= pool.rotation < pool.series.len(),
        pool.cfg.select == Select::RoundRobin,
        pool.limits.free() || pool.eligible(pool.rotation),
    ensures
        pool.opening(roll, nonce) == (pool, Some(pool.rotation)),
        pool.turn() == Some(pool.series[pool.rotation].key),
{
    vstd::arithmetic::div_mod::lemma_small_mod(
        pool.rotation as nat,
        pool.series.len() as nat,
    );
}

/// Who fills a visit that falls short: nobody, the same series again, or the series after it that
/// may play.
pub proof fn who_fills_a_short_visit(pool: PoolModel, si: int)
    requires
        0 <= si < pool.series.len(),
    ensures
        pool.cfg.on_short == OnShort::Short ==> pool.relief(si) == (pool, None::<int>),
        pool.cfg.on_short == OnShort::Wrap ==> pool.relief(si).1 == Some(si),
        pool.cfg.on_short == OnShort::Next && pool.limits.free() && si + 1 < pool.series.len()
            ==> pool.relief(si) == (pool, Some(si + 1)),
        pool.cfg.on_short == OnShort::Next && pool.limits.free() && si + 1 == pool.series.len()
            ==> pool.relief(si) == (pool, Some(0int)),
        pool.cfg.on_short == OnShort::Next ==> (pool.relief(si).1 matches Some(next) && 0 <= next
            < pool.series.len() && (pool.limits.free() || pool.eligible(next) || forall|j: int|
            0 <= j < pool.series.len() ==> !#[trigger] pool.eligible(j))),
{
    let n = pool.series.len() as int;
    vstd::arithmetic::div_mod::lemma_mod_bound(si + 1, n);
    if si + 1 < n {
        vstd::arithmetic::div_mod::lemma_small_mod((si + 1) as nat, n as nat);
    } else {
        vstd::arithmetic::div_mod::lemma_mod_self_0(n);
    }
    lemma_from_start(pool, (si + 1) % n);
}

/// Where a visit draws from: from where the series stands, from where its last items begin, or
/// from a place that leaves enough items after it.
pub proof fn where_a_visit_draws_from(
    pool: PoolModel,
    si: int,
    take: int,
    roll: RollKey,
    nonce: u64,
)
    requires
        0 <= si < pool.series.len(),
        0 <= take,
    ensures
        pool.start_at(si, take, TakeFrom::Start, roll, nonce) == pool.series[si].cursor,
        take <= pool.series[si].ids.len() ==> pool.start_at(si, take, TakeFrom::End, roll, nonce)
            + take == pool.series[si].ids.len(),
        take > pool.series[si].ids.len() ==> pool.start_at(si, take, TakeFrom::End, roll, nonce)
            == 0,
        0 <= pool.start_at(si, take, TakeFrom::Random, roll, nonce),
        take <= pool.series[si].ids.len() ==> pool.start_at(
            si,
            take,
            TakeFrom::Random,
            roll,
            nonce,
        ) + take <= pool.series[si].ids.len(),
        take > pool.series[si].ids.len() ==> pool.start_at(si, take, TakeFrom::Random, roll, nonce)
            == 0,
{
    let len = pool.series[si].ids.len() as int;
    let last_start = if take <= len {
        len - take
    } else {
        0
    };
    vstd::arithmetic::div_mod::lemma_mod_bound(
        roll.roll(nonce.wrapping_add(crate::draw::FROM_STRIDE)) as int,
        last_start + 1,
    );
}

/// How much a visit wants: as many items as it says, or what is left of the series it opens on.
pub proof fn how_much_a_visit_wants(pool: PoolModel, si: int, n: usize)
    requires
        0 <= si < pool.series.len(),
        pool.series[si].wf(),
    ensures
        pool.quota(Take::Count(n), si) == n,
        pool.quota(Take::All, si) == pool.series[si].ids.len() - pool.series[si].cursor,
{
}

/// A visit that wraps draws exactly as many items as it wants; one that stays short draws no more
/// than are left of its series. No visit draws more than it wants, and every item that it draws
/// has its series noted.
pub proof fn a_visit_draws_what_it_wants(pool: PoolModel, si: int, want: int)
    requires
        pool.wf(),
        0 <= si < pool.series.len(),
        0 <= want,
    ensures
        pool.fill(si, want).out.len() <= want,
        pool.fill(si, want).owners.len() == pool.fill(si, want).out.len(),
        pool.cfg.on_short != OnShort::Short ==> pool.fill(si, want).out.len() == want,
        pool.cfg.on_short == OnShort::Short && want <= pool.series[si].left() ==> pool.fill(
            si,
            want,
        ).out.len() == want,
        pool.cfg.on_short == OnShort::Short && want > pool.series[si].left() ==> pool.fill(
            si,
            want,
        ).out.len() == pool.series[si].left(),
    decreases want,
{
    let taken = pool.draw(si, want);
    let after = pool.after_draw(si, want);
    if want > 0 && taken.len() < want {
        a_draw_moves_only_its_series(pool, si, want);
        assert(after.wf());
        who_fills_a_short_visit(after, si);
        let (next, s) = after.relief(si);
        lemma_relief_keeps(after, si);
        if s is Some {
            a_visit_draws_what_it_wants(next, s->0, want - taken.len());
        }
    }
}

proof fn lemma_relief_keeps(pool: PoolModel, si: int)
    requires
        pool.wf(),
        0 <= si < pool.series.len(),
    ensures
        pool.relief(si).0.wf(),
        pool.relief(si).0.series == pool.series,
        pool.relief(si).0.cfg == pool.cfg,
        pool.relief(si).0.rotation == pool.rotation,
{
}

/// Whose turn comes after a visit of a pool that goes round: that of the series after the one
/// that filled it alone and in full, and else that of the last series that it drew from. A pool
/// that draws at random, and a visit that drew nothing, change no turn.
pub proof fn whose_turn_comes_next(pool: PoolModel, owners: Seq<int>, whole: bool)
    requires
        forall|i: int| 0 <= i < owners.len() ==> 0 <= #[trigger] owners[i] < pool.series.len(),
    ensures
        owners.len() == 0 || pool.cfg.select == Select::Random ==> pool.parked(owners, whole)
            == pool,
        owners.len() > 0 && pool.cfg.select == Select::RoundRobin ==> {
            let last = owners[owners.len() - 1];
            let after = pool.parked(owners, whole);
            let alone = forall|i: int| 0 <= i < owners.len() ==> #[trigger] owners[i] == last;
            &&& whole && alone && last + 1 < pool.series.len() ==> after.rotation == last + 1
            &&& whole && alone && last + 1 == pool.series.len() ==> after.rotation == 0
            &&& !(whole && alone) ==> after.rotation == last
            &&& after.series == pool.series
        },
{
    if owners.len() > 0 {
        let n = pool.series.len() as int;
        let last = owners[owners.len() - 1];
        if last + 1 < n {
            vstd::arithmetic::div_mod::lemma_small_mod((last + 1) as nat, n as nat);
        } else {
            vstd::arithmetic::div_mod::lemma_mod_self_0(n);
        }
        if pool.cfg.select == Select::RoundRobin {
            let alone = forall|i: int| 0 <= i < owners.len() ==> #[trigger] owners[i] == last;
            if alone {
                assert(forall|i: int| 0 <= i < owners.len() ==> owners[i] == owners.last());
            } else {
                let i = choose|i: int| 0 <= i < owners.len() && #[trigger] owners[i] != last;
                assert(owners[i] != owners.last());
            }
        }
    }
}

/// A visit to a pool that rotates by the visit opens one series; one that rotates by the slot
/// opens a series anew for each item it wants, and one series for all that is left of it.
pub proof fn how_a_visit_rotates(pool: PoolModel, n: usize, from: TakeFrom, roll: RollKey)
    requires
        pool.series.len() > 0,
        n > 0,
    ensures
        pool.cfg.rotate == Rotate::Visit ==> pool.visiting(Take::Count(n), from, roll)
            == pool.serving(Take::Count(n), from, roll, 0),
        pool.cfg.rotate == Rotate::Visit ==> pool.visiting(Take::All, from, roll) == pool.serving(
            Take::All,
            from,
            roll,
            0,
        ),
        pool.cfg.rotate == Rotate::Slot ==> pool.visiting(Take::Count(n), from, roll)
            == pool.slots(0, n as int, from, roll),
        pool.cfg.rotate == Rotate::Slot ==> pool.visiting(Take::All, from, roll) == pool.slots(
            0,
            1,
            from,
            roll,
        ),
        pool.visiting(Take::Count(0), from, roll) == (pool, Seq::<String>::empty()),
{
}

/// Each slot of a visit serves one item, from the pool as the slots before it left it, and rolls
/// by its own number.
pub proof fn each_slot_serves_one_item(
    pool: PoolModel,
    slot: int,
    n: int,
    from: TakeFrom,
    roll: RollKey,
)
    ensures
        slot >= n ==> pool.slots(slot, n, from, roll) == (pool, Seq::<String>::empty()),
        slot < n ==> {
            let one = pool.serving(Take::Count(1), from, roll, slot as u64);
            let rest = one.0.slots(slot + 1, n, from, roll);
            pool.slots(slot, n, from, roll) == (rest.0, one.1 + rest.1)
        },
{
}

/// What a list of items runs is the sum of what each runs: what the table says of it, or the mean.
pub proof fn runtimes_add_up(
    runtimes: Seq<(String, u64)>,
    mean: u64,
    ids: Seq<String>,
    more: String,
)
    ensures
        total_runtime(runtimes, mean, Seq::<String>::empty()) == 0,
        entry_of(runtimes, more@) matches Some(d) ==> total_runtime(runtimes, mean, ids.push(more))
            == total_runtime(runtimes, mean, ids) + d,
        entry_of(runtimes, more@) is None ==> total_runtime(runtimes, mean, ids.push(more))
            == total_runtime(runtimes, mean, ids) + mean,
{
    assert(ids.push(more).drop_last() =~= ids);
}

} // verus!
