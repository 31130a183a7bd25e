//! What holds of every draw: what a visit keeps, how far it gets, and in which order each
//! series plays.

use vstd::prelude::*;

use crate::config::{OnShort, Rotate, Select, Take, TakeFrom};
use crate::constrain::{clashes, free_rule_never_clashes};
use crate::draw::{repeated, Drawn, PoolModel};
use crate::roll::RollKey;

verus! {

/// Whether two pools hold the same series and differ at most in where they stand.
pub open spec fn same_content(a: PoolModel, b: PoolModel) -> bool {
    &&& a.cfg == b.cfg
    &&& a.limits == b.limits
    &&& a.keys == b.keys
    &&& a.runtimes == b.runtimes
    &&& a.mean_runtime == b.mean_runtime
    &&& a.series.len() == b.series.len()
    &&& forall|i: int|
        #![trigger a.series[i]]
        #![trigger b.series[i]]
        0 <= i < a.series.len() ==> {
            &&& a.series[i].key == b.series[i].key
            &&& a.series[i].show_key == b.series[i].show_key
            &&& a.series[i].ids == b.series[i].ids
        }
}

/// How many of the first `j` items came from series `s`.
pub open spec fn served(owners: Seq<int>, s: int, j: int) -> int
    decreases j,
{
    if j <= 0 {
        0
    } else {
        served(owners, s, j - 1) + if owners[j - 1] == s {
            1int
        } else {
            0int
        }
    }
}

/// Whether a run of draws played every series in its own order: each item is the one its
/// series stood on after the items it had already served, and each series is left standing
/// on the item after the last one it served, starting over past its end.
pub open spec fn in_order(pool: PoolModel, drawn: Drawn) -> bool {
    &&& drawn.owners.len() == drawn.out.len()
    &&& forall|j: int|
        #![trigger drawn.out[j]]
        #![trigger drawn.owners[j]]
        0 <= j < drawn.out.len() ==> {
            let s = drawn.owners[j];
            &&& 0 <= s < pool.series.len()
            &&& drawn.out[j] == pool.series[s].ids[(pool.series[s].cursor + served(
                drawn.owners,
                s,
                j,
            )) % (pool.series[s].ids.len() as int)]
        }
    &&& forall|s: int|
        0 <= s < pool.series.len() ==> (#[trigger] drawn.pool.series[s]).cursor == (
        pool.series[s].cursor + served(drawn.owners, s, drawn.owners.len() as int)) % (
        pool.series[s].ids.len() as int)
}

proof fn lemma_served_range(owners: Seq<int>, s: int, j: int)
    requires
        0 <= j <= owners.len(),
    ensures
        0 <= served(owners, s, j) <= j,
    decreases j,
{
    if j > 0 {
        lemma_served_range(owners, s, j - 1);
    }
}

proof fn lemma_served_concat(a: Seq<int>, b: Seq<int>, s: int, j: int)
    requires
        0 <= j <= b.len(),
    ensures
        served(a + b, s, a.len() + j) == served(a, s, a.len() as int) + served(b, s, j),
    decreases j,
{
    if j > 0 {
        lemma_served_concat(a, b, s, j - 1);
    } else {
        lemma_served_prefix(a, b, s, a.len() as int);
    }
}

proof fn lemma_served_prefix(a: Seq<int>, b: Seq<int>, s: int, j: int)
    requires
        0 <= j <= a.len(),
    ensures
        served(a + b, s, j) == served(a, s, j),
    decreases j,
{
    if j > 0 {
        lemma_served_prefix(a, b, s, j - 1);
    }
}

proof fn lemma_served_repeated(si: int, n: nat, s: int, j: int)
    requires
        0 <= j <= n,
    ensures
        served(repeated(si, n), s, j) == (if s == si {
            j
        } else {
            0
        }),
    decreases j,
{
    if j > 0 {
        lemma_served_repeated(si, n, s, j - 1);
    }
}

proof fn lemma_scan(pool: PoolModel, start: int, step: int)
    requires
        0 <= step,
        0 <= start < pool.series.len(),
    ensures
        pool.scan(start, step) matches Some(si) ==> 0 <= si < pool.series.len() && pool.eligible(
            si,
        ),
    decreases pool.series.len() - step,
{
    if step < pool.series.len() {
        vstd::arithmetic::div_mod::lemma_mod_bound(start + step, pool.series.len() as int);
        lemma_scan(pool, start, step + 1);
    }
}

proof fn lemma_reroll(pool: PoolModel, roll: RollKey, nonce: u64, attempt: int)
    requires
        pool.series.len() > 0,
    ensures
        pool.reroll(roll, nonce, attempt) matches Some(si) ==> 0 <= si < pool.series.len()
            && pool.eligible(si),
    decreases 9 - attempt,
{
    if attempt <= 8 {
        let at = nonce.wrapping_add((attempt as u64).wrapping_mul(crate::draw::REROLL_STRIDE));
        vstd::arithmetic::div_mod::lemma_mod_bound(roll.roll(at) as int, pool.series.len() as int);
        lemma_reroll(pool, roll, nonce, attempt + 1);
    }
}

/// Choosing who opens a visit changes nothing but the count of forced clashes, and names a
/// series of the pool whenever there is one. The chosen series may air its next item unless
/// the clash was counted.
pub proof fn opening_chooses_a_series(pool: PoolModel, roll: RollKey, nonce: u64)
    requires
        pool.wf(),
    ensures
        pool.series.len() == 0 <==> pool.opening(roll, nonce).1 is None,
        ({
            let (after, choice) = pool.opening(roll, nonce);
            &&& after == pool || after == pool.forced_once()
            &&& choice matches Some(si) ==> {
                &&& 0 <= si < pool.series.len()
                &&& pool.eligible(si) || after == pool.forced_once()
            }
        }),
{
    if pool.series.len() > 0 {
        let first = pool.choice(roll, nonce)->0;
        vstd::arithmetic::div_mod::lemma_mod_bound(pool.rotation, pool.series.len() as int);
        vstd::arithmetic::div_mod::lemma_mod_bound(
            roll.roll(nonce) as int,
            pool.series.len() as int,
        );
        lemma_reroll(pool, roll, nonce, 1);
        lemma_scan(pool, first, 0);
        if pool.limits.free() {
            let key = (pool.keys)(pool.next_id(first)@);
            free_rule_never_clashes(pool.recent, key.id, key.group, pool.limits);
        }
    }
}

pub(crate) proof fn lemma_relief(pool: PoolModel, si: int)
    requires
        0 <= si < pool.series.len(),
    ensures
        ({
            let (after, next) = pool.relief(si);
            &&& after == pool || after == pool.forced_once()
            &&& pool.limits.free() ==> after == pool
            &&& next matches Some(s) ==> 0 <= s < pool.series.len()
            &&& next is None <==> pool.cfg.on_short == OnShort::Short
        }),
{
    vstd::arithmetic::div_mod::lemma_mod_bound(si + 1, pool.series.len() as int);
    lemma_scan(pool, (si + 1) % (pool.series.len() as int), 0);
}

pub(crate) proof fn lemma_seated(pool: PoolModel, si: int, cursor: int)
    requires
        pool.wf(),
        0 <= si < pool.series.len(),
        0 <= cursor,
    ensures
        pool.seated(si, cursor).wf(),
        same_content(pool, pool.seated(si, cursor)),
{
    let after = pool.seated(si, cursor);
    assert(pool.series[si].wf());
    assert forall|i: int| 0 <= i < after.series.len() implies (#[trigger] after.series[i]).wf() by {
        assert(pool.series[i].wf());
    }
}

pub(crate) proof fn lemma_after_draw(pool: PoolModel, si: int, want: int)
    requires
        pool.wf(),
        0 <= si < pool.series.len(),
        want > 0,
    ensures
        pool.after_draw(si, want).wf(),
        same_content(pool, pool.after_draw(si, want)),
        pool.after_draw(si, want).forced == pool.forced,
        pool.after_draw(si, want).rotation == pool.rotation,
        pool.limits.free() ==> pool.after_draw(si, want).recent == pool.recent,
        0 < pool.draw_len(si, want) <= want,
        pool.draw(si, want).len() == pool.draw_len(si, want),
        forall|s: int|
            0 <= s < pool.series.len() ==> (#[trigger] pool.after_draw(si, want).series[s]).cursor
                == (pool.series[s].cursor + if s == si {
                pool.draw_len(si, want)
            } else {
                0
            }) % (pool.series[s].ids.len() as int),
{
    assert(pool.series[si].wf());
    let k = pool.draw_len(si, want);
    lemma_seated(pool, si, pool.series[si].cursor + k);
    assert forall|s: int| 0 <= s < pool.series.len() implies (#[trigger] pool.after_draw(
        si,
        want,
    ).series[s]).cursor == (pool.series[s].cursor + if s == si {
        k
    } else {
        0
    }) % (pool.series[s].ids.len() as int) by {
        assert(pool.series[s].wf());
        let len = pool.series[s].ids.len() as int;
        let at = pool.series[s].cursor + if s == si {
            k
        } else {
            0
        };
        if at < len {
            vstd::arithmetic::div_mod::lemma_small_mod(at as nat, len as nat);
        } else {
            vstd::arithmetic::div_mod::lemma_mod_self_0(len);
        }
    }
}

/// A run of draws keeps the pool well formed and its content unchanged, gives no more than
/// was asked for and all of it unless the pool stays short, and plays every series in its
/// own order.
pub proof fn filling_plays_in_order(pool: PoolModel, si: int, want: int)
    requires
        pool.wf(),
        0 <= si < pool.series.len(),
        want > 0,
    ensures
        pool.fill(si, want).pool.wf(),
        same_content(pool, pool.fill(si, want).pool),
        0 < pool.fill(si, want).out.len() <= want,
        pool.cfg.on_short != OnShort::Short ==> pool.fill(si, want).out.len() == want,
        pool.limits.free() ==> {
            &&& pool.fill(si, want).pool.forced == pool.forced
            &&& pool.fill(si, want).pool.recent == pool.recent
        },
        pool.fill(si, want).pool.rotation == pool.rotation,
        pool.fill(si, want).out[0] == pool.next_id(si),
        in_order(pool, pool.fill(si, want)),
    decreases want,
{
    let k = pool.draw_len(si, want);
    let taken = pool.draw(si, want);
    let after = pool.after_draw(si, want);
    let drawn = pool.fill(si, want);
    let mine = repeated(si, taken.len());
    lemma_after_draw(pool, si, want);
    assert(pool.series[si].wf());
    assert forall|j: int| 0 <= j < k implies taken[j] == pool.series[si].ids[(
    pool.series[si].cursor + j) % (pool.series[si].ids.len() as int)] by {
        vstd::arithmetic::div_mod::lemma_small_mod(
            (pool.series[si].cursor + j) as nat,
            pool.series[si].ids.len(),
        );
    }
    assert forall|s: int, j: int| 0 <= j <= k implies #[trigger] served(mine, s, j) == (if s
        == si {
        j
    } else {
        0
    }) by {
        lemma_served_repeated(si, taken.len(), s, j);
    }
    lemma_relief(after, si);
    let (next, choice) = after.relief(si);
    if k < want && choice is Some {
        let s2 = choice->0;
        filling_plays_in_order(next, s2, want - k);
        let rest = next.fill(s2, want - k);
        assert(drawn.out =~= taken + rest.out);
        assert(drawn.owners =~= mine + rest.owners);
        assert(in_order(pool, drawn)) by {
            lemma_in_order_concat(pool, next, si, taken, rest, drawn);
        }
    } else {
        assert(drawn.out =~= taken);
        assert(drawn.owners =~= mine);
        assert(drawn.pool.series == after.series);
    }
}

proof fn lemma_in_order_concat(
    pool: PoolModel,
    next: PoolModel,
    si: int,
    taken: Seq<String>,
    rest: Drawn,
    drawn: Drawn,
)
    requires
        pool.wf(),
        0 <= si < pool.series.len(),
        same_content(pool, next),
        forall|j: int|
            0 <= j < taken.len() ==> #[trigger] taken[j] == pool.series[si].ids[(
            pool.series[si].cursor + j) % (pool.series[si].ids.len() as int)],
        forall|s: int|
            0 <= s < pool.series.len() ==> (#[trigger] next.series[s]).cursor == (
            pool.series[s].cursor + if s == si {
                taken.len() as int
            } else {
                0
            }) % (pool.series[s].ids.len() as int),
        in_order(next, rest),
        drawn == (Drawn {
            pool: rest.pool,
            out: taken + rest.out,
            owners: repeated(si, taken.len()) + rest.owners,
        }),
    ensures
        in_order(pool, drawn),
{
    let k = taken.len() as int;
    let mine = repeated(si, taken.len());
    assert forall|j: int|
        #![trigger drawn.out[j]]
        #![trigger drawn.owners[j]]
        0 <= j < drawn.out.len() implies ({
        let s = drawn.owners[j];
        &&& 0 <= s < pool.series.len()
        &&& drawn.out[j] == pool.series[s].ids[(pool.series[s].cursor + served(drawn.owners, s, j))
            % (pool.series[s].ids.len() as int)]
    }) by {
        let s = drawn.owners[j];
        if j < k {
            assert(s == si);
            lemma_served_prefix(mine, rest.owners, s, j);
            lemma_served_repeated(si, taken.len(), s, j);
            assert(drawn.out[j] == taken[j]);
        } else {
            let i = j - k;
            assert(drawn.out[j] == rest.out[i]);
            assert(s == rest.owners[i]);
            lemma_served_concat(mine, rest.owners, s, i);
            lemma_served_repeated(si, taken.len(), s, k);
            assert(next.series[s].ids == pool.series[s].ids);
            assert(pool.series[s].wf());
            let given = if s == si {
                k
            } else {
                0
            };
            vstd::arithmetic::div_mod::lemma_add_mod_noop(
                pool.series[s].cursor + given,
                served(rest.owners, s, i),
                pool.series[s].ids.len() as int,
            );
            vstd::arithmetic::div_mod::lemma_add_mod_noop_right(
                served(rest.owners, s, i),
                pool.series[s].cursor + given,
                pool.series[s].ids.len() as int,
            );
        }
    }
    assert forall|s: int| 0 <= s < pool.series.len() implies (
    #[trigger] drawn.pool.series[s]).cursor == (pool.series[s].cursor + served(
        drawn.owners,
        s,
        drawn.owners.len() as int,
    )) % (pool.series[s].ids.len() as int) by {
        let n = rest.owners.len() as int;
        lemma_served_concat(mine, rest.owners, s, n);
        lemma_served_repeated(si, taken.len(), s, k);
        assert(next.series[s].ids == pool.series[s].ids);
        assert(pool.series[s].wf());
        assert(rest.pool.series[s].cursor == (next.series[s].cursor + served(rest.owners, s, n)) % (
        next.series[s].ids.len() as int));
        let given = if s == si {
            k
        } else {
            0
        };
        vstd::arithmetic::div_mod::lemma_add_mod_noop_right(
            served(rest.owners, s, n),
            pool.series[s].cursor + given,
            pool.series[s].ids.len() as int,
        );
    }
}

/// A serving keeps the pool well formed and its content unchanged, and gives no more than
/// was asked for. Unless the pool stays short, it gives all of it; a pool without a series
/// gives nothing. A pool without a rule neither remembers nor counts anything.
#[verifier::spinoff_prover]
#[verifier::rlimit(40)]
pub proof fn serving_keeps_the_pool(
    pool: PoolModel,
    want: Take,
    from: TakeFrom,
    roll: RollKey,
    nonce: u64,
)
    requires
        pool.wf(),
        want != Take::Count(0),
    ensures
        ({
            let (after, out) = pool.serving(want, from, roll, nonce);
            &&& after.wf()
            &&& same_content(pool, after)
            &&& pool.series.len() == 0 <==> out.len() == 0
            &&& want matches Take::Count(n) ==> out.len() <= n
            &&& want matches Take::Count(n) ==> pool.series.len() > 0 && (pool.cfg.on_short
                != OnShort::Short || n == 1) ==> out.len() == n
            &&& pool.limits.free() ==> after.forced == pool.forced && after.recent == pool.recent
        }),
{
    opening_chooses_a_series(pool, roll, nonce);
    let (opened, choice) = pool.opening(roll, nonce);
    if choice is Some {
        let si = choice->0;
        assert(opened.series[si].wf());
        let take = opened.quota(want, si);
        let at = opened.start_at(si, take, from, roll, nonce);
        assert(0 <= at) by {
            let len = opened.series[si].ids.len() as int;
            let last_start = if take <= len {
                len - take
            } else {
                0
            };
            vstd::arithmetic::div_mod::lemma_mod_bound(
                roll.roll(nonce.wrapping_add(crate::draw::FROM_STRIDE)) as int,
                last_start + 1,
            );
        }
        lemma_seated(opened, si, at);
        let seated = opened.seated(si, at);
        filling_plays_in_order(seated, si, take);
        let drawn = seated.fill(si, take);
        assert(drawn.owners.len() == drawn.out.len());
        let last = drawn.owners.last();
        assert(0 <= last < pool.series.len()) by {
            assert(drawn.owners[drawn.owners.len() - 1] == last);
        }
        vstd::arithmetic::div_mod::lemma_mod_bound(last + 1, pool.series.len() as int);
        if pool.limits.free() {
            assert(opened == pool);
        }
    }
}

proof fn lemma_slots(pool: PoolModel, slot: int, n: int, from: TakeFrom, roll: RollKey)
    requires
        pool.wf(),
        pool.series.len() > 0,
        0 <= slot <= n,
    ensures
        ({
            let (after, out) = pool.slots(slot, n, from, roll);
            &&& after.wf()
            &&& same_content(pool, after)
            &&& out.len() == n - slot
            &&& pool.limits.free() ==> after.forced == pool.forced && after.recent == pool.recent
        }),
    decreases n - slot,
{
    if slot < n {
        serving_keeps_the_pool(pool, Take::Count(1), from, roll, slot as u64);
        let next = pool.serving(Take::Count(1), from, roll, slot as u64).0;
        lemma_slots(next, slot + 1, n, from, roll);
    }
}

/// A visit keeps the pool well formed and its content unchanged, and a pool with anything in
/// it fills the visit: television does not run out. Only a pool that was told to stay short
/// may give fewer items than the step takes, and it still gives one.
pub proof fn a_visit_is_filled(pool: PoolModel, take: Take, from: TakeFrom, roll: RollKey)
    requires
        pool.wf(),
    ensures
        ({
            let (after, out) = pool.visiting(take, from, roll);
            &&& after.wf()
            &&& same_content(pool, after)
            &&& out.len() == 0 <==> (take == Take::Count(0) || pool.series.len() == 0)
            &&& take matches Take::Count(n) ==> out.len() <= n
            &&& take matches Take::Count(n) ==> pool.series.len() > 0 && (pool.cfg.on_short
                != OnShort::Short || pool.cfg.rotate == Rotate::Slot) ==> out.len() == n
            &&& pool.limits.free() ==> after.forced == pool.forced && after.recent == pool.recent
        }),
{
    if take != Take::Count(0) && pool.series.len() > 0 {
        match pool.cfg.rotate {
            Rotate::Slot => {
                let n = match take {
                    Take::Count(n) => n as int,
                    Take::All => 1,
                };
                lemma_slots(pool, 0, n, from, roll);
            },
            Rotate::Visit => {
                serving_keeps_the_pool(pool, take, from, roll, 0);
            },
        }
    }
}

/// An item served from where its series stands does not clash with what the pool emitted
/// lately, unless the clash is counted.
pub proof fn a_clash_is_counted(pool: PoolModel, want: Take, roll: RollKey, nonce: u64)
    requires
        pool.wf(),
        want != Take::Count(0),
        pool.series.len() > 0,
        pool.forced < usize::MAX,
    ensures
        ({
            let (after, out) = pool.serving(want, TakeFrom::Start, roll, nonce);
            let key = (pool.keys)(out[0]@);
            &&& out.len() > 0
            &&& clashes(pool.recent, key.id, key.group, pool.limits) ==> after.forced > pool.forced
        }),
{
    opening_chooses_a_series(pool, roll, nonce);
    let (opened, choice) = pool.opening(roll, nonce);
    let si = choice->0;
    assert(opened.series[si].wf());
    let take = opened.quota(want, si);
    let seated = opened.seated(si, opened.series[si].cursor);
    assert(seated.series =~= opened.series);
    filling_plays_in_order(opened, si, take);
    lemma_forced_grows(opened, si, take);
}

proof fn lemma_forced_grows(pool: PoolModel, si: int, want: int)
    requires
        pool.wf(),
        0 <= si < pool.series.len(),
        want > 0,
    ensures
        pool.fill(si, want).pool.forced >= pool.forced,
    decreases want,
{
    lemma_after_draw(pool, si, want);
    let after = pool.after_draw(si, want);
    lemma_relief(after, si);
    let (next, choice) = after.relief(si);
    if pool.draw_len(si, want) < want && choice is Some {
        lemma_forced_grows(next, choice->0, want - pool.draw_len(si, want));
    }
}

/// A rotation without a rule, visited for one item, plays the series whose turn it is and
/// passes the turn to the next: rotating through series of one item each is playing them in
/// order.
pub proof fn a_rotation_takes_turns(pool: PoolModel, roll: RollKey, nonce: u64)
    requires
        pool.wf(),
        pool.series.len() > 0,
        pool.limits.free(),
        pool.cfg.select == Select::RoundRobin,
    ensures
        ({
            let (after, out) = pool.serving(Take::Count(1), TakeFrom::Start, roll, nonce);
            let turn = pool.rotation % (pool.series.len() as int);
            &&& out =~= seq![pool.next_id(turn)]
            &&& after.rotation == (turn + 1) % (pool.series.len() as int)
            &&& forall|s: int|
                0 <= s < pool.series.len() ==> (#[trigger] after.series[s]).cursor == (
                pool.series[s].cursor + if s == turn {
                    1int
                } else {
                    0
                }) % (pool.series[s].ids.len() as int)
        }),
{
    let turn = pool.rotation % (pool.series.len() as int);
    vstd::arithmetic::div_mod::lemma_mod_bound(pool.rotation, pool.series.len() as int);
    assert(pool.series[turn].wf());
    assert(pool.seated(turn, pool.series[turn].cursor).series =~= pool.series);
    lemma_after_draw(pool, turn, 1);
    let drawn = pool.fill(turn, 1);
    assert(drawn.out =~= seq![pool.next_id(turn)]);
    assert(drawn.owners =~= seq![turn]);
}

} // verus!
