//! Drawing from a pool: which series serves a visit, what it serves, and where the
//! rotation is left standing.

use vstd::prelude::*;

use crate::config::{OnShort, Pool, Rotate, Select, Take, TakeFrom};
use crate::constrain::{
    clashes, conflicts_with_recent, history_needed, keys, needed, ItemKeys, Key, Limits,
};
use crate::names::{copy_names, entry_of, lookup};
use crate::resume::PoolResume;
use crate::roll::RollKey;

verus! {

/// How many times a constrained random pool redraws before it walks the rotation instead.
pub const RANDOM_REROLLS: u64 = 8;

/// Keeps the nonce of a reroll clear of the small nonces of the rest of the walk.
pub const REROLL_STRIDE: u64 = 0x1_0000_0000;

/// Keeps the nonce of a random offset clear of the small nonces and of the rerolls.
pub const FROM_STRIDE: u64 = 0x1_0000_0000_0000;

/// One series inside a pool: a show's episodes, one season of them, or a single movie.
#[derive(Debug)]
pub struct Series {
    /// What this series is called in the rotation.
    pub key: String,
    /// What its airings are filed under: the show, never the season.
    pub show_key: String,
    pub ids: Vec<String>,
    /// The next item to play.
    pub cursor: usize,
}

/// A series as mathematical values.
pub struct SeriesModel {
    pub key: Seq<char>,
    pub show_key: Seq<char>,
    pub ids: Seq<String>,
    pub cursor: int,
}

impl View for Series {
    type V = SeriesModel;

    open spec fn view(&self) -> SeriesModel {
        SeriesModel {
            key: self.key@,
            show_key: self.show_key@,
            ids: self.ids@,
            cursor: self.cursor as int,
        }
    }
}

impl SeriesModel {
    /// A series holds something and its cursor stands on one of its items.
    pub open spec fn wf(self) -> bool {
        0 <= self.cursor < self.ids.len()
    }

    /// How many items are left before the series starts over.
    pub open spec fn left(self) -> int {
        if self.cursor <= self.ids.len() {
            self.ids.len() - self.cursor
        } else {
            0
        }
    }
}

impl Series {
    /// How many items are left before the series starts over.
    pub fn remaining(&self) -> (out: usize)
        ensures
            out == self@.left(),
    {
        self.ids.len().saturating_sub(self.cursor)
    }
}

/// What the adjacency rule compares of each item a pool can draw.
#[derive(Debug)]
pub struct PoolKeys {
    pub groups: Vec<(String, Vec<String>)>,
    /// In nanoseconds.
    pub durations: Vec<(String, u64)>,
    pub mean_duration: u64,
}

impl View for PoolKeys {
    type V = spec_fn(Seq<char>) -> Key;

    open spec fn view(&self) -> spec_fn(Seq<char>) -> Key {
        |id: Seq<char>| self.key(id)
    }
}

/// What the adjacency rule compares of each of `ids`.
pub open spec fn keys_of(key: spec_fn(Seq<char>) -> Key, ids: Seq<String>) -> Seq<Key> {
    ids.map_values(|id: String| key(id@))
}

impl PoolKeys {
    /// What the adjacency rule compares of the item `id`.
    pub open spec fn key(self, id: Seq<char>) -> Key {
        Key {
            id,
            group: match entry_of(self.groups@, id) {
                Some(values) => values@,
                None => Seq::empty(),
            },
            duration: match entry_of(self.durations@, id) {
                Some(d) => d as nat,
                None => self.mean_duration as nat,
            },
        }
    }

    /// What the adjacency rule compares of the item `id`: an item that was never measured
    /// counts at the mean.
    pub fn of(&self, id: &String) -> (out: ItemKeys)
        ensures
            out@ == self.key(id@),
    {
        let group: Vec<String> = match lookup(&self.groups, id) {
            Some(values) => copy_names(values),
            None => Vec::new(),
        };
        let duration: u64 = match lookup(&self.durations, id) {
            Some(d) => *d,
            None => self.mean_duration,
        };
        ItemKeys { id: id.clone(), group, duration }
    }

    /// What the adjacency rule compares of each of `ids`.
    pub fn many(&self, ids: &Vec<String>) -> (out: Vec<ItemKeys>)
        ensures
            keys(out@) == keys_of(self@, ids@),
    {
        let mut out: Vec<ItemKeys> = Vec::new();
        let mut i: usize = 0;
        while i < ids.len()
            invariant
                i <= ids.len(),
                out.len() == i,
                forall|j: int| 0 <= j < i ==> (#[trigger] out@[j])@ == self.key(ids@[j]@),
            decreases ids.len() - i,
        {
            out.push(self.of(&ids[i]));
            i += 1;
        }
        assert(keys(out@) =~= keys_of(self@, ids@));
        out
    }
}

/// A pool mid-walk: its config, its series, and where the rotation stands.
#[derive(Debug)]
pub struct PoolRuntime<'a> {
    pub cfg: &'a Pool,
    pub series: Vec<Series>,
    /// Which series is up next.
    pub rotation: usize,
    pub limits: Limits,
    pub keys: PoolKeys,
    /// What this pool emitted lately, oldest first, as far back as the rule looks.
    pub recent: Vec<ItemKeys>,
    /// Draws that had to clash because no series could serve without one.
    pub forced: usize,
    /// How long each item runs, in nanoseconds, where that is known.
    pub runtimes: Vec<(String, u64)>,
    /// How long an item that was never measured is counted at.
    pub mean_runtime: u64,
}

/// A pool mid-walk as mathematical values.
#[verifier::ext_equal]
pub struct PoolModel {
    pub cfg: Pool,
    pub series: Seq<SeriesModel>,
    pub rotation: int,
    pub limits: Limits,
    pub keys: spec_fn(Seq<char>) -> Key,
    pub recent: Seq<Key>,
    pub forced: usize,
    pub runtimes: Seq<(String, u64)>,
    pub mean_runtime: u64,
}

/// What a run of draws did: the pool afterwards, the items in order, and the series that
/// each item came from.
pub struct Drawn {
    pub pool: PoolModel,
    pub out: Seq<String>,
    pub owners: Seq<int>,
}

/// The same series, so many times over.
pub open spec fn repeated(si: int, n: nat) -> Seq<int> {
    Seq::new(n, |i: int| si)
}

/// How long an item runs.
pub open spec fn runtime(runtimes: Seq<(String, u64)>, mean: u64, id: Seq<char>) -> int {
    match entry_of(runtimes, id) {
        Some(d) => d as int,
        None => mean as int,
    }
}

/// How long a list of items runs.
pub open spec fn total_runtime(runtimes: Seq<(String, u64)>, mean: u64, ids: Seq<String>) -> int
    decreases ids.len(),
{
    if ids.len() == 0 {
        0
    } else {
        total_runtime(runtimes, mean, ids.drop_last()) + runtime(runtimes, mean, ids.last()@)
    }
}

impl PoolModel {
    /// Every series of the pool is well formed.
    pub open spec fn wf(self) -> bool {
        &&& forall|i: int| 0 <= i < self.series.len() ==> (#[trigger] self.series[i]).wf()
        &&& 0 <= self.rotation
    }

    /// The name of the series whose turn is next, where the pool takes turns.
    pub open spec fn turn(self) -> Option<Seq<char>> {
        if self.cfg.select == Select::RoundRobin && self.series.len() > 0 {
            Some(self.series[self.rotation % (self.series.len() as int)].key)
        } else {
            None
        }
    }

    /// The item that series `si` would serve next.
    pub open spec fn next_id(self, si: int) -> String {
        self.series[si].ids[self.series[si].cursor]
    }

    /// Whether the next item of series `si` may air now.
    pub open spec fn eligible(self, si: int) -> bool {
        let key = (self.keys)(self.next_id(si)@);
        !clashes(self.recent, key.id, key.group, self.limits)
    }

    /// The first series, `step` or more after `start`, whose next item may air now.
    pub open spec fn scan(self, start: int, step: int) -> Option<int>
        decreases self.series.len() - step,
    {
        if step >= self.series.len() {
            None
        } else if self.eligible((start + step) % (self.series.len() as int)) {
            Some((start + step) % (self.series.len() as int))
        } else {
            self.scan(start, step + 1)
        }
    }

    /// The pool after one more draw that had to clash.
    pub open spec fn forced_once(self) -> PoolModel {
        PoolModel { forced: self.forced.saturating_add(1), ..self }
    }

    /// The series that serves from `start` on, and the pool after that choice.
    pub open spec fn from_start(self, start: int) -> (PoolModel, Option<int>) {
        if self.limits.free() {
            (self, Some(start))
        } else if self.series.len() == 0 {
            (self, None)
        } else {
            match self.scan(start, 0) {
                Some(si) => (self, Some(si)),
                None => (self.forced_once(), Some(start)),
            }
        }
    }

    /// The series a visit opens with, before the adjacency rule is asked.
    pub open spec fn choice(self, roll: RollKey, nonce: u64) -> Option<int> {
        if self.series.len() == 0 {
            None
        } else {
            match self.cfg.select {
                Select::RoundRobin => Some(self.rotation % (self.series.len() as int)),
                Select::Random => Some(roll.roll(nonce) as int % (self.series.len() as int)),
            }
        }
    }

    /// The series that the first eligible reroll names, from reroll `attempt` on.
    pub open spec fn reroll(self, roll: RollKey, nonce: u64, attempt: int) -> Option<int>
        decreases RANDOM_REROLLS + 1 - attempt,
    {
        if attempt > RANDOM_REROLLS {
            None
        } else {
            let at = nonce.wrapping_add((attempt as u64).wrapping_mul(REROLL_STRIDE));
            let si = roll.roll(at) as int % (self.series.len() as int);
            if self.eligible(si) {
                Some(si)
            } else {
                self.reroll(roll, nonce, attempt + 1)
            }
        }
    }

    /// The series that opens a visit, and the pool after that choice.
    pub open spec fn opening(self, roll: RollKey, nonce: u64) -> (PoolModel, Option<int>) {
        match self.choice(roll, nonce) {
            None => (self, None),
            Some(first) => if self.limits.free() || self.eligible(first) {
                (self, Some(first))
            } else if self.cfg.select == Select::Random && self.reroll(roll, nonce, 1) is Some {
                (self, self.reroll(roll, nonce, 1))
            } else {
                self.from_start(first)
            },
        }
    }

    /// The pool after it emitted `ids`.
    pub open spec fn remembering(self, ids: Seq<String>) -> PoolModel {
        if self.limits.free() || ids.len() == 0 {
            self
        } else {
            let all = self.recent + keys_of(self.keys, ids);
            PoolModel { recent: all.skip(all.len() - needed(all, self.limits)), ..self }
        }
    }

    /// How many items one draw of `want` takes from series `si`.
    pub open spec fn draw_len(self, si: int, want: int) -> int {
        if want <= self.series[si].left() {
            want
        } else {
            self.series[si].left()
        }
    }

    /// The items that one draw of `want` takes from series `si`.
    pub open spec fn draw(self, si: int, want: int) -> Seq<String> {
        let s = self.series[si];
        s.ids.subrange(s.cursor, s.cursor + self.draw_len(si, want))
    }

    /// The pool with the cursor of series `si` put at `cursor`, or at the start of the
    /// series when that is past its end.
    pub open spec fn seated(self, si: int, cursor: int) -> PoolModel {
        let at = if cursor >= self.series[si].ids.len() {
            0
        } else {
            cursor
        };
        PoolModel {
            series: self.series.update(si, SeriesModel { cursor: at, ..self.series[si] }),
            ..self
        }
    }

    /// The pool after one draw of `want` from series `si`.
    pub open spec fn after_draw(self, si: int, want: int) -> PoolModel {
        self.seated(si, self.series[si].cursor + self.draw_len(si, want)).remembering(
            self.draw(si, want),
        )
    }

    /// The series that goes on after series `si` left a visit short, and the pool after
    /// that choice.
    pub open spec fn relief(self, si: int) -> (PoolModel, Option<int>) {
        match self.cfg.on_short {
            OnShort::Next => self.from_start((si + 1) % (self.series.len() as int)),
            OnShort::Wrap => if !self.limits.free() && !self.eligible(si) {
                (self.forced_once(), Some(si))
            } else {
                (self, Some(si))
            },
            OnShort::Short => (self, None),
        }
    }

    /// Draws until `want` items are out, from series `si` on.
    pub open spec fn fill(self, si: int, want: int) -> Drawn
        decreases want,
    {
        let taken = self.draw(si, want);
        let after = self.after_draw(si, want);
        if want <= 0 || taken.len() == 0 {
            Drawn { pool: self, out: Seq::empty(), owners: Seq::empty() }
        } else if taken.len() >= want {
            Drawn { pool: after, out: taken, owners: repeated(si, taken.len()) }
        } else {
            match after.relief(si) {
                (next, None) => Drawn { pool: next, out: taken, owners: repeated(si, taken.len()) },
                (next, Some(s)) => {
                    let rest = next.fill(s, want - taken.len());
                    Drawn {
                        pool: rest.pool,
                        out: taken + rest.out,
                        owners: repeated(si, taken.len()) + rest.owners,
                    }
                },
            }
        }
    }

    /// How many items a visit that opened with series `si` asks for.
    pub open spec fn quota(self, want: Take, si: int) -> int {
        match want {
            Take::Count(n) => n as int,
            Take::All => self.series[si].left(),
        }
    }

    /// Where a visit of `take` items starts in series `si`.
    pub open spec fn start_at(
        self,
        si: int,
        take: int,
        from: TakeFrom,
        roll: RollKey,
        nonce: u64,
    ) -> int {
        let len = self.series[si].ids.len() as int;
        let last_start = if take <= len {
            len - take
        } else {
            0
        };
        match from {
            TakeFrom::Start => self.series[si].cursor,
            TakeFrom::End => last_start,
            TakeFrom::Random => roll.roll(nonce.wrapping_add(FROM_STRIDE)) as int % (last_start + 1),
        }
    }

    /// The pool with its rotation left where the next visit resumes: past a series that
    /// served the whole visit alone, else on the series that served last.
    pub open spec fn parked(self, owners: Seq<int>, whole: bool) -> PoolModel {
        if owners.len() == 0 || self.cfg.select != Select::RoundRobin {
            self
        } else {
            let last = owners.last();
            let alone = forall|i: int| 0 <= i < owners.len() ==> owners[i] == last;
            PoolModel {
                rotation: if whole && alone {
                    (last + 1) % (self.series.len() as int)
                } else {
                    last
                },
                ..self
            }
        }
    }

    /// One serving of `want` items, and the pool afterwards.
    pub open spec fn serving(
        self,
        want: Take,
        from: TakeFrom,
        roll: RollKey,
        nonce: u64,
    ) -> (PoolModel, Seq<String>) {
        match self.opening(roll, nonce) {
            (pool, None) => (pool, Seq::empty()),
            (pool, Some(si)) => {
                let take = pool.quota(want, si);
                let at = pool.start_at(si, take, from, roll, nonce);
                let drawn = pool.seated(si, at).fill(si, take);
                (drawn.pool.parked(drawn.owners, drawn.out.len() >= take), drawn.out)
            },
        }
    }

    /// Servings of one item each, for the slots from `slot` up to `n`.
    pub open spec fn slots(
        self,
        slot: int,
        n: int,
        from: TakeFrom,
        roll: RollKey,
    ) -> (PoolModel, Seq<String>)
        decreases n - slot,
    {
        if slot >= n {
            (self, Seq::empty())
        } else {
            let (pool, first) = self.serving(Take::Count(1), from, roll, slot as u64);
            let (last, rest) = pool.slots(slot + 1, n, from, roll);
            (last, first + rest)
        }
    }

    /// One visit to a step, and the pool afterwards.
    pub open spec fn visiting(self, take: Take, from: TakeFrom, roll: RollKey) -> (
        PoolModel,
        Seq<String>,
    ) {
        if take == Take::Count(0) || self.series.len() == 0 {
            (self, Seq::empty())
        } else {
            match self.cfg.rotate {
                Rotate::Slot => self.slots(
                    0,
                    match take {
                        Take::Count(n) => n as int,
                        Take::All => 1,
                    },
                    from,
                    roll,
                ),
                Rotate::Visit => self.serving(take, from, roll, 0),
            }
        }
    }
}

impl<'a> View for PoolRuntime<'a> {
    type V = PoolModel;

    open spec fn view(&self) -> PoolModel {
        PoolModel {
            cfg: *self.cfg,
            series: self.series@.map_values(|s: Series| s@),
            rotation: self.rotation as int,
            limits: self.limits,
            keys: self.keys@,
            recent: keys(self.recent@),
            forced: self.forced,
            runtimes: self.runtimes@,
            mean_runtime: self.mean_runtime,
        }
    }
}

impl<'a> PoolRuntime<'a> {
    /// How much airtime these items lay down. An item that was never measured counts at
    /// the pool's mean.
    pub fn runtime_of(&self, ids: &Vec<String>) -> (out: u128)
        ensures
            out == total_runtime(self@.runtimes, self@.mean_runtime, ids@),
            out <= ids.len() * 0xFFFF_FFFF_FFFF_FFFF,
    {
        let mut sum: u128 = 0;
        let mut i: usize = 0;
        while i < ids.len()
            invariant
                i <= ids.len(),
                sum == total_runtime(self.runtimes@, self.mean_runtime, ids@.take(i as int)),
                sum <= i * 0xFFFF_FFFF_FFFF_FFFF,
            decreases ids.len() - i,
        {
            let d: u64 = match lookup(&self.runtimes, &ids[i]) {
                Some(d) => *d,
                None => self.mean_runtime,
            };
            sum += d as u128;
            i += 1;
            assert(ids@.take(i as int).drop_last() =~= ids@.take(i - 1));
        }
        assert(ids@.take(i as int) =~= ids@);
        sum
    }

    /// Whether the pool resolved to nothing at all.
    pub fn is_dry(&self) -> (out: bool)
        ensures
            out == (self@.series.len() == 0),
    {
        self.series.len() == 0
    }

    /// The series at `i`, wrapping.
    pub fn series_at(&self, i: usize) -> (out: Option<usize>)
        ensures
            self@.series.len() == 0 ==> out is None,
            self@.series.len() > 0 ==> (out matches Some(si) && si == i as int
                % self@.series.len() as int && si < self@.series.len()),
    {
        let n: usize = self.series.len();
        if n == 0 {
            None
        } else {
            Some(i % n)
        }
    }

    /// The series after `si`, wrapping.
    pub fn series_after(&self, si: usize) -> (out: Option<usize>)
        requires
            si < self@.series.len(),
        ensures
            out matches Some(next) && next == (si + 1) % self@.series.len() as int && next
                < self@.series.len(),
    {
        assert(si < self.series.len());
        self.series_at(si + 1)
    }

    /// Which series serves next, before the adjacency rule is asked.
    pub fn pick(&self, roll: &RollKey, nonce: u64) -> (out: Option<usize>)
        ensures
            out is Some <==> self@.choice(*roll, nonce) is Some,
            out matches Some(si) ==> self@.choice(*roll, nonce) == Some(si as int) && si
                < self@.series.len(),
    {
        match self.cfg.select {
            Select::RoundRobin => self.series_at(self.rotation),
            Select::Random => {
                let n: usize = self.series.len();
                if n == 0 {
                    None
                } else {
                    Some((roll.u64_at(nonce) % (n as u64)) as usize)
                }
            },
        }
    }

    /// The item that series `si` would serve next.
    pub fn next_id(&self, si: usize) -> (out: &String)
        requires
            self@.wf(),
            si < self@.series.len(),
        ensures
            *out == self@.next_id(si as int),
    {
        assert(self@.series[si as int].wf());
        &self.series[si].ids[self.series[si].cursor]
    }

    /// Whether the next item of series `si` may air now, given what this pool emitted.
    pub fn is_eligible(&self, si: usize) -> (out: bool)
        requires
            self@.wf(),
            si < self@.series.len(),
        ensures
            out == self@.eligible(si as int),
    {
        let item: ItemKeys = self.keys.of(self.next_id(si));
        !conflicts_with_recent(&self.recent, &item, self.limits)
    }

    /// `start`, or the first series after it that may serve. When none may, `start` serves
    /// anyway and the clash is counted.
    pub fn eligible_from(&mut self, start: usize) -> (out: Option<usize>)
        requires
            old(self)@.wf(),
            start < old(self)@.series.len(),
        ensures
            final(self)@ == old(self)@.from_start(start as int).0,
            final(self)@.wf(),
            out matches Some(si) && old(self)@.from_start(start as int).1 == Some(si as int) && si
                < old(self)@.series.len(),
    {
        if self.limits.is_unconstrained() {
            return Some(start);
        }
        let n: usize = self.series.len();
        let mut step: usize = 0;
        let mut si: usize = start;
        proof {
            vstd::arithmetic::div_mod::lemma_small_mod(start as nat, n as nat);
        }
        while step < n
            invariant
                *self == *old(self),
                self@.wf(),
                !self.limits.free(),
                n == self@.series.len(),
                start < n,
                step <= n,
                step < n ==> si == (start + step) % (n as int),
                si < n,
                self@.scan(start as int, 0) == self@.scan(start as int, step as int),
            decreases n - step,
        {
            if self.is_eligible(si) {
                return Some(si);
            }
            step += 1;
            proof {
                if step < n {
                    lemma_next_modulo(start as int, step as int, n as int);
                }
            }
            si = if si + 1 == n {
                0
            } else {
                si + 1
            };
        }
        self.forced = self.forced.saturating_add(1);
        Some(start)
    }

    /// Which series opens a visit. A random pool whose draw may not serve rerolls; a
    /// rotation, or a pool that ran out of rerolls, slides to the next series that may.
    pub fn eligible_pick(&mut self, roll: &RollKey, nonce: u64) -> (out: Option<usize>)
        requires
            old(self)@.wf(),
        ensures
            final(self)@ == old(self)@.opening(*roll, nonce).0,
            final(self)@.wf(),
            out is Some <==> old(self)@.opening(*roll, nonce).1 is Some,
            out matches Some(si) ==> old(self)@.opening(*roll, nonce).1 == Some(si as int) && si
                < old(self)@.series.len(),
    {
        let first: usize = match self.pick(roll, nonce) {
            Some(si) => si,
            None => return None,
        };
        if self.limits.is_unconstrained() || self.is_eligible(first) {
            return Some(first);
        }
        if self.cfg.select == Select::Random {
            let n: usize = self.series.len();
            let mut attempt: u64 = 1;
            while attempt <= RANDOM_REROLLS
                invariant
                    *self == *old(self),
                    self@.wf(),
                    n == self@.series.len(),
                    n > 0,
                    1 <= attempt <= RANDOM_REROLLS + 1,
                    self@.choice(*roll, nonce) == Some(first as int),
                    !self.limits.free(),
                    !self@.eligible(first as int),
                    self.cfg.select == Select::Random,
                    self@.reroll(*roll, nonce, 1) == self@.reroll(*roll, nonce, attempt as int),
                decreases RANDOM_REROLLS + 1 - attempt,
            {
                let at: u64 = nonce.wrapping_add(attempt.wrapping_mul(REROLL_STRIDE));
                let si: usize = (roll.u64_at(at) % (n as u64)) as usize;
                if self.is_eligible(si) {
                    return Some(si);
                }
                attempt += 1;
            }
        }
        self.eligible_from(first)
    }

    /// Folds what a draw emitted into what the adjacency rule looks at, and forgets what it
    /// no longer looks at.
    pub fn remember(&mut self, ids: &Vec<String>)
        requires
            old(self)@.wf(),
        ensures
            final(self)@ == old(self)@.remembering(ids@),
            final(self)@.wf(),
    {
        if self.limits.is_unconstrained() || ids.len() == 0 {
            return;
        }
        let mut fresh: Vec<ItemKeys> = self.keys.many(ids);
        let ghost all = self@.recent + keys_of(self.keys@, ids@);
        self.recent.append(&mut fresh);
        assert(keys(self.recent@) =~= all);
        let keep: usize = history_needed(&self.recent, self.limits);
        let cut: usize = self.recent.len() - keep;
        let kept: Vec<ItemKeys> = self.recent.split_off(cut);
        assert(keys(kept@) =~= all.skip(cut as int));
        self.recent = kept;
    }

    /// Takes up to `want` items from series `si`, advancing its cursor. A series that runs
    /// off its end restarts from the top.
    pub fn take_from(&mut self, si: usize, want: usize) -> (out: Vec<String>)
        requires
            old(self)@.wf(),
            si < old(self)@.series.len(),
        ensures
            out@ == old(self)@.draw(si as int, want as int),
            out.len() == old(self)@.draw_len(si as int, want as int),
            final(self)@ == old(self)@.seated(
                si as int,
                old(self)@.series[si as int].cursor + old(self)@.draw_len(si as int, want as int),
            ),
            final(self)@.wf(),
    {
        assert(self@.series[si as int].wf());
        let left: usize = self.series[si].remaining();
        let n: usize = if want <= left {
            want
        } else {
            left
        };
        let start: usize = self.series[si].cursor;
        let mut out: Vec<String> = Vec::new();
        let mut i: usize = 0;
        while i < n
            invariant
                *self == *old(self),
                si < self.series.len(),
                i <= n,
                start + n <= self.series@[si as int].ids.len(),
                out@ =~= self.series@[si as int].ids@.subrange(start as int, start + i),
            decreases n - i,
        {
            out.push(self.series[si].ids[start + i].clone());
            i += 1;
        }
        self.seat(si, start + n);
        out
    }

    /// The series that goes on after series `si` left a visit short.
    fn relieve(&mut self, si: usize) -> (out: Option<usize>)
        requires
            old(self)@.wf(),
            si < old(self)@.series.len(),
        ensures
            final(self)@ == old(self)@.relief(si as int).0,
            final(self)@.wf(),
            out is Some <==> old(self)@.relief(si as int).1 is Some,
            out matches Some(s) ==> old(self)@.relief(si as int).1 == Some(s as int) && s
                < old(self)@.series.len(),
    {
        match self.cfg.on_short {
            OnShort::Next => match self.series_after(si) {
                Some(next) => self.eligible_from(next),
                None => None,
            },
            // Staying on the series is what was asked for, so it does not shop around; but
            // a clash that it forces is still a clash, and is counted.
            OnShort::Wrap => {
                if !self.limits.is_unconstrained() && !self.is_eligible(si) {
                    self.forced = self.forced.saturating_add(1);
                }
                Some(si)
            },
            OnShort::Short => None,
        }
    }

    /// Serves `want` items starting from one picked series, rolling onto others when it
    /// comes up short, then parks the rotation where the next visit resumes.
    pub fn serve(&mut self, want: Take, from: TakeFrom, roll: &RollKey, nonce: u64) -> (out: Vec<
        String,
    >)
        requires
            old(self)@.wf(),
        ensures
            final(self)@ == old(self)@.serving(want, from, *roll, nonce).0,
            out@ == old(self)@.serving(want, from, *roll, nonce).1,
            final(self)@.wf(),
            want == Take::Count(0) ==> out.len() == 0 && final(self)@.rotation
                == old(self)@.rotation,
            want == Take::Count(0) && from == TakeFrom::Start ==> final(self)@.series
                == old(self)@.series,
    {
        let first: usize = match self.eligible_pick(roll, nonce) {
            Some(si) => si,
            None => return Vec::new(),
        };
        let ghost opened = self@;
        assert(opened.series[first as int].wf());
        // What is left of a series is asked after the pick, since which series it is was the
        // pick's decision.
        let take: usize = match want {
            Take::Count(n) => n,
            Take::All => self.series[first].remaining(),
        };
        let len: usize = self.series[first].ids.len();
        let last_start: usize = len.saturating_sub(take);
        let at: usize = match from {
            TakeFrom::Start => self.series[first].cursor,
            TakeFrom::End => last_start,
            TakeFrom::Random => {
                let choices: u128 = last_start as u128 + 1;
                (roll.u64_at(nonce.wrapping_add(FROM_STRIDE)) as u128 % choices) as usize
            },
        };
        assert(at == opened.start_at(first as int, take as int, from, *roll, nonce));
        self.seat(first, at);
        if take == 0 {
            assert(self@.series =~= opened.series || from != TakeFrom::Start);
            return Vec::new();
        }
        let ghost full = self@.fill(first as int, take as int);
        let ghost mut owners: Seq<int> = Seq::empty();
        let mut out: Vec<String> = Vec::new();
        let mut current: usize = first;
        let mut last: usize = first;
        let mut alone: bool = true;
        let mut going: bool = true;
        while going
            invariant
                self@.wf(),
                self.cfg == old(self).cfg,
                current < self@.series.len(),
                last < self@.series.len(),
                out.len() <= take,
                going ==> out.len() < take,
                going ==> {
                    let rest = self@.fill(current as int, take - out.len());
                    &&& full.pool == rest.pool
                    &&& full.out == out@ + rest.out
                    &&& full.owners == owners + rest.owners
                },
                !going ==> full == (Drawn { pool: self@, out: out@, owners }),
                !going ==> owners.len() > 0,
                owners.len() > 0 ==> last == owners.last(),
                owners.len() == 0 ==> alone && last == current,
                alone <==> forall|i: int| 0 <= i < owners.len() ==> owners[i] == last,
            decreases take - out.len(),
        {
            let ghost before = self@;
            let ghost shown = out@;
            let need: usize = take - out.len();
            assert(before.series[current as int].wf());
            let mut taken: Vec<String> = self.take_from(current, need);
            self.remember(&taken);
            let ghost batch = taken@;
            if current != last {
                alone = false;
            }
            last = current;
            proof {
                let earlier = owners;
                owners = owners + repeated(current as int, batch.len());
                assert(owners.last() == last);
                if alone {
                    assert forall|i: int| 0 <= i < owners.len() implies owners[i] == last by {
                        if i < earlier.len() {
                            assert(earlier[i] == last);
                        }
                    }
                } else if forall|i: int| 0 <= i < owners.len() ==> owners[i] == last {
                    assert(owners[earlier.len() - 1] == last);
                    assert forall|i: int| 0 <= i < earlier.len() implies earlier[i] == last by {
                        assert(owners[i] == earlier[i]);
                    }
                }
            }
            out.append(&mut taken);
            assert(self@ == before.after_draw(current as int, need as int));
            if out.len() >= take {
                going = false;
                assert(full.owners =~= owners);
                assert(full.out =~= out@);
            } else {
                let ghost served = current;
                match self.relieve(current) {
                    Some(next) => {
                        current = next;
                        proof {
                            let rest = self@.fill(next as int, take - out.len());
                            assert(shown + (batch + rest.out) =~= (shown + batch) + rest.out);
                            assert(full.owners =~= owners + rest.owners);
                        }
                    },
                    None => {
                        going = false;
                        assert(full.owners =~= owners);
                        assert(full.out =~= out@);
                    },
                }
            }
        }
        // A series that served the whole visit alone has had its turn; one that only partly
        // served keeps its place.
        if self.cfg.select == Select::RoundRobin {
            self.rotation = if out.len() >= take && alone {
                match self.series_after(last) {
                    Some(next) => next,
                    None => last,
                }
            } else {
                last
            };
        }
        out
    }

    /// One visit to a step: `take` items, a new series for each of them or all from one, as
    /// the pool rotates.
    pub fn visit(&mut self, take: Take, from: TakeFrom, roll: &RollKey) -> (out: Vec<String>)
        requires
            old(self)@.wf(),
        ensures
            final(self)@ == old(self)@.visiting(take, from, *roll).0,
            out@ == old(self)@.visiting(take, from, *roll).1,
            final(self)@.wf(),
    {
        if take == Take::Count(0) || self.is_dry() {
            return Vec::new();
        }
        match self.cfg.rotate {
            Rotate::Slot => {
                let n: usize = match take {
                    Take::Count(n) => n,
                    Take::All => 1,
                };
                let ghost before = self@;
                let mut out: Vec<String> = Vec::new();
                let mut slot: usize = 0;
                assert(out@ + before.slots(0, n as int, from, *roll).1 =~= before.slots(
                    0,
                    n as int,
                    from,
                    *roll,
                ).1);
                while slot < n
                    invariant
                        slot <= n,
                        self@.wf(),
                        before.slots(0, n as int, from, *roll).0 == self@.slots(
                            slot as int,
                            n as int,
                            from,
                            *roll,
                        ).0,
                        before.slots(0, n as int, from, *roll).1 == out@ + self@.slots(
                            slot as int,
                            n as int,
                            from,
                            *roll,
                        ).1,
                    decreases n - slot,
                {
                    let ghost shown = out@;
                    let mut one: Vec<String> = self.serve(Take::Count(1), from, roll, slot as u64);
                    let ghost first = one@;
                    out.append(&mut one);
                    slot += 1;
                    proof {
                        let rest = self@.slots(slot as int, n as int, from, *roll).1;
                        assert(shown + (first + rest) =~= (shown + first) + rest);
                    }
                }
                assert(out@ + Seq::<String>::empty() =~= out@);
                out
            },
            Rotate::Visit => self.serve(take, from, roll, 0),
        }
    }

    /// The state of this pool that the next window resumes from. Only a rotation has one:
    /// a random pool draws afresh every visit.
    pub fn to_resume(&self) -> (out: PoolResume)
        ensures
            out.next is Some <==> self@.turn() is Some,
            out.next matches Some(key) ==> self@.turn() == Some(key@),
    {
        match self.cfg.select {
            Select::RoundRobin => match self.series_at(self.rotation) {
                Some(si) => PoolResume { next: Some(self.series[si].key.clone()) },
                None => PoolResume { next: None },
            },
            Select::Random => PoolResume { next: None },
        }
    }

    /// Puts the cursor of series `si` at `cursor`, or at the start of the series when that
    /// is past its end.
    pub fn seat(&mut self, si: usize, cursor: usize)
        requires
            old(self)@.wf(),
            si < old(self)@.series.len(),
        ensures
            final(self)@ == old(self)@.seated(si as int, cursor as int),
            final(self)@.wf(),
    {
        let ghost before = self@;
        assert(before.series[si as int].wf());
        let len: usize = self.series[si].ids.len();
        let at: usize = if cursor >= len {
            0
        } else {
            cursor
        };
        self.series[si].cursor = at;
        assert(self@.series =~= before.seated(si as int, cursor as int).series);
        assert(self@.wf()) by {
            assert forall|i: int| 0 <= i < self@.series.len() implies (
            #[trigger] self@.series[i]).wf() by {
                assert(before.series[i].wf());
            }
        }
    }
}

/// Counting round a circle of `n`: one step on is the next place, or the first.
pub proof fn lemma_next_modulo(start: int, step: int, n: int)
    requires
        0 <= start < n,
        0 < step < n,
    ensures
        (start + step) % n == (if (start + step - 1) % n + 1 == n {
            0
        } else {
            (start + step - 1) % n + 1
        }),
{
    if start + step < n {
        vstd::arithmetic::div_mod::lemma_small_mod((start + step) as nat, n as nat);
        vstd::arithmetic::div_mod::lemma_small_mod((start + step - 1) as nat, n as nat);
    } else {
        vstd::arithmetic::div_mod::lemma_mod_add_multiples_vanish(start + step - n, n);
        vstd::arithmetic::div_mod::lemma_small_mod((start + step - n) as nat, n as nat);
        if start + step - 1 < n {
            vstd::arithmetic::div_mod::lemma_small_mod((start + step - 1) as nat, n as nat);
        } else {
            vstd::arithmetic::div_mod::lemma_mod_add_multiples_vanish(start + step - 1 - n, n);
            vstd::arithmetic::div_mod::lemma_small_mod((start + step - 1 - n) as nat, n as nat);
        }
    }
}

} // verus!
