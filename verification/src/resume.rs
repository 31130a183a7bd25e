//! Where a channel picks up next: whose turn each pool's rotation is on, how far into an
//! authored list it stands, and the way back to either.

use vstd::prelude::*;

use crate::names::{entry_of, lookup, put, putting_changes_one_name};
use crate::text::{decimal, write_decimal};
use crate::paths::{join, joined};

verus! {

/// The version of the sidecar's shape.
pub const CURRENT_VERSION: u32 = 1;

/// One pool's resume state.
#[derive(Debug)]
pub struct PoolResume {
    /// The series whose turn is next. `None` starts at the first.
    pub next: Option<String>,
}

impl PoolResume {
    /// The same state again.
    pub fn copy(&self) -> (out: PoolResume)
        ensures
            out == *self,
    {
        match &self.next {
            Some(key) => PoolResume { next: Some(key.clone()) },
            None => PoolResume { next: None },
        }
    }
}

/// A copy of the pools' resume states.
pub fn copy_pools(pools: &Vec<(String, PoolResume)>) -> (out: Vec<(String, PoolResume)>)
    ensures
        out@ == pools@,
{
    let mut out: Vec<(String, PoolResume)> = Vec::new();
    let mut i: usize = 0;
    while i < pools.len()
        invariant
            i <= pools.len(),
            out@ =~= pools@.take(i as int),
        decreases pools.len() - i,
    {
        let pair: (String, PoolResume) = (pools[i].0.clone(), pools[i].1.copy());
        assert(pair == pools@[i as int]);
        out.push(pair);
        i += 1;
    }
    assert(pools@.take(i as int) =~= pools@);
    out
}

/// Whether a resume state names the series whose turn is next, where one is.
pub open spec fn tells(state: PoolResume, turn: Option<Seq<char>>) -> bool {
    match state.next {
        Some(key) => turn == Some(key@),
        None => turn is None,
    }
}

/// Whether a table records, for each named pool, whose turn is next there; a later pool of a
/// name replaces an earlier.
pub open spec fn records(
    names: Seq<String>,
    turns: Seq<Option<Seq<char>>>,
    table: Seq<(String, PoolResume)>,
) -> bool
    decreases names.len(),
{
    if names.len() == 0 {
        table.len() == 0
    } else {
        exists|earlier: Seq<(String, PoolResume)>, state: PoolResume|
            #![trigger put(earlier, names.last(), state)]
            records(names.drop_last(), turns.drop_last(), earlier) && table == put(
                earlier,
                names.last(),
                state,
            ) && tells(state, turns.last())
    }
}

/// A table that records the turns of pools tells, under the name of the last of them, whose
/// turn is next there; and the other names are told as if that pool were not there.
pub proof fn the_last_pool_of_a_name_is_recorded(
    names: Seq<String>,
    turns: Seq<Option<Seq<char>>>,
    table: Seq<(String, PoolResume)>,
)
    requires
        names.len() > 0,
        records(names, turns, table),
    ensures
        entry_of(table, names.last()@) matches Some(state) && tells(state, turns.last()),
        exists|earlier: Seq<(String, PoolResume)>| #[trigger]
            records(names.drop_last(), turns.drop_last(), earlier) && forall|other: Seq<char>|
                other != names.last()@ ==> #[trigger] entry_of(table, other) == entry_of(
                    earlier,
                    other,
                ),
{
    let (earlier, state) = choose|earlier: Seq<(String, PoolResume)>, state: PoolResume|
        #![trigger put(earlier, names.last(), state)]
        records(names.drop_last(), turns.drop_last(), earlier) && table == put(
            earlier,
            names.last(),
            state,
        ) && tells(state, turns.last());
    putting_changes_one_name(earlier, names.last(), state);
}

/// The scheduling state immediately before the generation that starts at `start`.
#[derive(Debug)]
pub struct Checkpoint {
    /// In nanoseconds since the epoch.
    pub start: i128,
    pub pools: Vec<(String, PoolResume)>,
    pub position: usize,
}

/// Where every pool of a channel picks up next.
#[derive(Debug)]
pub struct ResumeMap {
    pub version: u32,
    pub pools: Vec<(String, PoolResume)>,
    /// How far into an authored list the next generation starts.
    pub position: usize,
    /// Where each generation that has not aired started from, in the order recorded.
    pub checkpoints: Vec<Checkpoint>,
    /// A hash of the inputs that produced what has not aired.
    pub fingerprint: Option<String>,
}

/// A checkpoint as mathematical values.
pub struct CheckpointModel {
    pub start: int,
    pub pools: Seq<(String, PoolResume)>,
    pub position: int,
}

impl View for Checkpoint {
    type V = CheckpointModel;

    open spec fn view(&self) -> CheckpointModel {
        CheckpointModel {
            start: self.start as int,
            pools: self.pools@,
            position: self.position as int,
        }
    }
}

/// A resume map as mathematical values.
pub struct ResumeModel {
    pub version: u32,
    pub pools: Seq<(String, PoolResume)>,
    pub position: int,
    pub checkpoints: Seq<CheckpointModel>,
    pub fingerprint: Option<String>,
}

impl View for ResumeMap {
    type V = ResumeModel;

    open spec fn view(&self) -> ResumeModel {
        ResumeModel {
            version: self.version,
            pools: self.pools@,
            position: self.position as int,
            checkpoints: self.checkpoints@.map_values(|c: Checkpoint| c@),
            fingerprint: self.fingerprint,
        }
    }
}

/// The first checkpoint that starts after `now`.
pub open spec fn first_unaired(checkpoints: Seq<CheckpointModel>, now: int) -> Option<
    CheckpointModel,
>
    decreases checkpoints.len(),
{
    if checkpoints.len() == 0 {
        None
    } else if checkpoints[0].start > now {
        Some(checkpoints[0])
    } else {
        first_unaired(checkpoints.drop_first(), now)
    }
}

/// Where the last checkpoint that starts no later than `instant` stands.
pub open spec fn last_started(checkpoints: Seq<CheckpointModel>, instant: int) -> Option<int>
    decreases checkpoints.len(),
{
    if checkpoints.len() == 0 {
        None
    } else if checkpoints.last().start <= instant {
        Some(checkpoints.len() - 1)
    } else {
        last_started(checkpoints.drop_last(), instant)
    }
}

impl ResumeModel {
    /// The map of a channel that has never run.
    pub open spec fn fresh() -> ResumeModel {
        ResumeModel {
            version: CURRENT_VERSION,
            pools: Seq::empty(),
            position: 0,
            checkpoints: Seq::empty(),
            fingerprint: None,
        }
    }

    /// The map after the checkpoint recorded for a generation that begins at `start`.
    pub open spec fn checkpointed(self, start: int) -> ResumeModel {
        ResumeModel {
            checkpoints: self.checkpoints.push(
                CheckpointModel { start, pools: self.pools, position: self.position },
            ),
            ..self
        }
    }

    /// The map without the checkpoints of generations that have begun.
    pub open spec fn pruned(self, now: int) -> ResumeModel {
        ResumeModel {
            checkpoints: self.checkpoints.filter(|c: CheckpointModel| c.start > now),
            ..self
        }
    }

    /// The map after a rewind to the first generation that has not aired.
    pub open spec fn rewound(self, now: int) -> ResumeModel {
        match first_unaired(self.checkpoints, now) {
            None => self,
            Some(c) => ResumeModel {
                pools: c.pools,
                position: c.position,
                checkpoints: Seq::empty(),
                ..self
            },
        }
    }

    /// The map after a rewind to the generation that was airing at `instant`.
    pub open spec fn rewound_to(self, instant: int) -> ResumeModel {
        match last_started(self.checkpoints, instant) {
            None => self,
            Some(i) => ResumeModel {
                pools: self.checkpoints[i].pools,
                position: self.checkpoints[i].position,
                checkpoints: self.checkpoints.take(i),
                ..self
            },
        }
    }
}

/// The version a sidecar that names none is read as.
pub fn current_version() -> (out: u32)
    ensures
        out == CURRENT_VERSION,
{
    CURRENT_VERSION
}

/// Whether a list position is the top, which is also what an absent one means.
pub fn is_start(position: &usize) -> (out: bool)
    ensures
        out == (*position == 0),
{
    *position == 0
}

impl ResumeMap {
    /// The map of a channel that has never run.
    pub fn new() -> (out: ResumeMap)
        ensures
            out@ == ResumeModel::fresh(),
    {
        let out: ResumeMap = ResumeMap {
            version: CURRENT_VERSION,
            pools: Vec::new(),
            position: 0,
            checkpoints: Vec::new(),
            fingerprint: None,
        };
        assert(out@.checkpoints =~= ResumeModel::fresh().checkpoints);
        out
    }

    /// The resume state of the pool called `name`.
    pub fn pool(&self, name: &String) -> (out: Option<&PoolResume>)
        ensures
            out is Some <==> entry_of(self@.pools, name@) is Some,
            out matches Some(p) ==> entry_of(self@.pools, name@) == Some(*p),
    {
        lookup(&self.pools, name)
    }

    /// Whether the map says nothing but "start from the top".
    pub fn is_empty(&self) -> (out: bool)
        ensures
            out == (self@.pools.len() == 0 && self@.position == 0),
    {
        self.pools.len() == 0 && self.position == 0
    }

    /// Records the state entering a generation that begins at `start`.
    pub fn checkpoint(&mut self, start: i128)
        ensures
            final(self)@ == old(self)@.checkpointed(start as int),
    {
        let pools: Vec<(String, PoolResume)> = copy_pools(&self.pools);
        let position: usize = self.position;
        let ghost before = self@;
        self.checkpoints.push(Checkpoint { start, pools, position });
        assert(self@.checkpoints =~= before.checkpointed(start as int).checkpoints);
    }

    /// Drops the checkpoints of generations that have begun airing.
    pub fn prune_elapsed(&mut self, now: i128)
        ensures
            final(self)@ == old(self)@.pruned(now as int),
    {
        let ghost before = self@;
        let ghost all = before.checkpoints;
        let ghost unaired = |c: CheckpointModel| c.start > now;
        let ghost mut k: int = 0;
        let mut i: usize = 0;
        assert(all.take(0).filter(unaired) + all.skip(0) =~= all) by {
            assert(all.take(0) =~= Seq::<CheckpointModel>::empty());
            reveal(Seq::filter);
        }
        while i < self.checkpoints.len()
            invariant
                0 <= k <= all.len(),
                unaired == (|c: CheckpointModel| c.start > now),
                i == all.take(k).filter(unaired).len(),
                all == before.checkpoints,
                self@ == (ResumeModel {
                    checkpoints: all.take(k).filter(unaired) + all.skip(k),
                    ..before
                }),
            decreases self.checkpoints.len() - i,
        {
            let ghost head = all.take(k).filter(unaired);
            assert(self@.checkpoints[i as int] == all[k]);
            proof {
                assert(all.take(k + 1).drop_last() =~= all.take(k));
                reveal(Seq::filter);
            }
            if self.checkpoints[i].start > now {
                i += 1;
                assert(head.push(all[k]) + all.skip(k + 1) =~= head + all.skip(k));
            } else {
                let ghost was = self@.checkpoints;
                let _ = self.checkpoints.remove(i);
                assert(self@.checkpoints =~= was.remove(i as int));
                assert(self@.checkpoints =~= head + all.skip(k + 1));
            }
            proof {
                k = k + 1;
            }
        }
        assert(self@.checkpoints.len() == self.checkpoints.len());
        assert(k == all.len());
        assert(all.take(k) =~= all);
        assert(self@.checkpoints =~= before.pruned(now as int).checkpoints);
    }

    /// Rewinds to the first generation that has not started airing: gives the instant to
    /// emit again from, with the state restored that stood before that generation. When
    /// there is none, nothing changes.
    pub fn rewind_to_unaired(&mut self, now: i128) -> (out: Option<i128>)
        ensures
            final(self)@ == old(self)@.rewound(now as int),
            out is Some <==> first_unaired(old(self)@.checkpoints, now as int) is Some,
            out matches Some(start) ==> start == first_unaired(
                old(self)@.checkpoints,
                now as int,
            )->0.start,
    {
        match self.find_unaired(now) {
            None => None,
            Some(i) => {
                let start: i128 = self.checkpoints[i].start;
                let ghost before = self@;
                assert(before.checkpoints[i as int] == self.checkpoints@[i as int]@);
                self.pools = copy_pools(&self.checkpoints[i].pools);
                self.position = self.checkpoints[i].position;
                self.checkpoints = Vec::new();
                assert(self@.checkpoints =~= before.rewound(now as int).checkpoints);
                Some(start)
            },
        }
    }

    /// The start, the pools and the list position that a rewind to the first generation
    /// that has not started airing would restore.
    pub fn peek_unaired(&self, now: i128) -> (out: Option<(i128, Vec<(String, PoolResume)>, usize)>)
        ensures
            out is Some <==> first_unaired(self@.checkpoints, now as int) is Some,
            out matches Some((start, pools, position)) ==> first_unaired(
                self@.checkpoints,
                now as int,
            ) == Some(
                CheckpointModel { start: start as int, pools: pools@, position: position as int },
            ),
    {
        match self.find_unaired(now) {
            None => None,
            Some(i) => {
                let c: &Checkpoint = &self.checkpoints[i];
                assert(self@.checkpoints[i as int] == c@);
                Some((c.start, copy_pools(&c.pools), c.position))
            },
        }
    }

    fn find_unaired(&self, now: i128) -> (out: Option<usize>)
        ensures
            out is Some <==> first_unaired(self@.checkpoints, now as int) is Some,
            out matches Some(i) ==> i < self.checkpoints.len() && first_unaired(
                self@.checkpoints,
                now as int,
            ) == Some(self@.checkpoints[i as int]),
    {
        let mut i: usize = 0;
        assert(self@.checkpoints.skip(0) =~= self@.checkpoints);
        while i < self.checkpoints.len()
            invariant
                i <= self.checkpoints.len(),
                first_unaired(self@.checkpoints, now as int) == first_unaired(
                    self@.checkpoints.skip(i as int),
                    now as int,
                ),
            decreases self.checkpoints.len() - i,
        {
            let ghost rest = self@.checkpoints.skip(i as int);
            assert(rest[0] == self.checkpoints@[i as int]@);
            if self.checkpoints[i].start > now {
                return Some(i);
            }
            assert(rest.drop_first() =~= self@.checkpoints.skip(i + 1));
            i += 1;
        }
        None
    }

    /// Rewinds to the generation that was airing at `instant`: restores the state recorded
    /// before it and drops its checkpoint and every later one. When no checkpoint covers
    /// the instant, nothing changes.
    pub fn rewind_to(&mut self, instant: i128) -> (out: Option<i128>)
        ensures
            final(self)@ == old(self)@.rewound_to(instant as int),
            out is Some <==> last_started(old(self)@.checkpoints, instant as int) is Some,
            out matches Some(start) ==> start == old(self)@.checkpoints[last_started(
                old(self)@.checkpoints,
                instant as int,
            )->0].start,
    {
        let ghost before = self@;
        let mut i: usize = self.checkpoints.len();
        assert(before.checkpoints.take(i as int) =~= before.checkpoints);
        while i > 0
            invariant
                *self == *old(self),
                self@ == before,
                i <= self.checkpoints.len(),
                last_started(before.checkpoints, instant as int) == last_started(
                    before.checkpoints.take(i as int),
                    instant as int,
                ),
            decreases i,
        {
            i -= 1;
            let ghost head = before.checkpoints.take(i + 1);
            assert(head.last() == self.checkpoints@[i as int]@);
            assert(head.drop_last() =~= before.checkpoints.take(i as int));
            if self.checkpoints[i].start <= instant {
                let start: i128 = self.checkpoints[i].start;
                self.pools = copy_pools(&self.checkpoints[i].pools);
                self.position = self.checkpoints[i].position;
                self.checkpoints.truncate(i);
                assert(self@.checkpoints =~= before.checkpoints.take(i as int));
                return Some(start);
            }
        }
        None
    }
}

/// Everything one generation is handed about where the channel stands.
#[derive(Debug)]
pub struct GenerationState {
    pub resume: ResumeMap,
    /// The last-played item of each series.
    pub cursor: Vec<(String, String)>,
    /// The most recently aired items, oldest first.
    pub tail: Vec<String>,
}

impl GenerationState {
    /// The state in which every pool starts from the top.
    pub fn empty() -> (out: GenerationState)
        ensures
            out.resume@ == ResumeModel::fresh(),
            out.cursor@.len() == 0,
            out.tail@.len() == 0,
    {
        GenerationState { resume: ResumeMap::new(), cursor: Vec::new(), tail: Vec::new() }
    }

    /// Whether nothing has ever played on this channel.
    pub fn is_fresh(&self) -> (out: bool)
        ensures
            out == (self.resume@.pools.len() == 0 && self.resume@.position == 0
                && self.cursor@.len() == 0),
    {
        self.resume.is_empty() && self.cursor.len() == 0
    }
}

/// What reading the sidecar gave.
#[derive(Debug)]
pub enum SidecarRead {
    Missing,
    Parsed(ResumeMap),
    /// Present, but no sidecar; with what was wrong.
    Unreadable(String),
}

/// How a resume map was arrived at.
#[derive(Debug)]
pub enum ResumeLoad {
    /// No sidecar yet.
    Fresh,
    /// Read from disk.
    Loaded,
    /// Present but unusable; with the reason.
    Discarded(String),
}

/// What is said of a sidecar of a version that is not the current one.
pub open spec fn wrong_version(version: u32) -> Seq<char> {
    "sidecar version "@ + decimal(version as nat) + " is not "@ + decimal(CURRENT_VERSION as nat)
}

/// The map that a sidecar stands for. A sidecar that is missing, unreadable or of another
/// version yields the map of a channel that has never run.
pub fn load(read: SidecarRead) -> (out: (ResumeMap, ResumeLoad))
    ensures
        match read {
            SidecarRead::Missing => out.0@ == ResumeModel::fresh() && out.1 is Fresh,
            SidecarRead::Parsed(map) => if map.version == CURRENT_VERSION {
                out.0@ == map@ && out.1 is Loaded
            } else {
                &&& out.0@ == ResumeModel::fresh()
                &&& out.1 matches ResumeLoad::Discarded(why) && why@ == wrong_version(map.version)
            },
            SidecarRead::Unreadable(why) => {
                &&& out.0@ == ResumeModel::fresh()
                &&& out.1 == ResumeLoad::Discarded(why)
            },
        },
{
    match read {
        SidecarRead::Missing => (ResumeMap::new(), ResumeLoad::Fresh),
        SidecarRead::Parsed(map) => {
            if map.version == CURRENT_VERSION {
                (map, ResumeLoad::Loaded)
            } else {
                let mut why: String = "sidecar version ".to_owned();
                why.append(write_decimal(map.version as u64).as_str());
                why.append(" is not ");
                why.append(write_decimal(CURRENT_VERSION as u64).as_str());
                (ResumeMap::new(), ResumeLoad::Discarded(why))
            }
        },
        SidecarRead::Unreadable(why) => (ResumeMap::new(), ResumeLoad::Discarded(why)),
    }
}

proof fn lemma_first_unaired_survives_pruning(checkpoints: Seq<CheckpointModel>, now: int)
    ensures
        first_unaired(checkpoints, now) == (if checkpoints.filter(
            |c: CheckpointModel| c.start > now,
        ).len() == 0 {
            None
        } else {
            Some(checkpoints.filter(|c: CheckpointModel| c.start > now)[0])
        }),
    decreases checkpoints.len(),
{
    let unaired = |c: CheckpointModel| c.start > now;
    if checkpoints.len() == 0 {
        reveal(Seq::filter);
    } else {
        let rest = checkpoints.drop_first();
        lemma_first_unaired_survives_pruning(rest, now);
        assert(seq![checkpoints[0]] + rest =~= checkpoints);
        Seq::filter_distributes_over_add(seq![checkpoints[0]], rest, unaired);
        assert(seq![checkpoints[0]].filter(unaired) =~= if unaired(checkpoints[0]) {
            seq![checkpoints[0]]
        } else {
            Seq::<CheckpointModel>::empty()
        }) by {
            let none = Seq::<CheckpointModel>::empty();
            none.lemma_filter_push(checkpoints[0], unaired);
            assert(none.push(checkpoints[0]) =~= seq![checkpoints[0]]);
            assert(none.filter(unaired) =~= none) by {
                reveal(Seq::filter);
            }
        }
    }
}

/// Looking at what a rewind would restore agrees with the rewind: pruned or not, the map
/// names the same checkpoint, and the rewind restores exactly its pools and position.
pub proof fn peeking_agrees_with_rewinding(map: ResumeModel, now: int)
    ensures
        first_unaired(map.checkpoints, now) == first_unaired(map.pruned(now).checkpoints, now),
        first_unaired(map.checkpoints, now) matches Some(c) ==> map.rewound(now).pools == c.pools
            && map.rewound(now).position == c.position && c.start > now,
        first_unaired(map.checkpoints, now) is None ==> map.rewound(now) == map,
{
    let unaired = |c: CheckpointModel| c.start > now;
    let kept = map.pruned(now).checkpoints;
    lemma_first_unaired_survives_pruning(map.checkpoints, now);
    broadcast use vstd::seq_lib::group_filter_ensures;
    if kept.len() > 0 {
        assert(unaired(kept[0]));
    }
}

/// A rewind to the generation a checkpoint was just recorded for brings back the map as it
/// stood: the pools, the list position and the earlier checkpoints.
pub proof fn rewinding_undoes_a_generation(
    map: ResumeModel,
    start: int,
    pools: Seq<(String, PoolResume)>,
    position: int,
)
    ensures
        (ResumeModel { pools, position, ..map.checkpointed(start) }).rewound_to(start) == map,
{
    let ran = ResumeModel { pools, position, ..map.checkpointed(start) };
    assert(ran.checkpoints.take(map.checkpoints.len() as int) =~= map.checkpoints);
}

/// Where a channel's resume state lies, in the folder of its playout.
pub fn sidecar_path(output_folder: &str) -> (out: String)
    ensures
        out@ == joined(output_folder@, ".resume"@),
{
    join(output_folder, ".resume")
}

} // verus!
