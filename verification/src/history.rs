//! The play-history ledger: one row for each scheduled airing, station-wide. It only
//! remembers; where each series stands, what a channel aired last and where a show stands on
//! any channel are read out of the same rows.

use vstd::prelude::*;

use crate::names::{contains_name, entry_of, has_name, lemma_entry_of, lookup, same_text, texts};
use crate::paths::{join, joined};
use crate::text::{chars_of, find_first, first_at, text_of, trim, trimmed};

verus! {

/// One scheduled airing. Instants are nanoseconds since the epoch.
#[derive(Debug)]
pub struct PlayRecord {
    /// The entry that airs.
    pub entry_id: String,
    /// The show it belongs to, when it belongs to one.
    pub show_id: Option<String>,
    /// When it airs.
    pub start: i64,
    /// When the row was written.
    pub played_at: i64,
    /// Whether the slot aired an error card in place of the item.
    pub error_card: bool,
}

impl PlayRecord {
    /// The series that this airing counts for: its show, and else the entry itself.
    pub open spec fn series(self) -> Seq<char> {
        match self.show_id {
            Some(show) => show@,
            None => self.entry_id@,
        }
    }

    /// The series that this airing counts for: its show, and else the entry itself.
    pub fn series_key(&self) -> (out: &str)
        ensures
            out@ == self.series(),
    {
        match &self.show_id {
            Some(show) => show.as_str(),
            None => self.entry_id.as_str(),
        }
    }

    /// The same airing again.
    pub fn copy(&self) -> (out: PlayRecord)
        ensures
            out == *self,
    {
        PlayRecord {
            entry_id: self.entry_id.clone(),
            show_id: match &self.show_id {
                Some(show) => Some(show.clone()),
                None => None,
            },
            start: self.start,
            played_at: self.played_at,
            error_card: self.error_card,
        }
    }
}

/// One row of the ledger.
#[derive(Debug)]
pub struct Airing {
    pub channel: String,
    pub record: PlayRecord,
}

/// What one migration of a channel did.
#[derive(Clone, Copy, Debug, PartialEq, Eq, Structural)]
pub struct MigrationStats {
    /// The channel had been migrated before; nothing was read.
    pub already_done: bool,
    /// The rows that were taken over.
    pub migrated: usize,
    /// The lines that could not be read.
    pub skipped: usize,
}

/// The ledger of all channels.
#[derive(Debug)]
pub struct HistoryDb {
    /// In the order of their insertion.
    pub rows: Vec<Airing>,
    /// The marks that were left, by name.
    pub marks: Vec<String>,
}

/// The airing of a row that counts for something: the one that starts last, and of those that
/// start together the one inserted last.
pub open spec fn latest(rows: Seq<Airing>, counts: spec_fn(Airing) -> bool) -> Option<Airing>
    decreases rows.len(),
{
    if rows.len() == 0 {
        None
    } else {
        let earlier = latest(rows.drop_last(), counts);
        let last = rows.last();
        if !counts(last) {
            earlier
        } else {
            match earlier {
                Some(row) => if row.record.start <= last.record.start {
                    Some(last)
                } else {
                    earlier
                },
                None => Some(last),
            }
        }
    }
}

/// What `latest` gives: a row that counts and that no row that counts starts after.
pub proof fn lemma_latest(rows: Seq<Airing>, counts: spec_fn(Airing) -> bool)
    ensures
        latest(rows, counts) is None <==> forall|i: int|
            0 <= i < rows.len() ==> !counts(#[trigger] rows[i]),
        latest(rows, counts) matches Some(row) ==> counts(row) && rows.contains(row) && forall|
            i: int,
        |
            0 <= i < rows.len() && counts(#[trigger] rows[i]) ==> rows[i].record.start
                <= row.record.start,
    decreases rows.len(),
{
    if rows.len() > 0 {
        let shorter = rows.drop_last();
        lemma_latest(shorter, counts);
        assert(forall|i: int| 0 <= i < shorter.len() ==> shorter[i] == rows[i]);
        assert(rows.last() == rows[rows.len() - 1]);
        if latest(shorter, counts) is Some {
            let row = latest(shorter, counts)->0;
            let i = choose|i: int| 0 <= i < shorter.len() && shorter[i] == row;
            assert(rows[i] == row);
        }
        assert forall|i: int|
            0 <= i < rows.len() && counts(#[trigger] rows[i]) && latest(
                rows,
                counts,
            ) is Some implies rows[i].record.start <= latest(rows, counts)->0.record.start by {
            if i < shorter.len() {
                assert(counts(shorter[i]));
            }
        }
        if latest(rows, counts) is None {
            assert forall|i: int| 0 <= i < rows.len() implies !counts(#[trigger] rows[i]) by {
                if i < shorter.len() {
                    assert(!counts(shorter[i]));
                }
            }
        } else if !counts(rows.last()) {
            let i = choose|i: int| 0 <= i < shorter.len() && shorter[i] == latest(rows, counts)->0;
            assert(counts(rows[i]));
        }
    }
}

/// Which rows count for a series on a channel.
pub open spec fn on_series(channel: Seq<char>, key: Seq<char>) -> spec_fn(Airing) -> bool {
    |row: Airing| row.channel@ == channel && row.record.series() == key
}

/// Which rows count for a show on any channel.
pub open spec fn on_show(show: Seq<char>) -> spec_fn(Airing) -> bool {
    |row: Airing|
        match row.record.show_id {
            Some(id) => id@ == show,
            None => false,
        }
}

/// What a series on a channel played last.
pub open spec fn series_stands(rows: Seq<Airing>, channel: Seq<char>, key: Seq<char>) -> Option<
    String,
> {
    match latest(rows, on_series(channel, key)) {
        Some(row) => Some(row.record.entry_id),
        None => None,
    }
}

/// What a show played last on any channel.
pub open spec fn show_stands(rows: Seq<Airing>, show: Seq<char>) -> Option<String> {
    match latest(rows, on_show(show)) {
        Some(row) => Some(row.record.entry_id),
        None => None,
    }
}

/// Whether the channel has an airing of an entry at an instant.
pub open spec fn on_record(rows: Seq<Airing>, channel: Seq<char>, entry: Seq<char>, start: i64) -> bool {
    exists|i: int|
        0 <= i < rows.len() && (#[trigger] rows[i]).channel@ == channel
            && rows[i].record.entry_id@ == entry && rows[i].record.start == start
}

/// Rows of a channel, made from airings.
pub open spec fn airings(channel: String, records: Seq<PlayRecord>) -> Seq<Airing> {
    records.map_values(|r: PlayRecord| Airing { channel, record: r })
}

/// The rows once the airings that are not on record are inserted, in their order.
pub open spec fn with_missing(rows: Seq<Airing>, channel: String, records: Seq<PlayRecord>) -> Seq<
    Airing,
>
    decreases records.len(),
{
    if records.len() == 0 {
        rows
    } else {
        let earlier = with_missing(rows, channel, records.drop_last());
        let last = records.last();
        if on_record(earlier, channel@, last.entry_id@, last.start) {
            earlier
        } else {
            earlier.push(Airing { channel, record: last })
        }
    }
}

/// Which rows outlive the dropping of a channel's airings from an instant on.
pub open spec fn outlives(channel: Seq<char>, from: i64) -> spec_fn(Airing) -> bool {
    |row: Airing| !(row.channel@ == channel && row.record.start >= from)
}

/// The rows that are left when a channel's airings from an instant on are dropped.
pub open spec fn truncated(rows: Seq<Airing>, channel: Seq<char>, from: i64) -> Seq<Airing> {
    rows.filter(outlives(channel, from))
}

/// How many airings a channel has on record.
pub open spec fn counted(rows: Seq<Airing>, channel: Seq<char>) -> nat
    decreases rows.len(),
{
    if rows.len() == 0 {
        0
    } else {
        counted(rows.drop_last(), channel) + if rows.last().channel@ == channel {
            1nat
        } else {
            0
        }
    }
}

/// Where an airing that starts then goes among airings in the order in which they start: after
/// all that start no later.
pub open spec fn place_for(aired: Seq<(i64, String)>, start: i64) -> int
    decreases aired.len(),
{
    if aired.len() == 0 {
        0
    } else if aired.last().0 <= start {
        aired.len() as int
    } else {
        place_for(aired.drop_last(), start)
    }
}

/// What a channel aired, in the order in which it aired, without the slots that showed an
/// error card: nobody saw those. Airings at one instant keep the order of their insertion.
pub open spec fn seen(rows: Seq<Airing>, channel: Seq<char>) -> Seq<(i64, String)>
    decreases rows.len(),
{
    if rows.len() == 0 {
        Seq::empty()
    } else {
        let earlier = seen(rows.drop_last(), channel);
        let last = rows.last();
        if last.channel@ == channel && !last.record.error_card {
            earlier.insert(
                place_for(earlier, last.record.start),
                (last.record.start, last.record.entry_id),
            )
        } else {
            earlier
        }
    }
}

/// The entries of the last `n` airings, oldest first.
pub open spec fn last_entries(aired: Seq<(i64, String)>, n: nat) -> Seq<String> {
    let kept = if n < aired.len() {
        aired.skip(aired.len() - n)
    } else {
        aired
    };
    kept.map_values(|a: (i64, String)| a.1)
}

proof fn lemma_place(aired: Seq<(i64, String)>, start: i64)
    ensures
        0 <= place_for(aired, start) <= aired.len(),
    decreases aired.len(),
{
    if aired.len() > 0 {
        lemma_place(aired.drop_last(), start);
    }
}

impl HistoryDb {
    /// A ledger without a row.
    pub fn open_in_memory() -> (out: HistoryDb)
        ensures
            out.rows@.len() == 0,
            out.marks@.len() == 0,
    {
        HistoryDb { rows: Vec::new(), marks: Vec::new() }
    }

    /// Inserts airings of a channel.
    pub fn record(&mut self, channel: &String, records: &Vec<PlayRecord>)
        ensures
            final(self).rows@ == old(self).rows@ + airings(*channel, records@),
            final(self).marks@ == old(self).marks@,
    {
        let ghost before = self.rows@;
        let mut i: usize = 0;
        assert(before =~= before + airings(*channel, records@.take(0)));
        while i < records.len()
            invariant
                i <= records.len(),
                before == old(self).rows@,
                self.marks@ == old(self).marks@,
                self.rows@ == before + airings(*channel, records@.take(i as int)),
            decreases records.len() - i,
        {
            self.rows.push(Airing { channel: channel.clone(), record: records[i].copy() });
            i += 1;
            assert(self.rows@ =~= before + airings(*channel, records@.take(i as int)));
        }
        assert(records@.take(i as int) =~= records@);
    }

    /// Whether the channel has an airing of an entry at an instant.
    pub fn has_airing(&self, channel: &str, entry_id: &str, start: i64) -> (out: bool)
        ensures
            out == on_record(self.rows@, channel@, entry_id@, start),
    {
        let mut i: usize = 0;
        while i < self.rows.len()
            invariant
                i <= self.rows.len(),
                forall|j: int|
                    0 <= j < i ==> !((#[trigger] self.rows@[j]).channel@ == channel@
                        && self.rows@[j].record.entry_id@ == entry_id@
                        && self.rows@[j].record.start == start),
            decreases self.rows.len() - i,
        {
            let row: &Airing = &self.rows[i];
            if row.record.start == start && same_text(row.channel.as_str(), channel) && same_text(
                row.record.entry_id.as_str(),
                entry_id,
            ) {
                assert(self.rows@[i as int].channel@ == channel@);
                return true;
            }
            i += 1;
        }
        false
    }

    /// Inserts the airings that the channel does not hold yet, by entry and instant, and tells
    /// how many were inserted. An airing that is named twice is inserted once.
    pub fn record_missing(&mut self, channel: &String, records: &Vec<PlayRecord>) -> (out: usize)
        ensures
            final(self).rows@ == with_missing(old(self).rows@, *channel, records@),
            final(self).marks@ == old(self).marks@,
            out == final(self).rows@.len() - old(self).rows@.len(),
    {
        let ghost before = self.rows@;
        let mut inserted: usize = 0;
        let mut i: usize = 0;
        assert(records@.take(0) =~= Seq::<PlayRecord>::empty());
        while i < records.len()
            invariant
                i <= records.len(),
                inserted <= i,
                before == old(self).rows@,
                self.marks@ == old(self).marks@,
                self.rows@ == with_missing(before, *channel, records@.take(i as int)),
                inserted == self.rows@.len() - before.len(),
            decreases records.len() - i,
        {
            assert(records@.take(i + 1).drop_last() =~= records@.take(i as int));
            assert(records@.take(i + 1).last() == records@[i as int]);
            let r: &PlayRecord = &records[i];
            if !self.has_airing(channel.as_str(), r.entry_id.as_str(), r.start) {
                self.rows.push(Airing { channel: channel.clone(), record: r.copy() });
                inserted += 1;
            }
            i += 1;
        }
        assert(records@.take(i as int) =~= records@);
        inserted
    }

    /// How many airings a channel has on record.
    pub fn count(&self, channel: &str) -> (out: usize)
        ensures
            out == counted(self.rows@, channel@),
    {
        let mut n: usize = 0;
        let mut i: usize = 0;
        assert(self.rows@.take(0) =~= Seq::<Airing>::empty());
        while i < self.rows.len()
            invariant
                i <= self.rows.len(),
                n <= i,
                n == counted(self.rows@.take(i as int), channel@),
            decreases self.rows.len() - i,
        {
            assert(self.rows@.take(i + 1).drop_last() =~= self.rows@.take(i as int));
            assert(self.rows@.take(i + 1).last() == self.rows@[i as int]);
            if same_text(self.rows[i].channel.as_str(), channel) {
                n += 1;
            }
            i += 1;
        }
        assert(self.rows@.take(i as int) =~= self.rows@);
        n
    }

    /// Drops a channel's airings from an instant on: a rewind is about to lay them anew.
    pub fn truncate_from(&mut self, channel: &str, from: i64)
        ensures
            final(self).rows@ == truncated(old(self).rows@, channel@, from),
            final(self).marks@ == old(self).marks@,
    {
        broadcast use vstd::seq_lib::group_filter_ensures;

        let ghost all = self.rows@;
        let ghost keeps = outlives(channel@, from);
        let mut kept: Vec<Airing> = Vec::new();
        let mut i: usize = 0;
        assert(all.take(0) =~= Seq::<Airing>::empty());
        while i < self.rows.len()
            invariant
                i <= self.rows.len(),
                self.rows@ == all,
                self.marks@ == old(self).marks@,
                keeps == outlives(channel@, from),
                kept@ == all.take(i as int).filter(keeps),
            decreases self.rows.len() - i,
        {
            assert(all.take(i + 1) =~= all.take(i as int).push(all[i as int]));
            proof {
                all.take(i as int).lemma_filter_push(all[i as int], keeps);
            }
            let row: &Airing = &self.rows[i];
            if !(row.record.start >= from && same_text(row.channel.as_str(), channel)) {
                assert(keeps(all[i as int]));
                kept.push(
                    Airing { channel: row.channel.clone(), record: row.record.copy() },
                );
            }
            i += 1;
        }
        assert(all.take(i as int) =~= all);
        self.rows = kept;
    }
}

/// Whether a table gives what each series of a channel played last, and nothing more, each
/// series once.
pub open spec fn gives_series(table: Seq<(String, String)>, rows: Seq<Airing>, channel: Seq<char>) -> bool {
    &&& forall|key: Seq<char>| #[trigger]
        entry_of(table, key) == series_stands(rows, channel, key)
    &&& forall|i: int, j: int|
        0 <= i < j < table.len() ==> (#[trigger] table[i]).0@ != (#[trigger] table[j]).0@
}

/// Whether a table gives what each show played last on any channel, and nothing more, each
/// show once.
pub open spec fn gives_shows(table: Seq<(String, String)>, rows: Seq<Airing>) -> bool {
    &&& forall|show: Seq<char>| #[trigger] entry_of(table, show) == show_stands(rows, show)
    &&& forall|i: int, j: int|
        0 <= i < j < table.len() ==> (#[trigger] table[i]).0@ != (#[trigger] table[j]).0@
}

proof fn lemma_entry_after_push(table: Seq<(String, String)>, name: String, value: String)
    requires
        entry_of(table, name@) is None,
    ensures
        forall|key: Seq<char>| #[trigger]
            entry_of(table.push((name, value)), key) == if key == name@ {
                Some(value)
            } else {
                entry_of(table, key)
            },
{
    assert(table.push((name, value)).drop_last() =~= table);
}

proof fn lemma_keys_stay_apart(table: Seq<(String, String)>, name: String, value: String)
    requires
        entry_of(table, name@) is None,
        forall|i: int, j: int|
            0 <= i < j < table.len() ==> (#[trigger] table[i]).0@ != (#[trigger] table[j]).0@,
    ensures
        forall|i: int, j: int|
            0 <= i < j < table.len() + 1 ==> (#[trigger] table.push((name, value))[i]).0@ != (
            #[trigger] table.push((name, value))[j]).0@,
{
    lemma_entry_of(table, name@);
    let longer = table.push((name, value));
    assert forall|i: int, j: int| 0 <= i < j < table.len() + 1 implies (#[trigger] longer[i]).0@
        != (#[trigger] longer[j]).0@ by {
        assert(longer[i] == table[i]);
        if j < table.len() {
            assert(longer[j] == table[j]);
        } else {
            assert(table[i].0@ != name@);
        }
    }
}

impl HistoryDb {
    fn latest_of_series(&self, channel: &str, key: &str) -> (out: Option<usize>)
        ensures
            match (out, latest(self.rows@, on_series(channel@, key@))) {
                (Some(i), Some(row)) => i < self.rows.len() && self.rows@[i as int] == row,
                (None, None) => true,
                _ => false,
            },
    {
        let ghost counts = on_series(channel@, key@);
        let mut best: Option<usize> = None;
        let mut i: usize = 0;
        assert(self.rows@.take(0) =~= Seq::<Airing>::empty());
        while i < self.rows.len()
            invariant
                i <= self.rows.len(),
                counts == on_series(channel@, key@),
                match (best, latest(self.rows@.take(i as int), counts)) {
                    (Some(b), Some(row)) => b < i && self.rows@[b as int] == row,
                    (None, None) => true,
                    _ => false,
                },
            decreases self.rows.len() - i,
        {
            assert(self.rows@.take(i + 1).drop_last() =~= self.rows@.take(i as int));
            assert(self.rows@.take(i + 1).last() == self.rows@[i as int]);
            let row: &Airing = &self.rows[i];
            let counting: bool = same_text(row.channel.as_str(), channel) && same_text(
                row.record.series_key(),
                key,
            );
            assert(counting == counts(self.rows@[i as int]));
            if counting {
                best = match best {
                    Some(b) => if self.rows[b].record.start <= row.record.start {
                        Some(i)
                    } else {
                        Some(b)
                    },
                    None => Some(i),
                };
            }
            i += 1;
        }
        assert(self.rows@.take(i as int) =~= self.rows@);
        best
    }

    fn latest_of_show(&self, show: &String) -> (out: Option<usize>)
        ensures
            match (out, latest(self.rows@, on_show(show@))) {
                (Some(i), Some(row)) => i < self.rows.len() && self.rows@[i as int] == row,
                (None, None) => true,
                _ => false,
            },
    {
        let ghost counts = on_show(show@);
        let mut best: Option<usize> = None;
        let mut i: usize = 0;
        assert(self.rows@.take(0) =~= Seq::<Airing>::empty());
        while i < self.rows.len()
            invariant
                i <= self.rows.len(),
                counts == on_show(show@),
                match (best, latest(self.rows@.take(i as int), counts)) {
                    (Some(b), Some(row)) => b < i && self.rows@[b as int] == row,
                    (None, None) => true,
                    _ => false,
                },
            decreases self.rows.len() - i,
        {
            assert(self.rows@.take(i + 1).drop_last() =~= self.rows@.take(i as int));
            assert(self.rows@.take(i + 1).last() == self.rows@[i as int]);
            let row: &Airing = &self.rows[i];
            let counting: bool = match &row.record.show_id {
                Some(id) => *id == *show,
                None => false,
            };
            assert(counting == counts(self.rows@[i as int]));
            if counting {
                best = match best {
                    Some(b) => if self.rows[b].record.start <= row.record.start {
                        Some(i)
                    } else {
                        Some(b)
                    },
                    None => Some(i),
                };
            }
            i += 1;
        }
        assert(self.rows@.take(i as int) =~= self.rows@);
        best
    }

    /// What each series of a channel played last: what a pool that resumes continues from.
    /// Last is what starts last, not what was inserted last, so inserting out of schedule
    /// order rewinds nothing. A slot that showed an error card counts: the series advanced.
    pub fn series_cursor(&self, channel: &str) -> (out: Vec<(String, String)>)
        ensures
            gives_series(out@, self.rows@, channel@),
    {
        let mut out: Vec<(String, String)> = Vec::new();
        let mut i: usize = 0;
        while i < self.rows.len()
            invariant
                i <= self.rows.len(),
                forall|key: Seq<char>|
                    (#[trigger] entry_of(out@, key)) is Some ==> entry_of(out@, key)
                        == series_stands(self.rows@, channel@, key),
                forall|j: int|
                    0 <= j < i && (#[trigger] self.rows@[j]).channel@ == channel@ ==> entry_of(
                        out@,
                        self.rows@[j].record.series(),
                    ) is Some,
                forall|a: int, b: int|
                    0 <= a < b < out@.len() ==> (#[trigger] out@[a]).0@ != (#[trigger] out@[b]).0@,
            decreases self.rows.len() - i,
        {
            let row: &Airing = &self.rows[i];
            if same_text(row.channel.as_str(), channel) {
                let key: String = row.record.series_key().to_owned();
                if lookup(&out, &key).is_none() {
                    match self.latest_of_series(channel, key.as_str()) {
                        Some(at) => {
                            let value: String = self.rows[at].record.entry_id.clone();
                            proof {
                                lemma_entry_after_push(out@, key, value);
                                lemma_keys_stay_apart(out@, key, value);
                            }
                            out.push((key, value));
                        },
                        None => {
                            proof {
                                let counts = on_series(channel@, key@);
                                lemma_latest(self.rows@, counts);
                                assert(counts(self.rows@[i as int]));
                            }
                        },
                    }
                }
            }
            i += 1;
        }
        proof {
            assert forall|key: Seq<char>| #[trigger]
                entry_of(out@, key) == series_stands(self.rows@, channel@, key) by {
                if entry_of(out@, key) is None {
                    let counts = on_series(channel@, key);
                    lemma_latest(self.rows@, counts);
                    assert forall|j: int| 0 <= j < self.rows@.len() implies !counts(
                        #[trigger] self.rows@[j],
                    ) by {}
                }
            }
        }
        out
    }

    /// What each show played last, wherever it aired: what a pool that follows a show across
    /// channels continues from. What belongs to no show has no place here.
    pub fn cross_channel_show_cursor(&self) -> (out: Vec<(String, String)>)
        ensures
            gives_shows(out@, self.rows@),
    {
        let mut out: Vec<(String, String)> = Vec::new();
        let mut i: usize = 0;
        while i < self.rows.len()
            invariant
                i <= self.rows.len(),
                forall|show: Seq<char>|
                    (#[trigger] entry_of(out@, show)) is Some ==> entry_of(out@, show)
                        == show_stands(self.rows@, show),
                forall|j: int|
                    0 <= j < i && (#[trigger] self.rows@[j]).record.show_id is Some ==> entry_of(
                        out@,
                        self.rows@[j].record.show_id->0@,
                    ) is Some,
                forall|a: int, b: int|
                    0 <= a < b < out@.len() ==> (#[trigger] out@[a]).0@ != (#[trigger] out@[b]).0@,
            decreases self.rows.len() - i,
        {
            match &self.rows[i].record.show_id {
                Some(show) => {
                    if lookup(&out, show).is_none() {
                        match self.latest_of_show(show) {
                            Some(at) => {
                                let value: String = self.rows[at].record.entry_id.clone();
                                let key: String = show.clone();
                                proof {
                                    lemma_entry_after_push(out@, key, value);
                                    lemma_keys_stay_apart(out@, key, value);
                                }
                                out.push((key, value));
                            },
                            None => {
                                proof {
                                    let counts = on_show(show@);
                                    lemma_latest(self.rows@, counts);
                                    assert(counts(self.rows@[i as int]));
                                }
                            },
                        }
                    }
                },
                None => {},
            }
            i += 1;
        }
        proof {
            assert forall|show: Seq<char>| #[trigger]
                entry_of(out@, show) == show_stands(self.rows@, show) by {
                if entry_of(out@, show) is None {
                    let counts = on_show(show);
                    lemma_latest(self.rows@, counts);
                    assert forall|j: int| 0 <= j < self.rows@.len() implies !counts(
                        #[trigger] self.rows@[j],
                    ) by {}
                }
            }
        }
        out
    }

    /// The entries that a channel aired most recently, oldest first, at most `n` of them.
    /// What is most recent is told by when it airs. Slots that showed an error card are left
    /// out.
    pub fn tail(&self, channel: &str, n: usize) -> (out: Vec<String>)
        ensures
            out@ == last_entries(seen(self.rows@, channel@), n as nat),
    {
        let mut aired: Vec<(i64, String)> = Vec::new();
        let mut i: usize = 0;
        assert(self.rows@.take(0) =~= Seq::<Airing>::empty());
        while i < self.rows.len()
            invariant
                i <= self.rows.len(),
                aired@ == seen(self.rows@.take(i as int), channel@),
            decreases self.rows.len() - i,
        {
            assert(self.rows@.take(i + 1).drop_last() =~= self.rows@.take(i as int));
            assert(self.rows@.take(i + 1).last() == self.rows@[i as int]);
            let row: &Airing = &self.rows[i];
            if !row.record.error_card && same_text(row.channel.as_str(), channel) {
                let start: i64 = row.record.start;
                let mut at: usize = aired.len();
                assert(aired@.take(at as int) =~= aired@);
                while at > 0 && aired[at - 1].0 > start
                    invariant
                        at <= aired.len(),
                        place_for(aired@, start) == place_for(aired@.take(at as int), start),
                    decreases at,
                {
                    assert(aired@.take(at as int).drop_last() =~= aired@.take(at - 1));
                    at -= 1;
                }
                aired.insert(at, (start, row.record.entry_id.clone()));
            }
            i += 1;
        }
        assert(self.rows@.take(i as int) =~= self.rows@);
        let ghost all = aired@;
        let from: usize = if n < aired.len() {
            aired.len() - n
        } else {
            0
        };
        let mut out: Vec<String> = Vec::new();
        let mut j: usize = from;
        while j < aired.len()
            invariant
                from <= j <= aired.len(),
                aired@ == all,
                out.len() == j - from,
                forall|k: int| 0 <= k < out.len() ==> #[trigger] out@[k] == all[from + k].1,
            decreases aired.len() - j,
        {
            out.push(aired[j].1.clone());
            j += 1;
        }
        assert(out@ =~= last_entries(all, n as nat));
        out
    }

    /// Every entry and instant that a channel has on record.
    pub fn airing_keys(&self, channel: &str) -> (out: Vec<(String, i64)>)
        ensures
            forall|entry: Seq<char>, start: i64|
                #[trigger] on_record(self.rows@, channel@, entry, start) <==> exists|i: int|
                    0 <= i < out@.len() && (#[trigger] out@[i]).0@ == entry && out@[i].1 == start,
    {
        let mut out: Vec<(String, i64)> = Vec::new();
        let mut i: usize = 0;
        while i < self.rows.len()
            invariant
                i <= self.rows.len(),
                forall|j: int|
                    0 <= j < i && (#[trigger] self.rows@[j]).channel@ == channel@ ==> exists|k: int|
                        0 <= k < out@.len() && (#[trigger] out@[k]).0@
                            == self.rows@[j].record.entry_id@ && out@[k].1
                            == self.rows@[j].record.start,
                forall|k: int|
                    0 <= k < out@.len() ==> on_record(
                        self.rows@,
                        channel@,
                        (#[trigger] out@[k]).0@,
                        out@[k].1,
                    ),
            decreases self.rows.len() - i,
        {
            let row: &Airing = &self.rows[i];
            if same_text(row.channel.as_str(), channel) {
                let ghost before = out@;
                out.push((row.record.entry_id.clone(), row.record.start));
                assert(self.rows@[i as int].channel@ == channel@);
                assert(out@[before.len() as int].0@ == self.rows@[i as int].record.entry_id@);
                assert(forall|k: int| 0 <= k < before.len() ==> out@[k] == before[k]);
                assert forall|j: int|
                    0 <= j < i && (#[trigger] self.rows@[j]).channel@ == channel@ implies exists|
                    k: int,
                |
                    0 <= k < out@.len() && (#[trigger] out@[k]).0@
                        == self.rows@[j].record.entry_id@ && out@[k].1
                        == self.rows@[j].record.start by {
                    let k = choose|k: int|
                        0 <= k < before.len() && (#[trigger] before[k]).0@
                            == self.rows@[j].record.entry_id@ && before[k].1
                            == self.rows@[j].record.start;
                    assert(out@[k] == before[k]);
                }
            }
            i += 1;
        }
        proof {
            assert forall|entry: Seq<char>, start: i64| #[trigger]
                on_record(self.rows@, channel@, entry, start) <==> exists|k: int|
                0 <= k < out@.len() && (#[trigger] out@[k]).0@ == entry && out@[k].1 == start by {
                if on_record(self.rows@, channel@, entry, start) {
                    let j = choose|j: int|
                        0 <= j < self.rows@.len() && (#[trigger] self.rows@[j]).channel@
                            == channel@ && self.rows@[j].record.entry_id@ == entry
                            && self.rows@[j].record.start == start;
                    assert(self.rows@[j].channel@ == channel@);
                }
            }
        }
        out
    }
}

/// Where a channel's old ledger lies, in the folder of its playout.
pub fn sidecar_path(output_folder: &str) -> (out: String)
    ensures
        out@ == joined(output_folder@, ".history"@),
{
    join(output_folder, ".history")
}

/// The mark that a channel's migration leaves.
pub open spec fn migration_mark(channel: Seq<char>) -> Seq<char> {
    "migrated:"@ + channel
}

/// The mark that a channel's migration leaves.
pub fn migrated_key(channel: &str) -> (out: String)
    ensures
        out@ == migration_mark(channel@),
{
    let mut out: String = "migrated:".to_owned();
    out.append(channel);
    out
}

/// The lines of an old ledger that hold something.
pub open spec fn filled_lines(text: Seq<char>) -> Seq<Seq<char>>
    decreases text.len(),
{
    let at = first_at(text, '\n');
    let line = if at < text.len() {
        text.take(at)
    } else {
        text
    };
    let rest = if 0 <= at < text.len() {
        filled_lines(text.skip(at + 1))
    } else {
        Seq::empty()
    };
    if trimmed(line).len() > 0 {
        seq![line] + rest
    } else {
        rest
    }
}

/// Takes an old ledger apart into the lines that hold something.
pub fn history_lines(text: &str) -> (out: Vec<String>)
    ensures
        texts(out@) == filled_lines(text@),
{
    let mut out: Vec<String> = Vec::new();
    let mut rest: Vec<char> = chars_of(text);
    let ghost want = filled_lines(text@);
    assert(want =~= texts(out@) + want);
    loop
        invariant_except_break
            want == texts(out@) + filled_lines(rest@),
        invariant
            want == filled_lines(text@),
        ensures
            want == texts(out@),
        decreases rest.len(),
    {
        let at: usize = find_first(&rest, '\n');
        let line: String = text_of(&rest, 0, at);
        let ghost whole = rest@;
        assert(line@ =~= if at < whole.len() {
            whole.take(at as int)
        } else {
            whole
        });
        let ghost later = if at < whole.len() {
            filled_lines(whole.skip(at + 1))
        } else {
            Seq::empty()
        };
        let ghost before = texts(out@);
        if trim(line.as_str()).as_str().unicode_len() > 0 {
            out.push(line);
            assert(texts(out@) =~= before.push(line@));
            assert(before + (seq![line@] + later) =~= texts(out@) + later);
        }
        assert(want == texts(out@) + later);
        if at >= rest.len() {
            assert(texts(out@) + later =~= texts(out@));
            break;
        }
        let tail: Vec<char> = chars_from(&rest, at + 1);
        rest = tail;
    }
    out
}

fn chars_from(chars: &Vec<char>, from: usize) -> (out: Vec<char>)
    requires
        from <= chars.len(),
    ensures
        out@ == chars@.skip(from as int),
{
    let mut out: Vec<char> = Vec::new();
    let mut i: usize = from;
    while i < chars.len()
        invariant
            from <= i <= chars.len(),
            out@ =~= chars@.subrange(from as int, i as int),
        decreases chars.len() - i,
    {
        out.push(chars[i]);
        i += 1;
    }
    assert(out@ =~= chars@.skip(from as int));
    out
}

/// The airings among lines that were read.
pub open spec fn read_airings(lines: Seq<Option<PlayRecord>>) -> Seq<PlayRecord>
    decreases lines.len(),
{
    if lines.len() == 0 {
        Seq::empty()
    } else {
        let earlier = read_airings(lines.drop_last());
        match lines.last() {
            Some(record) => earlier.push(record),
            None => earlier,
        }
    }
}

proof fn lemma_read_airings(lines: Seq<Option<PlayRecord>>)
    ensures
        read_airings(lines).len() <= lines.len(),
    decreases lines.len(),
{
    if lines.len() > 0 {
        lemma_read_airings(lines.drop_last());
    }
}

/// What a migration does: the rows and the marks after it, and what it tells.
pub open spec fn migration(
    rows: Seq<Airing>,
    marks: Seq<String>,
    channel: String,
    lines: Seq<Option<PlayRecord>>,
) -> (Seq<Airing>, bool, MigrationStats) {
    if has_name(marks, migration_mark(channel@)) {
        (rows, false, MigrationStats { already_done: true, migrated: 0, skipped: 0 })
    } else {
        let found = read_airings(lines);
        (
            rows + airings(channel, found),
            true,
            MigrationStats {
                already_done: false,
                migrated: found.len() as usize,
                skipped: (lines.len() - found.len()) as usize,
            },
        )
    }
}

impl HistoryDb {
    /// Whether a channel was migrated.
    pub fn channel_migrated(&self, channel: &str) -> (out: bool)
        ensures
            out == has_name(self.marks@, migration_mark(channel@)),
    {
        contains_name(&self.marks, &migrated_key(channel))
    }

    /// Takes over the airings of a channel's old ledger, exactly once: `lines` holds what each
    /// of its lines was read as. A line that could not be read is passed over. A channel that
    /// was migrated before is left as it is.
    pub fn migrate_channel(&mut self, channel: &String, lines: &Vec<Option<PlayRecord>>) -> (out:
        MigrationStats)
        ensures
            ({
                let (rows, marked, stats) = migration(
                    old(self).rows@,
                    old(self).marks@,
                    *channel,
                    lines@,
                );
                &&& final(self).rows@ == rows
                &&& out == stats
                &&& marked ==> texts(final(self).marks@) == texts(old(self).marks@).push(
                    migration_mark(channel@),
                )
                &&& !marked ==> final(self).marks@ == old(self).marks@
            }),
    {
        if self.channel_migrated(channel.as_str()) {
            return MigrationStats { already_done: true, migrated: 0, skipped: 0 };
        }
        let mut found: Vec<PlayRecord> = Vec::new();
        let mut i: usize = 0;
        assert(lines@.take(0) =~= Seq::<Option<PlayRecord>>::empty());
        while i < lines.len()
            invariant
                i <= lines.len(),
                self.rows@ == old(self).rows@,
                self.marks@ == old(self).marks@,
                found@ == read_airings(lines@.take(i as int)),
            decreases lines.len() - i,
        {
            assert(lines@.take(i + 1).drop_last() =~= lines@.take(i as int));
            assert(lines@.take(i + 1).last() == lines@[i as int]);
            match &lines[i] {
                Some(record) => {
                    found.push(record.copy());
                },
                None => {},
            }
            i += 1;
        }
        assert(lines@.take(i as int) =~= lines@);
        proof {
            lemma_read_airings(lines@);
        }
        self.record(channel, &found);
        let ghost before = texts(self.marks@);
        let mark: String = migrated_key(channel.as_str());
        self.marks.push(mark);
        assert(texts(self.marks@) =~= before.push(mark@));
        MigrationStats {
            already_done: false,
            migrated: found.len(),
            skipped: lines.len() - found.len(),
        }
    }
}

/// Finds the first airing that starts before the one ahead of it, if there is one.
pub fn first_out_of_order(records: &Vec<PlayRecord>) -> (out: Option<usize>)
    ensures
        match out {
            Some(i) => {
                &&& 0 < i < records.len()
                &&& records@[i as int].start < records@[i - 1].start
                &&& forall|j: int, k: int|
                    k == j - 1 && 0 < j < i ==> (#[trigger] records@[j]).start >= (
                    #[trigger] records@[k]).start
            },
            None => forall|j: int, k: int|
                k == j - 1 && 0 < j < records.len() ==> (#[trigger] records@[j]).start >= (
                #[trigger] records@[k]).start,
        },
{
    let mut i: usize = 1;
    while i < records.len()
        invariant
            1 <= i,
            i <= records.len() || records.len() == 0 && i == 1,
            forall|j: int, k: int|
                k == j - 1 && 0 < j < i && j < records.len() ==> (#[trigger] records@[j]).start >= (
                #[trigger] records@[k]).start,
        decreases records.len() - i,
    {
        if records[i].start < records[i - 1].start {
            return Some(i);
        }
        i += 1;
    }
    None
}

/// A second migration of a channel changes nothing and says so, whatever the file holds by
/// then.
pub proof fn a_channel_is_migrated_once(
    rows: Seq<Airing>,
    marks: Seq<String>,
    channel: String,
    lines: Seq<Option<PlayRecord>>,
    later_marks: Seq<String>,
    later_lines: Seq<Option<PlayRecord>>,
)
    requires
        !has_name(marks, migration_mark(channel@)),
        texts(later_marks) == texts(marks).push(migration_mark(channel@)),
    ensures
        ({
            let first = migration(rows, marks, channel, lines);
            let second = migration(first.0, later_marks, channel, later_lines);
            &&& !first.2.already_done
            &&& second.0 == first.0
            &&& !second.1
            &&& second.2.already_done
        }),
{
    let i = marks.len() as int;
    assert(texts(later_marks).len() == later_marks.len());
    assert(texts(later_marks)[i] == migration_mark(channel@));
    assert(later_marks[i]@ == migration_mark(channel@));
}

/// Where a series and a show stand does not depend on the order in which airings were
/// inserted, as long as no two that count start together.
pub proof fn the_cursor_ignores_insertion_order(
    rows: Seq<Airing>,
    shuffled: Seq<Airing>,
    counts: spec_fn(Airing) -> bool,
)
    requires
        rows.to_multiset() == shuffled.to_multiset(),
        forall|i: int, j: int|
            0 <= i < rows.len() && 0 <= j < rows.len() && counts(#[trigger] rows[i]) && counts(
                #[trigger] rows[j],
            ) && rows[i].record.start == rows[j].record.start ==> rows[i] == rows[j],
    ensures
        latest(rows, counts) == latest(shuffled, counts),
{
    broadcast use vstd::seq_lib::group_to_multiset_ensures;

    lemma_latest(rows, counts);
    lemma_latest(shuffled, counts);
    if latest(rows, counts) is Some {
        let row = latest(rows, counts)->0;
        assert(rows.to_multiset().count(row) > 0);
        assert(shuffled.contains(row));
        let k = choose|k: int| 0 <= k < shuffled.len() && shuffled[k] == row;
        assert(counts(shuffled[k]));
        let other = latest(shuffled, counts)->0;
        assert(shuffled.to_multiset().count(other) > 0);
        assert(rows.contains(other));
        let i = choose|i: int| 0 <= i < rows.len() && rows[i] == row;
        let j = choose|j: int| 0 <= j < rows.len() && rows[j] == other;
        assert(counts(rows[i]) && counts(rows[j]));
    } else if latest(shuffled, counts) is Some {
        let other = latest(shuffled, counts)->0;
        assert(shuffled.to_multiset().count(other) > 0);
        assert(rows.contains(other));
        let j = choose|j: int| 0 <= j < rows.len() && rows[j] == other;
        assert(counts(rows[j]));
    }
}

/// Dropping a channel's airings leaves every other channel's rows and where its series stand,
/// and leaves no airing of the channel from the instant on.
pub proof fn truncation_stays_on_its_channel(
    rows: Seq<Airing>,
    channel: Seq<char>,
    from: i64,
    other: Seq<char>,
    key: Seq<char>,
)
    ensures
        forall|i: int|
            0 <= i < truncated(rows, channel, from).len() ==> !((#[trigger] truncated(
                rows,
                channel,
                from,
            )[i]).channel@ == channel && truncated(rows, channel, from)[i].record.start >= from),
        other != channel ==> counted(truncated(rows, channel, from), other) == counted(rows, other),
        other != channel ==> latest(truncated(rows, channel, from), on_series(other, key))
            == latest(rows, on_series(other, key)) && series_stands(
            truncated(rows, channel, from),
            other,
            key,
        ) == series_stands(rows, other, key),
    decreases rows.len(),
{
    broadcast use vstd::seq_lib::group_filter_ensures;

    let keeps = outlives(channel, from);
    let left = truncated(rows, channel, from);
    assert forall|i: int| 0 <= i < left.len() implies !((#[trigger] left[i]).channel@ == channel
        && left[i].record.start >= from) by {
        assert(keeps(left[i]));
    }
    if rows.len() > 0 {
        let shorter = rows.drop_last();
        truncation_stays_on_its_channel(shorter, channel, from, other, key);
        assert(rows =~= shorter.push(rows.last()));
        shorter.lemma_filter_push(rows.last(), keeps);
        if keeps(rows.last()) {
            assert(left == truncated(shorter, channel, from).push(rows.last()));
            assert(left.drop_last() =~= truncated(shorter, channel, from));
        }
    } else {
        assert(left =~= rows);
    }
}

proof fn lemma_missing_grows(rows: Seq<Airing>, channel: String, records: Seq<PlayRecord>)
    ensures
        rows.len() <= with_missing(rows, channel, records).len(),
        forall|i: int| 0 <= i < rows.len() ==> with_missing(rows, channel, records)[i] == rows[i],
    decreases records.len(),
{
    if records.len() > 0 {
        lemma_missing_grows(rows, channel, records.drop_last());
    }
}

proof fn lemma_missing_recorded(
    rows: Seq<Airing>,
    channel: String,
    records: Seq<PlayRecord>,
    i: int,
)
    requires
        0 <= i < records.len(),
    ensures
        on_record(
            with_missing(rows, channel, records),
            channel@,
            records[i].entry_id@,
            records[i].start,
        ),
    decreases records.len(),
{
    let earlier = with_missing(rows, channel, records.drop_last());
    let after = with_missing(rows, channel, records);
    assert(forall|j: int| 0 <= j < earlier.len() ==> after[j] == earlier[j]);
    if i < records.len() - 1 {
        lemma_missing_recorded(rows, channel, records.drop_last(), i);
        let j = choose|j: int|
            0 <= j < earlier.len() && (#[trigger] earlier[j]).channel@ == channel@
                && earlier[j].record.entry_id@ == records[i].entry_id@ && earlier[j].record.start
                == records[i].start;
        assert(after[j].channel@ == channel@);
    } else if !on_record(earlier, channel@, records[i].entry_id@, records[i].start) {
        assert(after[earlier.len() as int].channel@ == channel@);
    }
}

proof fn lemma_nothing_missing(rows: Seq<Airing>, channel: String, records: Seq<PlayRecord>)
    requires
        forall|i: int|
            0 <= i < records.len() ==> on_record(
                rows,
                channel@,
                (#[trigger] records[i]).entry_id@,
                records[i].start,
            ),
    ensures
        with_missing(rows, channel, records) == rows,
    decreases records.len(),
{
    if records.len() > 0 {
        assert forall|i: int| 0 <= i < records.drop_last().len() implies on_record(
            rows,
            channel@,
            (#[trigger] records.drop_last()[i]).entry_id@,
            records.drop_last()[i].start,
        ) by {
            assert(records[i] == records.drop_last()[i]);
        }
        lemma_nothing_missing(rows, channel, records.drop_last());
        assert(records.last() == records[records.len() - 1]);
    }
}

/// A repair puts every airing on record, leaves the rows that were there, and finds nothing to
/// insert a second time.
pub proof fn a_repair_settles(rows: Seq<Airing>, channel: String, records: Seq<PlayRecord>)
    ensures
        ({
            let after = with_missing(rows, channel, records);
            &&& rows.len() <= after.len()
            &&& forall|i: int| 0 <= i < rows.len() ==> after[i] == rows[i]
            &&& forall|i: int|
                0 <= i < records.len() ==> on_record(
                    after,
                    channel@,
                    (#[trigger] records[i]).entry_id@,
                    records[i].start,
                )
            &&& with_missing(after, channel, records) == after
        }),
{
    let after = with_missing(rows, channel, records);
    lemma_missing_grows(rows, channel, records);
    assert forall|i: int| 0 <= i < records.len() implies on_record(
        after,
        channel@,
        (#[trigger] records[i]).entry_id@,
        records[i].start,
    ) by {
        lemma_missing_recorded(rows, channel, records, i);
    }
    lemma_nothing_missing(after, channel, records);
}

/// The airings that a channel has on record, by entry and instant.
pub open spec fn pairs_on_record(rows: Seq<Airing>, channel: Seq<char>) -> Set<(Seq<char>, i64)> {
    Set::new(|p: (Seq<char>, i64)| on_record(rows, channel, p.0, p.1))
}

/// Airings, by entry and instant.
pub open spec fn pairs_of(records: Seq<PlayRecord>) -> Set<(Seq<char>, i64)> {
    Set::new(
        |p: (Seq<char>, i64)|
            exists|i: int|
                0 <= i < records.len() && (#[trigger] records[i]).entry_id@ == p.0
                    && records[i].start == p.1,
    )
}

proof fn lemma_pairs_pushed(records: Seq<PlayRecord>)
    requires
        records.len() > 0,
    ensures
        pairs_of(records) == pairs_of(records.drop_last()).insert(
            (records.last().entry_id@, records.last().start),
        ),
{
    let fewer = records.drop_last();
    let last = (records.last().entry_id@, records.last().start);
    assert forall|p: (Seq<char>, i64)| pairs_of(records).contains(p) == pairs_of(fewer).insert(
        last,
    ).contains(p) by {
        if pairs_of(records).contains(p) && p != last {
            let i = choose|i: int|
                0 <= i < records.len() && (#[trigger] records[i]).entry_id@ == p.0
                    && records[i].start == p.1;
            assert(fewer[i] == records[i]);
        }
        if pairs_of(fewer).contains(p) {
            let i = choose|i: int|
                0 <= i < fewer.len() && (#[trigger] fewer[i]).entry_id@ == p.0 && fewer[i].start
                    == p.1;
            assert(records[i] == fewer[i]);
        }
        assert(records[records.len() - 1] == records.last());
    }
    assert(pairs_of(records) =~= pairs_of(fewer).insert(last));
}

proof fn lemma_record_pushed(rows: Seq<Airing>, channel: String, record: PlayRecord)
    ensures
        pairs_on_record(rows.push(Airing { channel, record }), channel@) == pairs_on_record(
            rows,
            channel@,
        ).insert((record.entry_id@, record.start)),
{
    let more = rows.push(Airing { channel, record });
    let one = (record.entry_id@, record.start);
    assert forall|p: (Seq<char>, i64)|
        pairs_on_record(more, channel@).contains(p) == pairs_on_record(rows, channel@).insert(
            one,
        ).contains(p) by {
        if on_record(more, channel@, p.0, p.1) && p != one {
            let i = choose|i: int|
                0 <= i < more.len() && (#[trigger] more[i]).channel@ == channel@
                    && more[i].record.entry_id@ == p.0 && more[i].record.start == p.1;
            assert(rows[i] == more[i]);
        }
        if on_record(rows, channel@, p.0, p.1) {
            let i = choose|i: int|
                0 <= i < rows.len() && (#[trigger] rows[i]).channel@ == channel@
                    && rows[i].record.entry_id@ == p.0 && rows[i].record.start == p.1;
            assert(more[i] == rows[i]);
        }
        assert(more[rows.len() as int] == (Airing { channel, record }));
    }
    assert(pairs_on_record(more, channel@) =~= pairs_on_record(rows, channel@).insert(one));
}

/// A repair inserts the difference: as many rows as there are airings among those given that
/// the channel does not have on record, told by entry and instant. All of them are the
/// channel's, no two are one airing and none was on record before, so that the channel has on
/// record afterwards what it had and what was given, and other channels what they had.
pub proof fn a_repair_inserts_the_difference(
    rows: Seq<Airing>,
    channel: String,
    records: Seq<PlayRecord>,
)
    ensures
        ({
            let after = with_missing(rows, channel, records);
            let had = pairs_on_record(rows, channel@);
            let missing = pairs_of(records).difference(had);
            &&& missing.finite()
            &&& after.len() == rows.len() + missing.len()
            &&& pairs_on_record(after, channel@) == had.union(pairs_of(records))
            &&& after.take(rows.len() as int) == rows
            &&& forall|i: int|
                rows.len() <= i < after.len() ==> {
                    &&& (#[trigger] after[i]).channel == channel
                    &&& records.contains(after[i].record)
                    &&& !on_record(
                        after.take(i),
                        channel@,
                        after[i].record.entry_id@,
                        after[i].record.start,
                    )
                }
        }),
    decreases records.len(),
{
    let after = with_missing(rows, channel, records);
    let had = pairs_on_record(rows, channel@);
    if records.len() == 0 {
        assert(pairs_of(records) =~= Set::empty());
        assert(pairs_of(records).difference(had) =~= Set::empty());
        assert(had.union(pairs_of(records)) =~= had);
        assert(after.take(rows.len() as int) =~= rows);
    } else {
        let fewer = records.drop_last();
        let last = records.last();
        let pair = (last.entry_id@, last.start);
        let earlier = with_missing(rows, channel, fewer);
        a_repair_inserts_the_difference(rows, channel, fewer);
        lemma_pairs_pushed(records);
        let missing = pairs_of(fewer).difference(had);
        let known = pairs_on_record(earlier, channel@);
        assert(known.contains(pair) == on_record(earlier, channel@, last.entry_id@, last.start));
        if known.contains(pair) {
            assert(pairs_of(records).difference(had) =~= missing);
            assert(had.union(pairs_of(records)) =~= had.union(pairs_of(fewer)));
        } else {
            lemma_record_pushed(earlier, channel, last);
            assert(pairs_of(records).difference(had) =~= missing.insert(pair));
            assert(had.union(pairs_of(records)) =~= known.insert(pair));
            assert(after.take(rows.len() as int) =~= earlier.take(rows.len() as int));
        }
        assert forall|i: int| rows.len() <= i < after.len() implies {
            &&& (#[trigger] after[i]).channel == channel
            &&& records.contains(after[i].record)
            &&& !on_record(
                after.take(i),
                channel@,
                after[i].record.entry_id@,
                after[i].record.start,
            )
        } by {
            if i < earlier.len() {
                assert(after[i] == earlier[i]);
                assert(after.take(i) =~= earlier.take(i));
                let k = choose|k: int| 0 <= k < fewer.len() && fewer[k] == earlier[i].record;
                assert(records[k] == fewer[k]);
            } else {
                assert(after.take(i) =~= earlier);
                assert(records[records.len() - 1] == last);
            }
        }
    }
}

/// Whether a row is one that a viewer of the channel saw.
pub open spec fn was_seen(row: Airing, channel: Seq<char>) -> bool {
    row.channel@ == channel && !row.record.error_card
}

/// Whether no two airings that a viewer of the channel saw start together.
pub open spec fn seen_apart(rows: Seq<Airing>, channel: Seq<char>) -> bool {
    forall|i: int, j: int|
        0 <= i < j < rows.len() && was_seen(#[trigger] rows[i], channel) && was_seen(
            #[trigger] rows[j],
            channel,
        ) ==> rows[i].record.start != rows[j].record.start
}

/// Whether airings stand in the order in which they start, none together.
pub open spec fn one_by_one(aired: Seq<(i64, String)>) -> bool {
    forall|i: int, j: int|
        0 <= i < j < aired.len() ==> (#[trigger] aired[i]).0 < (#[trigger] aired[j]).0
}

/// Whether an airing of a row is told by an instant and an entry.
pub open spec fn tells_of(rows: Seq<Airing>, channel: Seq<char>, one: (i64, String)) -> bool {
    exists|i: int|
        0 <= i < rows.len() && was_seen(#[trigger] rows[i], channel) && (
            rows[i].record.start,
            rows[i].record.entry_id,
        ) == one
}

proof fn lemma_place_parts(aired: Seq<(i64, String)>, start: i64)
    requires
        one_by_one(aired),
    ensures
        0 <= place_for(aired, start) <= aired.len(),
        forall|i: int|
            0 <= i < aired.len() ==> ((#[trigger] aired[i]).0 <= start <==> i < place_for(
                aired,
                start,
            )),
    decreases aired.len(),
{
    if aired.len() > 0 {
        if aired.last().0 <= start {
            assert forall|i: int| 0 <= i < aired.len() implies (#[trigger] aired[i]).0 <= start by {
                if i < aired.len() - 1 {
                    assert(aired[i].0 < aired[aired.len() - 1].0);
                }
            }
        } else {
            lemma_place_parts(aired.drop_last(), start);
            assert forall|i: int| 0 <= i < aired.len() implies ((#[trigger] aired[i]).0 <= start
                <==> i < place_for(aired, start)) by {
                if i < aired.len() - 1 {
                    assert(aired.drop_last()[i] == aired[i]);
                }
            }
        }
    }
}

proof fn lemma_seen(rows: Seq<Airing>, channel: Seq<char>)
    requires
        seen_apart(rows, channel),
    ensures
        one_by_one(seen(rows, channel)),
        forall|one: (i64, String)|
            #[trigger] seen(rows, channel).contains(one) <==> tells_of(rows, channel, one),
    decreases rows.len(),
{
    if rows.len() > 0 {
        let shorter = rows.drop_last();
        let last = rows.last();
        assert(forall|i: int| 0 <= i < shorter.len() ==> shorter[i] == rows[i]);
        assert(seen_apart(shorter, channel));
        lemma_seen(shorter, channel);
        let earlier = seen(shorter, channel);
        let out = seen(rows, channel);
        assert forall|one: (i64, String)| tells_of(shorter, channel, one) implies tells_of(
            rows,
            channel,
            one,
        ) by {
            let i = choose|i: int|
                0 <= i < shorter.len() && was_seen(#[trigger] shorter[i], channel) && (
                    shorter[i].record.start,
                    shorter[i].record.entry_id,
                ) == one;
            assert(was_seen(rows[i], channel));
        }
        if was_seen(last, channel) {
            let pair = (last.record.start, last.record.entry_id);
            let at = place_for(earlier, last.record.start);
            lemma_place_parts(earlier, last.record.start);
            assert forall|i: int| 0 <= i < earlier.len() implies (#[trigger] earlier[i]).0
                != last.record.start by {
                assert(earlier.contains(earlier[i]));
                assert(tells_of(shorter, channel, earlier[i]));
                let k = choose|k: int|
                    0 <= k < shorter.len() && was_seen(#[trigger] shorter[k], channel) && (
                        shorter[k].record.start,
                        shorter[k].record.entry_id,
                    ) == earlier[i];
                assert(was_seen(rows[k], channel) && was_seen(rows[rows.len() - 1], channel));
            }
            assert forall|i: int, j: int| 0 <= i < j < out.len() implies (#[trigger] out[i]).0 < (
            #[trigger] out[j]).0 by {
                let a = if i < at {
                    i
                } else {
                    i - 1
                };
                let b = if j < at {
                    j
                } else {
                    j - 1
                };
                if i != at {
                    assert(out[i] == earlier[a]);
                }
                if j != at {
                    assert(out[j] == earlier[b]);
                }
            }
            assert(tells_of(rows, channel, pair)) by {
                assert(was_seen(rows[rows.len() - 1], channel));
            }
            assert forall|one: (i64, String)| #[trigger] out.contains(one) <==> tells_of(
                rows,
                channel,
                one,
            ) by {
                if out.contains(one) {
                    let i = choose|i: int| 0 <= i < out.len() && out[i] == one;
                    if i < at {
                        assert(earlier[i] == one);
                        assert(earlier.contains(one));
                    } else if i > at {
                        assert(earlier[i - 1] == one);
                        assert(earlier.contains(one));
                    }
                }
                if tells_of(rows, channel, one) {
                    let i = choose|i: int|
                        0 <= i < rows.len() && was_seen(#[trigger] rows[i], channel) && (
                            rows[i].record.start,
                            rows[i].record.entry_id,
                        ) == one;
                    if i < shorter.len() {
                        assert(was_seen(shorter[i], channel));
                        assert(tells_of(shorter, channel, one));
                        assert(earlier.contains(one));
                        let k = choose|k: int| 0 <= k < earlier.len() && earlier[k] == one;
                        if k < at {
                            assert(out[k] == one);
                        } else {
                            assert(out[k + 1] == one);
                        }
                    } else {
                        assert(out[at] == one);
                    }
                }
            }
        } else {
            assert forall|one: (i64, String)| #[trigger] out.contains(one) <==> tells_of(
                rows,
                channel,
                one,
            ) by {
                if tells_of(rows, channel, one) {
                    let i = choose|i: int|
                        0 <= i < rows.len() && was_seen(#[trigger] rows[i], channel) && (
                            rows[i].record.start,
                            rows[i].record.entry_id,
                        ) == one;
                    assert(was_seen(shorter[i], channel));
                    assert(tells_of(shorter, channel, one));
                }
            }
        }
    }
}

proof fn lemma_one_order(a: Seq<(i64, String)>, b: Seq<(i64, String)>, n: int)
    requires
        one_by_one(a),
        one_by_one(b),
        forall|one: (i64, String)| #[trigger] a.contains(one) <==> b.contains(one),
        0 <= n <= a.len(),
        n <= b.len(),
    ensures
        forall|i: int| 0 <= i < n ==> a[i] == b[i],
    decreases n,
{
    if n > 0 {
        lemma_one_order(a, b, n - 1);
        let i = n - 1;
        assert(a.contains(a[i]));
        assert(b.contains(a[i]));
        assert(b.contains(b[i]));
        assert(a.contains(b[i]));
        let p = choose|p: int| 0 <= p < b.len() && b[p] == a[i];
        let q = choose|q: int| 0 <= q < a.len() && a[q] == b[i];
        if p < i {
            assert(a[p].0 < a[i].0);
        }
        if q < i {
            assert(b[q].0 < b[i].0);
        }
        if p > i && q > i {
            assert(b[i].0 < b[p].0);
            assert(a[i].0 < a[q].0);
        }
    }
}

proof fn lemma_no_longer(a: Seq<(i64, String)>, b: Seq<(i64, String)>)
    requires
        one_by_one(a),
        one_by_one(b),
        forall|one: (i64, String)| #[trigger] a.contains(one) <==> b.contains(one),
    ensures
        a.len() <= b.len(),
{
    if a.len() > b.len() {
        let i = b.len() as int;
        lemma_one_order(a, b, i);
        assert(a.contains(a[i]));
        assert(b.contains(a[i]));
        let p = choose|p: int| 0 <= p < b.len() && b[p] == a[i];
        assert(a[p].0 < a[i].0);
    }
}

/// What a channel aired most recently does not depend on the order in which airings were
/// inserted, as long as no two that were seen start together.
pub proof fn the_tail_ignores_insertion_order(
    rows: Seq<Airing>,
    shuffled: Seq<Airing>,
    channel: Seq<char>,
    n: nat,
)
    requires
        rows.to_multiset() == shuffled.to_multiset(),
        seen_apart(rows, channel),
        seen_apart(shuffled, channel),
    ensures
        last_entries(seen(rows, channel), n) == last_entries(seen(shuffled, channel), n),
{
    broadcast use vstd::seq_lib::group_to_multiset_ensures;

    let a = seen(rows, channel);
    let b = seen(shuffled, channel);
    lemma_seen(rows, channel);
    lemma_seen(shuffled, channel);
    assert forall|one: (i64, String)| #[trigger] a.contains(one) <==> b.contains(one) by {
        if tells_of(rows, channel, one) {
            let i = choose|i: int|
                0 <= i < rows.len() && was_seen(#[trigger] rows[i], channel) && (
                    rows[i].record.start,
                    rows[i].record.entry_id,
                ) == one;
            assert(rows.contains(rows[i]));
            assert(rows.to_multiset().count(rows[i]) > 0);
            assert(shuffled.contains(rows[i]));
            let j = choose|j: int| 0 <= j < shuffled.len() && shuffled[j] == rows[i];
            assert(was_seen(shuffled[j], channel));
        }
        if tells_of(shuffled, channel, one) {
            let i = choose|i: int|
                0 <= i < shuffled.len() && was_seen(#[trigger] shuffled[i], channel) && (
                    shuffled[i].record.start,
                    shuffled[i].record.entry_id,
                ) == one;
            assert(shuffled.contains(shuffled[i]));
            assert(shuffled.to_multiset().count(shuffled[i]) > 0);
            assert(rows.contains(shuffled[i]));
            let j = choose|j: int| 0 <= j < rows.len() && rows[j] == shuffled[i];
            assert(was_seen(rows[j], channel));
        }
    }
    lemma_no_longer(a, b);
    lemma_no_longer(b, a);
    lemma_one_order(a, b, a.len() as int);
    assert(a =~= b);
}

} // verus!
