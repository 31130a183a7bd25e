//! What holds of what a station keeps between generations: what aired, where pools resume, which
//! output files lie around, and by which identities files are known.

use vstd::prelude::*;

use crate::catalog::Catalog;
use crate::config::Pool;
use crate::gathered::a_character_is_found_where_it_stands_first;
use crate::generate::{guides_of, with_guide};
use crate::history::{
    filled_lines, last_entries, latest, on_series, on_show, place_for, read_airings,
    seen, series_stands, show_stands, truncated, Airing, PlayRecord,
};
use crate::identity::{canonical, file_identity, hex, hex_char, under};
use crate::item::{playback, GuideConfig};
use crate::names::{entry_of, has_name, putting_changes_one_name};
use crate::playout::{PlayoutModel, PlayoutSourceModel};
use crate::reconcile::{card_title, picture, reconciled, swept, ErrorCard, ItemOutcome};
use crate::resume::{first_unaired, last_started, CheckpointModel, ResumeModel};
use crate::scan::{fate, named_span, spanning, DiscoveredFile, Fate};
use crate::text::{first_at, trimmed};

verus! {

/// Whether an airing is one of a series on a channel: of its show, or, of an item without a show,
/// of the item itself.
pub open spec fn airs_series(row: Airing, channel: Seq<char>, key: Seq<char>) -> bool {
    &&& row.channel@ == channel
    &&& match row.record.show_id {
        Some(show) => show@ == key,
        None => row.record.entry_id@ == key,
    }
}

/// Whether an airing is the last of those that count: none of them starts after it, and of those
/// that start with it none was put down after it.
pub open spec fn is_last(rows: Seq<Airing>, counts: spec_fn(Airing) -> bool, i: int) -> bool {
    &&& 0 <= i < rows.len()
    &&& counts(rows[i])
    &&& forall|j: int|
        0 <= j < rows.len() && counts(#[trigger] rows[j]) ==> rows[j].record.start
            <= rows[i].record.start && (j > i ==> rows[j].record.start < rows[i].record.start)
}

proof fn lemma_last(rows: Seq<Airing>, counts: spec_fn(Airing) -> bool) -> (i: int)
    ensures
        latest(rows, counts) is Some ==> is_last(rows, counts, i) && latest(rows, counts) == Some(
            rows[i],
        ),
        latest(rows, counts) is None ==> forall|j: int|
            0 <= j < rows.len() ==> !counts(#[trigger] rows[j]),
    decreases rows.len(),
{
    if rows.len() == 0 {
        0
    } else {
        let fewer = rows.drop_last();
        let k = lemma_last(fewer, counts);
        let n = rows.len() - 1;
        assert(rows[n] == rows.last());
        assert forall|j: int| 0 <= j < n implies #[trigger] rows[j] == fewer[j] by {}
        if latest(fewer, counts) is None {
            assert forall|j: int| 0 <= j < n implies !counts(#[trigger] rows[j]) by {
                assert(!counts(fewer[j]));
            }
        } else {
            assert forall|j: int| 0 <= j < n && counts(#[trigger] rows[j]) implies rows[j].record.start
                <= rows[k].record.start && (j > k ==> rows[j].record.start
                < rows[k].record.start) by {
                assert(counts(fewer[j]));
            }
        }
        if counts(rows.last()) && (latest(fewer, counts) is None || rows[k].record.start
            <= rows.last().record.start) {
            n
        } else {
            k
        }
    }
}

/// A series stands at the item that it aired on its channel last, by when the airings started and
/// then by when they were put down, and nowhere where it never aired there.
pub proof fn a_series_stands_at_its_last_airing(
    rows: Seq<Airing>,
    channel: Seq<char>,
    key: Seq<char>,
)
    ensures
        series_stands(rows, channel, key) is None <==> forall|i: int|
            0 <= i < rows.len() ==> !airs_series(#[trigger] rows[i], channel, key),
        series_stands(rows, channel, key) matches Some(id) ==> exists|i: int|
            #![trigger rows[i]]
            is_last(rows, |row: Airing| airs_series(row, channel, key), i)
                && rows[i].record.entry_id == id,
{
    let counts = on_series(channel, key);
    let airs = |row: Airing| airs_series(row, channel, key);
    assert(counts =~= airs);
    let i = lemma_last(rows, counts);
    if latest(rows, counts) is Some {
        assert(is_last(rows, airs, i));
        assert(airs(rows[i]));
    } else {
        assert forall|j: int| 0 <= j < rows.len() implies !airs_series(
            #[trigger] rows[j],
            channel,
            key,
        ) by {
            assert(!counts(rows[j]));
        }
    }
}

/// Whether an airing is one of a show.
pub open spec fn airs_show(row: Airing, show: Seq<char>) -> bool {
    match row.record.show_id {
        Some(id) => id@ == show,
        None => false,
    }
}

/// A show stands, over all channels, at the item of it that aired last.
pub proof fn a_show_stands_at_its_last_airing(rows: Seq<Airing>, show: Seq<char>)
    ensures
        show_stands(rows, show) is None <==> forall|i: int|
            0 <= i < rows.len() ==> !airs_show(#[trigger] rows[i], show),
        show_stands(rows, show) matches Some(id) ==> exists|i: int|
            #![trigger rows[i]]
            is_last(rows, |row: Airing| airs_show(row, show), i) && rows[i].record.entry_id == id,
{
    let counts = on_show(show);
    let airs = |row: Airing| airs_show(row, show);
    assert(counts =~= airs);
    let i = lemma_last(rows, counts);
    if latest(rows, counts) is Some {
        assert(is_last(rows, airs, i));
        assert(airs(rows[i]));
    } else {
        assert forall|j: int| 0 <= j < rows.len() implies !airs_show(#[trigger] rows[j], show) by {
            assert(!counts(rows[j]));
        }
    }
}

/// How many airings of a channel were no error cards.
pub open spec fn count_seen(rows: Seq<Airing>, channel: Seq<char>) -> int
    decreases rows.len(),
{
    if rows.len() == 0 {
        0
    } else {
        count_seen(rows.drop_last(), channel) + if rows.last().channel@ == channel
            && !rows.last().record.error_card {
            1int
        } else {
            0
        }
    }
}

proof fn lemma_place_for(aired: Seq<(i64, String)>, start: i64)
    requires
        forall|i: int, j: int|
            0 <= i < j < aired.len() ==> (#[trigger] aired[i]).0 <= (#[trigger] aired[j]).0,
    ensures
        0 <= place_for(aired, start) <= aired.len(),
        forall|i: int| 0 <= i < place_for(aired, start) ==> (#[trigger] aired[i]).0 <= start,
        forall|i: int|
            place_for(aired, start) <= i < aired.len() ==> start < (#[trigger] aired[i]).0,
    decreases aired.len(),
{
    if aired.len() > 0 {
        let fewer = aired.drop_last();
        assert(aired[aired.len() - 1] == aired.last());
        if aired.last().0 > start {
            assert forall|i: int, j: int| 0 <= i < j < fewer.len() implies (
            #[trigger] fewer[i]).0 <= (#[trigger] fewer[j]).0 by {
                assert(fewer[i] == aired[i] && fewer[j] == aired[j]);
            }
            lemma_place_for(fewer, start);
            let p = place_for(aired, start);
            assert forall|i: int| 0 <= i < p implies (#[trigger] aired[i]).0 <= start by {
                assert(fewer[i] == aired[i]);
            }
            assert forall|i: int| p <= i < aired.len() implies start < (#[trigger] aired[i]).0 by {
                if i < fewer.len() {
                    assert(fewer[i] == aired[i]);
                }
            }
        } else {
            assert forall|i: int| 0 <= i < aired.len() implies (#[trigger] aired[i]).0 <= start by {
                if i < aired.len() - 1 {
                    assert(aired[i].0 <= aired[aired.len() - 1].0);
                }
            }
        }
    }
}

/// What a channel showed stands in the order in which it started, and nothing that was shown is
/// missing; error cards do not count.
pub proof fn what_was_seen_stands_in_order(rows: Seq<Airing>, channel: Seq<char>)
    ensures
        seen(rows, channel).len() == count_seen(rows, channel),
        forall|i: int, j: int|
            0 <= i < j < seen(rows, channel).len() ==> (#[trigger] seen(rows, channel)[i]).0 <= (
            #[trigger] seen(rows, channel)[j]).0,
        forall|i: int|
            0 <= i < rows.len() && (#[trigger] rows[i]).channel@ == channel
                && !rows[i].record.error_card ==> seen(rows, channel).contains(
                (rows[i].record.start, rows[i].record.entry_id),
            ),
    decreases rows.len(),
{
    if rows.len() > 0 {
        let fewer = rows.drop_last();
        let earlier = seen(fewer, channel);
        let last = rows.last();
        what_was_seen_stands_in_order(fewer, channel);
        let all = seen(rows, channel);
        if last.channel@ == channel && !last.record.error_card {
            let p = place_for(earlier, last.record.start);
            lemma_place_for(earlier, last.record.start);
            let one = (last.record.start, last.record.entry_id);
            assert(all == earlier.insert(p, one));
            assert(all[p] == one);
            assert forall|i: int, j: int| 0 <= i < j < all.len() implies (#[trigger] all[i]).0 <= (
            #[trigger] all[j]).0 by {
                let a = if i < p {
                    i
                } else {
                    i - 1
                };
                let b = if j < p {
                    j
                } else {
                    j - 1
                };
                if i != p {
                    assert(all[i] == earlier[a]);
                }
                if j != p {
                    assert(all[j] == earlier[b]);
                }
                if i != p && j != p {
                    assert(earlier[a].0 <= earlier[b].0);
                }
            }
            assert forall|i: int|
                0 <= i < rows.len() && (#[trigger] rows[i]).channel@ == channel
                    && !rows[i].record.error_card implies all.contains(
                (rows[i].record.start, rows[i].record.entry_id),
            ) by {
                if i < fewer.len() {
                    assert(fewer[i] == rows[i]);
                    let x = (rows[i].record.start, rows[i].record.entry_id);
                    assert(earlier.contains(x));
                    let k = choose|k: int| 0 <= k < earlier.len() && earlier[k] == x;
                    if k < p {
                        assert(all[k] == x);
                    } else {
                        assert(all[k + 1] == x);
                    }
                }
            }
        } else {
            assert forall|i: int|
                0 <= i < rows.len() && (#[trigger] rows[i]).channel@ == channel
                    && !rows[i].record.error_card implies all.contains(
                (rows[i].record.start, rows[i].record.entry_id),
            ) by {
                assert(fewer[i] == rows[i]);
            }
        }
    }
}

/// What is shown next comes after all that started no later than it, and before the rest; an error
/// card, and what another channel shows, comes nowhere.
pub proof fn what_is_seen_takes_its_place(rows: Seq<Airing>, channel: Seq<char>, more: Airing) -> (p:
    int)
    ensures
        more.channel@ != channel || more.record.error_card ==> seen(rows.push(more), channel)
            == seen(rows, channel),
        more.channel@ == channel && !more.record.error_card ==> {
            &&& 0 <= p <= seen(rows, channel).len()
            &&& seen(rows.push(more), channel) == seen(rows, channel).insert(
                p,
                (more.record.start, more.record.entry_id),
            )
            &&& forall|i: int|
                0 <= i < p ==> (#[trigger] seen(rows, channel)[i]).0 <= more.record.start
            &&& forall|i: int|
                p <= i < seen(rows, channel).len() ==> more.record.start < (
                #[trigger] seen(rows, channel)[i]).0
        },
{
    assert(rows.push(more).drop_last() =~= rows);
    what_was_seen_stands_in_order(rows, channel);
    lemma_place_for(seen(rows, channel), more.record.start);
    place_for(seen(rows, channel), more.record.start)
}

/// What aired lately are the last so many of what was shown, in their order.
pub proof fn what_aired_lately_came_last(aired: Seq<(i64, String)>, n: nat, k: int)
    ensures
        last_entries(aired, n).len() == if n < aired.len() {
            n as int
        } else {
            aired.len() as int
        },
        0 <= k < last_entries(aired, n).len() ==> last_entries(aired, n)[k]
            == aired[aired.len() - last_entries(aired, n).len() + k].1,
{
}

/// Cutting a channel's history keeps what started on it before the cut, and everything of other
/// channels, and nothing else.
pub proof fn a_cut_keeps_what_started_before(rows: Seq<Airing>, channel: Seq<char>, from: i64)
    ensures
        forall|i: int|
            0 <= i < rows.len() && ((#[trigger] rows[i]).channel@ != channel
                || rows[i].record.start < from) ==> truncated(rows, channel, from).contains(
                rows[i],
            ),
        forall|i: int|
            0 <= i < truncated(rows, channel, from).len() ==> rows.contains(
                #[trigger] truncated(rows, channel, from)[i],
            ) && (truncated(rows, channel, from)[i].channel@ != channel || truncated(
                rows,
                channel,
                from,
            )[i].record.start < from),
{
    let keeps = crate::history::outlives(channel, from);
    assert forall|i: int|
        0 <= i < rows.len() && ((#[trigger] rows[i]).channel@ != channel || rows[i].record.start
            < from) implies truncated(rows, channel, from).contains(rows[i]) by {
        assert(keeps(rows[i]));
        rows.lemma_filter_contains(keeps, i);
    }
    assert forall|i: int| 0 <= i < truncated(rows, channel, from).len() implies rows.contains(
        #[trigger] truncated(rows, channel, from)[i],
    ) && (truncated(rows, channel, from)[i].channel@ != channel || truncated(
        rows,
        channel,
        from,
    )[i].record.start < from) by {
        rows.lemma_filter_contains_rev(keeps, truncated(rows, channel, from)[i]);
        rows.lemma_filter_pred(keeps, i);
    }
}

/// The lines of a history that can be read are read in their order, and the others are skipped.
pub proof fn readable_lines_are_read_in_order(
    lines: Seq<Option<PlayRecord>>,
    more: Option<PlayRecord>,
)
    ensures
        read_airings(Seq::<Option<PlayRecord>>::empty()).len() == 0,
        more matches Some(record) ==> read_airings(lines.push(more)) == read_airings(lines).push(
            record,
        ),
        more is None ==> read_airings(lines.push(more)) == read_airings(lines),
{
    assert(lines.push(more).drop_last() =~= lines);
}

/// A text is split where its lines end, and lines that hold nothing but space are left out.
pub proof fn a_text_is_split_into_its_lines(line: Seq<char>, rest: Seq<char>)
    requires
        !line.contains('\n'),
    ensures
        trimmed(line).len() > 0 ==> filled_lines(line) == seq![line],
        trimmed(line).len() == 0 ==> filled_lines(line).len() == 0,
        trimmed(line).len() > 0 ==> filled_lines(line + seq!['\n'] + rest) == seq![line]
            + filled_lines(rest),
        trimmed(line).len() == 0 ==> filled_lines(line + seq!['\n'] + rest) == filled_lines(rest),
{
    a_character_is_found_where_it_stands_first(line, '\n');
    assert(first_at(line, '\n') == line.len()) by {
        if first_at(line, '\n') < line.len() {
            assert(line.contains(line[first_at(line, '\n')]));
        }
    }
    assert(filled_lines(line) =~= if trimmed(line).len() > 0 {
        seq![line]
    } else {
        Seq::empty()
    });
    let all = line + seq!['\n'] + rest;
    let n = line.len() as int;
    a_character_is_found_where_it_stands_first(all, '\n');
    assert(all[n] == '\n');
    assert(first_at(all, '\n') == n) by {
        let at = first_at(all, '\n');
        if at < n {
            assert(all[at] == line[at]);
            assert(line.contains(line[at]));
        } else if at > n {
            assert(all[n] != '\n');
        }
    }
    assert(all.take(n) =~= line);
    assert(all.skip(n + 1) =~= rest);
}

proof fn lemma_first_unaired(checkpoints: Seq<CheckpointModel>, now: int, i: int)
    requires
        0 <= i < checkpoints.len(),
        checkpoints[i].start > now,
        forall|j: int| 0 <= j < i ==> (#[trigger] checkpoints[j]).start <= now,
    ensures
        first_unaired(checkpoints, now) == Some(checkpoints[i]),
    decreases i,
{
    if i > 0 {
        assert(checkpoints[0].start <= now);
        let rest = checkpoints.drop_first();
        assert forall|j: int| 0 <= j < i - 1 implies (#[trigger] rest[j]).start <= now by {
            assert(rest[j] == checkpoints[j + 1]);
        }
        lemma_first_unaired(rest, now, i - 1);
    }
}

/// Rewinding goes back to the first place that was noted for what has not begun to air: its pools
/// and its position come back, and no note is kept.
pub proof fn a_rewind_goes_back_to_what_has_not_aired(map: ResumeModel, now: int, i: int)
    requires
        0 <= i < map.checkpoints.len(),
        map.checkpoints[i].start > now,
        forall|j: int| 0 <= j < i ==> (#[trigger] map.checkpoints[j]).start <= now,
    ensures
        map.rewound(now).pools == map.checkpoints[i].pools,
        map.rewound(now).position == map.checkpoints[i].position,
        map.rewound(now).checkpoints.len() == 0,
        map.rewound(now).fingerprint == map.fingerprint,
        map.rewound(now).version == map.version,
{
    lemma_first_unaired(map.checkpoints, now, i);
}

/// Where all that was noted has begun to air, rewinding changes nothing.
pub proof fn nothing_unaired_rewinds_nothing(map: ResumeModel, now: int)
    requires
        forall|i: int| 0 <= i < map.checkpoints.len() ==> (#[trigger] map.checkpoints[i]).start
            <= now,
    ensures
        map.rewound(now) == map,
{
    lemma_none_unaired(map.checkpoints, now);
}

proof fn lemma_none_unaired(checkpoints: Seq<CheckpointModel>, now: int)
    requires
        forall|i: int| 0 <= i < checkpoints.len() ==> (#[trigger] checkpoints[i]).start <= now,
    ensures
        first_unaired(checkpoints, now) is None,
    decreases checkpoints.len(),
{
    if checkpoints.len() > 0 {
        assert(checkpoints[0].start <= now);
        let rest = checkpoints.drop_first();
        assert forall|i: int| 0 <= i < rest.len() implies (#[trigger] rest[i]).start <= now by {
            assert(rest[i] == checkpoints[i + 1]);
        }
        lemma_none_unaired(rest, now);
    }
}

/// Rewinding to an instant goes back to the last place that was noted at or before it, and keeps
/// the notes before that one.
pub proof fn a_rewind_to_an_instant_goes_back_before_it(map: ResumeModel, instant: int, i: int)
    requires
        0 <= i < map.checkpoints.len(),
        map.checkpoints[i].start <= instant,
        forall|j: int|
            i < j < map.checkpoints.len() ==> (#[trigger] map.checkpoints[j]).start > instant,
    ensures
        map.rewound_to(instant).pools == map.checkpoints[i].pools,
        map.rewound_to(instant).position == map.checkpoints[i].position,
        map.rewound_to(instant).checkpoints == map.checkpoints.take(i),
        map.rewound_to(instant).fingerprint == map.fingerprint,
{
    lemma_last_started(map.checkpoints, instant, i);
}

proof fn lemma_last_started(checkpoints: Seq<CheckpointModel>, instant: int, i: int)
    requires
        0 <= i < checkpoints.len(),
        checkpoints[i].start <= instant,
        forall|j: int| i < j < checkpoints.len() ==> (#[trigger] checkpoints[j]).start > instant,
    ensures
        last_started(checkpoints, instant) == Some(i),
    decreases checkpoints.len(),
{
    assert(checkpoints[checkpoints.len() - 1] == checkpoints.last());
    if i < checkpoints.len() - 1 {
        let fewer = checkpoints.drop_last();
        assert forall|j: int| i < j < fewer.len() implies (#[trigger] fewer[j]).start > instant by {
            assert(fewer[j] == checkpoints[j]);
        }
        lemma_last_started(fewer, instant, i);
    }
}

/// Noting a place keeps where the pools stand and the position, under when it starts, after the
/// notes before it; and pruning drops the notes of what has begun to air.
pub proof fn a_note_holds_where_things_stand(map: ResumeModel, start: int, now: int)
    ensures
        map.checkpointed(start).checkpoints.len() == map.checkpoints.len() + 1,
        map.checkpointed(start).checkpoints.drop_last() == map.checkpoints,
        map.checkpointed(start).checkpoints.last().start == start,
        map.checkpointed(start).checkpoints.last().pools == map.pools,
        map.checkpointed(start).checkpoints.last().position == map.position,
        map.checkpointed(start).pools == map.pools,
        map.checkpointed(start).position == map.position,
        forall|i: int|
            0 <= i < map.pruned(now).checkpoints.len() ==> (
            #[trigger] map.pruned(now).checkpoints[i]).start > now,
        forall|i: int|
            0 <= i < map.checkpoints.len() && (#[trigger] map.checkpoints[i]).start > now
                ==> map.pruned(now).checkpoints.contains(map.checkpoints[i]),
        map.pruned(now).pools == map.pools,
        map.pruned(now).position == map.position,
{
    assert(map.checkpointed(start).checkpoints.drop_last() =~= map.checkpoints);
    let later = |c: CheckpointModel| c.start > now;
    assert forall|i: int| 0 <= i < map.pruned(now).checkpoints.len() implies (
    #[trigger] map.pruned(now).checkpoints[i]).start > now by {
        map.checkpoints.lemma_filter_pred(later, i);
    }
    assert forall|i: int|
        0 <= i < map.checkpoints.len() && (
        #[trigger] map.checkpoints[i]).start > now implies map.pruned(now).checkpoints.contains(
        map.checkpoints[i],
    ) by {
        assert(later(map.checkpoints[i]));
        map.checkpoints.lemma_filter_contains(later, i);
    }
}

/// An output file is named by when it starts and when it finishes.
pub proof fn a_file_is_named_by_its_span(start: Seq<char>, finish: Seq<char>)
    requires
        !start.contains('_'),
    ensures
        named_span(start + seq!['_'] + finish + seq!['.', 'j', 's', 'o', 'n']) == Some(
            (start, finish),
        ),
{
    let stem = start + seq!['_'] + finish;
    let name = stem + seq!['.', 'j', 's', 'o', 'n'];
    let n = start.len() as int;
    assert(name.skip(name.len() - 5) =~= seq!['.', 'j', 's', 'o', 'n']);
    assert(name.take(name.len() - 5) =~= stem);
    a_character_is_found_where_it_stands_first(stem, '_');
    assert(stem[n] == '_');
    assert(first_at(stem, '_') == n) by {
        let at = first_at(stem, '_');
        if at < n {
            assert(stem[at] == start[at]);
            assert(start.contains(start[at]));
        } else if at > n {
            assert(stem[n] != '_');
        }
    }
    assert(stem.take(n) =~= start);
    assert(stem.skip(n + 1) =~= finish);
}

/// What is no such name names no span.
pub proof fn other_files_name_no_span(name: Seq<char>)
    ensures
        name.len() < 5 ==> named_span(name) is None,
        name.len() >= 5 && name.skip(name.len() - 5) != seq!['.', 'j', 's', 'o', 'n']
            ==> named_span(name) is None,
        name.len() >= 5 && !name.take(name.len() - 5).contains('_') ==> named_span(name) is None,
{
    if name.len() >= 5 && !name.take(name.len() - 5).contains('_') {
        let stem = name.take(name.len() - 5);
        a_character_is_found_where_it_stands_first(stem, '_');
        if first_at(stem, '_') < stem.len() {
            assert(stem.contains(stem[first_at(stem, '_')]));
        }
    }
}

/// A file is found where both its ends are instants, and lies between them.
pub proof fn a_file_lies_between_its_ends(path: String, start: Option<i128>, finish: Option<i128>)
    ensures
        spanning(path, start, finish) is Some <==> start is Some && finish is Some,
        spanning(path, start, finish) matches Some(file) ==> file.path == path && Some(file.start)
            == start && Some(file.finish) == finish,
{
}

/// A file elapses when it has been over for more than the days that files are kept, and is
/// unreachable when it does not elapse and begins no earlier than what can be reached; else it
/// stays.
pub proof fn what_becomes_of_a_file(
    file: DiscoveredFile,
    days: u32,
    unreachable: i128,
    now: i128,
)
    ensures
        fate(file, days, unreachable, now) == Fate::Elapsed <==> now - file.finish > days * (24 * 60
            * 60 * 1_000_000_000),
        fate(file, days, unreachable, now) == Fate::Unreachable <==> now - file.finish <= days * (24
            * 60 * 60 * 1_000_000_000) && file.start >= unreachable,
        fate(file, days, unreachable, now) == Fate::Keep <==> now - file.finish <= days * (24 * 60
            * 60 * 1_000_000_000) && file.start < unreachable,
{
}

/// The number that a text of hexadecimal digits says.
pub open spec fn says_hex(s: Seq<char>) -> int
    decreases s.len(),
{
    if s.len() == 0 {
        0
    } else {
        says_hex(s.drop_last()) * 16 + if '0' <= s.last() <= '9' {
            s.last() as int - 48
        } else {
            s.last() as int - 87
        }
    }
}

/// What sixteen can be raised to.
pub open spec fn sixteens(width: nat) -> int
    decreases width,
{
    if width == 0 {
        1
    } else {
        16 * sixteens((width - 1) as nat)
    }
}

/// A number is written in as many hexadecimal digits as are asked for, and they say it where it
/// fits.
pub proof fn a_number_is_written_in_hexadecimal(n: nat, width: nat)
    ensures
        hex(n, width).len() == width,
        n < sixteens(width) ==> says_hex(hex(n, width)) == n,
    decreases width,
{
    if width > 0 {
        let less = (width - 1) as nat;
        a_number_is_written_in_hexadecimal(n / 16, less);
        assert(hex(n, width).drop_last() =~= hex(n / 16, less));
        assert(hex(n, width).last() == hex_char(n % 16));
        if n < sixteens(width) {
            assert(n / 16 < sixteens(less));
        }
    }
}

/// A file is known by a name of its kind and sixteen digits.
pub proof fn a_file_is_known_by_sixteen_digits(path: Seq<char>)
    ensures
        file_identity(path).len() == 19,
        file_identity(path).take(3) == "fs:"@,
{
    reveal_strlit("fs:");
    a_number_is_written_in_hexadecimal(
        crate::identity::fnv1a(vstd::utf8::encode_utf8(path)) as nat,
        16,
    );
    assert(file_identity(path).take(3) =~= "fs:"@);
}

/// A path is known by what follows the first root that it lies under.
pub proof fn a_path_is_known_from_its_root(path: Seq<char>, roots: Seq<String>, i: int)
    requires
        0 <= i < roots.len(),
        under(path, roots[i]@),
        forall|j: int| 0 <= j < i ==> !under(path, (#[trigger] roots[j])@),
    ensures
        path == roots[i]@ + canonical(path, roots),
    decreases i,
{
    if i == 0 {
        let n = roots[0]@.len() as int;
        assert(path =~= path.take(n) + path.skip(n));
    } else {
        assert(!under(path, roots[0]@));
        let rest = roots.drop_first();
        assert(rest[i - 1] == roots[i]);
        assert forall|j: int| 0 <= j < i - 1 implies !under(path, (#[trigger] rest[j])@) by {
            assert(rest[j] == roots[j + 1]);
        }
        a_path_is_known_from_its_root(path, rest, i - 1);
    }
}

/// A path that lies under no root is known by itself.
pub proof fn a_path_under_no_root_is_known_by_itself(path: Seq<char>, roots: Seq<String>)
    requires
        forall|i: int| 0 <= i < roots.len() ==> !under(path, (#[trigger] roots[i])@),
    ensures
        canonical(path, roots) == path,
    decreases roots.len(),
{
    if roots.len() > 0 {
        assert(!under(path, roots[0]@));
        let rest = roots.drop_first();
        assert forall|i: int| 0 <= i < rest.len() implies !under(path, (#[trigger] rest[i])@) by {
            assert(rest[i] == roots[i + 1]);
        }
        a_path_under_no_root_is_known_by_itself(path, rest);
    }
}

/// A path lies under a root that it begins with, up to where one of its parts ends.
pub proof fn what_lies_under_a_root(root: Seq<char>, rest: Seq<char>)
    requires
        root.len() > 0,
    ensures
        root.last() == '/' ==> under(root + rest, root),
        rest.len() > 0 && rest[0] == '/' ==> under(root + rest, root),
        under(root, root),
        root.last() != '/' && rest.len() > 0 && rest[0] != '/' ==> !under(root + rest, root),
{
    assert((root + rest).take(root.len() as int) =~= root);
    assert(root.take(root.len() as int) =~= root);
}

/// A local item whose row has another file to play from now plays that file, between the same
/// points; one whose file is the same is left alone, and so is one without a row.
pub proof fn a_moved_file_is_played_where_it_lies(
    catalog: Catalog,
    cards: Seq<ErrorCard>,
    item: PlayoutModel,
)
    requires
        item.source matches Some(PlayoutSourceModel::Local { .. }),
    ensures
        catalog.row(item.id) is None ==> reconciled(catalog, cards, item) == (
            item,
            ItemOutcome::Unchanged,
        ),
        catalog.row(item.id) matches Some(e) ==> (!e.missing ==> (playback(
            e.sources@,
        ) matches Some(best) ==> match item.source {
            Some(PlayoutSourceModel::Local { path, in_point_ms, out_point_ms }) => {
                &&& reconciled(catalog, cards, item).0.source == Some(
                    PlayoutSourceModel::Local {
                        path: best.playback_path@,
                        in_point_ms,
                        out_point_ms,
                    },
                )
                &&& reconciled(catalog, cards, item).1 == ItemOutcome::PathPatched <==> path
                    != best.playback_path@
                &&& reconciled(catalog, cards, item).1 == ItemOutcome::Unchanged <==> path
                    == best.playback_path@
            },
            _ => false,
        })),
{
}

/// A local item whose row is missing plays a card in its place: the picture that was drawn for
/// its title. Where none was drawn the item stays, and that is told.
pub proof fn a_gone_file_is_carded(
    catalog: Catalog,
    cards: Seq<ErrorCard>,
    item: PlayoutModel,
)
    requires
        item.source matches Some(PlayoutSourceModel::Local { .. }),
        catalog.row(item.id) is Some,
        catalog.row(item.id)->0.missing,
    ensures
        match picture(cards, card_title(item), crate::reconcile::GONE@) {
            Some(params) => reconciled(catalog, cards, item).1 == ItemOutcome::Carded && reconciled(
                catalog,
                cards,
                item,
            ).0.source == Some(PlayoutSourceModel::Lavfi { params }),
            None => reconciled(catalog, cards, item) == (item, ItemOutcome::Undrawn),
        },
{
}

/// A card is titled as the guide titles the item, or by the item's identity where the guide has no
/// title; and its picture is the first that was drawn for that title and that reason.
pub proof fn a_card_has_the_title_of_the_guide(
    cards: Seq<ErrorCard>,
    item: PlayoutModel,
    title: Seq<char>,
    reason: Seq<char>,
)
    ensures
        item.program matches Some(p) ==> (p.title matches Some(t) ==> card_title(item) == t),
        item.program is None ==> card_title(item) == item.id,
        item.program matches Some(p) ==> (p.title is None ==> card_title(item) == item.id),
        picture(cards, title, reason) is None ==> forall|i: int|
            0 <= i < cards.len() ==> !((#[trigger] cards[i]).title@ == title && cards[i].reason@
                == reason),
        picture(cards, title, reason) matches Some(params) ==> exists|i: int|
            0 <= i < cards.len() && (#[trigger] cards[i]).title@ == title && cards[i].reason@
                == reason && cards[i].params@ == params,
    decreases cards.len(),
{
    if cards.len() > 0 && !(cards[0].title@ == title && cards[0].reason@ == reason) {
        let rest = cards.skip(1);
        a_card_has_the_title_of_the_guide(rest, item, title, reason);
        if let Some(params) = picture(rest, title, reason) {
            let i = choose|i: int|
                0 <= i < rest.len() && (#[trigger] rest[i]).title@ == title && rest[i].reason@
                    == reason && rest[i].params@ == params;
            assert(cards[i + 1] == rest[i]);
        } else {
            assert forall|i: int| 0 <= i < cards.len() implies !((
            #[trigger] cards[i]).title@ == title && cards[i].reason@ == reason) by {
                if i > 0 {
                    assert(rest[i - 1] == cards[i]);
                }
            }
        }
    }
}

/// What is over is not touched, and what is not over is reconciled.
pub proof fn what_is_over_is_not_touched(
    catalog: Catalog,
    cards: Seq<ErrorCard>,
    item: PlayoutModel,
    now: int,
)
    ensures
        item.finish <= now ==> swept(catalog, cards, item, now) == (item, ItemOutcome::Unchanged),
        item.finish > now ==> swept(catalog, cards, item, now) == reconciled(catalog, cards, item),
{
}

/// Giving a guide to some items gives it to those and changes no other.
pub proof fn a_guide_is_given_to_its_items(
    table: Seq<(String, GuideConfig)>,
    ids: Seq<String>,
    guide: GuideConfig,
    id: Seq<char>,
)
    ensures
        has_name(ids, id) ==> entry_of(with_guide(table, ids, guide), id) == Some(guide),
        !has_name(ids, id) ==> entry_of(with_guide(table, ids, guide), id) == entry_of(table, id),
    decreases ids.len(),
{
    if ids.len() > 0 {
        let fewer = ids.drop_last();
        a_guide_is_given_to_its_items(table, fewer, guide, id);
        putting_changes_one_name(with_guide(table, fewer, guide), ids.last(), guide);
        assert(ids[ids.len() - 1] == ids.last());
        if has_name(fewer, id) {
            let i = choose|i: int| 0 <= i < fewer.len() && #[trigger] fewer[i]@ == id;
            assert(ids[i]@ == id);
        } else if has_name(ids, id) {
            let i = choose|i: int| 0 <= i < ids.len() && #[trigger] ids[i]@ == id;
            if i < fewer.len() {
                assert(fewer[i]@ == id);
            }
        } else {
            assert(ids[ids.len() - 1]@ != id);
        }
    }
}

/// An item that was drawn stands under the guide of the last pool that holds it and has one.
pub proof fn an_item_stands_under_its_pools_guide(
    pools: Seq<Pool>,
    lists: Seq<Seq<String>>,
    id: Seq<char>,
    i: int,
)
    requires
        pools.len() == lists.len(),
        0 <= i < pools.len(),
        pools[i].guide is Some,
        has_name(lists[i], id),
        forall|j: int|
            i < j < pools.len() ==> (#[trigger] pools[j]).guide is None || !has_name(lists[j], id),
    ensures
        entry_of(guides_of(pools, lists), id) == Some(pools[i].guide->0),
    decreases pools.len(),
{
    let fewer = pools.drop_last();
    let less = lists.drop_last();
    assert(pools[pools.len() - 1] == pools.last());
    assert(lists[lists.len() - 1] == lists.last());
    if let Some(guide) = pools.last().guide {
        a_guide_is_given_to_its_items(guides_of(fewer, less), lists.last(), guide, id);
    }
    if i < fewer.len() {
        assert forall|j: int| i < j < fewer.len() implies (#[trigger] fewer[j]).guide is None
            || !has_name(less[j], id) by {
            assert(fewer[j] == pools[j] && less[j] == lists[j]);
        }
        an_item_stands_under_its_pools_guide(fewer, less, id, i);
    }
}

} // verus!
