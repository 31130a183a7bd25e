//! What holds of what was watched and of what is put on air: whose views count, what a view is
//! credited to, where an item is put, and what is drawn over it.

use vstd::prelude::*;

use crate::catalog::{comes_from, sourced_id, Catalog, Entry, Source};
use crate::gathered::says_number;
use crate::item::{ItemModel, SourceModel};
use crate::overlay_supervisor::{config_in, reaped, wanted, Action, Event, Reap, Supervisor};
use crate::overlay_timeline::{
    keeps, restated, span_at, stated, varies, BlockSpan, ChannelOverlays, OverlaySpan,
};
use crate::paths::{file_name_of, file_stem_of, joined, parent_of};
use crate::playout::{millis, scheduled, PlayoutSourceModel};
use crate::report::{channel_at, channel_name, known_names, listing, name_slot, one_sided_lines};
use crate::rule::{lemma_total_first, phase, phase_since};
use crate::scan::DiscoveredFile;
use crate::sources::{lemma_before_carries, lemma_one_stands_before, stands_before};
use crate::tautulli::{
    account_of, begins, credited, distinct, filter_of, first_account, lookup_key, lookup_keys,
    masked, matched_keys, number, numeric, occurs, watched, watched_all, without_slashes,
    HistoryRow, HistoryScope, RatingKey,
};
use crate::text::{signed_decimal, trimmed};
use crate::timed::{in_start_order, ordered, ordering_keeps_everything, slot, Timed};
use crate::window::total;

verus! {

/// Everybody's views are asked for without a filter, and one viewer's by the number of the
/// account where the viewer is given by a number, and else by name.
pub proof fn views_are_asked_for_by_their_scope(scope: HistoryScope)
    ensures
        scope is AllUsers ==> filter_of(scope) is None,
        scope matches HistoryScope::User(user) ==> (filter_of(scope) matches Some((key, value))
            && value == user@ && (key == "user_id"@ <==> numeric(user@)) && (key == "user"@
            <==> !numeric(user@))),
{
    reveal_strlit("user_id");
    reveal_strlit("user");
    assert("user_id"@.len() == 7);
    assert("user"@.len() == 4);
}

/// The account of a viewer who is given by a number is that number, where it fits; that of one who
/// is given by name is the first that a row of theirs carries; and everybody has none.
pub proof fn a_viewer_has_one_account(scope: HistoryScope, rows: Seq<HistoryRow>)
    ensures
        scope is AllUsers ==> account_of(scope, rows) == Ok::<Option<i64>, Seq<char>>(None),
        scope matches HistoryScope::User(user) ==> (numeric(user@) ==> {
            &&& account_of(scope, rows) is Ok <==> says_number(user@) <= i64::MAX
            &&& account_of(scope, rows) matches Ok(account) ==> account is Some && account->0
                == says_number(user@)
        }),
        scope matches HistoryScope::User(user) ==> (!numeric(user@) ==> {
            &&& account_of(scope, rows) is Err <==> forall|i: int|
                0 <= i < rows.len() ==> (#[trigger] rows[i]).user_id is None
            &&& account_of(scope, rows) matches Ok(account) ==> exists|i: int|
                0 <= i < rows.len() && (#[trigger] rows[i]).user_id is Some && rows[i].user_id
                    == account && forall|j: int|
                    0 <= j < i ==> (#[trigger] rows[j]).user_id is None
        }),
{
    if let HistoryScope::User(user) = scope {
        lemma_number(user@);
        lemma_first_account(rows);
    }
}

proof fn lemma_number(s: Seq<char>)
    ensures
        number(s) == says_number(s),
        numeric(s) ==> number(s) >= 0,
    decreases s.len(),
{
    if s.len() > 0 {
        let fewer = s.drop_last();
        lemma_number(fewer);
        if numeric(s) {
            assert('0' <= s[s.len() - 1] <= '9');
            if fewer.len() > 0 {
                assert forall|i: int| 0 <= i < fewer.len() implies '0' <= #[trigger] fewer[i]
                    <= '9' by {
                    assert(fewer[i] == s[i]);
                }
            } else {
                assert(number(fewer) == 0);
            }
        }
    }
}

proof fn lemma_first_account(rows: Seq<HistoryRow>)
    ensures
        first_account(rows) is None <==> forall|i: int|
            0 <= i < rows.len() ==> (#[trigger] rows[i]).user_id is None,
        first_account(rows) is Some ==> exists|i: int|
            0 <= i < rows.len() && (#[trigger] rows[i]).user_id is Some && rows[i].user_id
                == first_account(rows) && forall|j: int|
                0 <= j < i ==> (#[trigger] rows[j]).user_id is None,
    decreases rows.len(),
{
    if rows.len() > 0 {
        if rows[0].user_id is None {
            let rest = rows.skip(1);
            lemma_first_account(rest);
            if first_account(rest) is Some {
                let i = choose|i: int|
                    0 <= i < rest.len() && (#[trigger] rest[i]).user_id is Some && rest[i].user_id
                        == first_account(rest) && forall|j: int|
                        0 <= j < i ==> (#[trigger] rest[j]).user_id is None;
                assert(rows[i + 1] == rest[i]);
                assert forall|j: int| 0 <= j < i + 1 implies (#[trigger] rows[j]).user_id is None by {
                    if j > 0 {
                        assert(rest[j - 1] == rows[j]);
                    }
                }
            } else {
                assert forall|i: int| 0 <= i < rows.len() implies (
                #[trigger] rows[i]).user_id is None by {
                    if i > 0 {
                        assert(rest[i - 1] == rows[i]);
                    }
                }
            }
        } else {
            assert(rows[0].user_id is Some);
        }
    }
}

/// A view is credited to the friendly name, where that says anything, else to the user's name,
/// where that does, else to nobody; without space around it.
pub proof fn a_view_is_credited_to_a_name(row: HistoryRow)
    ensures
        ({
            let friendly = row.friendly_name is Some && trimmed(row.friendly_name->0@).len() > 0;
            let plain = row.user is Some && trimmed(row.user->0@).len() > 0;
            &&& friendly ==> credited(row) == Some(trimmed(row.friendly_name->0@))
            &&& !friendly && plain ==> credited(row) == Some(trimmed(row.user->0@))
            &&& !friendly && !plain ==> credited(row) is None
        }),
{
}

/// A row is looked up by its rating key, as it is written, where the row says when the view
/// stopped.
pub proof fn a_row_is_looked_up_by_its_key(row: HistoryRow)
    ensures
        lookup_key(row) is Some <==> row.rating_key is Some && row.stopped is Some,
        row.stopped is Some ==> (row.rating_key matches Some(RatingKey::Text(text)) ==> lookup_key(
            row,
        ) == Some(text@)),
        row.stopped is Some ==> (row.rating_key matches Some(RatingKey::Number(n)) ==> lookup_key(
            row,
        ) == Some(signed_decimal(n as int))),
{
}

proof fn lemma_sourced_id(entries: Seq<Entry>, source: Source, id: Seq<char>)
    ensures
        sourced_id(entries, source, id) is None ==> forall|i: int|
            0 <= i < entries.len() ==> !comes_from(#[trigger] entries[i], source, id),
        sourced_id(entries, source, id) matches Some(entry_id) ==> exists|i: int|
            0 <= i < entries.len() && comes_from(#[trigger] entries[i], source, id)
                && entries[i].entry_id == entry_id && forall|j: int|
                0 <= j < i ==> !comes_from(#[trigger] entries[j], source, id),
    decreases entries.len(),
{
    if entries.len() > 0 {
        let fewer = entries.drop_last();
        lemma_sourced_id(fewer, source, id);
        assert(entries[entries.len() - 1] == entries.last());
        assert forall|j: int| 0 <= j < fewer.len() implies #[trigger] entries[j] == fewer[j] by {}
        if let Some(entry_id) = sourced_id(fewer, source, id) {
            let i = choose|i: int|
                0 <= i < fewer.len() && comes_from(#[trigger] fewer[i], source, id)
                    && fewer[i].entry_id == entry_id && forall|j: int|
                    0 <= j < i ==> !comes_from(#[trigger] fewer[j], source, id);
            assert(comes_from(entries[i], source, id));
            assert forall|j: int| 0 <= j < i implies !comes_from(
                #[trigger] entries[j],
                source,
                id,
            ) by {
                assert(!comes_from(fewer[j], source, id));
            }
        } else {
            assert forall|j: int| 0 <= j < fewer.len() implies !comes_from(
                #[trigger] entries[j],
                source,
                id,
            ) by {
                assert(!comes_from(fewer[j], source, id));
            }
        }
    }
}

/// A view is of the first item of the catalog that came from the media server under the row's key:
/// it says when the view stopped and whom it is credited to. A row whose key no item came under is
/// no view.
pub proof fn a_view_is_of_the_item_with_its_key(catalog: Catalog, row: HistoryRow)
    ensures
        watched(catalog, row) is Some ==> lookup_key(row) is Some,
        watched(catalog, row) matches Some(event) ==> {
            &&& Some(event.1) == row.stopped
            &&& event.2 == credited(row)
            &&& exists|i: int|
                0 <= i < catalog.entries@.len() && comes_from(
                    #[trigger] catalog.entries@[i],
                    Source::Plex,
                    lookup_key(row)->0,
                ) && catalog.entries@[i].entry_id == event.0
        },
        watched(catalog, row) is None && lookup_key(row) is Some ==> forall|i: int|
            0 <= i < catalog.entries@.len() ==> !comes_from(
                #[trigger] catalog.entries@[i],
                Source::Plex,
                lookup_key(row)->0,
            ),
{
    if let Some(key) = lookup_key(row) {
        lemma_sourced_id(catalog.entries@, Source::Plex, key);
    }
}

/// Views come in the order of their rows.
pub proof fn views_come_in_the_order_of_their_rows(
    catalog: Catalog,
    rows: Seq<HistoryRow>,
    more: HistoryRow,
)
    ensures
        watched_all(catalog, Seq::<HistoryRow>::empty()).len() == 0,
        watched(catalog, more) matches Some(event) ==> watched_all(catalog, rows.push(more))
            == watched_all(catalog, rows).push(event),
        watched(catalog, more) is None ==> watched_all(catalog, rows.push(more)) == watched_all(
            catalog,
            rows,
        ),
{
    assert(rows.push(more).drop_last() =~= rows);
}

/// The keys that are looked up, and those that were matched, come in the order of their rows.
pub proof fn keys_come_in_the_order_of_their_rows(
    catalog: Catalog,
    rows: Seq<HistoryRow>,
    more: HistoryRow,
)
    ensures
        lookup_key(more) matches Some(key) ==> lookup_keys(rows.push(more)) == lookup_keys(
            rows,
        ).push(key),
        lookup_key(more) is None ==> lookup_keys(rows.push(more)) == lookup_keys(rows),
        watched(catalog, more) is Some ==> matched_keys(catalog, rows.push(more)) == matched_keys(
            catalog,
            rows,
        ).push(lookup_key(more)->0),
        watched(catalog, more) is None ==> matched_keys(catalog, rows.push(more)) == matched_keys(
            catalog,
            rows,
        ),
{
    assert(rows.push(more).drop_last() =~= rows);
}

/// Keys are counted once each: none is left out and none comes twice.
pub proof fn keys_are_counted_once(list: Seq<Seq<char>>)
    ensures
        distinct(list).no_duplicates(),
        forall|key: Seq<char>| #[trigger] distinct(list).contains(key) <==> list.contains(key),
    decreases list.len(),
{
    if list.len() > 0 {
        let fewer = list.drop_last();
        keys_are_counted_once(fewer);
        let earlier = distinct(fewer);
        let all = distinct(list);
        assert(list[list.len() - 1] == list.last());
        assert forall|key: Seq<char>| #[trigger] all.contains(key) <==> list.contains(key) by {
            if list.contains(key) {
                let i = choose|i: int| 0 <= i < list.len() && list[i] == key;
                if i < fewer.len() {
                    assert(fewer[i] == key);
                    assert(fewer.contains(key));
                    assert(earlier.contains(key));
                    let k = choose|k: int| 0 <= k < earlier.len() && earlier[k] == key;
                    assert(all[k] == key);
                } else if !earlier.contains(key) {
                    assert(all[all.len() - 1] == key);
                }
            }
            if all.contains(key) {
                let k = choose|k: int| 0 <= k < all.len() && all[k] == key;
                if k < earlier.len() {
                    assert(earlier[k] == key);
                    assert(earlier.contains(key));
                    assert(fewer.contains(key));
                    let i = choose|i: int| 0 <= i < fewer.len() && fewer[i] == key;
                    assert(list[i] == key);
                }
            }
        }
    }
}

/// A text that does not hold the key is masked in nothing.
pub proof fn nothing_but_the_key_is_masked(s: Seq<char>, key: Seq<char>)
    requires
        key.len() > 0,
        !occurs(s, key),
    ensures
        masked(s, key) == s,
    decreases s.len(),
{
    if s.len() >= key.len() {
        let n = key.len() as int;
        assert(!begins(s, key)) by {
            if begins(s, key) {
                assert(s.subrange(0, 0 + n) =~= s.take(n));
            }
        }
        let rest = s.skip(1);
        assert(!occurs(rest, key)) by {
            if occurs(rest, key) {
                let i = choose|i: int|
                    0 <= i <= rest.len() - n && #[trigger] rest.subrange(i, i + n) == key;
                assert(s.subrange(i + 1, i + 1 + n) =~= rest.subrange(i, i + n));
            }
        }
        nothing_but_the_key_is_masked(rest, key);
        assert(seq![s[0]] + rest =~= s);
    }
}

/// An address loses the slashes that it ends in, and nothing else.
pub proof fn an_address_loses_its_last_slashes(url: Seq<char>)
    ensures
        without_slashes(url).len() > 0 ==> without_slashes(url).last() != '/',
        without_slashes(url).len() <= url.len(),
        without_slashes(url) == url.take(without_slashes(url).len() as int),
        forall|i: int| without_slashes(url).len() <= i < url.len() ==> #[trigger] url[i] == '/',
    decreases url.len(),
{
    if url.len() > 0 && url.last() == '/' {
        let fewer = url.drop_last();
        an_address_loses_its_last_slashes(fewer);
        let n = without_slashes(fewer).len() as int;
        assert(url.take(n) =~= fewer.take(n));
        assert forall|i: int| n <= i < url.len() implies #[trigger] url[i] == '/' by {
            if i < fewer.len() {
                assert(fewer[i] == url[i]);
            }
        }
    } else {
        assert(url.take(url.len() as int) =~= url);
    }
}

/// An item is put on air under its identity, from when it starts to when it finishes, with its
/// guide entry and what it carries, and from its own source.
pub proof fn an_item_is_put_on_air_as_it_is(
    item: ItemModel,
    start: int,
    finish: int,
    overlay: Option<String>,
)
    ensures
        ({
            let out = scheduled(item, start, finish, overlay);
            &&& out.id == item.id
            &&& out.start == start
            &&& out.finish == finish
            &&& out.program == item.program
            &&& out.overlay == overlay
            &&& out.metadata == item.metadata
            &&& match item.source {
                SourceModel::Local { path } => out.source matches Some(
                    PlayoutSourceModel::Local { path: got, in_point_ms, out_point_ms },
                ) && got == path && in_point_ms == millis(item.in_point) && out_point_ms == millis(
                    item.out_point,
                ),
                SourceModel::Lavfi { params } => out.source == Some(
                    PlayoutSourceModel::Lavfi { params },
                ),
                SourceModel::Http { uri, headers, user_agent } => out.source == Some(
                    PlayoutSourceModel::Http { uri, headers, user_agent },
                ),
            }
        }),
{
}

/// A point is put down in whole milliseconds, rounded down; no point in none.
pub proof fn a_point_is_put_down_in_milliseconds(nanos: Option<u64>)
    ensures
        nanos is None <==> millis(nanos) is None,
        nanos matches Some(n) ==> millis(nanos) is Some && millis(nanos)->0 * 1_000_000 <= n < (
        millis(nanos)->0 + 1) * 1_000_000,
{
}

/// A relative configuration lies in its folder, and an absolute one where it says.
pub proof fn a_configuration_lies_in_its_folder(folder: Seq<char>, configured: Seq<char>)
    requires
        folder.len() > 0,
    ensures
        config_in(None, configured) == configured,
        configured.len() > 0 && configured[0] == '/' ==> config_in(Some(folder), configured)
            == configured,
        (configured.len() == 0 || configured[0] != '/') && folder.last() == '/' ==> config_in(
            Some(folder),
            configured,
        ) == folder + configured,
        (configured.len() == 0 || configured[0] != '/') && folder.last() != '/' ==> config_in(
            Some(folder),
            configured,
        ) == folder + seq!['/'] + configured,
        config_in(Some(folder), configured) == joined(folder, configured),
{
    reveal_strlit("/");
    assert("/"@ =~= seq!['/']);
}

/// An overlay is wanted by a request that is newer than the last that went cold; and one that
/// left is told apart by how: it failed, it had a reader, or nobody read it.
pub proof fn an_overlay_is_wanted_by_a_newer_request(
    request: i128,
    cold: i128,
    cleanly: bool,
    had_reader: bool,
)
    ensures
        !wanted(None, Some(cold)),
        !wanted(None, None),
        wanted(Some(request), None),
        wanted(Some(request), Some(cold)) <==> cold < request,
        reaped(cleanly, had_reader) == Reap::Crashed <==> !cleanly,
        reaped(cleanly, had_reader) == Reap::Reprobe <==> cleanly && had_reader,
        reaped(cleanly, had_reader) == Reap::Retire <==> cleanly && !had_reader,
{
}

/// An overlay that runs is not started again, and stopping ends it where it runs; a start is noted
/// with the request that it serves.
pub proof fn an_overlay_is_started_once(
    s: Supervisor,
    exited: Option<bool>,
    ready: bool,
    request: Option<i128>,
)
    ensures
        s.running ==> s.after(Event::Tick { exited, ready, request }).1 != Action::Spawn,
        s.after(Event::Spawned { request }).0.running,
        s.after(Event::Spawned { request }).0.served == request,
        s.after(Event::Shutdown).1 == (Action::Stop { kill: s.running }),
        !s.after(Event::Shutdown).0.running,
        s.running && exited is None ==> s.after(Event::Tick { exited, ready, request }).0.running,
        s.running && exited is None ==> s.after(
            Event::Tick { exited, ready, request },
        ).0.ready_observed == (s.ready_observed || ready),
        !s.after(Event::Spawned { request }).0.ready_observed,
        s.running && exited is Some ==> !s.after(Event::Tick { exited, ready, request }).0.running,
{
}

/// At an instant the first span that holds it counts; where none does, none.
pub proof fn the_first_span_counts(spans: Seq<OverlaySpan>, t: i128)
    ensures
        span_at(spans, t) is None <==> forall|i: int|
            0 <= i < spans.len() ==> !((#[trigger] spans[i]).start <= t < spans[i].finish),
        span_at(spans, t) matches Some(s) ==> exists|i: int|
            0 <= i < spans.len() && #[trigger] spans[i] == s && s.start <= t < s.finish && forall|
                j: int,
            |
                0 <= j < i ==> !((#[trigger] spans[j]).start <= t < spans[j].finish),
    decreases spans.len(),
{
    if spans.len() > 0 {
        if spans[0].start <= t < spans[0].finish {
            assert(spans[0] == spans[0]);
        } else {
            let rest = spans.skip(1);
            the_first_span_counts(rest, t);
            if let Some(s) = span_at(rest, t) {
                let i = choose|i: int|
                    0 <= i < rest.len() && #[trigger] rest[i] == s && s.start <= t < s.finish
                        && forall|j: int|
                        0 <= j < i ==> !((#[trigger] rest[j]).start <= t < rest[j].finish);
                assert(spans[i + 1] == s);
                assert forall|j: int| 0 <= j < i + 1 implies !((#[trigger] spans[j]).start <= t
                    < spans[j].finish) by {
                    if j > 0 {
                        assert(rest[j - 1] == spans[j]);
                    }
                }
            } else {
                assert forall|i: int| 0 <= i < spans.len() implies !((
                #[trigger] spans[i]).start <= t < spans[i].finish) by {
                    if i > 0 {
                        assert(rest[i - 1] == spans[i]);
                    }
                }
            }
        }
    }
}

/// Each block is drawn over with its own overlay, for as long as the block lies; a block that has
/// none, with none.
pub proof fn each_block_is_drawn_over_with_its_own(
    overlays: ChannelOverlays,
    laid: Seq<BlockSpan>,
    k: int,
)
    requires
        0 <= k < laid.len(),
    ensures
        stated(overlays, laid).len() == laid.len(),
        stated(overlays, laid)[k].start == laid[k].start,
        stated(overlays, laid)[k].finish == laid[k].finish,
        laid[k].block < overlays.blocks@.len() ==> stated(overlays, laid)[k].spec
            == overlays.blocks@[laid[k].block as int],
        laid[k].block >= overlays.blocks@.len() ==> stated(overlays, laid)[k].spec is None,
{
}

/// Stating a window keeps the overlays that are over when it begins and not yet past keeping, and
/// holds one for each block that was laid.
pub proof fn a_window_keeps_what_came_before_it(
    spans: Seq<OverlaySpan>,
    overlays: ChannelOverlays,
    laid: Seq<BlockSpan>,
    from: i128,
    retain_from: i128,
    k: int,
)
    ensures
        0 <= k < spans.len() && retain_from < spans[k].finish <= from ==> restated(
            spans,
            overlays,
            laid,
            from,
            retain_from,
        ).contains(spans[k]),
        0 <= k < laid.len() ==> restated(spans, overlays, laid, from, retain_from).contains(
            stated(overlays, laid)[k],
        ),
{
    broadcast use vstd::seq_lib::group_to_multiset_ensures;

    let keep = keeps(from, retain_from);
    let kept = spans.filter(keep);
    let all = kept + stated(overlays, laid);
    ordering_keeps_everything(all);
    let out = restated(spans, overlays, laid, from, retain_from);
    assert(out.to_multiset() == all.to_multiset());
    if 0 <= k < spans.len() && retain_from < spans[k].finish <= from {
        assert(keep(spans[k]));
        spans.lemma_filter_contains(keep, k);
        let i = choose|i: int| 0 <= i < kept.len() && kept[i] == spans[k];
        assert(all[i] == spans[k]);
        assert(all.contains(spans[k]));
        assert(out.to_multiset().count(spans[k]) > 0);
    }
    if 0 <= k < laid.len() {
        assert(all[kept.len() + k] == stated(overlays, laid)[k]);
        assert(all.contains(stated(overlays, laid)[k]));
        assert(out.to_multiset().count(stated(overlays, laid)[k]) > 0);
    }
}

/// The overlay of a channel varies where some block is drawn over otherwise than the channel.
pub proof fn an_overlay_varies_by_its_blocks(overlays: ChannelOverlays)
    ensures
        varies(overlays) <==> exists|i: int|
            0 <= i < overlays.blocks@.len() && !match (
                #[trigger] overlays.blocks@[i],
                overlays.base,
            ) {
                (Some(a), Some(b)) => a@ == b@,
                (None, None) => true,
                _ => false,
            },
{
    if varies(overlays) {
        let i = choose|i: int|
            0 <= i < overlays.blocks@.len() && crate::overlay_timeline::drawn(
                #[trigger] overlays.blocks@[i],
            ) != crate::overlay_timeline::drawn(overlays.base);
        assert(overlays.blocks@[i] == overlays.blocks@[i]);
    }
}

proof fn lemma_slot<T: Timed>(list: Seq<T>, start: int)
    requires
        in_start_order(list),
    ensures
        0 <= slot(list, start) <= list.len(),
        forall|i: int| 0 <= i < slot(list, start) ==> (#[trigger] list[i]).at() <= start,
        forall|i: int| slot(list, start) <= i < list.len() ==> start < (#[trigger] list[i]).at(),
    decreases list.len(),
{
    if list.len() > 0 {
        let fewer = list.drop_last();
        assert(list[list.len() - 1] == list.last());
        assert forall|i: int| 0 <= i < fewer.len() implies #[trigger] fewer[i] == list[i] by {}
        if list.last().at() > start {
            assert(in_start_order(fewer));
            lemma_slot(fewer, start);
            let p = slot(list, start);
            assert forall|i: int| 0 <= i < p implies (#[trigger] list[i]).at() <= start by {
                assert(fewer[i].at() <= start);
            }
            assert forall|i: int| p <= i < list.len() implies start < (#[trigger] list[i]).at() by {
                if i < fewer.len() {
                    assert(start < fewer[i].at());
                }
            }
        }
    }
}

/// Of things that start together, the one that came first stays first: each takes its place after
/// all that start no later than it, and before the rest.
pub proof fn what_starts_together_keeps_its_order<T: Timed>(list: Seq<T>, more: T) -> (p: int)
    ensures
        0 <= p <= ordered(list).len(),
        ordered(list.push(more)) == ordered(list).insert(p, more),
        forall|i: int| 0 <= i < p ==> (#[trigger] ordered(list)[i]).at() <= more.at(),
        forall|i: int|
            p <= i < ordered(list).len() ==> more.at() < (#[trigger] ordered(list)[i]).at(),
{
    ordering_keeps_everything(list);
    lemma_slot(ordered(list), more.at());
    assert(list.push(more).drop_last() =~= list);
    slot(ordered(list), more.at())
}

/// An overlay and an output file come by when they start.
pub proof fn overlays_and_files_come_by_their_start(span: OverlaySpan, file: DiscoveredFile)
    ensures
        span.at() == span.start,
        file.at() == file.start,
{
}

/// An instant of a loop falls on the item that runs then, and as far into it as has passed since it
/// began.
pub proof fn an_instant_falls_on_the_item_that_runs(durations: Seq<u64>, into: int)
    requires
        0 <= into < total(durations),
    ensures
        ({
            let (at, left) = phase(durations, into);
            &&& 0 <= at < durations.len()
            &&& 0 <= left < durations[at]
            &&& total(durations.take(at)) + left == into
        }),
    decreases durations.len(),
{
    if durations.len() > 0 {
        lemma_total_first(durations);
        if into < durations[0] {
            assert(durations.take(0).len() == 0);
            assert(total(durations.take(0)) == 0);
        } else {
            let rest = durations.skip(1);
            an_instant_falls_on_the_item_that_runs(rest, into - durations[0]);
            let (at, left) = phase(rest, into - durations[0]);
            let taken = durations.take(at + 1);
            lemma_total_first(taken);
            assert(taken.skip(1) =~= rest.take(at));
            assert(durations[at + 1] == rest[at]);
        }
    } else {
        assert(total(durations) == 0);
    }
}

/// A loop plays by how long it has run since its anchor: it stands at its start until then, and
/// the same after every whole round.
pub proof fn a_loop_plays_by_its_anchor(anchor: int, now: int, durations: Seq<u64>)
    ensures
        now <= anchor ==> phase_since(anchor, now, durations) == (0int, 0int),
        total(durations) > 0 && anchor < now < anchor + total(durations) ==> phase_since(
            anchor,
            now,
            durations,
        ) == phase(durations, now - anchor),
        total(durations) > 0 && now > anchor ==> phase_since(
            anchor,
            now + total(durations),
            durations,
        ) == phase_since(anchor, now, durations),
{
    let n = total(durations);
    if n > 0 && now > anchor {
        vstd::arithmetic::div_mod::lemma_mod_add_multiples_vanish(now - anchor, n);
        assert((n + (now - anchor)) % n == (now - anchor) % n);
        if now < anchor + n {
            vstd::arithmetic::div_mod::lemma_small_mod((now - anchor) as nat, n as nat);
        }
    }
}

/// A text stands before another where it is the beginning of it, or where its character is the
/// lower at the first place at which the two differ.
pub proof fn texts_stand_by_their_first_difference(
    common: Seq<char>,
    x: char,
    y: char,
    a: Seq<char>,
    b: Seq<char>,
)
    ensures
        stands_before(common, common + seq![y] + b),
        !stands_before(common + seq![y] + b, common),
        (x as int) < (y as int) ==> stands_before(common + seq![x] + a, common + seq![y] + b),
        (x as int) > (y as int) ==> !stands_before(common + seq![x] + a, common + seq![y] + b),
    decreases common.len(),
{
    let left = common + seq![x] + a;
    let right = common + seq![y] + b;
    if common.len() > 0 {
        let rest = common.skip(1);
        texts_stand_by_their_first_difference(rest, x, y, a, b);
        assert(left.skip(1) =~= rest + seq![x] + a);
        assert(right.skip(1) =~= rest + seq![y] + b);
        assert(left[0] == common[0] && right[0] == common[0]);
    } else {
        assert(left[0] == x && right[0] == y);
    }
}

proof fn lemma_name_slot(names: Seq<Seq<char>>, name: Seq<char>)
    requires
        forall|i: int, j: int|
            0 <= i < j < names.len() ==> !stands_before(#[trigger] names[j], #[trigger] names[i]),
    ensures
        0 <= name_slot(names, name) <= names.len(),
        forall|i: int|
            name_slot(names, name) <= i < names.len() ==> stands_before(name, #[trigger] names[i]),
        name_slot(names, name) > 0 ==> !stands_before(name, names[name_slot(names, name) - 1]),
    decreases names.len(),
{
    if names.len() > 0 {
        let fewer = names.drop_last();
        assert(names[names.len() - 1] == names.last());
        if stands_before(name, names.last()) {
            assert forall|i: int, j: int| 0 <= i < j < fewer.len() implies !stands_before(
                #[trigger] fewer[j],
                #[trigger] fewer[i],
            ) by {
                assert(fewer[i] == names[i] && fewer[j] == names[j]);
            }
            lemma_name_slot(fewer, name);
            assert forall|i: int|
                name_slot(names, name) <= i < names.len() implies stands_before(
                name,
                #[trigger] names[i],
            ) by {
                if i < fewer.len() {
                    assert(fewer[i] == names[i]);
                }
            }
        }
    }
}

/// A channel is named by its file, without the ending; one whose file has the common name is named
/// by the folder that the file lies in.
pub proof fn a_channel_is_named_by_its_file(path: Seq<char>)
    ensures
        file_name_of(path) != Some("channel.yaml"@) ==> (file_stem_of(path) matches Some(stem)
            ==> channel_name(path) == stem),
        file_name_of(path) == Some("channel.yaml"@) ==> (parent_of(path) matches Some(folder) ==> (
        file_name_of(folder) matches Some(name) ==> channel_name(path) == name)),
{
}

/// Of channels of one name the last is meant.
pub proof fn a_channel_is_found_by_its_name(paths: Seq<String>, name: Seq<char>)
    ensures
        channel_at(paths, name) is None <==> forall|i: int|
            0 <= i < paths.len() ==> channel_name((#[trigger] paths[i])@) != name,
        channel_at(paths, name) matches Some(i) ==> 0 <= i < paths.len() && channel_name(
            paths[i]@,
        ) == name && forall|j: int|
            i < j < paths.len() ==> channel_name((#[trigger] paths[j])@) != name,
    decreases paths.len(),
{
    if paths.len() > 0 {
        let fewer = paths.drop_last();
        a_channel_is_found_by_its_name(fewer, name);
        assert(paths[paths.len() - 1] == paths.last());
        assert forall|i: int| 0 <= i < fewer.len() implies #[trigger] paths[i] == fewer[i] by {}
        if channel_name(paths.last()@) != name {
            if let Some(i) = channel_at(fewer, name) {
                assert(channel_name(paths[i]@) == name);
            } else {
                assert forall|i: int| 0 <= i < paths.len() implies channel_name(
                    (#[trigger] paths[i])@,
                ) != name by {
                    if i < fewer.len() {
                        assert(channel_name(fewer[i]@) != name);
                    }
                }
            }
        }
    }
}

/// The names of channels are all told.
pub proof fn every_channel_is_named(paths: Seq<String>)
    ensures
        known_names(paths).len() == paths.len(),
        forall|i: int|
            0 <= i < paths.len() ==> known_names(paths).contains(
                channel_name((#[trigger] paths[i])@),
            ),
        forall|i: int, j: int|
            0 <= i < j < known_names(paths).len() ==> !stands_before(
                #[trigger] known_names(paths)[j],
                #[trigger] known_names(paths)[i],
            ),
    decreases paths.len(),
{
    if paths.len() > 0 {
        let fewer = paths.drop_last();
        every_channel_is_named(fewer);
        let earlier = known_names(fewer);
        let name = channel_name(paths.last()@);
        lemma_name_slot(earlier, name);
        let p = name_slot(earlier, name);
        let all = known_names(paths);
        assert(all == earlier.insert(p, name));
        assert(all[p] == name);
        assert forall|i: int| 0 <= i < paths.len() implies all.contains(
            channel_name((#[trigger] paths[i])@),
        ) by {
            if i < fewer.len() {
                assert(fewer[i] == paths[i]);
                let x = channel_name(paths[i]@);
                assert(earlier.contains(x));
                let k = choose|k: int| 0 <= k < earlier.len() && earlier[k] == x;
                if k < p {
                    assert(all[k] == x);
                } else {
                    assert(all[k + 1] == x);
                }
            }
        }
        assert forall|i: int, j: int| 0 <= i < j < all.len() implies !stands_before(
            #[trigger] all[j],
            #[trigger] all[i],
        ) by {
            let a = if i < p {
                i
            } else {
                i - 1
            };
            let b = if j < p {
                j
            } else {
                j - 1
            };
            if i != p {
                assert(all[i] == earlier[a]);
            }
            if j != p {
                assert(all[j] == earlier[b]);
            }
            if i != p && j != p {
                assert(!stands_before(earlier[b], earlier[a]));
            } else if i == p {
                assert(stands_before(name, earlier[b]));
                lemma_one_stands_before(name, earlier[b]);
            } else {
                let last = earlier[p - 1];
                assert(!stands_before(name, last));
                if a < p - 1 {
                    assert(!stands_before(earlier[p - 1], earlier[a]));
                    if stands_before(name, earlier[a]) {
                        lemma_one_stands_before(name, last);
                        lemma_one_stands_before(last, earlier[a]);
                        if last != name && last != earlier[a] {
                            assert(stands_before(last, name));
                            lemma_before_carries(last, name, earlier[a]);
                        }
                    }
                }
            }
        }
    }
}

/// A list of names is written with a comma between them.
pub proof fn names_are_listed_with_commas(names: Seq<Seq<char>>, more: Seq<char>)
    ensures
        listing(Seq::<Seq<char>>::empty()).len() == 0,
        listing(seq![more]) == more,
        names.len() > 0 ==> listing(names.push(more)) == listing(names) + seq![',', ' '] + more,
{
    reveal_strlit(", ");
    assert(", "@ =~= seq![',', ' ']);
    assert(names.push(more).drop_last() =~= names);
}

/// A one-sided list says how many titles there are, shows no more of them than it may, and says
/// how many more there are where it shows fewer.
pub proof fn a_one_sided_list_shows_a_sample(
    label: Seq<char>,
    rows: Seq<(String, String)>,
    sample: nat,
)
    ensures
        rows.len() <= sample ==> one_sided_lines(label, rows, sample).len() == rows.len() + 1,
        rows.len() > sample ==> one_sided_lines(label, rows, sample).len() == sample + 2,
        forall|i: int|
            0 <= i < rows.len() && i < sample ==> #[trigger] one_sided_lines(
                label,
                rows,
                sample,
            )[i + 1] == crate::report::one_sided_line(rows[i]),
{
}

} // verus!
