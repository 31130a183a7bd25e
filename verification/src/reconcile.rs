//! Holding a written playout to the catalog: a file that moved is played from where it is
//! now, and a title that has gone gives way to a card. Nothing but what an item plays
//! changes. A card that was not drawn yet comes back by the title it has to name.

use vstd::prelude::*;

use crate::catalog::{Catalog, Entry};
use crate::item::{pick_playback_source, playback};
use crate::names::same_text;
use crate::playout::{playout, PlayoutItem, PlayoutModel, PlayoutSource, PlayoutSourceModel};

verus! {

/// What one sweep changed.
#[derive(Clone, Copy, Debug, PartialEq, Eq, Structural)]
pub struct ReconcileCounts {
    /// The files that have not fully aired.
    pub files_examined: usize,
    /// The files that were written anew.
    pub files_rewritten: usize,
    /// The items that are played from another path.
    pub paths_patched: usize,
    /// The items that gave way to a card.
    pub items_carded: usize,
}

impl ReconcileCounts {
    /// Nothing was looked at.
    pub fn none() -> (out: ReconcileCounts)
        ensures
            out == (ReconcileCounts {
                files_examined: 0,
                files_rewritten: 0,
                paths_patched: 0,
                items_carded: 0,
            }),
    {
        ReconcileCounts {
            files_examined: 0,
            files_rewritten: 0,
            paths_patched: 0,
            items_carded: 0,
        }
    }

    /// Whether anything changed.
    pub fn changed_anything(self) -> (out: bool)
        ensures
            out == (self.files_rewritten > 0),
    {
        self.files_rewritten > 0
    }

    /// Counts one file that was looked at: what was changed in it, where something was and it
    /// could be written.
    pub fn count_file(self, changed: Option<(usize, usize)>) -> (out: ReconcileCounts)
        requires
            self.files_examined < usize::MAX,
            self.files_rewritten < usize::MAX,
            changed matches Some((paths, cards)) ==> self.paths_patched + paths <= usize::MAX
                && self.items_carded + cards <= usize::MAX,
        ensures
            out.files_examined == self.files_examined + 1,
            match changed {
                Some((paths, cards)) => {
                    &&& out.files_rewritten == self.files_rewritten + 1
                    &&& out.paths_patched == self.paths_patched + paths
                    &&& out.items_carded == self.items_carded + cards
                },
                None => {
                    &&& out.files_rewritten == self.files_rewritten
                    &&& out.paths_patched == self.paths_patched
                    &&& out.items_carded == self.items_carded
                },
            },
    {
        match changed {
            Some((paths, cards)) => ReconcileCounts {
                files_examined: self.files_examined + 1,
                files_rewritten: self.files_rewritten + 1,
                paths_patched: self.paths_patched + paths,
                items_carded: self.items_carded + cards,
            },
            None => ReconcileCounts { files_examined: self.files_examined + 1, ..self },
        }
    }
}

/// A card that says what cannot be played and why, as it was drawn: the picture that is
/// generated for it.
#[derive(Debug)]
pub struct ErrorCard {
    pub title: String,
    pub reason: String,
    pub params: String,
}

/// The picture of the card that says this; the first one counts.
pub open spec fn picture(cards: Seq<ErrorCard>, title: Seq<char>, reason: Seq<char>) -> Option<
    Seq<char>,
>
    decreases cards.len(),
{
    if cards.len() == 0 {
        None
    } else if cards[0].title@ == title && cards[0].reason@ == reason {
        Some(cards[0].params@)
    } else {
        picture(cards.skip(1), title, reason)
    }
}

fn find_picture(cards: &Vec<ErrorCard>, title: &str, reason: &str) -> (out: Option<String>)
    ensures
        match (out, picture(cards@, title@, reason@)) {
            (Some(got), Some(want)) => got@ == want,
            (None, None) => true,
            _ => false,
        },
{
    let mut i: usize = 0;
    assert(cards@.skip(0) =~= cards@);
    while i < cards.len()
        invariant
            i <= cards.len(),
            picture(cards@, title@, reason@) == picture(cards@.skip(i as int), title@, reason@),
        decreases cards.len() - i,
    {
        assert(cards@.skip(i as int).skip(1) =~= cards@.skip(i + 1));
        if same_text(cards[i].title.as_str(), title) && same_text(cards[i].reason.as_str(), reason) {
            return Some(cards[i].params.clone());
        }
        i += 1;
    }
    None
}

/// What became of one item.
#[derive(Clone, Copy, Debug, PartialEq, Eq, Structural)]
pub enum ItemOutcome {
    Unchanged,
    PathPatched,
    Carded,
    /// It has to give way to a card that was not drawn yet, and stays until it is.
    Undrawn,
}

/// What a card says of a title that has gone.
pub const GONE: &'static str = "this title is no longer in the library";

/// What a card says of a title that has gone.
pub open spec fn gone_text() -> Seq<char> {
    GONE@
}

/// How a card names an item: by the guide's title, and else by its identity.
pub open spec fn card_title(item: PlayoutModel) -> Seq<char> {
    match item.program {
        Some(program) => match program.title {
            Some(title) => title,
            None => item.id,
        },
        None => item.id,
    }
}

/// What an item becomes when the catalog is asked again. Only a file can go stale: a generated
/// picture, a card among them, and a stream stay, and so does an item that the catalog does
/// not know or has no source for.
pub open spec fn reconciled(catalog: Catalog, cards: Seq<ErrorCard>, item: PlayoutModel) -> (
    PlayoutModel,
    ItemOutcome,
) {
    match item.source {
        Some(PlayoutSourceModel::Local { path, in_point_ms, out_point_ms }) => match catalog.row(
            item.id,
        ) {
            None => (item, ItemOutcome::Unchanged),
            Some(entry) => if entry.missing {
                match picture(cards, card_title(item), gone_text()) {
                    Some(params) => (
                        PlayoutModel { source: Some(PlayoutSourceModel::Lavfi { params }), ..item },
                        ItemOutcome::Carded,
                    ),
                    None => (item, ItemOutcome::Undrawn),
                }
            } else {
                match playback(entry.sources@) {
                    None => (item, ItemOutcome::Unchanged),
                    Some(source) => if source.playback_path@ == path {
                        (item, ItemOutcome::Unchanged)
                    } else {
                        (
                            PlayoutModel {
                                source: Some(
                                    PlayoutSourceModel::Local {
                                        path: source.playback_path@,
                                        in_point_ms,
                                        out_point_ms,
                                    },
                                ),
                                ..item
                            },
                            ItemOutcome::PathPatched,
                        )
                    },
                }
            },
        },
        _ => (item, ItemOutcome::Unchanged),
    }
}

/// How a card names an item: by the guide's title, and else by its identity.
pub fn write_card_title(item: &PlayoutItem) -> (out: String)
    ensures
        out@ == card_title(item@),
{
    match &item.program {
        Some(program) => match &program.title {
            Some(title) => title.clone(),
            None => item.id.clone(),
        },
        None => item.id.clone(),
    }
}

/// Asks the catalog again for one item, and changes what it plays where the catalog now says
/// otherwise. The points in the file at which the item begins and ends are the item's, not
/// the file's, and stay. A title that has gone gives way to its card, where that was drawn.
pub fn reconcile_item(catalog: &Catalog, cards: &Vec<ErrorCard>, item: &mut PlayoutItem) -> (out:
    ItemOutcome)
    ensures
        (final(item)@, out) == reconciled(*catalog, cards@, old(item)@),
{
    let (current, in_point_ms, out_point_ms) = match &item.source {
        Some(PlayoutSource::Local { path, in_point_ms, out_point_ms }) => (
            path.clone(),
            *in_point_ms,
            *out_point_ms,
        ),
        _ => return ItemOutcome::Unchanged,
    };
    let entry: &Entry = match catalog.entry(&item.id) {
        Some(entry) => entry,
        None => return ItemOutcome::Unchanged,
    };
    if entry.missing {
        let title: String = write_card_title(item);
        match find_picture(cards, title.as_str(), GONE) {
            Some(params) => {
                item.source = Some(PlayoutSource::Lavfi { params });
                return ItemOutcome::Carded;
            },
            None => return ItemOutcome::Undrawn,
        }
    }
    match pick_playback_source(&entry.sources) {
        None => ItemOutcome::Unchanged,
        Some(source) => {
            if source.playback_path == current {
                return ItemOutcome::Unchanged;
            }
            item.source = Some(
                PlayoutSource::Local {
                    path: source.playback_path.clone(),
                    in_point_ms,
                    out_point_ms,
                },
            );
            ItemOutcome::PathPatched
        },
    }
}

/// What an item of a file becomes: one that has finished is history and stays.
pub open spec fn swept(
    catalog: Catalog,
    cards: Seq<ErrorCard>,
    item: PlayoutModel,
    now: int,
) -> (PlayoutModel, ItemOutcome) {
    if item.finish <= now {
        (item, ItemOutcome::Unchanged)
    } else {
        reconciled(catalog, cards, item)
    }
}

/// What the items of a file become.
pub open spec fn swept_all(
    catalog: Catalog,
    cards: Seq<ErrorCard>,
    list: Seq<PlayoutModel>,
    now: int,
) -> Seq<PlayoutModel> {
    list.map_values(|i: PlayoutModel| swept(catalog, cards, i, now).0)
}

/// How many items of a file meet an outcome.
pub open spec fn outcomes(
    catalog: Catalog,
    cards: Seq<ErrorCard>,
    list: Seq<PlayoutModel>,
    now: int,
    wanted: ItemOutcome,
) -> nat
    decreases list.len(),
{
    if list.len() == 0 {
        0
    } else {
        outcomes(catalog, cards, list.drop_last(), now, wanted) + if swept(
            catalog,
            cards,
            list.last(),
            now,
        ).1 == wanted {
            1nat
        } else {
            0
        }
    }
}

/// The first item of a file whose card was not drawn yet.
pub open spec fn first_undrawn(
    catalog: Catalog,
    cards: Seq<ErrorCard>,
    list: Seq<PlayoutModel>,
    now: int,
) -> Option<int>
    decreases list.len(),
{
    if list.len() == 0 {
        None
    } else {
        match first_undrawn(catalog, cards, list.drop_last(), now) {
            Some(i) => Some(i),
            None => if swept(catalog, cards, list.last(), now).1 == ItemOutcome::Undrawn {
                Some(list.len() - 1)
            } else {
                None
            },
        }
    }
}

proof fn lemma_first_undrawn(
    catalog: Catalog,
    cards: Seq<ErrorCard>,
    list: Seq<PlayoutModel>,
    now: int,
    k: int,
)
    requires
        0 <= k < list.len(),
        first_undrawn(catalog, cards, list.take(k), now) is None,
        swept(catalog, cards, list[k], now).1 == ItemOutcome::Undrawn,
    ensures
        first_undrawn(catalog, cards, list, now) == Some(k),
    decreases list.len(),
{
    if k == list.len() - 1 {
        assert(list.drop_last() =~= list.take(k));
    } else {
        assert(list.drop_last().take(k) =~= list.take(k));
        lemma_first_undrawn(catalog, cards, list.drop_last(), now, k);
    }
}

/// Whether the card of an item has yet to be drawn.
fn lacks_card(catalog: &Catalog, cards: &Vec<ErrorCard>, item: &PlayoutItem, now: i128) -> (out:
    bool)
    ensures
        out == (swept(*catalog, cards@, item@, now as int).1 == ItemOutcome::Undrawn),
{
    if item.finish <= now {
        return false;
    }
    match &item.source {
        Some(PlayoutSource::Local { .. }) => {},
        _ => return false,
    }
    match catalog.entry(&item.id) {
        Some(entry) => {
            entry.missing && find_picture(cards, write_card_title(item).as_str(), GONE).is_none()
        },
        None => false,
    }
}

/// Holds the items of one file to the catalog: how many are played from another path and how
/// many gave way to a card, or nothing when the file stays as it is and need not be written.
/// Where a card has yet to be drawn, the items stay as they are, and the title that the first
/// such card names comes back.
pub fn reconcile_one_file(
    catalog: &Catalog,
    cards: &Vec<ErrorCard>,
    list: &mut Vec<PlayoutItem>,
    now: i128,
) -> (out: Result<Option<(usize, usize)>, String>)
    ensures
        ({
            let before = playout(old(list)@);
            let paths = outcomes(*catalog, cards@, before, now as int, ItemOutcome::PathPatched);
            let carded = outcomes(*catalog, cards@, before, now as int, ItemOutcome::Carded);
            match (out, first_undrawn(*catalog, cards@, before, now as int)) {
                (Err(title), Some(i)) => title@ == card_title(before[i]) && playout(final(list)@)
                    == before,
                (Ok(changed), None) => {
                    &&& playout(final(list)@) == swept_all(*catalog, cards@, before, now as int)
                    &&& match changed {
                        Some((p, c)) => p == paths && c == carded && p + c > 0,
                        None => paths == 0 && carded == 0 && playout(final(list)@) == before,
                    }
                },
                _ => false,
            }
        }),
{
    let ghost before = playout(list@);
    let n: usize = list.len();
    let mut k: usize = 0;
    assert(before.take(0) =~= Seq::<PlayoutModel>::empty());
    while k < n
        invariant
            k <= n,
            n == list.len(),
            before == playout(list@),
            first_undrawn(*catalog, cards@, before.take(k as int), now as int) is None,
        decreases n - k,
    {
        assert(before.take(k + 1).drop_last() =~= before.take(k as int));
        assert(before.take(k + 1).last() == list@[k as int]@);
        if lacks_card(catalog, cards, &list[k], now) {
            proof {
                lemma_first_undrawn(*catalog, cards@, before, now as int, k as int);
            }
            return Err(write_card_title(&list[k]));
        }
        k += 1;
    }
    assert(before.take(k as int) =~= before);
    let mut paths: usize = 0;
    let mut carded: usize = 0;
    let mut i: usize = 0;
    while i < n
        invariant
            i <= n,
            n == list.len(),
            before.len() == n,
            paths + carded <= i,
            paths == outcomes(
                *catalog,
                cards@,
                before.take(i as int),
                now as int,
                ItemOutcome::PathPatched,
            ),
            carded == outcomes(
                *catalog,
                cards@,
                before.take(i as int),
                now as int,
                ItemOutcome::Carded,
            ),
            forall|j: int|
                0 <= j < i ==> (#[trigger] list@[j])@ == swept(
                    *catalog,
                    cards@,
                    before[j],
                    now as int,
                ).0,
            forall|j: int| i <= j < n ==> (#[trigger] list@[j])@ == before[j],
            paths == 0 && carded == 0 ==> forall|j: int|
                0 <= j < i ==> (#[trigger] list@[j])@ == before[j],
        decreases n - i,
    {
        assert(before.take(i + 1).drop_last() =~= before.take(i as int));
        assert(before.take(i + 1).last() == before[i as int]);
        assert(list@[i as int]@ == before[i as int]);
        if list[i].finish > now {
            let outcome: ItemOutcome = reconcile_item(catalog, cards, &mut list[i]);
            match outcome {
                ItemOutcome::PathPatched => {
                    paths = paths + 1;
                },
                ItemOutcome::Carded => {
                    carded = carded + 1;
                },
                _ => {},
            }
        }
        i += 1;
    }
    assert(before.take(i as int) =~= before);
    assert(playout(list@) =~= swept_all(*catalog, cards@, before, now as int));
    if paths == 0 && carded == 0 {
        assert(playout(list@) =~= before);
        Ok(None)
    } else {
        Ok(Some((paths, carded)))
    }
}

/// A sweep changes nothing of an item but what it plays: its identity, its times, what the
/// guide says of it, and the points in the file at which it begins and ends stay.
pub proof fn a_sweep_changes_only_the_source(
    catalog: Catalog,
    cards: Seq<ErrorCard>,
    item: PlayoutModel,
    now: int,
)
    ensures
        ({
            let (after, outcome) = swept(catalog, cards, item, now);
            &&& after.id == item.id
            &&& after.start == item.start
            &&& after.finish == item.finish
            &&& after.program == item.program
            &&& after.overlay == item.overlay
            &&& after.metadata == item.metadata
            &&& after.source matches Some(PlayoutSourceModel::Local {
                in_point_ms,
                out_point_ms,
                ..
            }) ==> (item.source matches Some(PlayoutSourceModel::Local {
                in_point_ms: a,
                out_point_ms: b,
                ..
            }) && a == in_point_ms && b == out_point_ms)
            &&& outcome == ItemOutcome::Unchanged || outcome == ItemOutcome::Undrawn ==> after
                == item
        }),
{
}

/// A second sweep over what a first one left finds nothing to change: a card is not carded
/// again, and a path that was patched stands.
pub proof fn a_second_sweep_changes_nothing(
    catalog: Catalog,
    cards: Seq<ErrorCard>,
    list: Seq<PlayoutModel>,
    now: int,
    later: int,
)
    requires
        now <= later,
    ensures
        ({
            let once = swept_all(catalog, cards, list, now);
            &&& swept_all(catalog, cards, once, later) == once
            &&& outcomes(catalog, cards, once, later, ItemOutcome::PathPatched) == 0
            &&& outcomes(catalog, cards, once, later, ItemOutcome::Carded) == 0
        }),
    decreases list.len(),
{
    let once = swept_all(catalog, cards, list, now);
    assert forall|i: int| 0 <= i < list.len() implies {
        let (after, outcome) = swept(catalog, cards, #[trigger] once[i], later);
        &&& after == once[i]
        &&& outcome != ItemOutcome::PathPatched
        &&& outcome != ItemOutcome::Carded
    } by {
        let item = list[i];
        assert(once[i] == swept(catalog, cards, item, now).0);
        a_sweep_changes_only_the_source(catalog, cards, item, now);
    }
    assert(swept_all(catalog, cards, once, later) =~= once);
    if list.len() > 0 {
        a_second_sweep_changes_nothing(catalog, cards, list.drop_last(), now, later);
        assert(swept_all(catalog, cards, list.drop_last(), now) =~= once.drop_last());
        assert(once.last() == once[list.len() - 1]);
    }
}

} // verus!
