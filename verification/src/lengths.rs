//! What holds of the lengths that a window is cut by: how long an item is taken to run, what an
//! item of unknown length counts at, and what a window then takes.

use vstd::prelude::*;

use crate::catalog::Catalog;
use crate::item::ItemModel;
use crate::names::{entry_of, lemma_entry_of};
use crate::orders::at_positions;
use crate::pool::{known_lengths, mean_length, sum_lengths};
use crate::resolve::nominal;
use crate::window::{
    a_window_is_covered_once, covering, estimates, filled, hints, length_hint, looped, measured,
    stand_in, tail_estimates, total, window_take,
};

verus! {

/// Where an item begins in its file.
pub open spec fn begins_at(item: ItemModel) -> int {
    match item.in_point {
        Some(p) => p as int,
        None => 0,
    }
}

/// Whether an item ends where its author wrote, after it begins.
pub open spec fn is_clip(item: ItemModel) -> bool {
    item.out_point matches Some(p) && p > begins_at(item)
}

/// An item that is written to end after it begins is taken to run from the one point to the
/// other: what it runs, and where it begins, come to where it ends.
pub proof fn a_clip_runs_between_its_points(catalog: Option<Catalog>, item: ItemModel)
    requires
        is_clip(item),
    ensures
        length_hint(catalog, item) matches Some(d) && d > 0 && d + begins_at(item)
            == item.out_point->0,
{
}

/// An item without such points is taken to run for as long as it carries from the catalog, else
/// for as long as the catalog says under its identity; and nothing is known of it where neither
/// says anything.
pub proof fn other_items_run_as_the_catalog_says(catalog: Option<Catalog>, item: ItemModel)
    requires
        !is_clip(item),
    ensures
        item.catalog_duration is Some ==> length_hint(catalog, item) == item.catalog_duration,
        item.catalog_duration is None && catalog is Some ==> length_hint(catalog, item)
            == catalog->0.length(item.id),
        item.catalog_duration is None && catalog is None ==> length_hint(catalog, item) is None,
{
}

/// How many of some lengths are known.
pub open spec fn count_known(known: Seq<Option<u64>>) -> int
    decreases known.len(),
{
    if known.len() == 0 {
        0
    } else {
        count_known(known.drop_last()) + if known.last() is Some {
            1int
        } else {
            0
        }
    }
}

/// What those of some lengths that are known come to.
pub open spec fn sum_known(known: Seq<Option<u64>>) -> int
    decreases known.len(),
{
    if known.len() == 0 {
        0
    } else {
        sum_known(known.drop_last()) + match known.last() {
            Some(d) => d as int,
            None => 0,
        }
    }
}

proof fn lemma_measured(known: Seq<Option<u64>>)
    ensures
        measured(known).len() == count_known(known),
        total(measured(known)) == sum_known(known),
        0 <= sum_known(known) <= count_known(known) * 0xFFFF_FFFF_FFFF_FFFF,
        count_known(known) <= known.len(),
        count_known(known) == 0 <==> forall|i: int|
            0 <= i < known.len() ==> #[trigger] known[i] is None,
    decreases known.len(),
{
    if known.len() > 0 {
        let fewer = known.drop_last();
        lemma_measured(fewer);
        if let Some(d) = known.last() {
            assert(measured(fewer).push(d).drop_last() =~= measured(fewer));
            assert(known[known.len() - 1] is Some);
        } else {
            assert forall|i: int| 0 <= i < known.len() && count_known(known) == 0 implies
                #[trigger] known[i] is None by {
                if i < fewer.len() {
                    assert(fewer[i] is None);
                }
            }
            if forall|i: int| 0 <= i < known.len() ==> #[trigger] known[i] is None {
                assert forall|i: int| 0 <= i < fewer.len() implies #[trigger] fewer[i] is None by {
                    assert(known[i] is None);
                }
            }
        }
    }
}

/// What is known of a list of lengths stands, and every length that is not known counts at one
/// figure: the mean of those that are known, rounded down, or the nominal length where none is.
pub proof fn unknown_lengths_count_at_the_mean(known: Seq<Option<u64>>, nominal: u64)
    ensures
        filled(known, nominal).len() == known.len(),
        forall|i: int|
            #![trigger known[i]]
            #![trigger filled(known, nominal)[i]]
            0 <= i < known.len() ==> match known[i] {
                Some(d) => filled(known, nominal)[i] == d,
                None => {
                    let n = count_known(known);
                    let m = filled(known, nominal)[i] as int;
                    &&& n == 0 ==> m == nominal
                    &&& n > 0 ==> m * n <= sum_known(known) < (m + 1) * n
                },
            },
{
    lemma_measured(known);
    let n = count_known(known);
    let s = sum_known(known);
    if n > 0 {
        let m = s / n;
        assert(stand_in(known, nominal) == m);
        assert(0 <= m <= 0xFFFF_FFFF_FFFF_FFFF && m * n <= s < (m + 1) * n) by (nonlinear_arith)
            requires
                n > 0,
                m == s / n,
                0 <= s <= n * 0xFFFF_FFFF_FFFF_FFFF,
        ;
    }
}

/// How long clips run, one after the other.
pub open spec fn clips_run(list: Seq<ItemModel>) -> int
    decreases list.len(),
{
    if list.len() == 0 {
        0
    } else {
        clips_run(list.drop_last()) + list.last().out_point->0 - begins_at(list.last())
    }
}

proof fn lemma_clips_run(catalog: Option<Catalog>, list: Seq<ItemModel>, nominal: u64, k: int)
    requires
        forall|i: int| 0 <= i < list.len() ==> is_clip(#[trigger] list[i]),
        0 <= k <= list.len(),
    ensures
        total(estimates(catalog, list, nominal).take(k)) == clips_run(list.take(k)),
    decreases k,
{
    let lengths = estimates(catalog, list, nominal);
    if k > 0 {
        lemma_clips_run(catalog, list, nominal, k - 1);
        assert(lengths.take(k).drop_last() =~= lengths.take(k - 1));
        assert(list.take(k).drop_last() =~= list.take(k - 1));
        unknown_lengths_count_at_the_mean(hints(catalog, list), nominal);
        assert(is_clip(list[k - 1]));
        a_clip_runs_between_its_points(catalog, list[k - 1]);
        assert(hints(catalog, list)[k - 1] == length_hint(catalog, list[k - 1]));
        assert(lengths.take(k).last() == lengths[k - 1]);
    }
}

/// What a window takes of a loop of clips runs, between the points that were written, for at
/// least as long as the window unless all of the loop was taken; and with one clip fewer it
/// would not, unless one clip alone was taken.
pub proof fn a_window_is_filled_by_what_its_clips_run(
    span: Seq<ItemModel>,
    start: int,
    fill: u64,
    catalog: Option<Catalog>,
    nominal: u64,
)
    requires
        span.len() > 0,
        0 <= start < span.len(),
        forall|i: int| 0 <= i < span.len() ==> is_clip(#[trigger] span[i]),
    ensures
        ({
            let n = window_take(span, start, Some(fill), catalog, nominal);
            let played = at_positions(span, looped(0, span.len() as int, start, span.len()));
            &&& 1 <= n <= span.len()
            &&& n < span.len() ==> clips_run(played.take(n)) >= fill
            &&& n > 1 ==> clips_run(played.take(n - 1)) < fill
            &&& forall|k: int|
                0 <= k < span.len() ==> #[trigger] played[k] == span[(start + k) % (
                span.len() as int)]
        }),
{
    let all = span.len() as int;
    let order = looped(0, all, start, span.len());
    let played = at_positions(span, order);
    assert forall|k: int| 0 <= k < all implies #[trigger] played[k] == span[(start + k) % all]
        && is_clip(played[k]) by {
        vstd::arithmetic::div_mod::lemma_mod_bound(start + k, all);
        assert(is_clip(span[(start + k) % all]));
    }
    let lengths = estimates(catalog, played, nominal);
    a_window_is_covered_once(lengths, fill);
    let n = covering(lengths, fill);
    lemma_clips_run(catalog, played, nominal, n);
    lemma_clips_run(catalog, played, nominal, n - 1);
}

/// Without a window to fill, all of a loop is taken.
pub proof fn without_a_window_all_is_taken(
    span: Seq<ItemModel>,
    start: int,
    catalog: Option<Catalog>,
    nominal: u64,
)
    ensures
        window_take(span, start, None, catalog, nominal) == span.len(),
{
}

/// The sum of lengths is nothing for none, and grows by each length that is added.
pub proof fn lengths_add_up(lengths: Seq<u64>, more: u64)
    ensures
        total(Seq::<u64>::empty()) == 0,
        total(lengths.push(more)) == total(lengths) + more,
{
    assert(lengths.push(more).drop_last() =~= lengths);
}

/// A channel takes an item of unknown length to run for as many seconds as it says, but never
/// for less than one, and for half an hour where it says nothing.
pub proof fn a_channel_says_how_long_items_run(secs: u32)
    ensures
        nominal(None) == 30 * 60 * 1_000_000_000,
        secs >= 1 ==> nominal(Some(secs)) == secs * 1_000_000_000,
        nominal(Some(0)) == 1_000_000_000,
{
}

proof fn lemma_known_lengths(catalog: Catalog, ids: Seq<String>)
    ensures
        forall|id: Seq<char>|
            #![trigger entry_of(known_lengths(catalog, ids), id)]
            entry_of(known_lengths(catalog, ids), id) == (if exists|i: int|
                0 <= i < ids.len() && #[trigger] ids[i]@ == id {
                catalog.length(id)
            } else {
                None
            }),
        forall|i: int, j: int|
            0 <= i < j < known_lengths(catalog, ids).len() ==> (#[trigger] known_lengths(
                catalog,
                ids,
            )[i]).0@ != (#[trigger] known_lengths(catalog, ids)[j]).0@,
    decreases ids.len(),
{
    let table = known_lengths(catalog, ids);
    if ids.len() > 0 {
        let fewer = ids.drop_last();
        let earlier = known_lengths(catalog, fewer);
        lemma_known_lengths(catalog, fewer);
        let last = ids.last()@;
        assert(ids[ids.len() - 1]@ == last);
        lemma_entry_of(earlier, last);
        assert forall|id: Seq<char>|
            #![trigger entry_of(table, id)]
            entry_of(table, id) == (if exists|i: int| 0 <= i < ids.len() && #[trigger] ids[i]@ == id {
                catalog.length(id)
            } else {
                None
            }) by {
            let before = entry_of(earlier, id);
            if table.len() > earlier.len() {
                assert(table.drop_last() =~= earlier);
                assert(table.last() == (ids.last(), catalog.length(last)->0));
            }
            if exists|i: int| 0 <= i < fewer.len() && #[trigger] fewer[i]@ == id {
                let i = choose|i: int| 0 <= i < fewer.len() && #[trigger] fewer[i]@ == id;
                assert(ids[i]@ == id);
                assert(before == catalog.length(id));
                if id == last {
                    assert(entry_of(earlier, last) == catalog.length(last));
                }
                assert(entry_of(table, id) == catalog.length(id));
            } else if id == last {
                assert(before is None);
                assert(entry_of(table, id) == catalog.length(id));
            } else {
                assert forall|i: int| 0 <= i < ids.len() implies #[trigger] ids[i]@ != id by {
                    if i < fewer.len() {
                        assert(fewer[i]@ != id);
                    }
                }
                assert(entry_of(table, id) is None);
            }
        }
        assert forall|i: int, j: int| 0 <= i < j < table.len() implies (#[trigger] table[i]).0@ != (
        #[trigger] table[j]).0@ by {
            if j < earlier.len() {
                assert(table[i] == earlier[i] && table[j] == earlier[j]);
            } else {
                assert(table[i] == earlier[i]);
                assert(earlier[i].0@ == table[i].0@);
            }
        }
    }
}

/// What aired lately is taken to have run for as long as the catalog says of each identity. One
/// that it says nothing of counts at the mean of what it says of the others, each identity
/// counted once, rounded down, and at the nominal length where it says nothing of any.
pub proof fn what_aired_ran_as_the_catalog_says(
    catalog: Option<Catalog>,
    ids: Seq<String>,
    nominal: u64,
)
    ensures
        tail_estimates(catalog, ids, nominal).len() == ids.len(),
        forall|i: int|
            0 <= i < ids.len() && catalog is Some ==> (catalog->0.length((#[trigger] ids[i])@)
                matches Some(d) ==> tail_estimates(catalog, ids, nominal)[i] == d),
        catalog is None ==> forall|i: int|
            0 <= i < ids.len() ==> #[trigger] tail_estimates(catalog, ids, nominal)[i] == nominal,
        (catalog is Some && forall|i: int|
            0 <= i < ids.len() ==> catalog->0.length((#[trigger] ids[i])@) is None) ==> forall|
            i: int,
        |
            0 <= i < ids.len() ==> #[trigger] tail_estimates(catalog, ids, nominal)[i] == nominal,
        catalog matches Some(c) ==> {
            let known = known_lengths(c, ids);
            forall|i: int|
                0 <= i < ids.len() && c.length((#[trigger] ids[i])@) is None && known.len() > 0
                    ==> tail_estimates(catalog, ids, nominal)[i] == mean_length(known) as u64
        },
{
    if let Some(c) = catalog {
        lemma_known_lengths(c, ids);
        let known = known_lengths(c, ids);
        assert forall|i: int| 0 <= i < ids.len() implies entry_of(known, (#[trigger] ids[i])@)
            == c.length(ids[i]@) by {
            assert(ids[i]@ == ids[i]@);
        }
        if known.len() > 0 {
            lemma_entry_of(known, known[0].0@);
            assert(known[0].0@ == known[0].0@);
            assert(entry_of(known, known[0].0@) is Some);
            let i = choose|i: int| 0 <= i < ids.len() && #[trigger] ids[i]@ == known[0].0@;
            assert(c.length(ids[i]@) is Some);
        }
    }
}

/// The mean of a table of lengths is their sum shared out evenly, rounded down.
pub proof fn a_mean_shares_out_the_sum(table: Seq<(String, u64)>, more: (String, u64))
    ensures
        sum_lengths(Seq::<(String, u64)>::empty()) == 0,
        sum_lengths(table.push(more)) == sum_lengths(table) + more.1,
        table.len() > 0 ==> mean_length(table) * table.len() <= sum_lengths(table) < (mean_length(
            table,
        ) + 1) * table.len(),
        table.len() == 0 ==> mean_length(table) == 0,
{
    assert(table.push(more).drop_last() =~= table);
    if table.len() > 0 {
        let m = mean_length(table);
        let n = table.len() as int;
        let s = sum_lengths(table);
        assert(m * n <= s < (m + 1) * n) by (nonlinear_arith)
            requires
                n > 0,
                m == s / n,
        ;
    }
}

} // verus!
