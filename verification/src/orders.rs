//! Orders of a list: which of its positions come, and in what order.

use vstd::prelude::*;

use crate::constrain::{ints, upto};

verus! {

/// The items of a list at the positions of `order`.
pub open spec fn at_positions<T>(items: Seq<T>, order: Seq<int>) -> Seq<T> {
    order.map_values(|i: int| items[i])
}

/// Whether `order` names positions of a list of `n` items, none of them twice.
pub open spec fn is_selection(order: Seq<int>, n: int) -> bool {
    &&& order.no_duplicates()
    &&& forall|j: int| 0 <= j < order.len() ==> 0 <= #[trigger] order[j] < n
}

/// An order with those of the first `n` positions that it lacks appended, as they stood.
pub open spec fn completed(order: Seq<int>, n: int) -> Seq<int>
    decreases n,
{
    if n <= 0 {
        order
    } else {
        let earlier = completed(order, n - 1);
        if order.contains(n - 1) {
            earlier
        } else {
            earlier.push(n - 1)
        }
    }
}

/// What `completed` gives: a selection that holds what the order held and the first `k`
/// positions.
pub proof fn lemma_completed(order: Seq<int>, n: int, k: int)
    requires
        0 <= k <= n,
        is_selection(order, n),
    ensures
        is_selection(completed(order, k), n),
        forall|i: int|
            order.contains(i) || 0 <= i < k <==> #[trigger] completed(order, k).contains(i),
    decreases k,
{
    if k > 0 {
        lemma_completed(order, n, k - 1);
        let earlier = completed(order, k - 1);
        let all = completed(order, k);
        assert forall|i: int| order.contains(i) || 0 <= i < k <==> #[trigger] all.contains(i) by {
            if all.contains(i) {
                let j = choose|j: int| 0 <= j < all.len() && all[j] == i;
                if j < earlier.len() {
                    assert(earlier[j] == i);
                    assert(earlier.contains(i));
                }
            }
            if order.contains(i) || 0 <= i < k {
                if i == k - 1 && !order.contains(i) {
                    assert(all[all.len() - 1] == i);
                } else {
                    assert(earlier.contains(i));
                    let j = choose|j: int| 0 <= j < earlier.len() && earlier[j] == i;
                    assert(all[j] == i);
                }
            }
        }
        if !order.contains(k - 1) {
            assert(!earlier.contains(k - 1));
        }
    }
}

/// Completing an order makes it hold every position exactly once.
pub proof fn completing_keeps_every_item(order: Seq<int>, n: nat)
    requires
        is_selection(order, n as int),
    ensures
        is_selection(completed(order, n as int), n as int),
        completed(order, n as int).len() == n,
        forall|i: int| 0 <= i < n ==> #[trigger] completed(order, n as int).contains(i),
{
    let all = completed(order, n as int);
    lemma_completed(order, n as int, n as int);
    assert(all.to_set() =~= upto(n).to_set()) by {
        assert forall|i: int| all.to_set().contains(i) <==> upto(n).to_set().contains(i) by {
            if all.contains(i) {
                let j = choose|j: int| 0 <= j < all.len() && all[j] == i;
                assert(upto(n)[i] == i);
            }
            if upto(n).contains(i) {
                assert(all.contains(i));
            }
        }
    }
    all.unique_seq_to_set();
    upto(n).unique_seq_to_set();
}

/// Takes the items at the positions of `order` out of a list, in that order.
pub fn take_at<T>(items: Vec<T>, order: &Vec<usize>) -> (out: Vec<T>)
    requires
        is_selection(ints(order@), items@.len() as int),
    ensures
        out@ == at_positions(items@, ints(order@)),
{
    let ghost all = items@;
    let mut rest: Vec<T> = items;
    let mut slots: Vec<Option<T>> = Vec::new();
    while rest.len() > 0
        invariant
            rest.len() + slots.len() == all.len(),
            rest@ == all.take(rest.len() as int),
            forall|j: int|
                0 <= j < slots.len() ==> #[trigger] slots@[j] == Some(all[all.len() - 1 - j]),
        decreases rest.len(),
    {
        let ghost n = rest.len() as int;
        let item: Option<T> = rest.pop();
        assert(rest@ =~= all.take(n - 1));
        slots.push(item);
    }
    let n: usize = slots.len();
    let mut out: Vec<T> = Vec::new();
    let mut i: usize = 0;
    while i < order.len()
        invariant
            i <= order.len(),
            n == all.len(),
            slots.len() == n,
            is_selection(ints(order@), n as int),
            out@ =~= at_positions(all, ints(order@).take(i as int)),
            forall|j: int|
                0 <= j < n && !ints(order@).take(i as int).contains(n - 1 - j)
                    ==> #[trigger] slots@[j] == Some(all[n - 1 - j]),
        decreases order.len() - i,
    {
        let ghost past = ints(order@).take(i as int);
        assert(ints(order@)[i as int] == order@[i as int]);
        let at: usize = n - 1 - order[i];
        assert(!past.contains(order@[i as int] as int)) by {
            if past.contains(order@[i as int] as int) {
                let k = choose|k: int| 0 <= k < past.len() && past[k] == order@[i as int];
                assert(ints(order@)[k] == ints(order@)[i as int]);
            }
        }
        let ghost before = slots@;
        let item: Option<T> = slots[at].take();
        assert(item == Some(all[order@[i as int] as int]));
        match item {
            Some(item) => out.push(item),
            None => {},
        }
        i += 1;
        proof {
            let now = ints(order@).take(i as int);
            assert(now =~= past.push(order@[i - 1] as int));
            assert forall|j: int| 0 <= j < n && !now.contains(n - 1 - j) implies #[trigger] slots@[j]
                == Some(all[n - 1 - j]) by {
                assert(now[i - 1] == order@[i - 1]);
                if past.contains(n - 1 - j) {
                    let k = choose|k: int| 0 <= k < past.len() && past[k] == n - 1 - j;
                    assert(now[k] == n - 1 - j);
                }
                assert(slots@[j] == before[j]);
            }
        }
    }
    assert(ints(order@).take(i as int) =~= ints(order@));
    out
}

/// The positions at which a text comes first in a list.
pub open spec fn first_of_each(ids: Seq<Seq<char>>) -> Seq<int>
    decreases ids.len(),
{
    if ids.len() == 0 {
        Seq::empty()
    } else {
        let earlier = first_of_each(ids.drop_last());
        if ids.drop_last().contains(ids.last()) {
            earlier
        } else {
            earlier.push(ids.len() - 1)
        }
    }
}

/// What `first_of_each` gives: a selection, with its positions in order, that holds exactly
/// the positions before which the text does not come.
pub proof fn first_of_each_keeps_one_of_each(ids: Seq<Seq<char>>)
    ensures
        is_selection(first_of_each(ids), ids.len() as int),
        forall|i: int|
            0 <= i < ids.len() ==> (#[trigger] first_of_each(ids).contains(i) <==> !ids.take(
                i,
            ).contains(ids[i])),
        forall|i: int, j: int|
            0 <= i < j < first_of_each(ids).len() ==> #[trigger] first_of_each(ids)[i]
                < #[trigger] first_of_each(ids)[j],
        forall|i: int, j: int|
            0 <= i < j < first_of_each(ids).len() ==> ids[#[trigger] first_of_each(ids)[i]]
                != ids[#[trigger] first_of_each(ids)[j]],
    decreases ids.len(),
{
    if ids.len() > 0 {
        let shorter = ids.drop_last();
        first_of_each_keeps_one_of_each(shorter);
        let earlier = first_of_each(shorter);
        let all = first_of_each(ids);
        let n = ids.len() - 1;
        assert(ids.take(n) =~= shorter);
        assert forall|i: int| 0 <= i < ids.len() implies (#[trigger] all.contains(i)
            <==> !ids.take(i).contains(ids[i])) by {
            if i < n {
                assert(ids.take(i) =~= shorter.take(i));
                assert(shorter[i] == ids[i]);
                assert(earlier.contains(i) <==> !shorter.take(i).contains(shorter[i]));
                if earlier.contains(i) {
                    let k = choose|k: int| 0 <= k < earlier.len() && earlier[k] == i;
                    assert(all[k] == i);
                }
                if all.contains(i) {
                    let k = choose|k: int| 0 <= k < all.len() && all[k] == i;
                    assert(earlier[k] == i);
                }
            } else {
                if all.contains(i) && shorter.contains(ids.last()) {
                    let k = choose|k: int| 0 <= k < earlier.len() && earlier[k] == i;
                    assert(earlier[k] < n);
                }
                if !shorter.contains(ids.last()) {
                    assert(all[all.len() - 1] == n);
                }
            }
        }
        assert forall|i: int, j: int| 0 <= i < j < all.len() implies ids[#[trigger] all[i]]
            != ids[#[trigger] all[j]] by {
            if j < earlier.len() {
                assert(shorter[earlier[i]] != shorter[earlier[j]]);
            } else {
                assert(shorter[earlier[i]] == ids[all[i]]);
            }
        }
    }
}

/// The first position of a text, from position `i` on, that is not taken.
pub open spec fn first_free(ids: Seq<Seq<char>>, id: Seq<char>, taken: Seq<int>, i: int) -> Option<
    int,
>
    decreases ids.len() - i,
{
    if i >= ids.len() {
        None
    } else if ids[i] == id && !taken.contains(i) {
        Some(i)
    } else {
        first_free(ids, id, taken, i + 1)
    }
}

/// The positions of a list in the order that `ordered` names its texts; a text that is named
/// again takes the next position that holds it.
pub open spec fn ranked(ids: Seq<Seq<char>>, ordered: Seq<Seq<char>>) -> Seq<int>
    decreases ordered.len(),
{
    if ordered.len() == 0 {
        Seq::empty()
    } else {
        let earlier = ranked(ids, ordered.drop_last());
        match first_free(ids, ordered.last(), earlier, 0) {
            Some(i) => earlier.push(i),
            None => earlier,
        }
    }
}

/// The positions of a list in the order that `ordered` names its texts, then those it does
/// not name, as they stood.
pub open spec fn reordered(ids: Seq<Seq<char>>, ordered: Seq<Seq<char>>) -> Seq<int> {
    completed(ranked(ids, ordered), ids.len() as int)
}

proof fn lemma_first_free(ids: Seq<Seq<char>>, id: Seq<char>, taken: Seq<int>, i: int)
    requires
        0 <= i,
    ensures
        first_free(ids, id, taken, i) matches Some(k) ==> i <= k < ids.len() && ids[k] == id
            && !taken.contains(k),
    decreases ids.len() - i,
{
    if i < ids.len() {
        lemma_first_free(ids, id, taken, i + 1);
    }
}

/// What `ranked` gives is a selection of the list's positions.
pub proof fn lemma_ranked(ids: Seq<Seq<char>>, ordered: Seq<Seq<char>>)
    ensures
        is_selection(ranked(ids, ordered), ids.len() as int),
    decreases ordered.len(),
{
    if ordered.len() > 0 {
        lemma_ranked(ids, ordered.drop_last());
        lemma_first_free(ids, ordered.last(), ranked(ids, ordered.drop_last()), 0);
    }
}

/// Following an order loses no item and repeats none: every position of the list comes
/// exactly once, whatever the order names.
pub proof fn reordering_keeps_every_item(ids: Seq<Seq<char>>, ordered: Seq<Seq<char>>)
    ensures
        is_selection(reordered(ids, ordered), ids.len() as int),
        reordered(ids, ordered).len() == ids.len(),
        forall|i: int| 0 <= i < ids.len() ==> #[trigger] reordered(ids, ordered).contains(i),
{
    lemma_ranked(ids, ordered);
    completing_keeps_every_item(ranked(ids, ordered), ids.len());
}

} // verus!
