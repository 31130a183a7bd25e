//! Laying a resolved list on the clock, once, end to end.

use vstd::prelude::*;

use crate::item::{items, ItemModel, ResolvedItem};
use crate::playout::{build_playout_item, playout, scheduled, PlayoutItem, PlayoutModel};
use crate::window::total;

verus! {

/// Something that puts items on the clock.
pub trait Rule {
    /// What the rule lays into a window, as mathematical values.
    spec fn laid(&self, start: int, from: int, to: int) -> Seq<PlayoutModel>;

    /// How far the rule reaches from its start.
    spec fn reach(&self) -> int;

    /// The items that lie in a window, when the rule begins at `start`.
    fn items_covering(&self, start: i128, from: i128, to: i128) -> (out: Vec<PlayoutItem>)
        requires
            start + self.reach() <= i128::MAX,
        ensures
            playout(out@) == self.laid(start as int, from as int, to as int),
    ;
}

/// The items of a list that lie in a window, each whole, when the list begins at `start` and
/// one item follows the other. One that finishes as the window begins lies before it.
pub open spec fn airing(
    list: Seq<ItemModel>,
    durations: Seq<u64>,
    start: int,
    from: int,
    to: int,
    overlay: Option<String>,
) -> Seq<PlayoutModel>
    decreases durations.len(),
{
    if durations.len() == 0 || list.len() == 0 {
        Seq::empty()
    } else {
        let finish = start + durations[0];
        let rest = airing(list.skip(1), durations.skip(1), finish, from, to, overlay);
        if start < to && finish > from {
            seq![scheduled(list[0], start, finish, overlay)] + rest
        } else {
            rest
        }
    }
}

/// A resolved list that is played once, end to end. It begins where it is told to and ends
/// when the items run out.
#[derive(Debug)]
pub struct Sequential<'a> {
    items: &'a Vec<ResolvedItem>,
    durations: &'a Vec<u64>,
    overlay: Option<String>,
}

impl<'a> Sequential<'a> {
    /// The items, as mathematical values.
    pub closed spec fn list(self) -> Seq<ItemModel> {
        items(self.items@)
    }

    /// How long each item runs, in nanoseconds.
    pub closed spec fn lengths(self) -> Seq<u64> {
        self.durations@
    }

    /// What is drawn over the items.
    pub closed spec fn drawn_over(self) -> Option<String> {
        self.overlay
    }

    #[verifier::type_invariant]
    spec fn paired(self) -> bool {
        self.items@.len() == self.durations@.len()
    }

    /// The list, and how long each item of it runs.
    pub fn new(list: &'a Vec<ResolvedItem>, durations: &'a Vec<u64>) -> (out: Sequential<'a>)
        requires
            list.len() == durations.len(),
        ensures
            out.list() == items(list@),
            out.lengths() == durations@,
            out.drawn_over() == None::<String>,
    {
        Sequential { items: list, durations, overlay: None }
    }

    /// The list with an overlay drawn over it.
    pub fn with_overlay(self, overlay: Option<String>) -> (out: Sequential<'a>)
        ensures
            out.list() == self.list(),
            out.lengths() == self.lengths(),
            out.drawn_over() == overlay,
    {
        proof {
            use_type_invariant(&self);
        }
        Sequential { items: self.items, durations: self.durations, overlay }
    }

    /// How long the whole list runs, in nanoseconds: how far forward one generation reaches.
    pub fn total_duration(&self) -> (out: u128)
        ensures
            out == total(self.lengths()),
    {
        add_up(self.durations)
    }
}

/// Adds up the lengths of items.
pub fn add_up(durations: &Vec<u64>) -> (out: u128)
    ensures
        out == total(durations@),
{
    let mut sum: u128 = 0;
    let mut i: usize = 0;
    assert(durations@.take(0) =~= Seq::<u64>::empty());
    while i < durations.len()
        invariant
            i <= durations.len(),
            sum == total(durations@.take(i as int)),
            sum <= i * u64::MAX,
        decreases durations.len() - i,
    {
        assert(durations@.take(i + 1).drop_last() =~= durations@.take(i as int));
        assert(durations@.take(i + 1).last() == durations@[i as int]);
        assert((i + 1) * u64::MAX == i * u64::MAX + u64::MAX) by (nonlinear_arith);
        assert((i + 1) * u64::MAX <= 0x1_0000_0000_0000_0000 * u64::MAX) by (nonlinear_arith)
            requires
                i + 1 <= 0x1_0000_0000_0000_0000,
        ;
        sum = sum + durations[i] as u128;
        i += 1;
    }
    assert(durations@.take(i as int) =~= durations@);
    sum
}

/// A list is as long as its first item and what follows it.
pub proof fn lemma_total_first(lengths: Seq<u64>)
    requires
        lengths.len() > 0,
    ensures
        total(lengths) == lengths[0] + total(lengths.skip(1)),
        total(lengths.skip(1)) >= 0,
    decreases lengths.len(),
{
    if lengths.len() == 1 {
        assert(lengths.skip(1) =~= Seq::<u64>::empty());
        assert(lengths.drop_last() =~= Seq::<u64>::empty());
    } else {
        lemma_total_first(lengths.drop_last());
        assert(lengths.drop_last().skip(1) =~= lengths.skip(1).drop_last());
        assert(lengths.skip(1).last() == lengths.last());
    }
}

proof fn lemma_nothing_after(
    list: Seq<ItemModel>,
    durations: Seq<u64>,
    start: int,
    from: int,
    to: int,
    overlay: Option<String>,
)
    requires
        start >= to,
    ensures
        airing(list, durations, start, from, to, overlay) == Seq::<PlayoutModel>::empty(),
    decreases durations.len(),
{
    if durations.len() > 0 && list.len() > 0 {
        lemma_nothing_after(
            list.skip(1),
            durations.skip(1),
            start + durations[0],
            from,
            to,
            overlay,
        );
    }
}

/// The items of a list that lie in a window; none lie in a window that ends before it begins.
pub open spec fn airing_in(
    list: Seq<ItemModel>,
    durations: Seq<u64>,
    start: int,
    from: int,
    to: int,
    overlay: Option<String>,
) -> Seq<PlayoutModel> {
    if to <= from {
        Seq::empty()
    } else {
        airing(list, durations, start, from, to, overlay)
    }
}

impl Rule for Sequential<'_> {
    open spec fn laid(&self, start: int, from: int, to: int) -> Seq<PlayoutModel> {
        airing_in(self.list(), self.lengths(), start, from, to, self.drawn_over())
    }

    open spec fn reach(&self) -> int {
        total(self.lengths())
    }

    fn items_covering(&self, start: i128, from: i128, to: i128) -> (out: Vec<PlayoutItem>) {
        proof {
            use_type_invariant(self);
        }
        let mut out: Vec<PlayoutItem> = Vec::new();
        assert(playout(out@) =~= Seq::<PlayoutModel>::empty());
        if to <= from {
            return out;
        }
        let ghost list = self.list();
        let ghost all = self.lengths();
        let ghost over = self.drawn_over();
        let ghost want = airing(list, all, start as int, from as int, to as int, over);
        let mut at: i128 = start;
        let mut i: usize = 0;
        assert(list.skip(0) =~= list);
        assert(all.skip(0) =~= all);
        assert(want =~= playout(out@) + want);
        while i < self.durations.len() && at < to
            invariant
                i <= self.durations.len(),
                self.items@.len() == self.durations@.len(),
                list == items(self.items@),
                all == self.durations@,
                over == self.overlay,
                at + total(all.skip(i as int)) <= i128::MAX,
                want == playout(out@) + airing(
                    list.skip(i as int),
                    all.skip(i as int),
                    at as int,
                    from as int,
                    to as int,
                    over,
                ),
            decreases self.durations.len() - i,
        {
            proof {
                lemma_total_first(all.skip(i as int));
                assert(all.skip(i as int).skip(1) =~= all.skip(i + 1));
                assert(list.skip(i as int).skip(1) =~= list.skip(i + 1));
                assert(list.skip(i as int)[0] == self.items@[i as int]@);
            }
            let finish: i128 = at + self.durations[i] as i128;
            let ghost rest = airing(
                list.skip(i + 1),
                all.skip(i + 1),
                finish as int,
                from as int,
                to as int,
                over,
            );
            if finish > from {
                let one: PlayoutItem = build_playout_item(
                    &self.items[i],
                    at,
                    finish,
                    &self.overlay,
                );
                let ghost before = playout(out@);
                out.push(one);
                assert(playout(out@) =~= before.push(one@));
                assert(before + (seq![one@] + rest) =~= playout(out@) + rest);
            }
            at = finish;
            i += 1;
        }
        proof {
            if i < self.durations.len() {
                lemma_nothing_after(
                    list.skip(i as int),
                    all.skip(i as int),
                    at as int,
                    from as int,
                    to as int,
                    over,
                );
            } else {
                assert(all.skip(i as int).len() == 0);
            }
            assert(want =~= playout(out@));
        }
        out
    }
}

/// What lies in a window lies there without a gap: an item begins as the one before it
/// finishes, every item lies in the window at least in part, and the first begins no later
/// than the window, unless the list itself begins later.
pub proof fn a_window_has_no_gap(
    list: Seq<ItemModel>,
    durations: Seq<u64>,
    start: int,
    from: int,
    to: int,
    overlay: Option<String>,
)
    requires
        from < to,
    ensures
        ({
            let out = airing(list, durations, start, from, to, overlay);
            &&& forall|i: int|
                0 <= i < out.len() ==> (#[trigger] out[i]).start < to && out[i].finish > from
            &&& forall|i: int, j: int|
                0 <= i && j == i + 1 && j < out.len() ==> (#[trigger] out[i]).finish
                    == (#[trigger] out[j]).start
            &&& out.len() > 0 ==> out[0].start <= from || out[0].start == start
        }),
    decreases durations.len(),
{
    if durations.len() > 0 && list.len() > 0 {
        let finish = start + durations[0];
        a_window_has_no_gap(list.skip(1), durations.skip(1), finish, from, to, overlay);
        if finish > from {
            lemma_begins(list.skip(1), durations.skip(1), finish, from, to, overlay);
        }
        if start >= to {
            lemma_nothing_after(list, durations, start, from, to, overlay);
        }
    }
}

proof fn lemma_begins(
    list: Seq<ItemModel>,
    durations: Seq<u64>,
    start: int,
    from: int,
    to: int,
    overlay: Option<String>,
)
    requires
        from < start,
    ensures
        airing(list, durations, start, from, to, overlay).len() > 0 ==> airing(
            list,
            durations,
            start,
            from,
            to,
            overlay,
        )[0].start == start,
    decreases durations.len(),
{
    if durations.len() > 0 && list.len() > 0 && start >= to {
        lemma_nothing_after(list, durations, start, from, to, overlay);
    }
}

/// A window as long as the list, from where the list begins, holds the whole list once: laid
/// end to end, generations of one list are a loop. An item that takes no time lies in no
/// window that begins with it.
pub proof fn a_whole_pass_plays_the_list_once(
    list: Seq<ItemModel>,
    durations: Seq<u64>,
    start: int,
    overlay: Option<String>,
)
    requires
        list.len() == durations.len(),
        forall|i: int| 0 <= i < durations.len() ==> #[trigger] durations[i] > 0,
    ensures
        ({
            let out = airing(list, durations, start, start, start + total(durations), overlay);
            &&& out.len() == list.len()
            &&& forall|i: int| 0 <= i < out.len() ==> (#[trigger] out[i]).id == list[i].id
        }),
{
    lemma_pass(list, durations, start, start, start + total(durations), overlay);
}

proof fn lemma_pass(
    list: Seq<ItemModel>,
    durations: Seq<u64>,
    start: int,
    from: int,
    to: int,
    overlay: Option<String>,
)
    requires
        list.len() == durations.len(),
        forall|i: int| 0 <= i < durations.len() ==> #[trigger] durations[i] > 0,
        from <= start,
        to == start + total(durations),
    ensures
        ({
            let out = airing(list, durations, start, from, to, overlay);
            &&& out.len() == list.len()
            &&& forall|i: int| 0 <= i < out.len() ==> (#[trigger] out[i]).id == list[i].id
        }),
    decreases durations.len(),
{
    if durations.len() > 0 {
        let finish = start + durations[0];
        lemma_total_first(durations);
        assert forall|i: int| 0 <= i < durations.skip(1).len() implies #[trigger] durations.skip(
            1,
        )[i] > 0 by {
            assert(durations[i + 1] > 0);
        }
        assert(durations[0] > 0);
        lemma_pass(list.skip(1), durations.skip(1), finish, from, to, overlay);
        let rest = airing(list.skip(1), durations.skip(1), finish, from, to, overlay);
        let out = airing(list, durations, start, from, to, overlay);
        assert forall|i: int| 0 <= i < out.len() implies (#[trigger] out[i]).id == list[i].id by {
            if i > 0 {
                assert(out[i] == rest[i - 1]);
                assert(list.skip(1)[i - 1] == list[i]);
            }
        }
    }
}

/// The item of a list that a time into it falls in, and how far into the item.
pub open spec fn phase(durations: Seq<u64>, into: int) -> (int, int)
    decreases durations.len(),
{
    if durations.len() == 0 {
        (0, 0)
    } else if into < durations[0] {
        (0, into)
    } else {
        let (at, left) = phase(durations.skip(1), into - durations[0]);
        (at + 1, left)
    }
}

proof fn lemma_phase(durations: Seq<u64>, into: int)
    requires
        0 <= into < total(durations),
    ensures
        0 <= phase(durations, into).0 < durations.len(),
        0 <= phase(durations, into).1 < durations[phase(durations, into).0],
        total(durations.take(phase(durations, into).0)) + phase(durations, into).1 == into,
    decreases durations.len(),
{
    if durations.len() > 0 {
        lemma_total_first(durations);
        if into < durations[0] {
            assert(durations.take(0) =~= Seq::<u64>::empty());
        } else {
            let rest = durations.skip(1);
            lemma_phase(rest, into - durations[0]);
            let at = phase(rest, into - durations[0]).0;
            lemma_total_first(durations.take(at + 1));
            assert(durations.take(at + 1).skip(1) =~= rest.take(at));
        }
    }
}

/// Where a channel that had been playing a list on repeat since `anchor` stands at `now`.
pub open spec fn phase_since(anchor: int, now: int, durations: Seq<u64>) -> (int, int) {
    if total(durations) <= 0 || now <= anchor {
        (0, 0)
    } else {
        phase(durations, (now - anchor) % total(durations))
    }
}

/// Where a channel that had been playing a list on repeat since `anchor` stands at `now`: how
/// many whole items to skip, and how many nanoseconds into the next one it is. An anchor in
/// the future and a list that takes no time start at the top.
pub fn phase_at(anchor: i128, now: i128, durations: &Vec<u64>) -> (out: (usize, u64))
    requires
        now - anchor <= i128::MAX,
    ensures
        (out.0 as int, out.1 as int) == phase_since(anchor as int, now as int, durations@),
        total(durations@) > 0 && now > anchor ==> {
            &&& out.0 < durations.len()
            &&& out.1 < durations@[out.0 as int]
            &&& total(durations@.take(out.0 as int)) + out.1 == (now - anchor) % total(durations@)
        },
{
    let whole: u128 = add_up(durations);
    if whole == 0 || now <= anchor {
        return (0, 0);
    }
    let since: u128 = (now - anchor) as u128;
    let mut left: u128 = since % whole;
    let ghost into = left as int;
    proof {
        lemma_phase(durations@, into);
    }
    let mut i: usize = 0;
    assert(durations@.skip(0) =~= durations@);
    while i < durations.len()
        invariant
            i <= durations.len(),
            0 <= left < total(durations@.skip(i as int)),
            phase(durations@, into) == (
                i + phase(durations@.skip(i as int), left as int).0,
                phase(durations@.skip(i as int), left as int).1,
            ),
            into == (now - anchor) % total(durations@),
            total(durations@) > 0,
            now > anchor,
            0 <= into < total(durations@),
        decreases durations.len() - i,
    {
        proof {
            lemma_total_first(durations@.skip(i as int));
            assert(durations@.skip(i as int).skip(1) =~= durations@.skip(i + 1));
        }
        if left < durations[i] as u128 {
            proof {
                lemma_phase(durations@, into);
            }
            return (i, left as u64);
        }
        left = left - durations[i] as u128;
        i += 1;
    }
    assert(durations@.skip(i as int) =~= Seq::<u64>::empty());
    (0, 0)
}

} // verus!
