//! Adjacency constraints: how soon an item, or an item that shares a value with it, may
//! come round again.

use vstd::prelude::*;

use crate::names::{contains_name, copy_names, has_name};

verus! {

/// How far back a repeat of the same item is looked for.
#[derive(Clone, Copy, Debug, PartialEq, Eq, Structural)]
pub enum RepeatGap {
    /// The last so many items.
    Positions(usize),
    /// The items that started less than so many nanoseconds ago.
    Duration(u64),
}

/// The adjacency rule of one item.
#[derive(Clone, Copy, Debug, PartialEq, Eq, Structural)]
pub struct Limits {
    pub no_repeat: RepeatGap,
    /// The number of items back in which none may share a value with this one.
    pub separate: usize,
}

impl Limits {
    /// Whether the rule forbids nothing.
    pub open spec fn free(self) -> bool {
        &&& match self.no_repeat {
            RepeatGap::Positions(n) => n == 0,
            RepeatGap::Duration(d) => d == 0,
        }
        &&& self.separate == 0
    }

    /// Whether the rule forbids nothing.
    pub fn is_unconstrained(&self) -> (out: bool)
        ensures
            out == self.free(),
    {
        let repeats: bool = match self.no_repeat {
            RepeatGap::Positions(n) => n == 0,
            RepeatGap::Duration(d) => d == 0,
        };
        repeats && self.separate == 0
    }
}

/// What the adjacency rule compares of one item: its identity, the values of the field
/// that is kept apart, and how long it runs, in nanoseconds.
#[derive(Debug)]
pub struct ItemKeys {
    pub id: String,
    pub group: Vec<String>,
    pub duration: u64,
}

/// What the adjacency rule compares of one item, as mathematical values.
pub struct Key {
    pub id: Seq<char>,
    pub group: Seq<String>,
    pub duration: nat,
}

impl View for ItemKeys {
    type V = Key;

    open spec fn view(&self) -> Key {
        Key { id: self.id@, group: self.group@, duration: self.duration as nat }
    }
}

/// What the adjacency rule compares of each item of a list.
pub open spec fn keys(items: Seq<ItemKeys>) -> Seq<Key> {
    items.map_values(|k: ItemKeys| k@)
}

/// Whether two lists of values have one in common.
pub open spec fn share_value(a: Seq<String>, b: Seq<String>) -> bool {
    exists|i: int| 0 <= i < a.len() && has_name(b, #[trigger] a[i]@)
}

/// Whether two lists of values have one in common.
pub fn shares_value(a: &Vec<String>, b: &Vec<String>) -> (out: bool)
    ensures
        out == share_value(a@, b@),
{
    let mut i: usize = 0;
    while i < a.len()
        invariant
            i <= a.len(),
            forall|j: int| 0 <= j < i ==> !has_name(b@, #[trigger] a@[j]@),
        decreases a.len() - i,
    {
        if contains_name(b, &a[i]) {
            assert(has_name(b@, a@[i as int]@));
            return true;
        }
        i += 1;
    }
    false
}

/// The time from the start of item `i` to the end of the list.
pub open spec fn elapsed(recent: Seq<Key>, i: int) -> int
    decreases recent.len() - i,
{
    if 0 <= i < recent.len() {
        recent[i].duration + elapsed(recent, i + 1)
    } else {
        0
    }
}

/// Whether item `i` of the list is still near enough to forbid a repeat of it next.
pub open spec fn blocks_repeat(recent: Seq<Key>, i: int, gap: RepeatGap) -> bool {
    match gap {
        RepeatGap::Positions(n) => recent.len() - i <= n,
        RepeatGap::Duration(d) => elapsed(recent, i) < d,
    }
}

/// Whether item `i` of the list is still near enough for the rule to look at it.
pub open spec fn reached(recent: Seq<Key>, i: int, limits: Limits) -> bool {
    blocks_repeat(recent, i, limits.no_repeat) || recent.len() - i <= limits.separate
}

/// Whether item `i` of the list forbids `item` from coming next.
pub open spec fn clashes_at(
    recent: Seq<Key>,
    i: int,
    id: Seq<char>,
    group: Seq<String>,
    limits: Limits,
) -> bool {
    ||| blocks_repeat(recent, i, limits.no_repeat) && recent[i].id == id
    ||| recent.len() - i <= limits.separate && share_value(recent[i].group, group)
}

/// Whether some item of the list forbids an item of that identity and with those values
/// from coming next.
pub open spec fn clashes(
    recent: Seq<Key>,
    id: Seq<char>,
    group: Seq<String>,
    limits: Limits,
) -> bool {
    exists|i: int| 0 <= i < recent.len() && #[trigger] clashes_at(recent, i, id, group, limits)
}

/// Whether what came lately forbids `item` from coming next.
pub fn conflicts_with_recent(recent: &Vec<ItemKeys>, item: &ItemKeys, limits: Limits) -> (out: bool)
    ensures
        out == clashes(keys(recent@), item.id@, item.group@, limits),
{
    let n: usize = recent.len();
    let mut i: usize = n;
    let mut since: u128 = 0;
    while i > 0
        invariant
            i <= n,
            n == recent.len(),
            since == elapsed(keys(recent@), i as int),
            since <= (n - i) * 0xFFFF_FFFF_FFFF_FFFF,
            forall|j: int|
                i <= j < n ==> !#[trigger] clashes_at(keys(recent@), j, item.id@, item.group@, limits),
        decreases i,
    {
        i -= 1;
        since += recent[i].duration as u128;
        let near: bool = match limits.no_repeat {
            RepeatGap::Positions(p) => n - i <= p,
            RepeatGap::Duration(d) => since < d as u128,
        };
        if near && recent[i].id == item.id {
            assert(clashes_at(keys(recent@), i as int, item.id@, item.group@, limits));
            return true;
        }
        if n - i <= limits.separate && shares_value(&recent[i].group, &item.group) {
            assert(clashes_at(keys(recent@), i as int, item.id@, item.group@, limits));
            return true;
        }
    }
    false
}

/// How many items from the end of the list the rule still looks at, given that it looks at
/// the last `k` of them.
pub open spec fn look_back(recent: Seq<Key>, limits: Limits, k: int) -> int
    decreases recent.len() - k,
{
    if 0 <= k < recent.len() && reached(recent, recent.len() - 1 - k, limits) {
        look_back(recent, limits, k + 1)
    } else {
        k
    }
}

/// How many items from the end of the list the rule still looks at.
pub open spec fn needed(recent: Seq<Key>, limits: Limits) -> int {
    look_back(recent, limits, 0)
}

proof fn lemma_look_back(recent: Seq<Key>, limits: Limits, k: int)
    requires
        0 <= k <= recent.len(),
    ensures
        k <= look_back(recent, limits, k) <= recent.len(),
        forall|i: int|
            recent.len() - look_back(recent, limits, k) <= i < recent.len() - k ==> #[trigger] reached(
                recent,
                i,
                limits,
            ),
        look_back(recent, limits, k) < recent.len() ==> !reached(
            recent,
            recent.len() - 1 - look_back(recent, limits, k),
            limits,
        ),
    decreases recent.len() - k,
{
    if k < recent.len() && reached(recent, recent.len() - 1 - k, limits) {
        lemma_look_back(recent, limits, k + 1);
    }
}

/// An item is at least as long ago as every later one.
pub proof fn lemma_elapsed_monotone(recent: Seq<Key>, i: int, j: int)
    requires
        0 <= i <= j,
    ensures
        elapsed(recent, i) >= elapsed(recent, j) >= 0,
    decreases recent.len() - i,
{
    if i < recent.len() {
        if i < j {
            lemma_elapsed_monotone(recent, i + 1, j);
        } else {
            lemma_elapsed_monotone(recent, i + 1, j + 1);
        }
    }
}

/// What `needed` gives: the rule looks at exactly that many items from the end.
pub proof fn lemma_needed(recent: Seq<Key>, limits: Limits)
    ensures
        0 <= needed(recent, limits) <= recent.len(),
        forall|i: int|
            0 <= i < recent.len() ==> (#[trigger] reached(recent, i, limits) <==> recent.len()
                - needed(recent, limits) <= i),
{
    lemma_look_back(recent, limits, 0);
    let k = needed(recent, limits);
    assert forall|i: int| 0 <= i < recent.len() implies (#[trigger] reached(recent, i, limits)
        <==> recent.len() - k <= i) by {
        if i < recent.len() - k {
            lemma_elapsed_monotone(recent, i, recent.len() - 1 - k);
            assert(!reached(recent, recent.len() - 1 - k, limits));
        }
    }
}

/// How many items from the end of the list the rule still looks at.
pub fn history_needed(recent: &Vec<ItemKeys>, limits: Limits) -> (keep: usize)
    ensures
        keep == needed(keys(recent@), limits),
        keep <= recent.len(),
{
    let n: usize = recent.len();
    let mut keep: usize = 0;
    let mut since: u128 = 0;
    while keep < n
        invariant
            keep <= n,
            n == recent.len(),
            since == elapsed(keys(recent@), n - keep),
            since <= keep * 0xFFFF_FFFF_FFFF_FFFF,
            needed(keys(recent@), limits) == look_back(keys(recent@), limits, keep as int),
        decreases n - keep,
    {
        let i: usize = n - 1 - keep;
        let total: u128 = since + recent[i].duration as u128;
        let near: bool = match limits.no_repeat {
            RepeatGap::Positions(p) => n - i <= p,
            RepeatGap::Duration(d) => total < d as u128,
        };
        assert(total == elapsed(keys(recent@), i as int));
        if !near && n - i > limits.separate {
            assert(!reached(keys(recent@), i as int, limits));
            return keep;
        }
        assert(reached(keys(recent@), i as int, limits));
        since = total;
        keep += 1;
    }
    keep
}

proof fn lemma_elapsed_skip(recent: Seq<Key>, cut: int, i: int)
    requires
        0 <= cut <= recent.len(),
        0 <= i,
    ensures
        elapsed(recent.skip(cut), i) == elapsed(recent, cut + i),
    decreases recent.len() - i,
{
    if i < recent.len() - cut {
        lemma_elapsed_skip(recent, cut, i + 1);
    }
}

/// What is no longer reached stays out of reach however much is aired after it.
proof fn lemma_unreached_stays(
    recent: Seq<Key>,
    more: Seq<Key>,
    i: int,
    limits: Limits,
)
    requires
        0 <= i < recent.len(),
        !reached(recent, i, limits),
    ensures
        !reached(recent + more, i, limits),
{
    lemma_elapsed_append(recent, more, i);
}

proof fn lemma_elapsed_append(recent: Seq<Key>, more: Seq<Key>, i: int)
    requires
        0 <= i,
    ensures
        elapsed(recent + more, i) >= elapsed(recent, i) >= 0,
    decreases recent.len() + more.len() - i,
{
    lemma_elapsed_monotone(recent, i, i);
    if i < recent.len() + more.len() {
        lemma_elapsed_append(recent, more, i + 1);
    }
}

/// Forgetting everything but the last `needed` items changes no later answer: whatever
/// airs afterwards, an item is forbidden by the shortened list exactly when it is
/// forbidden by the whole one.
pub proof fn forgetting_changes_no_answer(
    recent: Seq<Key>,
    more: Seq<Key>,
    id: Seq<char>,
    group: Seq<String>,
    limits: Limits,
)
    ensures
        clashes(recent.skip(recent.len() - needed(recent, limits)) + more, id, group, limits)
            == clashes(recent + more, id, group, limits),
{
    let cut = recent.len() - needed(recent, limits);
    lemma_needed(recent, limits);
    let whole = recent + more;
    let short = recent.skip(cut) + more;
    assert(short =~= whole.skip(cut));
    assert forall|i: int| 0 <= i < short.len() implies #[trigger] clashes_at(
        short,
        i,
        id,
        group,
        limits,
    ) == clashes_at(whole, cut + i, id, group, limits) by {
        lemma_elapsed_skip(whole, cut, i);
        assert(short[i] == whole[cut + i]);
    }
    if clashes(whole, id, group, limits) {
        let i = choose|i: int|
            0 <= i < whole.len() && #[trigger] clashes_at(whole, i, id, group, limits);
        if i < cut {
            assert(!reached(recent, i, limits));
            lemma_unreached_stays(recent, more, i, limits);
        }
        assert(clashes_at(short, i - cut, id, group, limits));
    }
    if clashes(short, id, group, limits) {
        let i = choose|i: int|
            0 <= i < short.len() && #[trigger] clashes_at(short, i, id, group, limits);
        assert(clashes_at(whole, cut + i, id, group, limits));
    }
}

/// A rule that forbids nothing forbids nothing, whatever came lately.
pub proof fn free_rule_never_clashes(
    recent: Seq<Key>,
    id: Seq<char>,
    group: Seq<String>,
    limits: Limits,
)
    requires
        limits.free(),
    ensures
        !clashes(recent, id, group, limits),
{
    assert forall|i: int| 0 <= i < recent.len() implies !#[trigger] clashes_at(
        recent,
        i,
        id,
        group,
        limits,
    ) by {
        lemma_elapsed_monotone(recent, i, i);
    }
}

impl ItemKeys {
    /// The same keys again.
    pub fn copy(&self) -> (out: ItemKeys)
        ensures
            out@ == self@,
    {
        ItemKeys { id: self.id.clone(), group: copy_names(&self.group), duration: self.duration }
    }
}

/// Whether some item of the list may not follow `placed`.
pub open spec fn item_clashes(
    items: Seq<Key>,
    limits: Seq<Limits>,
    i: int,
    placed: Seq<Key>,
) -> bool {
    clashes(placed, items[i].id, items[i].group, limits[i])
}

/// Where, from `at` on, the first of the items `left` stands that may follow `placed`.
pub open spec fn first_fit(
    items: Seq<Key>,
    limits: Seq<Limits>,
    left: Seq<int>,
    placed: Seq<Key>,
    at: int,
) -> Option<int>
    decreases left.len() - at,
{
    if at >= left.len() {
        None
    } else if !item_clashes(items, limits, left[at], placed) {
        Some(at)
    } else {
        first_fit(items, limits, left, placed, at + 1)
    }
}

/// Which of the items `left` follows `placed`: the first that may, or the first of all when
/// none may.
pub open spec fn next_up(
    items: Seq<Key>,
    limits: Seq<Limits>,
    left: Seq<int>,
    placed: Seq<Key>,
) -> int {
    match first_fit(items, limits, left, placed, 0) {
        Some(at) => at,
        None => 0,
    }
}

/// The order in which the items `left` follow `placed`.
pub open spec fn arranged(
    items: Seq<Key>,
    limits: Seq<Limits>,
    left: Seq<int>,
    placed: Seq<Key>,
) -> Seq<int>
    decreases left.len(),
{
    if left.len() == 0 {
        Seq::empty()
    } else {
        let at = next_up(items, limits, left, placed);
        if 0 <= at < left.len() {
            seq![left[at]] + arranged(
                items,
                limits,
                left.remove(at),
                placed.push(items[left[at]]),
            )
        } else {
            Seq::empty()
        }
    }
}

/// How many items of `order` may not follow what stands before them.
pub open spec fn violations(
    items: Seq<Key>,
    limits: Seq<Limits>,
    order: Seq<int>,
    placed: Seq<Key>,
) -> int
    decreases order.len(),
{
    if order.len() == 0 {
        0
    } else {
        let first = if item_clashes(items, limits, order[0], placed) {
            1int
        } else {
            0int
        };
        first + violations(items, limits, order.drop_first(), placed.push(items[order[0]]))
    }
}

/// The positions of a list of `n` items, in order.
pub open spec fn upto(n: nat) -> Seq<int> {
    Seq::new(n, |i: int| i)
}

/// An order for a list of items, and how many of its neighbourhoods break the rule.
#[derive(Debug)]
pub struct Arrangement {
    pub order: Vec<usize>,
    pub unresolved: usize,
}

/// A list of positions as mathematical values.
pub open spec fn ints(order: Seq<usize>) -> Seq<int> {
    order.map_values(|i: usize| i as int)
}

/// Orders a list so that each item may follow what stands before it, as far as that goes:
/// the next item is always the first one left that may come next, or the first one left
/// when none may. `preceding` is what came before the list.
pub fn order_constrained(
    items: &Vec<ItemKeys>,
    limits: &Vec<Limits>,
    preceding: &Vec<ItemKeys>,
) -> (out: Arrangement)
    requires
        items.len() == limits.len(),
    ensures
        ints(out.order@) == arranged(
            keys(items@),
            limits@,
            upto(items@.len()),
            keys(preceding@),
        ),
        out.unresolved == violations(
            keys(items@),
            limits@,
            ints(out.order@),
            keys(preceding@),
        ),
{
    let ghost all = keys(items@);
    let mut placed: Vec<ItemKeys> = Vec::new();
    let mut i: usize = 0;
    while i < preceding.len()
        invariant
            i <= preceding.len(),
            keys(placed@) =~= keys(preceding@).take(i as int),
        decreases preceding.len() - i,
    {
        let ghost was = keys(placed@);
        placed.push(preceding[i].copy());
        assert(keys(placed@) =~= was.push(keys(preceding@)[i as int]));
        i += 1;
    }
    assert(keys(preceding@).take(i as int) =~= keys(preceding@));
    let mut left: Vec<usize> = Vec::new();
    let mut k: usize = 0;
    while k < items.len()
        invariant
            k <= items.len(),
            left@ =~= Seq::new(k as nat, |j: int| j as usize),
        decreases items.len() - k,
    {
        left.push(k);
        k += 1;
    }
    assert(ints(left@) =~= upto(items@.len()));
    let ghost full = arranged(all, limits@, upto(items@.len()), keys(preceding@));
    let ghost count = violations(all, limits@, full, keys(preceding@));
    let mut order: Vec<usize> = Vec::new();
    let mut unresolved: usize = 0;
    assert(ints(order@) + full =~= full);
    while left.len() > 0
        invariant
            all == keys(items@),
            items.len() == limits.len(),
            forall|j: int| 0 <= j < left.len() ==> #[trigger] left@[j] < items.len(),
            order.len() + left.len() == items.len(),
            unresolved <= order.len(),
            full == ints(order@) + arranged(all, limits@, ints(left@), keys(placed@)),
            count == unresolved + violations(
                all,
                limits@,
                arranged(all, limits@, ints(left@), keys(placed@)),
                keys(placed@),
            ),
        decreases left.len(),
    {
        let ghost was = ints(left@);
        let ghost before = keys(placed@);
        let ghost shown = ints(order@);
        let mut at: usize = 0;
        while at < left.len() && conflicts_with_recent(
            &placed,
            &items[left[at]],
            limits[left[at]],
        )
            invariant
                all == keys(items@),
                items.len() == limits.len(),
                at <= left.len(),
                was == ints(left@),
                before == keys(placed@),
                forall|j: int| 0 <= j < left.len() ==> #[trigger] left@[j] < items.len(),
                first_fit(all, limits@, was, before, 0) == first_fit(
                    all,
                    limits@,
                    was,
                    before,
                    at as int,
                ),
            decreases left.len() - at,
        {
            assert(all[left@[at as int] as int] == items@[left@[at as int] as int]@);
            assert(item_clashes(all, limits@, was[at as int], before));
            at += 1;
        }
        let clash: bool = at == left.len();
        if clash {
            at = 0;
        }
        proof {
            if !clash {
                assert(all[left@[at as int] as int] == items@[left@[at as int] as int]@);
                assert(!item_clashes(all, limits@, was[at as int], before));
            } else {
                lemma_first_fit_none(all, limits@, was, before, 0);
            }
            assert(next_up(all, limits@, was, before) == at);
        }
        let i: usize = left.remove(at);
        assert(ints(left@) =~= was.remove(at as int));
        order.push(i);
        placed.push(items[i].copy());
        if clash {
            unresolved += 1;
        }
        proof {
            let rest = arranged(all, limits@, ints(left@), keys(placed@));
            assert(keys(placed@) =~= before.push(all[i as int]));
            assert(arranged(all, limits@, was, before) == seq![i as int] + rest);
            assert((seq![i as int] + rest).drop_first() =~= rest);
            assert(shown + (seq![i as int] + rest) =~= ints(order@) + rest);
        }
    }
    assert(full =~= ints(order@));
    Arrangement { order, unresolved }
}

proof fn lemma_first_fit_none(
    items: Seq<Key>,
    limits: Seq<Limits>,
    left: Seq<int>,
    placed: Seq<Key>,
    at: int,
)
    requires
        0 <= at,
    ensures
        first_fit(items, limits, left, placed, at) is None ==> forall|j: int|
            at <= j < left.len() ==> item_clashes(items, limits, #[trigger] left[j], placed),
        first_fit(items, limits, left, placed, at) matches Some(j) ==> at <= j < left.len()
            && !item_clashes(items, limits, left[j], placed),
    decreases left.len() - at,
{
    if at < left.len() {
        lemma_first_fit_none(items, limits, left, placed, at + 1);
    }
}

/// An arrangement holds exactly the items it was given, each as often.
pub proof fn arranging_is_a_permutation(
    items: Seq<Key>,
    limits: Seq<Limits>,
    left: Seq<int>,
    placed: Seq<Key>,
)
    ensures
        arranged(items, limits, left, placed).len() == left.len(),
        arranged(items, limits, left, placed).to_multiset() =~= left.to_multiset(),
    decreases left.len(),
{
    broadcast use vstd::seq_lib::group_to_multiset_ensures;

    if left.len() > 0 {
        let at = next_up(items, limits, left, placed);
        lemma_first_fit_none(items, limits, left, placed, 0);
        let next = placed.push(items[left[at]]);
        let rest = arranged(items, limits, left.remove(at), next);
        arranging_is_a_permutation(items, limits, left.remove(at), next);
        vstd::seq_lib::lemma_multiset_commutative(seq![left[at]], rest);
        assert(left.to_multiset() =~= left.remove(at).to_multiset().insert(left[at]));
        assert(seq![left[at]].to_multiset() =~= vstd::multiset::Multiset::singleton(left[at])) by {
            assert(seq![left[at]] =~= Seq::<int>::empty().push(left[at]));
        }
    } else {
        assert(arranged(items, limits, left, placed) =~= left);
    }
}

/// A list that already keeps the rule is left as it is.
pub proof fn a_legal_list_is_left_alone(
    items: Seq<Key>,
    limits: Seq<Limits>,
    left: Seq<int>,
    placed: Seq<Key>,
)
    requires
        violations(items, limits, left, placed) == 0,
    ensures
        arranged(items, limits, left, placed) == left,
    decreases left.len(),
{
    if left.len() > 0 {
        let next = placed.push(items[left[0]]);
        lemma_violations_nonnegative(items, limits, left.drop_first(), next);
        assert(first_fit(items, limits, left, placed, 0) == Some(0int));
        assert(left.remove(0) =~= left.drop_first());
        a_legal_list_is_left_alone(items, limits, left.drop_first(), next);
        assert(seq![left[0]] + left.drop_first() =~= left);
    }
}

proof fn lemma_violations_nonnegative(
    items: Seq<Key>,
    limits: Seq<Limits>,
    order: Seq<int>,
    placed: Seq<Key>,
)
    ensures
        violations(items, limits, order, placed) >= 0,
    decreases order.len(),
{
    if order.len() > 0 {
        lemma_violations_nonnegative(
            items,
            limits,
            order.drop_first(),
            placed.push(items[order[0]]),
        );
    }
}

/// A rule that forbids nothing leaves every list as it is.
pub proof fn a_free_rule_leaves_the_list_alone(
    items: Seq<Key>,
    limits: Seq<Limits>,
    left: Seq<int>,
    placed: Seq<Key>,
)
    requires
        forall|j: int| 0 <= j < left.len() ==> limits[#[trigger] left[j]].free(),
    ensures
        arranged(items, limits, left, placed) == left,
        violations(items, limits, left, placed) == 0,
    decreases left.len(),
{
    if left.len() > 0 {
        let i = left[0];
        free_rule_never_clashes(placed, items[i].id, items[i].group, limits[i]);
        a_free_rule_leaves_the_list_alone(
            items,
            limits,
            left.drop_first(),
            placed.push(items[i]),
        );
        a_legal_list_is_left_alone(items, limits, left, placed);
    }
}

} // verus!
