//! Cutting an authored list to the airtime still wanted, and carrying on from there.

use vstd::prelude::*;

use crate::catalog::Catalog;
use crate::constrain::{ints, Limits};
use crate::item::{items, ItemModel, ResolvedItem};
use crate::names::{entry_of, lookup};
use crate::orders::{at_positions, is_selection, take_at};
use crate::pool::{known_lengths, mean_length, pool_runtimes};

verus! {

/// How long an item runs, as far as that can be told before its file is read: by its own
/// in and out points, else by what it carries from the catalog, else by the catalog's row.
pub open spec fn length_hint(catalog: Option<Catalog>, item: ItemModel) -> Option<u64> {
    let start = match item.in_point {
        Some(p) => p,
        None => 0,
    };
    match item.out_point {
        Some(end) if end > start => Some((end - start) as u64),
        _ => match (item.catalog_duration, catalog) {
            (Some(d), _) => Some(d),
            (None, Some(catalog)) => catalog.length(item.id),
            (None, None) => None,
        },
    }
}

/// The lengths that are known, in order.
pub open spec fn measured(hints: Seq<Option<u64>>) -> Seq<u64>
    decreases hints.len(),
{
    if hints.len() == 0 {
        Seq::empty()
    } else {
        let earlier = measured(hints.drop_last());
        match hints.last() {
            Some(d) => earlier.push(d),
            None => earlier,
        }
    }
}

/// The sum of a list of lengths.
pub open spec fn total(lengths: Seq<u64>) -> int
    decreases lengths.len(),
{
    if lengths.len() == 0 {
        0
    } else {
        total(lengths.drop_last()) + lengths.last()
    }
}

/// What an item of unknown length counts at: the mean of the known lengths, rounded down, or
/// the nominal length when none is known.
pub open spec fn stand_in(hints: Seq<Option<u64>>, nominal: u64) -> int {
    let known = measured(hints);
    if known.len() == 0 {
        nominal as int
    } else {
        total(known) / (known.len() as int)
    }
}

/// A list of lengths with what is not known filled in.
pub open spec fn filled(known: Seq<Option<u64>>, nominal: u64) -> Seq<u64> {
    known.map_values(
        |h: Option<u64>|
            match h {
                Some(d) => d,
                None => stand_in(known, nominal) as u64,
            },
    )
}

/// What is known of the lengths of a list of items.
pub open spec fn hints(catalog: Option<Catalog>, list: Seq<ItemModel>) -> Seq<Option<u64>> {
    list.map_values(|i: ItemModel| length_hint(catalog, i))
}

/// How long each item of a list is taken to run.
pub open spec fn estimates(catalog: Option<Catalog>, list: Seq<ItemModel>, nominal: u64) -> Seq<
    u64,
> {
    filled(hints(catalog, list), nominal)
}

/// What stands behind a reference to a catalog that may be absent.
pub open spec fn behind(catalog: Option<&Catalog>) -> Option<Catalog> {
    match catalog {
        Some(c) => Some(*c),
        None => None,
    }
}

fn hint_of(catalog: Option<&Catalog>, item: &ResolvedItem) -> (out: Option<u64>)
    ensures
        out == length_hint(behind(catalog), item@),
{
    let start: u64 = match item.in_point {
        Some(p) => p,
        None => 0,
    };
    match item.out_point {
        Some(end) => {
            if end > start {
                return Some(end - start);
            }
        },
        None => {},
    }
    match (item.catalog_duration, catalog) {
        (Some(d), _) => Some(d),
        (None, Some(c)) => c.length_for(&item.id),
        (None, None) => None,
    }
}

/// Fills what is not known of a list of lengths: with the mean of what is, or with the
/// nominal length when nothing is.
fn fill_unknown(known: &Vec<Option<u64>>, nominal: u64) -> (out: Vec<u64>)
    ensures
        out@ == filled(known@, nominal),
{
    let ghost all = known@;
    let mut sum: u128 = 0;
    let mut count: usize = 0;
    let mut i: usize = 0;
    while i < known.len()
        invariant
            i <= known.len(),
            all == known@,
            count <= i,
            count == measured(all.take(i as int)).len(),
            sum == total(measured(all.take(i as int))),
            sum <= count * 0xFFFF_FFFF_FFFF_FFFF,
        decreases known.len() - i,
    {
        let hint: Option<u64> = known[i];
        proof {
            let now = all.take(i + 1);
            assert(now.drop_last() =~= all.take(i as int));
            let before = measured(all.take(i as int));
            match hint {
                Some(d) => {
                    assert(measured(now) == before.push(d));
                    assert(before.push(d).drop_last() =~= before);
                },
                None => {},
            }
        }
        match hint {
            Some(d) => {
                sum += d as u128;
                count += 1;
            },
            None => {},
        }
        i += 1;
    }
    assert(all.take(i as int) =~= all);
    let mean: u64 = if count == 0 {
        nominal
    } else {
        let m: u128 = sum / (count as u128);
        assert(m <= 0xFFFF_FFFF_FFFF_FFFF) by (nonlinear_arith)
            requires
                m == sum / (count as u128),
                count > 0,
                sum <= count * 0xFFFF_FFFF_FFFF_FFFF,
        ;
        m as u64
    };
    let mut out: Vec<u64> = Vec::new();
    let mut k: usize = 0;
    while k < known.len()
        invariant
            k <= known.len(),
            mean == stand_in(known@, nominal),
            out@ =~= filled(known@, nominal).take(k as int),
        decreases known.len() - k,
    {
        out.push(
            match known[k] {
                Some(d) => d,
                None => mean,
            },
        );
        k += 1;
    }
    assert(out@ =~= filled(known@, nominal));
    out
}

/// How long each item of a list is taken to run: what is not known counts at the mean of
/// what is, and at the nominal length when nothing is.
pub fn estimated_runtimes(
    list: &Vec<ResolvedItem>,
    catalog: Option<&Catalog>,
    nominal: u64,
) -> (out: Vec<u64>)
    ensures
        out@ == estimates(behind(catalog), items(list@), nominal),
{
    let ghost all = hints(behind(catalog), items(list@));
    let mut known: Vec<Option<u64>> = Vec::new();
    let mut i: usize = 0;
    while i < list.len()
        invariant
            i <= list.len(),
            all == hints(behind(catalog), items(list@)),
            known@ =~= all.take(i as int),
        decreases list.len() - i,
    {
        assert(items(list@)[i as int] == list@[i as int]@);
        known.push(hint_of(catalog, &list[i]));
        i += 1;
    }
    assert(known@ =~= all);
    fill_unknown(&known, nominal)
}

/// How long each of a list of identities is taken to run.
pub open spec fn tail_estimates(catalog: Option<Catalog>, ids: Seq<String>, nominal: u64) -> Seq<
    u64,
> {
    let known = match catalog {
        Some(c) => known_lengths(c, ids),
        None => Seq::empty(),
    };
    let mean = if known.len() == 0 {
        nominal
    } else {
        mean_length(known) as u64
    };
    ids.map_values(
        |id: String|
            match entry_of(known, id@) {
                Some(d) => d,
                None => mean,
            },
    )
}

/// How long each of a list of identities is taken to run: by the catalog's rows, else at the
/// mean of what they say, else at the nominal length.
pub fn estimated_durations_for_ids(
    ids: &Vec<String>,
    catalog: Option<&Catalog>,
    nominal: u64,
) -> (out: Vec<u64>)
    ensures
        out@ == tail_estimates(behind(catalog), ids@, nominal),
{
    let (known, average): (Vec<(String, u64)>, u64) = match catalog {
        Some(c) => pool_runtimes(c, ids),
        None => (Vec::new(), 0),
    };
    let mean: u64 = if known.len() == 0 {
        nominal
    } else {
        average
    };
    let ghost want = tail_estimates(behind(catalog), ids@, nominal);
    let mut out: Vec<u64> = Vec::new();
    let mut i: usize = 0;
    while i < ids.len()
        invariant
            i <= ids.len(),
            want == ids@.map_values(
                |id: String|
                    match entry_of(known@, id@) {
                        Some(d) => d,
                        None => mean,
                    },
            ),
            out@ =~= want.take(i as int),
        decreases ids.len() - i,
    {
        out.push(
            match lookup(&known, &ids[i]) {
                Some(d) => *d,
                None => mean,
            },
        );
        i += 1;
    }
    assert(out@ =~= want);
    out
}

/// How many items from item `i` on it takes to cover `fill`, when `laid` is covered already.
pub open spec fn covering_from(lengths: Seq<u64>, fill: u64, i: int, laid: int) -> int
    decreases lengths.len() - i,
{
    if i >= lengths.len() {
        if lengths.len() == 0 {
            1
        } else {
            lengths.len() as int
        }
    } else if laid + lengths[i] >= fill {
        i + 1
    } else {
        covering_from(lengths, fill, i + 1, laid + lengths[i])
    }
}

/// How many items from the top it takes to cover `fill`.
pub open spec fn covering(lengths: Seq<u64>, fill: u64) -> int {
    covering_from(lengths, fill, 0, 0)
}

/// How many items from the top it takes to cover `fill`. The item that crosses the boundary
/// counts, and there is always one: a generation that laid nothing would never move on.
pub fn items_covering(lengths: &Vec<u64>, fill: u64) -> (out: usize)
    ensures
        out == covering(lengths@, fill),
        1 <= out,
        lengths.len() > 0 ==> out <= lengths.len(),
{
    let mut laid: u128 = 0;
    let mut i: usize = 0;
    while i < lengths.len()
        invariant
            i <= lengths.len(),
            laid <= i * 0xFFFF_FFFF_FFFF_FFFF,
            covering(lengths@, fill) == covering_from(lengths@, fill, i as int, laid as int),
        decreases lengths.len() - i,
    {
        laid += lengths[i] as u128;
        if laid >= fill as u128 {
            return i + 1;
        }
        i += 1;
    }
    if lengths.len() == 0 {
        1
    } else {
        lengths.len()
    }
}

proof fn lemma_covering_from(lengths: Seq<u64>, fill: u64, i: int)
    requires
        0 <= i <= lengths.len(),
        lengths.len() > 0,
        i > 0 ==> total(lengths.take(i)) < fill,
    ensures
        ({
            let n = covering_from(lengths, fill, i, total(lengths.take(i)));
            &&& 1 <= n <= lengths.len()
            &&& n > 1 ==> total(lengths.take(n - 1)) < fill
            &&& n < lengths.len() ==> total(lengths.take(n)) >= fill
        }),
    decreases lengths.len() - i,
{
    if i < lengths.len() {
        assert(lengths.take(i + 1).drop_last() =~= lengths.take(i));
        if total(lengths.take(i)) + lengths[i] < fill {
            lemma_covering_from(lengths, fill, i + 1);
        }
    } else {
        assert(lengths.take(i).drop_last() =~= lengths.take(i - 1));
    }
}

/// What a window takes of a list is the shortest run from its top that covers the airtime
/// asked for, or the whole list when that does not; and it is never nothing.
pub proof fn a_window_is_covered_once(lengths: Seq<u64>, fill: u64)
    requires
        lengths.len() > 0,
    ensures
        1 <= covering(lengths, fill) <= lengths.len(),
        covering(lengths, fill) > 1 ==> total(lengths.take(covering(lengths, fill) - 1)) < fill,
        covering(lengths, fill) < lengths.len() ==> total(lengths.take(covering(lengths, fill)))
            >= fill,
{
    assert(lengths.take(0) =~= Seq::<u64>::empty());
    lemma_covering_from(lengths, fill, 0);
}

/// The positions from `from` on that a loop of `total` items plays, `laid` of them, starting
/// at the item `start` of the loop.
pub open spec fn looped(from: int, total: int, start: int, laid: nat) -> Seq<int> {
    Seq::new(laid, |k: int| from + (start + k) % total)
}

/// The positions of a list of `n` items of which the stretch from `from` to `to` is a loop
/// that is cut to `laid` items, starting at the item `start` of the loop.
pub open spec fn cut_order(n: int, from: int, to: int, start: int, laid: nat) -> Seq<int> {
    Seq::new(from as nat, |i: int| i) + looped(from, to - from, start, laid) + Seq::new(
        (n - to) as nat,
        |i: int| to + i,
    )
}

/// How many items of a loop a window takes.
pub open spec fn window_take(
    span: Seq<ItemModel>,
    start: int,
    fill: Option<u64>,
    catalog: Option<Catalog>,
    nominal: u64,
) -> int {
    match fill {
        None => span.len() as int,
        Some(f) => covering(
            estimates(
                catalog,
                at_positions(span, looped(0, span.len() as int, start, span.len())),
                nominal,
            ),
            f,
        ),
    }
}

proof fn lemma_looped(from: int, total: int, start: int, laid: nat)
    requires
        0 <= from,
        0 < total,
        0 <= start < total,
        laid <= total,
    ensures
        looped(from, total, start, laid).no_duplicates(),
        forall|k: int|
            0 <= k < laid ==> from <= #[trigger] looped(from, total, start, laid)[k] < from + total,
{
    let order = looped(from, total, start, laid);
    assert forall|k: int| 0 <= k < laid implies from <= #[trigger] order[k] < from + total by {
        vstd::arithmetic::div_mod::lemma_mod_bound(start + k, total);
    }
    assert forall|i: int, j: int| 0 <= i < j < laid implies order[i] != order[j] by {
        lemma_loop_distinct(start + i, start + j, total);
    }
}

proof fn lemma_loop_distinct(a: int, b: int, n: int)
    requires
        0 < n,
        a < b < a + n,
    ensures
        a % n != b % n,
{
    vstd::arithmetic::div_mod::lemma_fundamental_div_mod(a, n);
    vstd::arithmetic::div_mod::lemma_fundamental_div_mod(b, n);
    let p = a / n;
    let q = b / n;
    if a % n == b % n {
        assert(b - a == n * (q - p)) by (nonlinear_arith)
            requires
                a == n * p + a % n,
                b == n * q + b % n,
                a % n == b % n,
        ;
        assert(n * (q - p) <= 0 || n * (q - p) >= n) by (nonlinear_arith)
            requires
                0 < n,
        ;
    }
}

/// What `cut_order` gives is a selection of the list's positions.
pub proof fn lemma_cut_order(n: int, from: int, to: int, start: int, laid: nat)
    requires
        0 <= from < to <= n,
        0 <= start < to - from,
        laid <= to - from,
    ensures
        is_selection(cut_order(n, from, to, start, laid), n),
{
    lemma_looped(from, to - from, start, laid);
    let order = cut_order(n, from, to, start, laid);
    let mid = looped(from, to - from, start, laid);
    assert forall|j: int| 0 <= j < order.len() implies 0 <= #[trigger] order[j] < n by {
        if from <= j < from + laid {
            assert(order[j] == mid[j - from]);
        }
    }
    assert forall|i: int, j: int| 0 <= i < j < order.len() implies order[i] != order[j] by {
        if from <= i < from + laid {
            assert(order[i] == mid[i - from]);
        }
        if from <= j < from + laid {
            assert(order[j] == mid[j - from]);
        }
    }
}

/// A list that was cut: its items, each with its rule and with the field it separates on,
/// and the place in the loop where the next generation starts.
#[derive(Debug)]
pub struct Cut {
    pub items: Vec<ResolvedItem>,
    pub limits: Vec<Limits>,
    pub fields: Vec<Option<String>>,
    pub position: usize,
}

/// Seats the stretch of a list from `from` to `to` where the last generation left off, and
/// cuts it to the airtime still wanted; nothing else of the list moves. An empty stretch is
/// left as it is.
pub fn cut_entries_window(
    list: Vec<ResolvedItem>,
    limits: Vec<Limits>,
    fields: Vec<Option<String>>,
    from: usize,
    to: usize,
    position: usize,
    fill: Option<u64>,
    catalog: Option<&Catalog>,
    nominal: u64,
) -> (out: Cut)
    requires
        from <= to <= list.len(),
        list.len() == limits.len(),
        list.len() == fields.len(),
    ensures
        from == to ==> out.items@ == list@ && out.limits@ == limits@ && out.fields@ == fields@
            && out.position == position,
        from < to ==> ({
            let total = to - from;
            let start = position as int % total;
            let laid = window_take(
                items(list@).subrange(from as int, to as int),
                start,
                fill,
                behind(catalog),
                nominal,
            );
            let order = cut_order(list@.len() as int, from as int, to as int, start, laid as nat);
            &&& 1 <= laid <= total
            &&& out.items@ == at_positions(list@, order)
            &&& out.limits@ == at_positions(limits@, order)
            &&& out.fields@ == at_positions(fields@, order)
            &&& out.position == (start + laid) % total
        }),
        out.items.len() == out.limits.len(),
        out.items.len() == out.fields.len(),
{
    if from == to {
        return Cut { items: list, limits, fields, position };
    }
    let ghost all = items(list@);
    let n: usize = list.len();
    let total: usize = to - from;
    let start: usize = position % total;
    let laid: usize = match fill {
        Some(f) => {
            let lengths: Vec<u64> = span_lengths(&list, from, to, start, catalog, nominal);
            items_covering(&lengths, f)
        },
        None => total,
    };
    let mut order: Vec<usize> = Vec::new();
    let mut i: usize = 0;
    while i < from
        invariant
            i <= from,
            ints(order@) =~= Seq::new(i as nat, |j: int| j),
        decreases from - i,
    {
        let ghost was = ints(order@);
        order.push(i);
        assert(ints(order@) =~= was.push(i as int));
        i += 1;
    }
    let ghost head = ints(order@);
    let mut k: usize = 0;
    let mut at: usize = start;
    proof {
        vstd::arithmetic::div_mod::lemma_small_mod(start as nat, total as nat);
    }
    while k < laid
        invariant
            k <= laid <= total,
            total == to - from,
            start < total,
            at < total,
            k < total ==> at == (start + k) % (total as int),
            ints(order@) =~= head + looped(from as int, total as int, start as int, k as nat),
        decreases laid - k,
    {
        let ghost was = ints(order@);
        order.push(from + at);
        assert(ints(order@) =~= was.push(from + at));
        k += 1;
        proof {
            if k < total {
                crate::draw::lemma_next_modulo(start as int, k as int, total as int);
            }
        }
        at = if at + 1 == total {
            0
        } else {
            at + 1
        };
    }
    let ghost mid = ints(order@);
    let mut r: usize = to;
    while r < n
        invariant
            to <= r <= n,
            ints(order@) =~= mid + Seq::new((r - to) as nat, |j: int| to + j),
        decreases n - r,
    {
        let ghost was = ints(order@);
        order.push(r);
        assert(ints(order@) =~= was.push(r as int));
        r += 1;
    }
    proof {
        lemma_cut_order(n as int, from as int, to as int, start as int, laid as nat);
        assert(ints(order@) =~= cut_order(
            n as int,
            from as int,
            to as int,
            start as int,
            laid as nat,
        ));
    }
    let next: usize = if laid >= total - start {
        laid - (total - start)
    } else {
        start + laid
    };
    proof {
        if laid >= total - start {
            vstd::arithmetic::div_mod::lemma_mod_add_multiples_vanish(
                start + laid - total,
                total as int,
            );
            vstd::arithmetic::div_mod::lemma_small_mod((start + laid - total) as nat, total as nat);
        } else {
            vstd::arithmetic::div_mod::lemma_small_mod((start + laid) as nat, total as nat);
        }
    }
    Cut {
        items: take_at(list, &order),
        limits: take_at(limits, &order),
        fields: take_at(fields, &order),
        position: next,
    }
}

/// How long each item of a loop is taken to run, from its item `start` on.
fn span_lengths(
    list: &Vec<ResolvedItem>,
    from: usize,
    to: usize,
    start: usize,
    catalog: Option<&Catalog>,
    nominal: u64,
) -> (out: Vec<u64>)
    requires
        from < to <= list.len(),
        start < to - from,
    ensures
        ({
            let span = items(list@).subrange(from as int, to as int);
            out@ == estimates(
                behind(catalog),
                at_positions(span, looped(0, span.len() as int, start as int, span.len())),
                nominal,
            )
        }),
        out.len() == to - from,
{
    let total: usize = to - from;
    let ghost span = items(list@).subrange(from as int, to as int);
    let ghost turned = at_positions(span, looped(0, total as int, start as int, total as nat));
    let ghost all = hints(behind(catalog), turned);
    let mut known: Vec<Option<u64>> = Vec::new();
    let mut k: usize = 0;
    let mut at: usize = start;
    proof {
        vstd::arithmetic::div_mod::lemma_small_mod(start as nat, total as nat);
    }
    while k < total
        invariant
            k <= total,
            from < to <= list.len(),
            total == to - from,
            start < total,
            at < total,
            k < total ==> at == (start + k) % (total as int),
            span == items(list@).subrange(from as int, to as int),
            turned == at_positions(span, looped(0, total as int, start as int, total as nat)),
            all == hints(behind(catalog), turned),
            known@ =~= all.take(k as int),
        decreases total - k,
    {
        assert(turned[k as int] == list@[from + at]@);
        known.push(hint_of(catalog, &list[from + at]));
        k += 1;
        proof {
            if k < total {
                crate::draw::lemma_next_modulo(start as int, k as int, total as int);
            }
        }
        at = if at + 1 == total {
            0
        } else {
            at + 1
        };
    }
    assert(known@ =~= all);
    fill_unknown(&known, nominal)
}

/// Two windows after one another play a loop straight through: the items of the second, each
/// after the last of the first, are those that a single longer window would have played.
pub proof fn windows_continue_without_gap_or_repeat(
    from: int,
    total: int,
    start: int,
    first: nat,
    second: nat,
)
    requires
        0 < total,
        0 <= start < total,
    ensures
        looped(from, total, start, first) + looped(
            from,
            total,
            (start + first) % total,
            second,
        ) == looped(from, total, start, first + second),
{
    let both = looped(from, total, start, first) + looped(
        from,
        total,
        (start + first) % total,
        second,
    );
    assert forall|k: int| 0 <= k < first + second implies #[trigger] both[k] == looped(
        from,
        total,
        start,
        first + second,
    )[k] by {
        if k >= first {
            let i = k - first;
            vstd::arithmetic::div_mod::lemma_add_mod_noop_right(i, start + first, total);
        }
    }
    assert(both =~= looped(from, total, start, first + second));
}

} // verus!
