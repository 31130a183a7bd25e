//! Things that start at an instant, in the order in which they start.

use vstd::prelude::*;

verus! {

/// Something that starts at an instant.
pub trait Timed: Sized {
    /// When it starts.
    spec fn at(self) -> int;

    /// When it starts.
    fn starts(&self) -> (out: i128)
        ensures
            out == self.at(),
    ;
}

/// Whether things stand in the order in which they start.
pub open spec fn in_start_order<T: Timed>(list: Seq<T>) -> bool {
    forall|i: int, j: int|
        0 <= i < j < list.len() ==> (#[trigger] list[i]).at() <= (#[trigger] list[j]).at()
}

/// Where something that starts then goes: after all that starts no later.
pub open spec fn slot<T: Timed>(list: Seq<T>, start: int) -> int
    decreases list.len(),
{
    if list.len() == 0 {
        0
    } else if list.last().at() <= start {
        list.len() as int
    } else {
        slot(list.drop_last(), start)
    }
}

proof fn lemma_slot<T: Timed>(list: Seq<T>, start: int)
    requires
        in_start_order(list),
    ensures
        0 <= slot(list, start) <= list.len(),
        forall|i: int|
            0 <= i < list.len() ==> ((#[trigger] list[i]).at() <= start <==> i < slot(list, start)),
    decreases list.len(),
{
    if list.len() > 0 {
        if list.last().at() <= start {
            assert forall|i: int| 0 <= i < list.len() implies (#[trigger] list[i]).at() <= start by {
                if i < list.len() - 1 {
                    assert(list[i].at() <= list[list.len() - 1].at());
                }
            }
        } else {
            lemma_slot(list.drop_last(), start);
            assert forall|i: int| 0 <= i < list.len() implies ((#[trigger] list[i]).at() <= start
                <==> i < slot(list, start)) by {
                if i < list.len() - 1 {
                    assert(list.drop_last()[i] == list[i]);
                }
            }
        }
    }
}

/// Things in the order in which they start; those that start together keep their order.
pub open spec fn ordered<T: Timed>(list: Seq<T>) -> Seq<T>
    decreases list.len(),
{
    if list.len() == 0 {
        list
    } else {
        let earlier = ordered(list.drop_last());
        earlier.insert(slot(earlier, list.last().at()), list.last())
    }
}

/// Ordering keeps every thing, and leaves them in the order in which they start.
pub proof fn ordering_keeps_everything<T: Timed>(list: Seq<T>)
    ensures
        in_start_order(ordered(list)),
        ordered(list).len() == list.len(),
        ordered(list).to_multiset() == list.to_multiset(),
    decreases list.len(),
{
    if list.len() > 0 {
        let shorter = list.drop_last();
        ordering_keeps_everything(shorter);
        let earlier = ordered(shorter);
        let last = list.last();
        lemma_slot(earlier, last.at());
        let at = slot(earlier, last.at());
        let out = earlier.insert(at, last);
        assert forall|i: int, j: int| 0 <= i < j < out.len() implies (#[trigger] out[i]).at() <= (
        #[trigger] out[j]).at() by {
            let a = if i < at {
                i
            } else {
                i - 1
            };
            let b = if j < at {
                j
            } else {
                j - 1
            };
            if i != at {
                assert(out[i] == earlier[a]);
            }
            if j != at {
                assert(out[j] == earlier[b]);
            }
        }
        broadcast use vstd::seq_lib::group_to_multiset_ensures;

        assert(list =~= shorter.push(last));
        assert(out.remove(at) =~= earlier);
        assert(out[at] == last);
        vstd::seq_lib::to_multiset_remove(out, at);
        assert(out.contains(last));
        assert(out.to_multiset() =~= earlier.to_multiset().insert(last));
    }
}

/// Puts things in the order in which they start.
pub fn by_start<T: Timed>(list: Vec<T>) -> (out: Vec<T>)
    ensures
        out@ == ordered(list@),
{
    let ghost all = list@;
    let mut rest: Vec<T> = list;
    let mut out: Vec<T> = Vec::new();
    let ghost mut i: int = 0;
    assert(all.take(0) =~= Seq::<T>::empty());
    assert(all.skip(0) =~= all);
    while rest.len() > 0
        invariant
            0 <= i <= all.len(),
            rest@ == all.skip(i),
            out@ == ordered(all.take(i)),
        decreases rest.len(),
    {
        let one: T = rest.remove(0);
        assert(one == all[i]);
        assert(rest@ =~= all.skip(i + 1));
        assert(all.take(i + 1).drop_last() =~= all.take(i));
        assert(all.take(i + 1).last() == all[i]);
        let start: i128 = one.starts();
        let mut at: usize = out.len();
        assert(out@.take(at as int) =~= out@);
        while at > 0 && out[at - 1].starts() > start
            invariant
                at <= out.len(),
                slot(out@, start as int) == slot(out@.take(at as int), start as int),
            decreases at,
        {
            assert(out@.take(at as int).drop_last() =~= out@.take(at - 1));
            at -= 1;
        }
        out.insert(at, one);
        proof {
            i = i + 1;
        }
    }
    assert(all.take(i) =~= all);
    out
}

} // verus!
