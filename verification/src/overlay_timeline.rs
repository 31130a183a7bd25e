//! A channel's overlay timeline: which overlay each block of the schedule puts on screen.

use vstd::prelude::*;

use crate::timed::{by_start, ordered, Timed};

verus! {

/// What is drawn from one instant to another; nothing at all where the overlay is absent.
/// Instants are nanoseconds since the epoch.
#[derive(Debug)]
pub struct OverlaySpan {
    pub start: i128,
    pub finish: i128,
    pub spec: Option<String>,
}

impl Timed for OverlaySpan {
    open spec fn at(self) -> int {
        self.start as int
    }

    fn starts(&self) -> (out: i128) {
        self.start
    }
}

/// A channel's overlay: what it was started with, and the spans that say otherwise. Where no
/// span says anything, the base is drawn.
#[derive(Debug)]
pub struct OverlayTimeline {
    pub base: String,
    pub spans: Vec<OverlaySpan>,
}

/// The first span that is on at an instant.
pub open spec fn span_at(spans: Seq<OverlaySpan>, t: i128) -> Option<OverlaySpan>
    decreases spans.len(),
{
    if spans.len() == 0 {
        None
    } else if spans[0].start <= t < spans[0].finish {
        Some(spans[0])
    } else {
        span_at(spans.skip(1), t)
    }
}

impl OverlayTimeline {
    /// What is drawn at an instant: what the span that is on says, and the base where none is.
    pub fn spec_at(&self, t: i128) -> (out: Option<&String>)
        ensures
            match span_at(self.spans@, t) {
                Some(span) => match (out, span.spec) {
                    (Some(got), Some(want)) => *got == want,
                    (None, None) => true,
                    _ => false,
                },
                None => out == Some(&self.base),
            },
    {
        let mut i: usize = 0;
        assert(self.spans@.skip(0) =~= self.spans@);
        while i < self.spans.len()
            invariant
                i <= self.spans.len(),
                span_at(self.spans@, t) == span_at(self.spans@.skip(i as int), t),
            decreases self.spans.len() - i,
        {
            assert(self.spans@.skip(i as int).skip(1) =~= self.spans@.skip(i + 1));
            let s: &OverlaySpan = &self.spans[i];
            if s.start <= t && t < s.finish {
                return s.spec.as_ref();
            }
            i += 1;
        }
        Some(&self.base)
    }
}

/// The overlays of a channel, and of each block of it.
#[derive(Debug)]
pub struct ChannelOverlays {
    pub base: Option<String>,
    pub blocks: Vec<Option<String>>,
}

/// From when to when a block is on.
#[derive(Clone, Copy, Debug, PartialEq, Eq, Structural)]
pub struct BlockSpan {
    pub start: i128,
    pub finish: i128,
    pub block: usize,
}

/// An overlay that may be absent, as mathematical values.
pub open spec fn drawn(spec: Option<String>) -> Option<Seq<char>> {
    match spec {
        Some(text) => Some(text@),
        None => None,
    }
}

/// Whether some block draws something else than the channel.
pub open spec fn varies(overlays: ChannelOverlays) -> bool {
    exists|i: int|
        0 <= i < overlays.blocks@.len() && drawn(#[trigger] overlays.blocks@[i]) != drawn(
            overlays.base,
        )
}

fn same_overlay(a: &Option<String>, b: &Option<String>) -> (out: bool)
    ensures
        out == (drawn(*a) == drawn(*b)),
{
    match (a, b) {
        (Some(x), Some(y)) => *x == *y,
        (None, None) => true,
        _ => false,
    }
}

impl ChannelOverlays {
    /// Whether some block draws something else than the channel.
    pub fn varies_by_block(&self) -> (out: bool)
        ensures
            out == varies(*self),
    {
        let mut i: usize = 0;
        while i < self.blocks.len()
            invariant
                i <= self.blocks.len(),
                forall|j: int|
                    0 <= j < i ==> drawn(#[trigger] self.blocks@[j]) == drawn(self.base),
            decreases self.blocks.len() - i,
        {
            if !same_overlay(&self.blocks[i], &self.base) {
                assert(drawn(self.blocks@[i as int]) != drawn(self.base));
                return true;
            }
            i += 1;
        }
        false
    }
}

/// A timeline that starts over: what earlier runs left may describe a schedule that was made
/// with another configuration.
pub fn reset(base: &String) -> (out: OverlayTimeline)
    ensures
        out.base == *base,
        out.spans@ == Seq::<OverlaySpan>::empty(),
{
    OverlayTimeline { base: base.clone(), spans: Vec::new() }
}

/// Whether a span is kept: it is not past, and nothing restates it.
pub open spec fn keeps(from: i128, retain_from: i128) -> spec_fn(OverlaySpan) -> bool {
    |s: OverlaySpan| s.finish > retain_from && s.finish <= from
}

/// What a block draws.
pub open spec fn block_overlay(overlays: ChannelOverlays, block: usize) -> Option<String> {
    if block < overlays.blocks@.len() {
        overlays.blocks@[block as int]
    } else {
        None
    }
}

/// The spans that say what each block draws.
pub open spec fn stated(overlays: ChannelOverlays, laid: Seq<BlockSpan>) -> Seq<OverlaySpan> {
    laid.map_values(
        |b: BlockSpan|
            OverlaySpan {
                start: b.start,
                finish: b.finish,
                spec: block_overlay(overlays, b.block),
            },
    )
}

/// The spans of a timeline once a window is stated: those that lie before it and are not past,
/// and what each block of the window draws.
pub open spec fn restated(
    spans: Seq<OverlaySpan>,
    overlays: ChannelOverlays,
    laid: Seq<BlockSpan>,
    from: i128,
    retain_from: i128,
) -> Seq<OverlaySpan> {
    ordered(spans.filter(keeps(from, retain_from)) + stated(overlays, laid))
}

fn copy_overlay(spec: &Option<String>) -> (out: Option<String>)
    ensures
        out == *spec,
{
    match spec {
        Some(text) => Some(text.clone()),
        None => None,
    }
}

fn kept_spans(spans: &Vec<OverlaySpan>, from: i128, retain_from: i128) -> (out: Vec<OverlaySpan>)
    ensures
        out@ == spans@.filter(keeps(from, retain_from)),
{
    broadcast use vstd::seq_lib::group_filter_ensures;

    let ghost which = keeps(from, retain_from);
    let mut out: Vec<OverlaySpan> = Vec::new();
    let mut i: usize = 0;
    assert(spans@.take(0) =~= Seq::<OverlaySpan>::empty());
    while i < spans.len()
        invariant
            i <= spans.len(),
            which == keeps(from, retain_from),
            out@ == spans@.take(i as int).filter(which),
        decreases spans.len() - i,
    {
        assert(spans@.take(i + 1) =~= spans@.take(i as int).push(spans@[i as int]));
        proof {
            spans@.take(i as int).lemma_filter_push(spans@[i as int], which);
        }
        let s: &OverlaySpan = &spans[i];
        if s.finish > retain_from && s.finish <= from {
            assert(which(spans@[i as int]));
            out.push(
                OverlaySpan { start: s.start, finish: s.finish, spec: copy_overlay(&s.spec) },
            );
        }
        i += 1;
    }
    assert(spans@.take(i as int) =~= spans@);
    out
}

/// Says what each block of a window puts on screen, in place of whatever the timeline said of
/// it, and drops what is past. A channel without an overlay, and one whose overlay does not
/// vary by block, has nothing to say and writes nothing.
pub fn append(
    spans: &Vec<OverlaySpan>,
    overlays: &ChannelOverlays,
    laid: &Vec<BlockSpan>,
    from: i128,
    retain_from: i128,
) -> (out: Option<OverlayTimeline>)
    ensures
        match (out, overlays.base) {
            (Some(got), Some(base)) => {
                &&& varies(*overlays)
                &&& got.base == base
                &&& got.spans@ == restated(spans@, *overlays, laid@, from, retain_from)
            },
            (Some(_), None) => false,
            (None, base) => base is None || !varies(*overlays),
        },
{
    let base: &String = match &overlays.base {
        Some(base) => base,
        None => return None,
    };
    if !overlays.varies_by_block() {
        return None;
    }
    let mut all: Vec<OverlaySpan> = kept_spans(spans, from, retain_from);
    let ghost kept = all@;
    let mut i: usize = 0;
    assert(all@ =~= kept + stated(*overlays, laid@.take(0)));
    while i < laid.len()
        invariant
            i <= laid.len(),
            all@ == kept + stated(*overlays, laid@.take(i as int)),
        decreases laid.len() - i,
    {
        let b: BlockSpan = laid[i];
        let spec: Option<String> = if b.block < overlays.blocks.len() {
            copy_overlay(&overlays.blocks[b.block])
        } else {
            None
        };
        all.push(OverlaySpan { start: b.start, finish: b.finish, spec });
        i += 1;
        assert(all@ =~= kept + stated(*overlays, laid@.take(i as int)));
    }
    assert(laid@.take(i as int) =~= laid@);
    Some(OverlayTimeline { base: base.clone(), spans: by_start(all) })
}

/// A timeline holds nothing but what states the window and what lies before it and is not
/// past: it does not grow without bound.
pub proof fn a_timeline_holds_nothing_past(
    spans: Seq<OverlaySpan>,
    overlays: ChannelOverlays,
    laid: Seq<BlockSpan>,
    from: i128,
    retain_from: i128,
    i: int,
)
    requires
        0 <= i < restated(spans, overlays, laid, from, retain_from).len(),
    ensures
        ({
            let s = restated(spans, overlays, laid, from, retain_from)[i];
            s.finish <= from && s.finish > retain_from || exists|k: int|
                0 <= k < laid.len() && s == #[trigger] stated(overlays, laid)[k]
        }),
{
    broadcast use vstd::seq_lib::group_filter_ensures;
    broadcast use vstd::seq_lib::group_to_multiset_ensures;

    let kept = spans.filter(keeps(from, retain_from));
    let all = kept + stated(overlays, laid);
    crate::timed::ordering_keeps_everything(all);
    let s = ordered(all)[i];
    assert(ordered(all).contains(s));
    assert(ordered(all).to_multiset().count(s) > 0);
    assert(all.contains(s));
    let k = choose|k: int| 0 <= k < all.len() && all[k] == s;
    if k < kept.len() {
        assert(kept[k] == s);
        assert(keeps(from, retain_from)(kept[k]));
    } else {
        assert(stated(overlays, laid)[k - kept.len()] == s);
    }
}

proof fn lemma_filter_multiset(spans: Seq<OverlaySpan>, p: spec_fn(OverlaySpan) -> bool)
    ensures
        spans.filter(p).to_multiset() == spans.to_multiset().filter(p),
    decreases spans.len(),
{
    broadcast use vstd::seq_lib::group_to_multiset_ensures;
    broadcast use vstd::multiset::group_multiset_axioms;

    if spans.len() > 0 {
        let shorter = spans.drop_last();
        lemma_filter_multiset(shorter, p);
        assert(spans =~= shorter.push(spans.last()));
        shorter.lemma_filter_push(spans.last(), p);
        assert(spans.filter(p).to_multiset() =~= spans.to_multiset().filter(p));
    } else {
        assert(spans.filter(p) =~= spans);
        assert(spans.filter(p).to_multiset() =~= spans.to_multiset().filter(p));
    }
}

proof fn lemma_restated_multiset(
    spans: Seq<OverlaySpan>,
    overlays: ChannelOverlays,
    laid: Seq<BlockSpan>,
    from: i128,
    retain_from: i128,
)
    ensures
        restated(spans, overlays, laid, from, retain_from).to_multiset()
            == spans.to_multiset().filter(keeps(from, retain_from)).add(
            stated(overlays, laid).to_multiset(),
        ),
{
    let kept = spans.filter(keeps(from, retain_from));
    crate::timed::ordering_keeps_everything(kept + stated(overlays, laid));
    vstd::seq_lib::lemma_multiset_commutative(kept, stated(overlays, laid));
    lemma_filter_multiset(spans, keeps(from, retain_from));
}

/// Stating a window again changes nothing: what the timeline said of it is replaced, not
/// doubled.
pub proof fn stating_a_window_again_changes_nothing(
    spans: Seq<OverlaySpan>,
    overlays: ChannelOverlays,
    laid: Seq<BlockSpan>,
    from: i128,
    retain_from: i128,
)
    requires
        forall|i: int| 0 <= i < laid.len() ==> (#[trigger] laid[i]).finish > from,
    ensures
        ({
            let once = restated(spans, overlays, laid, from, retain_from);
            let twice = restated(once, overlays, laid, from, retain_from);
            &&& twice.to_multiset() == once.to_multiset()
            &&& twice.len() == once.len()
        }),
{
    broadcast use vstd::seq_lib::group_to_multiset_ensures;
    broadcast use vstd::multiset::group_multiset_axioms;

    let p = keeps(from, retain_from);
    let once = restated(spans, overlays, laid, from, retain_from);
    let twice = restated(once, overlays, laid, from, retain_from);
    let said = stated(overlays, laid);
    lemma_restated_multiset(spans, overlays, laid, from, retain_from);
    lemma_restated_multiset(once, overlays, laid, from, retain_from);
    assert forall|s: OverlaySpan| p(s) implies said.to_multiset().count(s) == 0 by {
        if said.to_multiset().count(s) > 0 {
            assert(said.contains(s));
            let k = choose|k: int| 0 <= k < said.len() && said[k] == s;
            assert(laid[k].finish > from);
        }
    }
    assert(once.to_multiset().filter(p) =~= spans.to_multiset().filter(p));
    assert(twice.to_multiset() =~= once.to_multiset());
    assert(twice.to_multiset().len() == twice.len());
    assert(once.to_multiset().len() == once.len());
}

} // verus!
