//! The playout files of a channel: which there are, which have fallen off the window, and
//! whether the timeline has a hole.

use vstd::prelude::*;

use crate::text::{chars_of, find_first, first_at, text_of};
use crate::timed::{by_start, ordered, Timed};

verus! {

/// The number of nanoseconds in a day.
pub const NANOS_PER_DAY: i128 = 86_400_000_000_000;

/// One playout file, and the span its name claims. Instants are nanoseconds since the epoch.
#[derive(Debug)]
pub struct DiscoveredFile {
    pub path: String,
    pub start: i128,
    pub finish: i128,
}

/// The two instants that the stem of a file name holds: what stands before the first
/// underscore, and what stands after it.
pub open spec fn start_finish(stem: Seq<char>) -> Option<(Seq<char>, Seq<char>)> {
    let at = first_at(stem, '_');
    if at < stem.len() {
        Some((stem.take(at), stem.skip(at + 1)))
    } else {
        None
    }
}

/// Takes the stem of a file name apart into the two instants it holds.
pub fn split_start_finish(stem: &str) -> (out: Option<(String, String)>)
    ensures
        match (out, start_finish(stem@)) {
            (Some(got), Some(want)) => got.0@ == want.0 && got.1@ == want.1,
            (None, None) => true,
            _ => false,
        },
{
    let chars: Vec<char> = chars_of(stem);
    let at: usize = find_first(&chars, '_');
    if at >= chars.len() {
        return None;
    }
    let start: String = text_of(&chars, 0, at);
    let finish: String = text_of(&chars, at + 1, chars.len());
    assert(start@ =~= stem@.take(at as int));
    assert(finish@ =~= stem@.skip(at + 1));
    Some((start, finish))
}

/// What the name of a playout file ends in.
pub open spec fn json_tail() -> Seq<char> {
    seq!['.', 'j', 's', 'o', 'n']
}

/// The two instants that the name of a playout file holds. A name that does not end in
/// `.json`, or that holds no underscore, is no playout file's.
pub open spec fn named_span(name: Seq<char>) -> Option<(Seq<char>, Seq<char>)> {
    if name.len() >= 5 && name.skip(name.len() - 5) == json_tail() {
        start_finish(name.take(name.len() - 5))
    } else {
        None
    }
}

/// Reads the two instants that the name of a playout file holds, as they are written.
pub fn read_span(name: &str) -> (out: Option<(String, String)>)
    ensures
        match (out, named_span(name@)) {
            (Some(got), Some(want)) => got.0@ == want.0 && got.1@ == want.1,
            (None, None) => true,
            _ => false,
        },
{
    let chars: Vec<char> = chars_of(name);
    let n: usize = chars.len();
    if n < 5 {
        return None;
    }
    let ghost tail = name@.skip(n - 5);
    let ends: bool = chars[n - 5] == '.' && chars[n - 4] == 'j' && chars[n - 3] == 's' && chars[n
        - 2] == 'o' && chars[n - 1] == 'n';
    proof {
        assert(tail.len() == 5);
        if ends {
            assert(tail =~= json_tail());
        } else {
            assert(tail[0] == chars@[n - 5] && tail[1] == chars@[n - 4] && tail[2] == chars@[n - 3]
                && tail[3] == chars@[n - 2] && tail[4] == chars@[n - 1]);
            assert(json_tail()[0] == '.' && json_tail()[1] == 'j' && json_tail()[2] == 's'
                && json_tail()[3] == 'o' && json_tail()[4] == 'n');
        }
    }
    if !ends {
        return None;
    }
    let stem: String = text_of(&chars, 0, n - 5);
    assert(stem@ =~= name@.take(n - 5));
    split_start_finish(stem.as_str())
}

/// The instant that a text stands for when it is written in a format, if it is: in
/// nanoseconds since the epoch. A format that is none has no instants.
pub uninterp spec fn instant_of(format: Seq<char>, text: Seq<char>) -> Option<i128>;

/// `OffsetDateTime::parse` reads an instant that is written in a format, which
/// `format_description::parse_borrowed` reads first, by the first version of its syntax;
/// `OffsetDateTime::unix_timestamp_nanos` gives it in nanoseconds since the epoch. What comes
/// back, and whether anything does, depends on the two texts alone. The bytes of a format are
/// counted in a `u32`.
#[verifier::external_body]
fn parse_instant(format: &str, text: &str) -> (out: Option<i128>)
    requires
        format@.len() <= u32::MAX / 4,
    ensures
        out == instant_of(format@, text@),
{
    let items = time::format_description::parse_borrowed::<1>(format).ok()?;
    time::OffsetDateTime::parse(text, &items).ok().map(|at| at.unix_timestamp_nanos())
}

/// The file at a path that claims the span between two instants, if both are known.
pub open spec fn spanning(path: String, start: Option<i128>, finish: Option<i128>) -> Option<
    DiscoveredFile,
> {
    match (start, finish) {
        (Some(start), Some(finish)) => Some(DiscoveredFile { path, start, finish }),
        _ => None,
    }
}

/// The file at a path that claims the span between two instants, if both are known.
pub fn claim(path: String, start: Option<i128>, finish: Option<i128>) -> (out: Option<
    DiscoveredFile,
>)
    ensures
        out == spanning(path, start, finish),
{
    match (start, finish) {
        (Some(start), Some(finish)) => Some(DiscoveredFile { path, start, finish }),
        _ => None,
    }
}

/// The playout file that a path and the name at its end stand for. A name that does not hold
/// two instants in the format is no playout file's.
pub open spec fn discovered(format: Seq<char>, path: String, name: Seq<char>) -> Option<
    DiscoveredFile,
> {
    match named_span(name) {
        Some((start, finish)) => spanning(
            path,
            instant_of(format, start),
            instant_of(format, finish),
        ),
        None => None,
    }
}

/// Reads which playout file a path and the name at its end stand for. A name that does not
/// hold two instants in the format is no playout file's.
pub fn discover(format: &str, path: String, name: &str) -> (out: Option<DiscoveredFile>)
    requires
        format@.len() <= u32::MAX / 4,
    ensures
        out == discovered(format@, path, name@),
{
    match read_span(name) {
        Some((start, finish)) => claim(
            path,
            parse_instant(format, start.as_str()),
            parse_instant(format, finish.as_str()),
        ),
        None => None,
    }
}

/// The playout files among the entries of a folder, each a path and the name at its end, in
/// the order of the entries.
pub open spec fn found(format: Seq<char>, entries: Seq<(String, String)>) -> Seq<DiscoveredFile>
    decreases entries.len(),
{
    if entries.len() == 0 {
        Seq::empty()
    } else {
        let earlier = found(format, entries.drop_last());
        match discovered(format, entries.last().0, entries.last().1@) {
            Some(file) => earlier.push(file),
            None => earlier,
        }
    }
}

/// Reads the playout files among the entries of a folder, each a path and the name at its
/// end. They come in the order in which they start; files that start together keep the order
/// of the entries. Whatever else the folder holds is passed over.
pub fn scan_output_folder(format: &str, entries: &Vec<(String, String)>) -> (out: Vec<
    DiscoveredFile,
>)
    requires
        format@.len() <= u32::MAX / 4,
    ensures
        out@ == ordered(found(format@, entries@)),
{
    let mut files: Vec<DiscoveredFile> = Vec::new();
    let mut i: usize = 0;
    assert(entries@.take(0) =~= Seq::<(String, String)>::empty());
    while i < entries.len()
        invariant
            i <= entries.len(),
            format@.len() <= u32::MAX / 4,
            files@ == found(format@, entries@.take(i as int)),
        decreases entries.len() - i,
    {
        assert(entries@.take(i + 1).drop_last() =~= entries@.take(i as int));
        match discover(format, entries[i].0.clone(), entries[i].1.as_str()) {
            Some(file) => files.push(file),
            None => {},
        }
        i += 1;
    }
    assert(entries@.take(i as int) =~= entries@);
    order_files(files)
}

impl Timed for DiscoveredFile {
    open spec fn at(self) -> int {
        self.start as int
    }

    fn starts(&self) -> (out: i128) {
        self.start
    }
}

/// Puts the files in the order in which they start; files that start together keep their
/// order.
pub fn order_files(files: Vec<DiscoveredFile>) -> (out: Vec<DiscoveredFile>)
    ensures
        out@ == ordered(files@),
{
    by_start(files)
}

/// The latest instant that any file claims to reach.
pub fn highest_finish(files: &Vec<DiscoveredFile>) -> (out: Option<i128>)
    ensures
        out is None <==> files.len() == 0,
        out matches Some(top) ==> {
            &&& exists|i: int| 0 <= i < files.len() && (#[trigger] files@[i]).finish == top
            &&& forall|i: int| 0 <= i < files.len() ==> (#[trigger] files@[i]).finish <= top
        },
{
    if files.len() == 0 {
        return None;
    }
    let mut top: i128 = files[0].finish;
    let mut i: usize = 1;
    while i < files.len()
        invariant
            1 <= i <= files.len(),
            exists|j: int| 0 <= j < i && (#[trigger] files@[j]).finish == top,
            forall|j: int| 0 <= j < i ==> (#[trigger] files@[j]).finish <= top,
        decreases files.len() - i,
    {
        if files[i].finish > top {
            top = files[i].finish;
        }
        i += 1;
    }
    Some(top)
}

/// Whether an instant lies in the chunk that begins at a place among the starts of chunks.
pub open spec fn in_chunk(starts: Seq<i128>, target: i128, k: int) -> bool {
    &&& 0 <= k < starts.len() - 1
    &&& starts[k] <= target < starts[k + 1]
}

/// The first instant that a generation up to `target` never writes a file at, by the starts
/// of the chunks, in ascending order. The last chunk that the generation opens is the one that
/// holds `target`; an item that straddles its end is written whole, into the next chunk; and
/// the chunk after that one is beyond reach. Nothing comes back where the starts do not go so
/// far.
pub fn unreachable_after(starts: &Vec<i128>, target: i128) -> (out: Option<i128>)
    requires
        forall|i: int, j: int| 0 <= i < j < starts.len() ==> starts@[i] < starts@[j],
    ensures
        match out {
            Some(edge) => exists|k: int|
                k + 2 < starts.len() && #[trigger] in_chunk(starts@, target, k) && edge == starts@[k
                    + 2],
            None => forall|k: int| #[trigger] in_chunk(starts@, target, k) ==> k + 2 >= starts.len(),
        },
{
    if starts.len() < 3 {
        return None;
    }
    let mut k: usize = 0;
    while k < starts.len() - 2
        invariant
            starts.len() >= 3,
            k <= starts.len() - 2,
            forall|j: int| 0 <= j < k ==> !#[trigger] in_chunk(starts@, target, j),
        decreases starts.len() - k,
    {
        if starts[k] <= target && target < starts[k + 1] {
            assert(in_chunk(starts@, target, k as int));
            return Some(starts[k + 2]);
        }
        k += 1;
    }
    None
}

/// The edge of what a generation can reach lies past the chunk after the one that holds the
/// target, whichever way the chunks are found: there is only one such chunk.
pub proof fn an_instant_lies_in_one_chunk(starts: Seq<i128>, target: i128, k: int, l: int)
    requires
        forall|i: int, j: int| 0 <= i < j < starts.len() ==> starts[i] < starts[j],
        in_chunk(starts, target, k),
        in_chunk(starts, target, l),
    ensures
        k == l,
{
    if k < l {
        assert(k + 1 == l || starts[k + 1] < starts[l]);
    }
    if l < k {
        assert(l + 1 == k || starts[l + 1] < starts[k]);
    }
}

/// What one sweep removed, by the end of the window it fell off.
#[derive(Clone, Copy, Debug, PartialEq, Eq, Structural)]
pub struct SweepCounts {
    /// The files that had elapsed past the retention horizon.
    pub elapsed: usize,
    /// The files that started beyond what the forward window can reach.
    pub unreachable: usize,
}

impl SweepCounts {
    /// Nothing was removed.
    pub fn none() -> (out: SweepCounts)
        ensures
            out.elapsed == 0 && out.unreachable == 0,
    {
        SweepCounts { elapsed: 0, unreachable: 0 }
    }

    /// How many files were removed.
    pub fn total(self) -> (out: usize)
        requires
            self.elapsed + self.unreachable <= usize::MAX,
        ensures
            out == self.elapsed + self.unreachable,
    {
        self.elapsed + self.unreachable
    }

    /// Counts one file that was removed.
    pub fn count(self, fate: Fate) -> (out: SweepCounts)
        requires
            self.elapsed < usize::MAX,
            self.unreachable < usize::MAX,
        ensures
            out.elapsed == self.elapsed + if fate == Fate::Elapsed {
                1int
            } else {
                0
            },
            out.unreachable == self.unreachable + if fate == Fate::Unreachable {
                1int
            } else {
                0
            },
    {
        match fate {
            Fate::Keep => self,
            Fate::Elapsed => SweepCounts {
                elapsed: self.elapsed + 1,
                unreachable: self.unreachable,
            },
            Fate::Unreachable => SweepCounts {
                elapsed: self.elapsed,
                unreachable: self.unreachable + 1,
            },
        }
    }
}

/// What a sweep does with a file.
#[derive(Clone, Copy, Debug, PartialEq, Eq, Structural)]
pub enum Fate {
    Keep,
    Elapsed,
    Unreachable,
}

/// What a sweep does with a file: one that finished before the retention horizon has elapsed,
/// and one that starts where no generation can write is beyond reach.
pub open spec fn fate(
    file: DiscoveredFile,
    retention_days: u32,
    unreachable: i128,
    now: i128,
) -> Fate {
    if file.finish < now - retention_days * NANOS_PER_DAY {
        Fate::Elapsed
    } else if file.start >= unreachable {
        Fate::Unreachable
    } else {
        Fate::Keep
    }
}

/// Decides what a sweep does with a file.
pub fn file_fate(file: &DiscoveredFile, retention_days: u32, unreachable: i128, now: i128) -> (out:
    Fate)
    requires
        now - retention_days * NANOS_PER_DAY >= i128::MIN,
    ensures
        out == fate(*file, retention_days, unreachable, now),
{
    let kept: i128 = retention_days as i128 * NANOS_PER_DAY;
    if file.finish < now - kept {
        Fate::Elapsed
    } else if file.start >= unreachable {
        Fate::Unreachable
    } else {
        Fate::Keep
    }
}

/// The paths of the files that a sweep removes, and why.
pub open spec fn doomed(
    files: Seq<DiscoveredFile>,
    retention_days: u32,
    unreachable: i128,
    now: i128,
) -> Seq<(String, Fate)>
    decreases files.len(),
{
    if files.len() == 0 {
        Seq::empty()
    } else {
        let earlier = doomed(files.drop_last(), retention_days, unreachable, now);
        let last = files.last();
        match fate(last, retention_days, unreachable, now) {
            Fate::Keep => earlier,
            end => earlier.push((last.path, end)),
        }
    }
}

/// Picks the files that a sweep removes: those that fell off either end of the window.
pub fn sweep_window(
    files: &Vec<DiscoveredFile>,
    retention_days: u32,
    unreachable: i128,
    now: i128,
) -> (out: Vec<(String, Fate)>)
    requires
        now - retention_days * NANOS_PER_DAY >= i128::MIN,
    ensures
        out@ == doomed(files@, retention_days, unreachable, now),
{
    let mut out: Vec<(String, Fate)> = Vec::new();
    let mut i: usize = 0;
    assert(files@.take(0) =~= Seq::<DiscoveredFile>::empty());
    while i < files.len()
        invariant
            i <= files.len(),
            now - retention_days * NANOS_PER_DAY >= i128::MIN,
            out@ == doomed(files@.take(i as int), retention_days, unreachable, now),
        decreases files.len() - i,
    {
        assert(files@.take(i + 1).drop_last() =~= files@.take(i as int));
        assert(files@.take(i + 1).last() == files@[i as int]);
        let end: Fate = file_fate(&files[i], retention_days, unreachable, now);
        if end != Fate::Keep {
            out.push((files[i].path.clone(), end));
        }
        i += 1;
    }
    assert(files@.take(i as int) =~= files@);
    out
}

/// How many files were removed for a reason.
pub open spec fn tallied(removed: Seq<(String, Fate)>, reason: Fate) -> nat
    decreases removed.len(),
{
    if removed.len() == 0 {
        0
    } else {
        tallied(removed.drop_last(), reason) + if removed.last().1 == reason {
            1nat
        } else {
            0
        }
    }
}

/// Counts the files that were removed, by the reason.
pub fn tally(removed: &Vec<(String, Fate)>) -> (out: SweepCounts)
    ensures
        out.elapsed == tallied(removed@, Fate::Elapsed),
        out.unreachable == tallied(removed@, Fate::Unreachable),
        out.elapsed + out.unreachable <= removed.len(),
{
    let mut out: SweepCounts = SweepCounts::none();
    let mut i: usize = 0;
    assert(removed@.take(0) =~= Seq::<(String, Fate)>::empty());
    while i < removed.len()
        invariant
            i <= removed.len(),
            out.elapsed + out.unreachable <= i,
            out.elapsed == tallied(removed@.take(i as int), Fate::Elapsed),
            out.unreachable == tallied(removed@.take(i as int), Fate::Unreachable),
        decreases removed.len() - i,
    {
        assert(removed@.take(i + 1).drop_last() =~= removed@.take(i as int));
        assert(removed@.take(i + 1).last() == removed@[i as int]);
        out = out.count(removed[i].1);
        i += 1;
    }
    assert(removed@.take(i as int) =~= removed@);
    out
}

/// The files that a sweep leaves.
pub open spec fn left_by(
    files: Seq<DiscoveredFile>,
    retention_days: u32,
    unreachable: i128,
    now: i128,
) -> Seq<DiscoveredFile> {
    files.filter(|f: DiscoveredFile| fate(f, retention_days, unreachable, now) == Fate::Keep)
}

proof fn lemma_none_doomed(
    files: Seq<DiscoveredFile>,
    retention_days: u32,
    unreachable: i128,
    now: i128,
)
    requires
        forall|i: int|
            0 <= i < files.len() ==> fate(#[trigger] files[i], retention_days, unreachable, now)
                == Fate::Keep,
    ensures
        doomed(files, retention_days, unreachable, now).len() == 0,
    decreases files.len(),
{
    if files.len() > 0 {
        lemma_none_doomed(files.drop_last(), retention_days, unreachable, now);
        assert(files.last() == files[files.len() - 1]);
    }
}

/// A second sweep of what a first one left removes nothing.
pub proof fn a_second_sweep_removes_nothing(
    files: Seq<DiscoveredFile>,
    retention_days: u32,
    unreachable: i128,
    now: i128,
)
    ensures
        doomed(
            left_by(files, retention_days, unreachable, now),
            retention_days,
            unreachable,
            now,
        ) == Seq::<(String, Fate)>::empty(),
{
    broadcast use vstd::seq_lib::group_filter_ensures;

    let kept = left_by(files, retention_days, unreachable, now);
    let keeps = |f: DiscoveredFile| fate(f, retention_days, unreachable, now) == Fate::Keep;
    assert forall|i: int| 0 <= i < kept.len() implies fate(
        #[trigger] kept[i],
        retention_days,
        unreachable,
        now,
    ) == Fate::Keep by {
        assert(keeps(kept[i]));
    }
    lemma_none_doomed(kept, retention_days, unreachable, now);
}

/// Whether a file has elapsed past the retention horizon.
pub open spec fn has_elapsed(retention_days: u32, now: i128) -> spec_fn(DiscoveredFile) -> bool {
    |f: DiscoveredFile| f.finish < now - retention_days * NANOS_PER_DAY
}

/// Whether a file has not elapsed but starts beyond what the forward window can reach.
pub open spec fn is_beyond(retention_days: u32, unreachable: i128, now: i128) -> spec_fn(
    DiscoveredFile,
) -> bool {
    |f: DiscoveredFile|
        f.finish >= now - retention_days * NANOS_PER_DAY && f.start >= unreachable
}

/// A sweep accounts for every file: it removes those that have elapsed and those that start
/// beyond reach, counts each of them once, under elapsed where both hold, and leaves the
/// others. A second sweep of what is left counts nothing.
pub proof fn a_sweep_accounts_for_every_file(
    files: Seq<DiscoveredFile>,
    retention_days: u32,
    unreachable: i128,
    now: i128,
)
    ensures
        ({
            let gone = doomed(files, retention_days, unreachable, now);
            let left = left_by(files, retention_days, unreachable, now);
            let again = doomed(left, retention_days, unreachable, now);
            &&& tallied(gone, Fate::Elapsed) == files.filter(has_elapsed(retention_days, now)).len()
            &&& tallied(gone, Fate::Unreachable) == files.filter(
                is_beyond(retention_days, unreachable, now),
            ).len()
            &&& tallied(gone, Fate::Elapsed) + tallied(gone, Fate::Unreachable) == gone.len()
            &&& gone.len() + left.len() == files.len()
            &&& tallied(again, Fate::Elapsed) + tallied(again, Fate::Unreachable) == 0
        }),
    decreases files.len(),
{
    reveal(Seq::filter);
    a_second_sweep_removes_nothing(files, retention_days, unreachable, now);
    if files.len() > 0 {
        a_sweep_accounts_for_every_file(files.drop_last(), retention_days, unreachable, now);
        let earlier = doomed(files.drop_last(), retention_days, unreachable, now);
        let gone = doomed(files, retention_days, unreachable, now);
        if gone.len() > earlier.len() {
            assert(gone.drop_last() =~= earlier);
        }
    }
}

proof fn lemma_doomed_holds(
    files: Seq<DiscoveredFile>,
    retention_days: u32,
    unreachable: i128,
    now: i128,
    i: int,
)
    requires
        0 <= i < files.len(),
        fate(files[i], retention_days, unreachable, now) != Fate::Keep,
    ensures
        doomed(files, retention_days, unreachable, now).contains(
            (files[i].path, fate(files[i], retention_days, unreachable, now)),
        ),
    decreases files.len(),
{
    let gone = doomed(files, retention_days, unreachable, now);
    let earlier = doomed(files.drop_last(), retention_days, unreachable, now);
    let one = (files[i].path, fate(files[i], retention_days, unreachable, now));
    if i == files.len() - 1 {
        assert(gone.last() == one);
    } else {
        lemma_doomed_holds(files.drop_last(), retention_days, unreachable, now, i);
        let k = choose|k: int| 0 <= k < earlier.len() && earlier[k] == one;
        assert(gone[k] == one);
    }
}

/// A sweep removes a file exactly where it has elapsed or starts beyond reach: each such file
/// is among the removed with its reason, and everything removed is such a file.
pub proof fn a_sweep_removes_what_fell_off(
    files: Seq<DiscoveredFile>,
    retention_days: u32,
    unreachable: i128,
    now: i128,
)
    ensures
        forall|i: int|
            0 <= i < files.len() && fate(#[trigger] files[i], retention_days, unreachable, now)
                != Fate::Keep ==> doomed(files, retention_days, unreachable, now).contains(
                (files[i].path, fate(files[i], retention_days, unreachable, now)),
            ),
        forall|k: int|
            0 <= k < doomed(files, retention_days, unreachable, now).len() ==> exists|i: int|
                0 <= i < files.len() && (#[trigger] files[i]).path == (#[trigger] doomed(
                    files,
                    retention_days,
                    unreachable,
                    now,
                )[k]).0 && fate(files[i], retention_days, unreachable, now) == doomed(
                    files,
                    retention_days,
                    unreachable,
                    now,
                )[k].1 && doomed(files, retention_days, unreachable, now)[k].1 != Fate::Keep,
    decreases files.len(),
{
    let gone = doomed(files, retention_days, unreachable, now);
    assert forall|i: int|
        0 <= i < files.len() && fate(#[trigger] files[i], retention_days, unreachable, now)
            != Fate::Keep implies gone.contains(
        (files[i].path, fate(files[i], retention_days, unreachable, now)),
    ) by {
        lemma_doomed_holds(files, retention_days, unreachable, now, i);
    }
    if files.len() > 0 {
        let fewer = files.drop_last();
        let earlier = doomed(fewer, retention_days, unreachable, now);
        a_sweep_removes_what_fell_off(fewer, retention_days, unreachable, now);
        assert forall|k: int| 0 <= k < gone.len() implies exists|i: int|
            0 <= i < files.len() && (#[trigger] files[i]).path == (#[trigger] gone[k]).0 && fate(
                files[i],
                retention_days,
                unreachable,
                now,
            ) == gone[k].1 && gone[k].1 != Fate::Keep by {
            if k < earlier.len() {
                assert(gone[k] == earlier[k]);
                let i = choose|i: int|
                    0 <= i < fewer.len() && (#[trigger] fewer[i]).path == earlier[k].0 && fate(
                        fewer[i],
                        retention_days,
                        unreachable,
                        now,
                    ) == earlier[k].1 && earlier[k].1 != Fate::Keep;
                assert(files[i] == fewer[i]);
            } else {
                assert(files[files.len() - 1] == files.last());
            }
        }
    }
}

/// Whether a file may hold items that are on after an instant: its name claims a span that
/// reaches past it.
pub open spec fn may_reach(file: DiscoveredFile, now: i128) -> bool {
    file.finish > now
}

/// Whether a file is worth opening to look for a hole after an instant. One that starts late
/// is: what it holds tells a hole from the end of the schedule.
pub fn worth_opening(file: &DiscoveredFile, now: i128) -> (out: bool)
    ensures
        out == may_reach(*file, now),
{
    file.finish > now
}

/// Whether some item is on at an instant.
pub open spec fn covered(spans: Seq<(i128, i128)>, t: int) -> bool {
    exists|i: int| 0 <= i < spans.len() && (#[trigger] spans[i]).0 <= t < spans[i].1
}

/// Whether some item is on after an instant, and not before it.
pub open spec fn followed(spans: Seq<(i128, i128)>, t: int) -> bool {
    exists|i: int| 0 <= i < spans.len() && t < (#[trigger] spans[i]).0 < spans[i].1
}

/// Whether the timeline has its first hole at an instant: nothing is on then, something is on
/// at every instant before, back to `now`, and something comes after, be it past the horizon.
/// Where content merely stops there is no hole.
pub open spec fn is_gap(spans: Seq<(i128, i128)>, now: int, horizon: int, t: int) -> bool {
    &&& now <= t < horizon
    &&& !covered(spans, t)
    &&& forall|u: int| now <= u < t ==> covered(spans, u)
    &&& followed(spans, t)
}

/// How many items finish after an instant.
pub open spec fn finish_after(spans: Seq<(i128, i128)>, t: int) -> nat
    decreases spans.len(),
{
    if spans.len() == 0 {
        0
    } else {
        finish_after(spans.drop_last(), t) + if spans.last().1 > t {
            1nat
        } else {
            0
        }
    }
}

proof fn lemma_fewer_after(spans: Seq<(i128, i128)>, t: int, i: int)
    requires
        0 <= i < spans.len(),
        spans[i].1 > t,
    ensures
        finish_after(spans, spans[i].1 as int) < finish_after(spans, t),
    decreases spans.len(),
{
    if i == spans.len() - 1 {
        lemma_no_more_after(spans.drop_last(), t, spans[i].1 as int);
    } else {
        lemma_fewer_after(spans.drop_last(), t, i);
    }
}

proof fn lemma_no_more_after(spans: Seq<(i128, i128)>, t: int, later: int)
    requires
        t <= later,
    ensures
        finish_after(spans, later) <= finish_after(spans, t),
    decreases spans.len(),
{
    if spans.len() > 0 {
        lemma_no_more_after(spans.drop_last(), t, later);
    }
}

fn find_extension(spans: &Vec<(i128, i128)>, t: i128) -> (out: Option<usize>)
    ensures
        match out {
            Some(i) => i < spans.len() && spans@[i as int].0 <= t < spans@[i as int].1,
            None => !covered(spans@, t as int),
        },
{
    let mut i: usize = 0;
    while i < spans.len()
        invariant
            i <= spans.len(),
            forall|j: int| 0 <= j < i ==> !((#[trigger] spans@[j]).0 <= t < spans@[j].1),
        decreases spans.len() - i,
    {
        if spans[i].0 <= t && t < spans[i].1 {
            return Some(i);
        }
        i += 1;
    }
    None
}

fn has_follower(spans: &Vec<(i128, i128)>, t: i128) -> (out: bool)
    ensures
        out == followed(spans@, t as int),
{
    let mut i: usize = 0;
    while i < spans.len()
        invariant
            i <= spans.len(),
            forall|j: int| 0 <= j < i ==> !(t < (#[trigger] spans@[j]).0 < spans@[j].1),
        decreases spans.len() - i,
    {
        if t < spans[i].0 && spans[i].0 < spans[i].1 {
            return true;
        }
        i += 1;
    }
    false
}

/// The first instant between `now` and `horizon` at which nothing is on although something
/// comes after it: a hole, which airs as black. The spans are those of the items themselves,
/// so a file whose name claims too much hides none.
pub fn first_coverage_gap(spans: &Vec<(i128, i128)>, now: i128, horizon: i128) -> (out: Option<i128>)
    ensures
        match out {
            Some(t) => is_gap(spans@, now as int, horizon as int, t as int),
            None => forall|t: int| !#[trigger] is_gap(spans@, now as int, horizon as int, t),
        },
{
    let mut t: i128 = now;
    while t < horizon
        invariant
            now <= t,
            forall|u: int| now <= u < t ==> covered(spans@, u),
        decreases finish_after(spans@, t as int),
    {
        match find_extension(spans, t) {
            Some(i) => {
                let ghost before = t;
                proof {
                    lemma_fewer_after(spans@, t as int, i as int);
                }
                t = spans[i].1;
                assert forall|u: int| now <= u < t implies covered(spans@, u) by {
                    if u >= before {
                        assert(spans@[i as int].0 <= u < spans@[i as int].1);
                    }
                }
            },
            None => {
                if has_follower(spans, t) {
                    return Some(t);
                }
                assert forall|u: int| !#[trigger]
                    is_gap(spans@, now as int, horizon as int, u) by {
                    if is_gap(spans@, now as int, horizon as int, u) && u > t {
                        assert(covered(spans@, t as int));
                    }
                }
                return None;
            },
        }
    }
    None
}

/// A timeline has no more than one first hole.
pub proof fn a_first_gap_is_the_only_one(
    spans: Seq<(i128, i128)>,
    now: int,
    horizon: int,
    s: int,
    t: int,
)
    requires
        is_gap(spans, now, horizon, s),
        is_gap(spans, now, horizon, t),
    ensures
        s == t,
{
    if s < t {
        assert(covered(spans, s));
    }
    if t < s {
        assert(covered(spans, t));
    }
}

} // verus!
