//! What the station's checks tell: which channel is meant, whether two passes agree, and where
//! two stores differ.

use vstd::prelude::*;

use crate::fault::{comma_list, join_names};
use crate::names::{same_text, texts};
use crate::paths::{file_name, file_name_of, file_stem, file_stem_of, parent, parent_of};
use crate::sources::{standing, stands_before, Standing};
use crate::text::{concat, decimal, quoted, quoted_text, write_decimal};

verus! {

/// The name that a channel is known by: that of its folder where its file is called
/// `channel.yaml`, and else that of its file.
pub open spec fn channel_name(path: Seq<char>) -> Seq<char> {
    let name = if file_name_of(path) == Some("channel.yaml"@) {
        match parent_of(path) {
            Some(folder) => file_name_of(folder),
            None => None,
        }
    } else {
        file_stem_of(path)
    };
    match name {
        Some(text) => text,
        None => Seq::empty(),
    }
}

/// The name that a channel is known by.
pub fn name_of_channel(path: &str) -> (out: String)
    ensures
        out@ == channel_name(path@),
{
    let is_folder: bool = match file_name(path) {
        Some(name) => same_text(name.as_str(), "channel.yaml"),
        None => false,
    };
    let name: Option<String> = if is_folder {
        match parent(path) {
            Some(folder) => file_name(folder.as_str()),
            None => None,
        }
    } else {
        file_stem(path)
    };
    match name {
        Some(text) => text,
        None => String::new(),
    }
}

/// Where a name goes among names in their order: after all that do not stand after it.
pub open spec fn name_slot(names: Seq<Seq<char>>, name: Seq<char>) -> int
    decreases names.len(),
{
    if names.len() == 0 {
        0
    } else if !stands_before(name, names.last()) {
        names.len() as int
    } else {
        name_slot(names.drop_last(), name)
    }
}

/// The names of channels, in their order.
pub open spec fn known_names(paths: Seq<String>) -> Seq<Seq<char>>
    decreases paths.len(),
{
    if paths.len() == 0 {
        Seq::empty()
    } else {
        let earlier = known_names(paths.drop_last());
        let name = channel_name(paths.last()@);
        earlier.insert(name_slot(earlier, name), name)
    }
}

/// Names parted by commas.
pub open spec fn listing(names: Seq<Seq<char>>) -> Seq<char>
    decreases names.len(),
{
    if names.len() == 0 {
        Seq::empty()
    } else if names.len() == 1 {
        names[0]
    } else {
        listing(names.drop_last()) + ", "@ + names.last()
    }
}

proof fn lemma_listing(names: Seq<String>)
    ensures
        comma_list(names) == listing(texts(names)),
    decreases names.len(),
{
    if names.len() > 1 {
        lemma_listing(names.drop_last());
        assert(texts(names).drop_last() =~= texts(names.drop_last()));
    } else {
        assert(texts(names).len() == names.len());
    }
}

/// The last of the paths whose channel has a name.
pub open spec fn channel_at(paths: Seq<String>, wanted: Seq<char>) -> Option<int>
    decreases paths.len(),
{
    if paths.len() == 0 {
        None
    } else if channel_name(paths.last()@) == wanted {
        Some(paths.len() - 1)
    } else {
        channel_at(paths.drop_last(), wanted)
    }
}

fn sorted_names(paths: &Vec<String>) -> (out: Vec<String>)
    ensures
        texts(out@) == known_names(paths@),
{
    let mut out: Vec<String> = Vec::new();
    let mut i: usize = 0;
    assert(paths@.take(0) =~= Seq::<String>::empty());
    assert(texts(out@) =~= Seq::<Seq<char>>::empty());
    while i < paths.len()
        invariant
            i <= paths.len(),
            texts(out@) == known_names(paths@.take(i as int)),
        decreases paths.len() - i,
    {
        assert(paths@.take(i + 1).drop_last() =~= paths@.take(i as int));
        assert(paths@.take(i + 1).last() == paths@[i as int]);
        let name: String = name_of_channel(paths[i].as_str());
        let ghost before = texts(out@);
        let mut at: usize = out.len();
        assert(before.take(at as int) =~= before);
        while at > 0 && standing(name.as_str(), out[at - 1].as_str()) == Standing::Before
            invariant
                at <= out.len(),
                before == texts(out@),
                name_slot(before, name@) == name_slot(before.take(at as int), name@),
            decreases at,
        {
            assert(before.take(at as int).drop_last() =~= before.take(at - 1));
            assert(before[at - 1] == out@[at - 1]@);
            at -= 1;
        }
        proof {
            if at > 0 {
                assert(before.take(at as int).last() == out@[at - 1]@);
            }
            assert(name_slot(before, name@) == at);
        }
        out.insert(at, name);
        assert(texts(out@) =~= before.insert(at as int, name@));
        i += 1;
    }
    assert(paths@.take(i as int) =~= paths@);
    out
}

/// Finds the channel that is meant; one that is not known is refused with the names that are.
pub fn find_channel(paths: &Vec<String>, wanted: &str) -> (out: Result<usize, String>)
    ensures
        match (out, channel_at(paths@, wanted@)) {
            (Ok(got), Some(want)) => got == want && got < paths.len(),
            (Err(got), None) => got@ == "no channel named "@ + quoted_text(wanted@) + ". Known: "@
                + listing(known_names(paths@)),
            _ => false,
        },
{
    let mut n: usize = paths.len();
    assert(paths@.take(n as int) =~= paths@);
    while n > 0
        invariant
            n <= paths.len(),
            channel_at(paths@, wanted@) == channel_at(paths@.take(n as int), wanted@),
        decreases n,
    {
        assert(paths@.take(n as int).drop_last() =~= paths@.take(n - 1));
        if same_text(name_of_channel(paths[n - 1].as_str()).as_str(), wanted) {
            return Ok(n - 1);
        }
        n -= 1;
    }
    let names: Vec<String> = sorted_names(paths);
    proof {
        lemma_listing(names@);
    }
    let mut out: String = concat("no channel named ", quoted(wanted).as_str(), ". Known: ");
    out.append(join_names(&names).as_str());
    Err(out)
}

/// Where two passes part: the items they have there, where they have one.
#[derive(Debug)]
pub struct Difference {
    pub position: usize,
    pub entry_a: Option<String>,
    pub entry_b: Option<String>,
}

/// The item at a position, if there is one.
pub open spec fn item_at(pass: Seq<String>, i: int) -> Option<Seq<char>> {
    if 0 <= i < pass.len() {
        Some(pass[i]@)
    } else {
        None
    }
}

/// An item that may be absent, as mathematical values.
pub open spec fn shown(entry: Option<String>) -> Option<Seq<char>> {
    match entry {
        Some(id) => Some(id@),
        None => None,
    }
}

fn entry_at(pass: &Vec<String>, i: usize) -> (out: Option<String>)
    ensures
        shown(out) == item_at(pass@, i as int),
{
    if i < pass.len() {
        Some(pass[i].clone())
    } else {
        None
    }
}

/// Finds the first position at which two passes part; none where they agree.
pub fn compare_passes(a: &Vec<String>, b: &Vec<String>) -> (out: Option<Difference>)
    ensures
        match out {
            Some(d) => {
                &&& shown(d.entry_a) == item_at(a@, d.position as int)
                &&& shown(d.entry_b) == item_at(b@, d.position as int)
                &&& shown(d.entry_a) != shown(d.entry_b)
                &&& forall|i: int|
                    0 <= i < d.position ==> #[trigger] item_at(a@, i) == item_at(b@, i)
            },
            None => texts(a@) == texts(b@),
        },
{
    let mut i: usize = 0;
    while i < a.len() && i < b.len()
        invariant
            i <= a.len(),
            i <= b.len(),
            forall|j: int| 0 <= j < i ==> #[trigger] item_at(a@, j) == item_at(b@, j),
        decreases a.len() - i,
    {
        if a[i] != b[i] {
            return Some(
                Difference { position: i, entry_a: entry_at(a, i), entry_b: entry_at(b, i) },
            );
        }
        i += 1;
    }
    if a.len() != b.len() {
        return Some(
            Difference { position: i, entry_a: entry_at(a, i), entry_b: entry_at(b, i) },
        );
    }
    assert(texts(a@) =~= texts(b@)) by {
        assert forall|j: int| 0 <= j < a@.len() implies texts(a@)[j] == texts(b@)[j] by {
            assert(item_at(a@, j) == item_at(b@, j));
        }
    }
    None
}

/// What is told of two passes.
pub open spec fn verdict_text(
    channel: Seq<char>,
    len_a: nat,
    len_b: nat,
    difference: Option<Difference>,
) -> Seq<char> {
    match difference {
        None => "check-determinism: "@ + channel + " — identical ("@ + decimal(len_a) + " items)"@,
        Some(d) => "check-determinism: "@ + channel + " — DIFFERS at position "@ + decimal(
            d.position as nat,
        ) + ": pass A = "@ + match d.entry_a {
            Some(id) => id@,
            None => "<none — pass A ended>"@,
        } + ", pass B = "@ + match d.entry_b {
            Some(id) => id@,
            None => "<none — pass B ended>"@,
        } + " (lengths "@ + decimal(len_a) + " vs "@ + decimal(len_b) + ")"@,
    }
}

/// Tells whether two passes agree, and where they part.
pub fn verdict(channel: &str, len_a: usize, len_b: usize, difference: &Option<Difference>) -> (out:
    String)
    ensures
        out@ == verdict_text(channel@, len_a as nat, len_b as nat, *difference),
{
    match difference {
        None => {
            let mut out: String = concat("check-determinism: ", channel, " — identical (");
            out.append(write_decimal(len_a as u64).as_str());
            out.append(" items)");
            out
        },
        Some(d) => {
            let mut out: String = concat("check-determinism: ", channel, " — DIFFERS at position ");
            out.append(write_decimal(d.position as u64).as_str());
            out.append(": pass A = ");
            match &d.entry_a {
                Some(id) => out.append(id.as_str()),
                None => out.append("<none — pass A ended>"),
            }
            out.append(", pass B = ");
            match &d.entry_b {
                Some(id) => out.append(id.as_str()),
                None => out.append("<none — pass B ended>"),
            }
            out.append(" (lengths ");
            out.append(write_decimal(len_a as u64).as_str());
            out.append(" vs ");
            out.append(write_decimal(len_b as u64).as_str());
            out.append(")");
            out
        },
    }
}

/// A title that two stores know under different identities.
#[derive(Debug)]
pub struct Mismatch {
    pub rating_key: String,
    pub title: String,
    pub entry_id: String,
    pub item_id: String,
    pub reason: String,
}

/// How two stores compare: titles are joined by their keys.
#[derive(Debug)]
pub struct ReconcileReport {
    pub compared: usize,
    pub agree: usize,
    pub mismatches: Vec<Mismatch>,
    /// The key and the title of what only the station's catalog knows.
    pub only_in_etv: Vec<(String, String)>,
    /// The key and the title of what only the other store knows.
    pub only_in_plexdb: Vec<(String, String)>,
}

impl ReconcileReport {
    /// How many titles differ.
    pub fn mismatched(&self) -> (out: usize)
        ensures
            out == self.mismatches@.len(),
    {
        self.mismatches.len()
    }
}

/// What is told of one title that differs.
pub open spec fn mismatch_lines(m: Mismatch) -> Seq<Seq<char>> {
    seq![
        "  rating_key="@ + m.rating_key@ + " title="@ + quoted_text(m.title@) + " entry_id="@
            + m.entry_id@ + " item_id="@ + m.item_id@,
        "    reason: "@ + m.reason@,
    ]
}

/// What is told of the titles that differ.
pub open spec fn all_mismatch_lines(list: Seq<Mismatch>) -> Seq<Seq<char>>
    decreases list.len(),
{
    if list.len() == 0 {
        Seq::empty()
    } else {
        all_mismatch_lines(list.drop_last()) + mismatch_lines(list.last())
    }
}

/// What is told of one title that only one store knows.
pub open spec fn one_sided_line(row: (String, String)) -> Seq<char> {
    "  rating_key="@ + row.0@ + " title="@ + quoted_text(row.1@)
}

/// What is told of the titles that only one store knows: how many there are, and the first few
/// of them.
pub open spec fn one_sided_lines(label: Seq<char>, rows: Seq<(String, String)>, sample: nat) -> Seq<
    Seq<char>,
> {
    let shown_rows = if rows.len() <= sample {
        rows
    } else {
        rows.take(sample as int)
    };
    let head = seq![decimal(rows.len()) + " title(s) "@ + label] + shown_rows.map_values(
        |r: (String, String)| one_sided_line(r),
    );
    if rows.len() > sample {
        head.push("  … and "@ + decimal((rows.len() - sample) as nat) + " more"@)
    } else {
        head
    }
}

/// What is told of how two stores compare.
pub open spec fn report_text(report: ReconcileReport, sample: nat) -> Seq<Seq<char>> {
    seq![
        "compared "@ + decimal(report.compared as nat) + " title(s) present in both stores: "@
            + decimal(report.agree as nat) + " agree, "@ + decimal(report.mismatches@.len())
            + " differ"@,
    ] + all_mismatch_lines(report.mismatches@) + one_sided_lines(
        "in etv-station only (plex-db-ex never ingested this rating key from Plex)"@,
        report.only_in_etv@,
        sample,
    ) + one_sided_lines(
        "in plex-db-ex only (this repository's walk never saw this rating key)"@,
        report.only_in_plexdb@,
        sample,
    )
}

fn push_mismatch(out: &mut Vec<String>, m: &Mismatch)
    ensures
        texts(final(out)@) == texts(old(out)@) + mismatch_lines(*m),
{
    let ghost before = texts(out@);
    let mut line: String = concat("  rating_key=", m.rating_key.as_str(), " title=");
    line.append(quoted(m.title.as_str()).as_str());
    line.append(" entry_id=");
    line.append(m.entry_id.as_str());
    line.append(" item_id=");
    line.append(m.item_id.as_str());
    let mut reason: String = "    reason: ".to_owned();
    reason.append(m.reason.as_str());
    out.push(line);
    out.push(reason);
    assert(texts(out@) =~= before + mismatch_lines(*m));
}

fn push_one_sided(out: &mut Vec<String>, label: &str, rows: &Vec<(String, String)>, sample: usize)
    ensures
        texts(final(out)@) == texts(old(out)@) + one_sided_lines(label@, rows@, sample as nat),
{
    let ghost before = texts(out@);
    let mut head: String = write_decimal(rows.len() as u64);
    head.append(" title(s) ");
    head.append(label);
    let ghost first = head@;
    out.push(head);
    let n: usize = if rows.len() <= sample {
        rows.len()
    } else {
        sample
    };
    let ghost line = |r: (String, String)| one_sided_line(r);
    let ghost opened = before.push(first);
    let mut i: usize = 0;
    assert(texts(out@) =~= opened + rows@.take(0).map_values(line));
    while i < n
        invariant
            i <= n <= rows.len(),
            line == (|r: (String, String)| one_sided_line(r)),
            texts(out@) == opened + rows@.take(i as int).map_values(line),
        decreases n - i,
    {
        let ghost earlier = texts(out@);
        let mut text: String = concat("  rating_key=", rows[i].0.as_str(), " title=");
        text.append(quoted(rows[i].1.as_str()).as_str());
        out.push(text);
        assert(texts(out@) =~= earlier.push(one_sided_line(rows@[i as int])));
        i += 1;
        assert(texts(out@) =~= opened + rows@.take(i as int).map_values(line));
    }
    assert(rows@.take(rows@.len() as int) =~= rows@);
    let ghost earlier = texts(out@);
    let ghost body = rows@.take(n as int).map_values(line);
    if rows.len() > sample {
        let mut more: String = "  … and ".to_owned();
        more.append(write_decimal((rows.len() - sample) as u64).as_str());
        more.append(" more");
        out.push(more);
        assert(texts(out@) =~= earlier.push(more@));
    }
    assert(texts(out@) =~= before + one_sided_lines(label@, rows@, sample as nat));
}

/// Tells how two stores compare, line by line: every title that differs in full, and the first
/// few of those that only one store knows.
pub fn report_lines(report: &ReconcileReport, sample: usize) -> (out: Vec<String>)
    ensures
        texts(out@) == report_text(*report, sample as nat),
{
    let mut out: Vec<String> = Vec::new();
    let mut head: String = "compared ".to_owned();
    head.append(write_decimal(report.compared as u64).as_str());
    head.append(" title(s) present in both stores: ");
    head.append(write_decimal(report.agree as u64).as_str());
    head.append(" agree, ");
    head.append(write_decimal(report.mismatched() as u64).as_str());
    head.append(" differ");
    let ghost first = seq![head@];
    out.push(head);
    assert(texts(out@) =~= first);
    let mut i: usize = 0;
    assert(report.mismatches@.take(0) =~= Seq::<Mismatch>::empty());
    assert(texts(out@) =~= first + all_mismatch_lines(report.mismatches@.take(0)));
    while i < report.mismatches.len()
        invariant
            i <= report.mismatches.len(),
            texts(out@) == first + all_mismatch_lines(report.mismatches@.take(i as int)),
        decreases report.mismatches.len() - i,
    {
        assert(report.mismatches@.take(i + 1).drop_last() =~= report.mismatches@.take(i as int));
        assert(report.mismatches@.take(i + 1).last() == report.mismatches@[i as int]);
        push_mismatch(&mut out, &report.mismatches[i]);
        i += 1;
        assert(texts(out@) =~= first + all_mismatch_lines(report.mismatches@.take(i as int)));
    }
    assert(report.mismatches@.take(i as int) =~= report.mismatches@);
    push_one_sided(
        &mut out,
        "in etv-station only (plex-db-ex never ingested this rating key from Plex)",
        &report.only_in_etv,
        sample,
    );
    push_one_sided(
        &mut out,
        "in plex-db-ex only (this repository's walk never saw this rating key)",
        &report.only_in_plexdb,
        sample,
    );
    out
}

} // verus!
