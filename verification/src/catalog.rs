//! The library catalog as one generation sees it: its rows, and the answers it gave to the
//! queries and orderings that were put to it.

use vstd::prelude::*;

use crate::config::{Order, OrderModel};
use crate::names::{copy_names, entry_of, lookup, same_text, texts};

verus! {

/// The longest slot, in milliseconds, that a catalog-reported length may size. Beyond a day
/// the number is not a runtime, it is bad metadata.
pub const MAX_CATALOG_DURATION_MS: i64 = 86_400_000;

/// The number of nanoseconds in a millisecond.
pub const NANOS_PER_MS: u64 = 1_000_000;

/// Where a playback path comes from.
#[derive(Clone, Copy, Debug, PartialEq, Eq, Structural)]
pub enum Source {
    LocalFs,
    Plex,
}

/// One way to play an entry.
#[derive(Debug)]
pub struct EntrySource {
    pub source: Source,
    /// The identity of the entry in its source.
    pub source_id: String,
    pub playback_path: String,
    /// Whether the source no longer has the file.
    pub stale: bool,
}

/// A namespace of external identifiers.
#[derive(Clone, Copy, Debug, PartialEq, Eq, Structural)]
pub enum ExternalNs {
    Imdb,
    Tmdb,
    Tvdb,
}

/// A namespace of tags.
#[derive(Clone, Copy, Debug, PartialEq, Eq, Structural)]
pub enum TagNs {
    Genre,
    Label,
    Cast,
    Director,
    Writer,
    Producer,
    Country,
}

/// The tags of an entry, by namespace.
#[derive(Debug)]
pub struct Tags {
    pub genres: Vec<String>,
    pub labels: Vec<String>,
    pub cast: Vec<String>,
    pub directors: Vec<String>,
    pub writers: Vec<String>,
    pub producers: Vec<String>,
    pub countries: Vec<String>,
}

/// One row of the catalog.
#[derive(Debug)]
pub struct Entry {
    pub entry_id: String,
    pub kind: String,
    pub title: String,
    pub title_sort: Option<String>,
    pub show: Option<String>,
    pub show_id: Option<String>,
    pub season: Option<i64>,
    pub episode: Option<i64>,
    pub absolute_episode: Option<i64>,
    pub edition: Option<String>,
    pub studio: Option<String>,
    pub year: Option<i64>,
    pub release_date: Option<String>,
    pub duration_ms: Option<i64>,
    pub content_rating: Option<String>,
    pub library: Option<String>,
    pub summary: Option<String>,
    pub artwork_cache_path: Option<String>,
    /// Whether the title has gone from the library.
    pub missing: bool,
    pub external: Vec<(ExternalNs, String)>,
    pub tags: Tags,
    pub sources: Vec<EntrySource>,
}

/// A named, ordered set of entries.
#[derive(Debug)]
pub struct Collection {
    pub collection_id: String,
    pub name: String,
    /// In the order of their stored positions.
    pub members: Vec<String>,
}

/// What the catalog gave back: items, or what went wrong.
#[derive(Debug)]
pub enum Reply {
    Items(Vec<String>),
    Failed(String),
}

/// The answer to an ordering that was put to the catalog.
#[derive(Debug)]
pub struct Ordered {
    pub ids: Vec<String>,
    pub order: Order,
    pub seed: u64,
    pub reply: Reply,
}

/// The catalog as one generation sees it.
#[derive(Debug)]
pub struct Catalog {
    pub entries: Vec<Entry>,
    pub collections: Vec<Collection>,
    /// The episodes of each show, by the show's title.
    pub episodes: Vec<(String, Vec<String>)>,
    /// The answers to the queries.
    pub queries: Vec<(String, Reply)>,
    /// The answers to the orderings.
    pub orders: Vec<Ordered>,
}

/// The first row of an identity.
pub open spec fn row(entries: Seq<Entry>, id: Seq<char>) -> Option<Entry>
    decreases entries.len(),
{
    if entries.len() == 0 {
        None
    } else {
        match row(entries.drop_last(), id) {
            Some(e) => Some(e),
            None => if entries.last().entry_id@ == id {
                Some(entries.last())
            } else {
                None
            },
        }
    }
}

/// What `row` gives: the first row of that identity, if there is one.
pub proof fn lemma_row(entries: Seq<Entry>, id: Seq<char>)
    ensures
        row(entries, id) is Some <==> exists|i: int|
            0 <= i < entries.len() && #[trigger] entries[i].entry_id@ == id,
        row(entries, id) matches Some(e) ==> e.entry_id@ == id && exists|i: int|
            #![trigger entries[i]]
            0 <= i < entries.len() && entries[i] == e && forall|j: int|
                0 <= j < i ==> #[trigger] entries[j].entry_id@ != id,
    decreases entries.len(),
{
    if entries.len() > 0 {
        let shorter = entries.drop_last();
        lemma_row(shorter, id);
        assert(forall|j: int| 0 <= j < shorter.len() ==> entries[j] == shorter[j]);
        if row(shorter, id) is Some {
            let i = choose|i: int| #![trigger shorter[i]]
                0 <= i < shorter.len() && shorter[i] == row(shorter, id)->0 && forall|j: int|
                    0 <= j < i ==> #[trigger] shorter[j].entry_id@ != id;
            assert(entries[i].entry_id@ == id);
            assert forall|j: int| 0 <= j < i implies #[trigger] entries[j].entry_id@ != id by {
                assert(shorter[j].entry_id@ != id);
            }
        } else {
            assert forall|j: int| 0 <= j < shorter.len() implies #[trigger] entries[j].entry_id@
                != id by {
                assert(shorter[j].entry_id@ != id);
            }
            if entries.last().entry_id@ == id {
                assert(entries[entries.len() - 1].entry_id@ == id);
            }
        }
    }
}

proof fn lemma_row_is(entries: Seq<Entry>, id: Seq<char>, i: int)
    requires
        0 <= i < entries.len(),
        entries[i].entry_id@ == id,
        forall|j: int| 0 <= j < i ==> #[trigger] entries[j].entry_id@ != id,
    ensures
        row(entries, id) == Some(entries[i]),
{
    lemma_row(entries, id);
    let k = choose|k: int| #![trigger entries[k]]
        0 <= k < entries.len() && entries[k] == row(entries, id)->0 && forall|j: int|
            0 <= j < k ==> #[trigger] entries[j].entry_id@ != id;
    assert(entries[k].entry_id@ == id);
    if k < i {
        assert(entries[k].entry_id@ != id);
    }
    if i < k {
        assert(entries[i].entry_id@ != id);
    }
}

/// A catalog-reported length that can size a slot, in nanoseconds.
pub open spec fn slot_length(duration_ms: Option<i64>) -> Option<u64> {
    match duration_ms {
        Some(ms) => if 0 < ms <= MAX_CATALOG_DURATION_MS {
            Some((ms * NANOS_PER_MS) as u64)
        } else {
            None
        },
        None => None,
    }
}

/// A catalog-reported length that can size a slot, in nanoseconds. A length that is not
/// positive is meaningless, and one past a day is bad metadata: either is no length at all.
pub fn usable_length(duration_ms: Option<i64>) -> (out: Option<u64>)
    ensures
        out == slot_length(duration_ms),
{
    match duration_ms {
        Some(ms) => if ms > 0 && ms <= MAX_CATALOG_DURATION_MS {
            Some(ms as u64 * NANOS_PER_MS)
        } else {
            None
        },
        None => None,
    }
}

impl Tags {
    /// The values of one namespace.
    pub open spec fn values(self, ns: TagNs) -> Seq<String> {
        match ns {
            TagNs::Genre => self.genres@,
            TagNs::Label => self.labels@,
            TagNs::Cast => self.cast@,
            TagNs::Director => self.directors@,
            TagNs::Writer => self.writers@,
            TagNs::Producer => self.producers@,
            TagNs::Country => self.countries@,
        }
    }

    /// A copy of the values of one namespace.
    pub fn copy_values(&self, ns: TagNs) -> (out: Vec<String>)
        ensures
            out@ == self.values(ns),
    {
        match ns {
            TagNs::Genre => copy_names(&self.genres),
            TagNs::Label => copy_names(&self.labels),
            TagNs::Cast => copy_names(&self.cast),
            TagNs::Director => copy_names(&self.directors),
            TagNs::Writer => copy_names(&self.writers),
            TagNs::Producer => copy_names(&self.producers),
            TagNs::Country => copy_names(&self.countries),
        }
    }
}

/// An answer of the catalog as mathematical values.
pub enum Answer {
    /// The question was not put to the catalog yet.
    Unasked,
    Items(Seq<String>),
    Failed(String),
}

impl Reply {
    /// The answer that this reply gives.
    pub open spec fn answer(self) -> Answer {
        match self {
            Reply::Items(ids) => Answer::Items(ids@),
            Reply::Failed(why) => Answer::Failed(why),
        }
    }

    /// The same reply again.
    pub fn copy(&self) -> (out: Reply)
        ensures
            out.answer() == self.answer(),
    {
        match self {
            Reply::Items(ids) => Reply::Items(copy_names(ids)),
            Reply::Failed(why) => Reply::Failed(why.clone()),
        }
    }
}

impl Order {
    /// Whether two orders are written the same.
    pub fn same(&self, other: &Order) -> (out: bool)
        ensures
            out == (self@ == other@),
    {
        match (self, other) {
            (Order::Manual, Order::Manual) => true,
            (Order::Random, Order::Random) => true,
            (Order::Sort(x), Order::Sort(y)) => *x == *y,
            _ => false,
        }
    }

    /// The same order again.
    pub fn copy(&self) -> (out: Order)
        ensures
            out == *self,
    {
        match self {
            Order::Manual => Order::Manual,
            Order::Random => Order::Random,
            Order::Sort(fields) => Order::Sort(fields.clone()),
        }
    }
}

/// Whether two lists hold the same texts in the same order.
pub fn lists_agree(a: &Vec<String>, b: &Vec<String>) -> (out: bool)
    ensures
        out == (texts(a@) == texts(b@)),
{
    if a.len() != b.len() {
        assert(texts(a@).len() != texts(b@).len());
        return false;
    }
    let mut i: usize = 0;
    while i < a.len()
        invariant
            i <= a.len(),
            a.len() == b.len(),
            forall|j: int| 0 <= j < i ==> (#[trigger] a@[j])@ == b@[j]@,
        decreases a.len() - i,
    {
        if a[i] != b[i] {
            assert(texts(a@)[i as int] != texts(b@)[i as int]);
            return false;
        }
        i += 1;
    }
    assert(texts(a@) =~= texts(b@));
    true
}

impl Ordered {
    /// Whether this is the answer to that ordering.
    pub open spec fn answers(self, ids: Seq<Seq<char>>, order: OrderModel, seed: u64) -> bool {
        self.seed == seed && self.order@ == order && texts(self.ids@) == ids
    }
}

/// What was answered to an ordering.
pub open spec fn ordered_answer(
    orders: Seq<Ordered>,
    ids: Seq<Seq<char>>,
    order: OrderModel,
    seed: u64,
) -> Answer
    decreases orders.len(),
{
    if orders.len() == 0 {
        Answer::Unasked
    } else if orders[0].answers(ids, order, seed) {
        orders[0].reply.answer()
    } else {
        ordered_answer(orders.drop_first(), ids, order, seed)
    }
}

/// The identities of the collections of a name.
pub open spec fn collections_named(collections: Seq<Collection>, name: Seq<char>) -> Seq<String>
    decreases collections.len(),
{
    if collections.len() == 0 {
        Seq::empty()
    } else {
        let earlier = collections_named(collections.drop_last(), name);
        if collections.last().name@ == name {
            earlier.push(collections.last().collection_id)
        } else {
            earlier
        }
    }
}

/// The members of the first collection of an identity; none when there is no such
/// collection.
pub open spec fn members_of(collections: Seq<Collection>, id: Seq<char>) -> Seq<String>
    decreases collections.len(),
{
    if collections.len() == 0 {
        Seq::empty()
    } else if collections[0].collection_id@ == id {
        collections[0].members@
    } else {
        members_of(collections.drop_first(), id)
    }
}

impl Catalog {
    /// The row of an identity.
    pub open spec fn row(self, id: Seq<char>) -> Option<Entry> {
        row(self.entries@, id)
    }

    /// The show an item belongs to.
    pub open spec fn show_id(self, id: Seq<char>) -> Option<String> {
        match self.row(id) {
            Some(e) => e.show_id,
            None => None,
        }
    }

    /// The season an item belongs to.
    pub open spec fn season(self, id: Seq<char>) -> Option<i64> {
        match self.row(id) {
            Some(e) => e.season,
            None => None,
        }
    }

    /// How long an item runs, in nanoseconds, where the catalog has a usable figure.
    pub open spec fn length(self, id: Seq<char>) -> Option<u64> {
        match self.row(id) {
            Some(e) => slot_length(e.duration_ms),
            None => None,
        }
    }

    /// The values an item has in a namespace of tags.
    pub open spec fn tags(self, id: Seq<char>, ns: TagNs) -> Seq<String> {
        match self.row(id) {
            Some(e) => e.tags.values(ns),
            None => Seq::empty(),
        }
    }

    /// The episodes of a show.
    pub open spec fn episodes_of(self, show: Seq<char>) -> Seq<String> {
        match entry_of(self.episodes@, show) {
            Some(ids) => ids@,
            None => Seq::empty(),
        }
    }

    /// What was answered to a query.
    pub open spec fn query_answer(self, query: Seq<char>) -> Answer {
        match entry_of(self.queries@, query) {
            Some(reply) => reply.answer(),
            None => Answer::Unasked,
        }
    }

    /// What was answered to an ordering.
    pub open spec fn order_answer(self, ids: Seq<Seq<char>>, order: OrderModel, seed: u64) -> Answer {
        ordered_answer(self.orders@, ids, order, seed)
    }

    /// The row of an identity.
    pub fn entry(&self, id: &String) -> (out: Option<&Entry>)
        ensures
            out is Some <==> self.row(id@) is Some,
            out matches Some(e) ==> self.row(id@) == Some(*e),
    {
        let mut i: usize = 0;
        while i < self.entries.len()
            invariant
                i <= self.entries.len(),
                forall|j: int| 0 <= j < i ==> #[trigger] self.entries@[j].entry_id@ != id@,
            decreases self.entries.len() - i,
        {
            if self.entries[i].entry_id == *id {
                proof {
                    lemma_row_is(self.entries@, id@, i as int);
                }
                return Some(&self.entries[i]);
            }
            i += 1;
        }
        proof {
            lemma_row(self.entries@, id@);
        }
        None
    }

    /// The show an item belongs to.
    pub fn show_id_for(&self, id: &String) -> (out: Option<String>)
        ensures
            out == self.show_id(id@),
    {
        match self.entry(id) {
            Some(e) => match &e.show_id {
                Some(show) => Some(show.clone()),
                None => None,
            },
            None => None,
        }
    }

    /// The season an item belongs to.
    pub fn season_for(&self, id: &String) -> (out: Option<i64>)
        ensures
            out == self.season(id@),
    {
        match self.entry(id) {
            Some(e) => e.season,
            None => None,
        }
    }

    /// How long an item runs, in nanoseconds, where the catalog has a usable figure.
    pub fn length_for(&self, id: &String) -> (out: Option<u64>)
        ensures
            out == self.length(id@),
    {
        match self.entry(id) {
            Some(e) => usable_length(e.duration_ms),
            None => None,
        }
    }

    /// The values an item has in a namespace of tags.
    pub fn tags_for(&self, id: &String, ns: TagNs) -> (out: Vec<String>)
        ensures
            out@ == self.tags(id@, ns),
    {
        match self.entry(id) {
            Some(e) => e.tags.copy_values(ns),
            None => Vec::new(),
        }
    }

    /// The episodes of a show.
    pub fn episode_ids_for_show(&self, show: &String) -> (out: Vec<String>)
        ensures
            out@ == self.episodes_of(show@),
    {
        match lookup(&self.episodes, show) {
            Some(ids) => copy_names(ids),
            None => Vec::new(),
        }
    }

    /// What was answered to a query, if it was put to the catalog.
    pub fn resolve_query(&self, query: &String) -> (out: Option<Reply>)
        ensures
            out is None <==> self.query_answer(query@) is Unasked,
            out matches Some(reply) ==> reply.answer() == self.query_answer(query@),
    {
        match lookup(&self.queries, query) {
            Some(reply) => Some(reply.copy()),
            None => None,
        }
    }

    /// What was answered to an ordering, if it was put to the catalog.
    pub fn resolve_order(&self, ids: &Vec<String>, order: &Order, seed: u64) -> (out: Option<Reply>)
        ensures
            out is None <==> self.order_answer(texts(ids@), order@, seed) is Unasked,
            out matches Some(reply) ==> reply.answer() == self.order_answer(texts(ids@), order@, seed),
    {
        let mut i: usize = 0;
        assert(self.orders@.skip(0) =~= self.orders@);
        while i < self.orders.len()
            invariant
                i <= self.orders.len(),
                self.order_answer(texts(ids@), order@, seed) == ordered_answer(
                    self.orders@.skip(i as int),
                    texts(ids@),
                    order@,
                    seed,
                ),
            decreases self.orders.len() - i,
        {
            let o: &Ordered = &self.orders[i];
            assert(self.orders@.skip(i as int)[0] == *o);
            if o.seed == seed && o.order.same(order) && lists_agree(&o.ids, ids) {
                return Some(o.reply.copy());
            }
            assert(self.orders@.skip(i as int).drop_first() =~= self.orders@.skip(i + 1));
            i += 1;
        }
        None
    }

    /// The identities of the collections of a name.
    pub fn collection_ids_by_name(&self, name: &String) -> (out: Vec<String>)
        ensures
            out@ == collections_named(self.collections@, name@),
    {
        let mut out: Vec<String> = Vec::new();
        let mut i: usize = 0;
        while i < self.collections.len()
            invariant
                i <= self.collections.len(),
                out@ == collections_named(self.collections@.take(i as int), name@),
            decreases self.collections.len() - i,
        {
            if self.collections[i].name == *name {
                out.push(self.collections[i].collection_id.clone());
            }
            i += 1;
            assert(self.collections@.take(i as int).drop_last() =~= self.collections@.take(i - 1));
        }
        assert(self.collections@.take(i as int) =~= self.collections@);
        out
    }

    /// The members of a collection, in the order of their stored positions.
    pub fn collection_members(&self, id: &String) -> (out: Vec<String>)
        ensures
            out@ == members_of(self.collections@, id@),
    {
        let mut i: usize = 0;
        assert(self.collections@.skip(0) =~= self.collections@);
        while i < self.collections.len()
            invariant
                i <= self.collections.len(),
                members_of(self.collections@, id@) == members_of(
                    self.collections@.skip(i as int),
                    id@,
                ),
            decreases self.collections.len() - i,
        {
            let c: &Collection = &self.collections[i];
            assert(self.collections@.skip(i as int)[0] == *c);
            if c.collection_id == *id {
                return copy_names(&c.members);
            }
            assert(self.collections@.skip(i as int).drop_first() =~= self.collections@.skip(i + 1));
            i += 1;
        }
        Vec::new()
    }
}

/// Whether a row came from a source under an identity.
pub open spec fn comes_from(e: Entry, source: Source, id: Seq<char>) -> bool {
    exists|i: int|
        0 <= i < e.sources@.len() && (#[trigger] e.sources@[i]).source == source
            && e.sources@[i].source_id@ == id
}

/// The identity of the first row that came from a source under an identity.
pub open spec fn sourced_id(entries: Seq<Entry>, source: Source, id: Seq<char>) -> Option<String>
    decreases entries.len(),
{
    if entries.len() == 0 {
        None
    } else {
        match sourced_id(entries.drop_last(), source, id) {
            Some(found) => Some(found),
            None => if comes_from(entries.last(), source, id) {
                Some(entries.last().entry_id)
            } else {
                None
            },
        }
    }
}

proof fn lemma_sourced_id(entries: Seq<Entry>, source: Source, id: Seq<char>, i: int)
    requires
        0 <= i <= entries.len(),
        sourced_id(entries.take(i), source, id) is Some,
    ensures
        sourced_id(entries, source, id) == sourced_id(entries.take(i), source, id),
    decreases entries.len() - i,
{
    if i < entries.len() {
        assert(entries.take(i + 1).drop_last() =~= entries.take(i));
        lemma_sourced_id(entries, source, id, i + 1);
    } else {
        assert(entries.take(i) =~= entries);
    }
}

impl Entry {
    fn is_from(&self, source: Source, id: &str) -> (out: bool)
        ensures
            out == comes_from(*self, source, id@),
    {
        let mut i: usize = 0;
        while i < self.sources.len()
            invariant
                i <= self.sources.len(),
                forall|j: int|
                    0 <= j < i ==> !((#[trigger] self.sources@[j]).source == source
                        && self.sources@[j].source_id@ == id@),
            decreases self.sources.len() - i,
        {
            if self.sources[i].source == source && same_text(self.sources[i].source_id.as_str(), id) {
                assert(self.sources@[i as int].source == source);
                return true;
            }
            i += 1;
        }
        false
    }
}

impl Catalog {
    /// The identity of the entry that came from a source under an identity.
    pub fn entry_id_for_source(&self, source: Source, id: &str) -> (out: Option<String>)
        ensures
            out == sourced_id(self.entries@, source, id@),
    {
        let mut i: usize = 0;
        assert(self.entries@.take(0) =~= Seq::<Entry>::empty());
        while i < self.entries.len()
            invariant
                i <= self.entries.len(),
                sourced_id(self.entries@.take(i as int), source, id@) is None,
            decreases self.entries.len() - i,
        {
            assert(self.entries@.take(i + 1).drop_last() =~= self.entries@.take(i as int));
            assert(self.entries@.take(i + 1).last() == self.entries@[i as int]);
            if self.entries[i].is_from(source, id) {
                proof {
                    lemma_sourced_id(self.entries@, source, id@, i + 1);
                }
                return Some(self.entries[i].entry_id.clone());
            }
            i += 1;
        }
        assert(self.entries@.take(i as int) =~= self.entries@);
        None
    }
}

} // verus!
