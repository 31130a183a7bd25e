//! What can go wrong when a channel is resolved, and how it is told.

use vstd::prelude::*;

use crate::config::{Order, OrderModel};
use crate::datastore::{unasked_text, write_unasked, Question, QuestionModel};
use crate::names::texts;
use crate::text::{decimal, quoted, quoted_text, write_decimal};

verus! {

/// The most cycles an author may ask for.
pub const MAX_CYCLES: usize = 10_000;

/// What asked for a catalog when there was none.
#[derive(Clone, Copy, Debug, PartialEq, Eq, Structural)]
pub enum Need {
    PatternBlock,
    SequencerBlock,
    QueryEntry,
    CollectionEntry,
    QueryFallback,
    SeasonFilter,
}

/// What went wrong.
#[derive(Debug)]
pub enum ResolveError {
    /// A query has to be put to the catalog before this can go on.
    UnansweredQuery { query: String },
    /// An ordering has to be put to the catalog before this can go on.
    UnansweredOrder { ids: Vec<String>, order: Order, seed: u64 },
    /// A question has to be put to a datastore before this can go on.
    UnansweredDatastore { store: String, question: Question },
    /// A script has to be read before this can go on.
    UnreadScript { path: String },
    /// The catalog failed.
    Failed { why: String },
    /// A pool that does not name exactly one source.
    PoolSource { pool: String },
    UndeclaredGroup { pool: String, group: String },
    ShowMissing { pool: String, show: String },
    BucketOrder { pool: String, why: String },
    Plugin { pool: String, why: String },
    /// A plugin has to rank the pool before this can go on.
    Unranked { pool: String },
    PoolField { pool: String, field: String },
    TooManyCycles { cycles: usize },
    UnknownPool { pool: String },
    NeedsCatalog { need: Need },
    OrderNeedsCatalog { order: Order },
    NestedEntry,
    Vanished { id: String },
    NoCollection { name: String },
    ManyCollections { name: String, found: Vec<String> },
    EmptyCollection { name: String, id: String },
    GroupShowMissing { group: String, show: String },
    MixedBlocks { count: usize },
    ZeroItems,
    FieldNeedsCatalog { field: String },
    UnknownField { field: String },
    /// A sequencer script has to arrange the pools before this can go on.
    Unarranged { script: String },
    /// A sequencer script failed.
    Sequencer { why: String },
    /// A sequencer script returned an item of no pool.
    NotInPools { script: String, id: String },
    /// An item that a pool resolved to is not in the catalog.
    PoolVanished { pool: String, id: String },
}

/// What went wrong, as mathematical values.
pub enum Fault {
    UnansweredQuery { query: String },
    UnansweredOrder { ids: Seq<Seq<char>>, order: OrderModel, seed: u64 },
    UnansweredDatastore { store: Seq<char>, question: QuestionModel },
    UnreadScript { path: Seq<char> },
    Failed { why: String },
    PoolSource { pool: String },
    UndeclaredGroup { pool: String, group: String },
    ShowMissing { pool: String, show: String },
    BucketOrder { pool: String, why: String },
    Plugin { pool: String, why: String },
    /// A plugin has to rank the pool before this can go on.
    Unranked { pool: String },
    PoolField { pool: String, field: String },
    TooManyCycles { cycles: usize },
    UnknownPool { pool: String },
    NeedsCatalog { need: Need },
    OrderNeedsCatalog { order: OrderModel },
    NestedEntry,
    Vanished { id: String },
    NoCollection { name: String },
    ManyCollections { name: String, found: Seq<String> },
    EmptyCollection { name: String, id: String },
    GroupShowMissing { group: String, show: String },
    MixedBlocks { count: usize },
    ZeroItems,
    FieldNeedsCatalog { field: String },
    UnknownField { field: String },
    Unarranged { script: Seq<char> },
    Sequencer { why: String },
    NotInPools { script: Seq<char>, id: String },
    /// An item that a pool resolved to is not in the catalog.
    PoolVanished { pool: String, id: String },
}

impl View for ResolveError {
    type V = Fault;

    open spec fn view(&self) -> Fault {
        match *self {
            ResolveError::UnansweredQuery { query } => Fault::UnansweredQuery { query },
            ResolveError::UnansweredOrder { ids, order, seed } => Fault::UnansweredOrder {
                ids: texts(ids@),
                order: order@,
                seed,
            },
            ResolveError::UnansweredDatastore { store, question } => Fault::UnansweredDatastore {
                store: store@,
                question: question@,
            },
            ResolveError::UnreadScript { path } => Fault::UnreadScript { path: path@ },
            ResolveError::Failed { why } => Fault::Failed { why },
            ResolveError::PoolSource { pool } => Fault::PoolSource { pool },
            ResolveError::UndeclaredGroup { pool, group } => Fault::UndeclaredGroup { pool, group },
            ResolveError::ShowMissing { pool, show } => Fault::ShowMissing { pool, show },
            ResolveError::BucketOrder { pool, why } => Fault::BucketOrder { pool, why },
            ResolveError::Plugin { pool, why } => Fault::Plugin { pool, why },
            ResolveError::Unranked { pool } => Fault::Unranked { pool },
            ResolveError::PoolField { pool, field } => Fault::PoolField { pool, field },
            ResolveError::TooManyCycles { cycles } => Fault::TooManyCycles { cycles },
            ResolveError::UnknownPool { pool } => Fault::UnknownPool { pool },
            ResolveError::NeedsCatalog { need } => Fault::NeedsCatalog { need },
            ResolveError::OrderNeedsCatalog { order } => Fault::OrderNeedsCatalog { order: order@ },
            ResolveError::NestedEntry => Fault::NestedEntry,
            ResolveError::Vanished { id } => Fault::Vanished { id },
            ResolveError::NoCollection { name } => Fault::NoCollection { name },
            ResolveError::ManyCollections { name, found } => Fault::ManyCollections {
                name,
                found: found@,
            },
            ResolveError::EmptyCollection { name, id } => Fault::EmptyCollection { name, id },
            ResolveError::GroupShowMissing { group, show } => Fault::GroupShowMissing {
                group,
                show,
            },
            ResolveError::MixedBlocks { count } => Fault::MixedBlocks { count },
            ResolveError::ZeroItems => Fault::ZeroItems,
            ResolveError::FieldNeedsCatalog { field } => Fault::FieldNeedsCatalog { field },
            ResolveError::UnknownField { field } => Fault::UnknownField { field },
            ResolveError::Unarranged { script } => Fault::Unarranged { script: script@ },
            ResolveError::Sequencer { why } => Fault::Sequencer { why },
            ResolveError::NotInPools { script, id } => Fault::NotInPools { script: script@, id },
            ResolveError::PoolVanished { pool, id } => Fault::PoolVanished { pool, id },
        }
    }
}

/// What is said of a missing catalog.
pub open spec fn need_text(need: Need) -> Seq<char> {
    match need {
        Need::PatternBlock => "a pattern block needs the catalog, which is not available"@,
        Need::SequencerBlock => "a sequencer block needs the catalog, which is not available"@,
        Need::QueryEntry => "a query entry needs the catalog, which is not available"@,
        Need::CollectionEntry => "a collection entry needs the catalog, which is not available"@,
        Need::QueryFallback => "a query fallback needs the catalog, which is not available"@,
        Need::SeasonFilter => "filter.seasons needs the catalog, which is not available"@,
    }
}

fn need_message(need: Need) -> (out: String)
    ensures
        out@ == need_text(need),
{
    match need {
        Need::PatternBlock => "a pattern block needs the catalog, which is not available".to_owned(),
        Need::SequencerBlock =>
            "a sequencer block needs the catalog, which is not available".to_owned(),
        Need::QueryEntry => "a query entry needs the catalog, which is not available".to_owned(),
        Need::CollectionEntry =>
            "a collection entry needs the catalog, which is not available".to_owned(),
        Need::QueryFallback =>
            "a query fallback needs the catalog, which is not available".to_owned(),
        Need::SeasonFilter => "filter.seasons needs the catalog, which is not available".to_owned(),
    }
}

/// How an order is told.
pub open spec fn order_text(order: OrderModel) -> Seq<char> {
    match order {
        OrderModel::Manual => "Manual"@,
        OrderModel::Random => "Random"@,
        OrderModel::Sort(fields) => "Sort("@ + quoted_text(fields) + ")"@,
    }
}

fn order_message(order: &Order) -> (out: String)
    ensures
        out@ == order_text(order@),
{
    match order {
        Order::Manual => "Manual".to_owned(),
        Order::Random => "Random".to_owned(),
        Order::Sort(fields) => {
            let mut out: String = "Sort(".to_owned();
            out.append(quoted(fields.as_str()).as_str());
            out.append(")");
            out
        },
    }
}

/// A list of names, parted by commas.
pub open spec fn comma_list(names: Seq<String>) -> Seq<char>
    decreases names.len(),
{
    if names.len() == 0 {
        Seq::empty()
    } else if names.len() == 1 {
        names[0]@
    } else {
        comma_list(names.drop_last()) + ", "@ + names.last()@
    }
}

/// Writes a list of names, parted by commas.
pub fn join_names(names: &Vec<String>) -> (out: String)
    ensures
        out@ == comma_list(names@),
{
    let mut out: String = String::new();
    let mut i: usize = 0;
    assert(names@.take(0) =~= Seq::<String>::empty());
    while i < names.len()
        invariant
            i <= names.len(),
            out@ == comma_list(names@.take(i as int)),
        decreases names.len() - i,
    {
        if i > 0 {
            out.append(", ");
        }
        let ghost before = out@;
        out.append(names[i].as_str());
        i += 1;
        proof {
            let head = names@.take(i as int);
            assert(head.drop_last() =~= names@.take(i - 1));
            if i == 1 {
                assert(out@ =~= head[0]@);
            }
        }
    }
    assert(names@.take(i as int) =~= names@);
    out
}

impl Fault {
    /// What is said of a fault.
    pub open spec fn text(self) -> Seq<char> {
        match self {
            Fault::UnansweredQuery { query } => "the catalog was not asked for "@ + quoted_text(
                query@,
            ),
            Fault::UnansweredOrder { ids, order, seed } => "the catalog was not asked to order "@
                + decimal(ids.len()) + " items by "@ + order_text(order),
            Fault::UnansweredDatastore { store, question } => unasked_text(store, question),
            Fault::UnreadScript { path } => "plugin "@ + path + " was not read"@,
            Fault::Failed { why } => why@,
            Fault::PoolSource { pool } => "pool "@ + quoted_text(pool@)
                + " must set exactly one of `expr`, `plugin`, or `groups`"@,
            Fault::UndeclaredGroup { pool, group } => "pool "@ + quoted_text(pool@)
                + " references group "@ + quoted_text(group@)
                + ", which this channel does not declare"@,
            Fault::ShowMissing { pool, show } => "pool "@ + quoted_text(pool@) + ": show "@
                + quoted_text(show@) + " is not in the catalog"@,
            Fault::BucketOrder { pool, why } => "pool "@ + quoted_text(pool@) + ": bucket_order: "@
                + why@,
            Fault::Plugin { pool, why } => "pool "@ + quoted_text(pool@) + ": "@ + why@,
            Fault::Unranked { pool } => "pool "@ + quoted_text(pool@)
                + " was not ranked by its plugin"@,
            Fault::PoolField { pool, field } => "pool "@ + quoted_text(pool@)
                + ": separate_by does not know the field "@ + quoted_text(field@),
            Fault::TooManyCycles { cycles } => "cycles = "@ + decimal(cycles as nat)
                + " exceeds the maximum of "@ + decimal(MAX_CYCLES as nat),
            Fault::UnknownPool { pool } => "pattern step names unknown pool "@ + quoted_text(pool@),
            Fault::NeedsCatalog { need } => need_text(need),
            Fault::OrderNeedsCatalog { order } => "order "@ + order_text(order)
                + " needs the catalog, which is not available"@,
            Fault::NestedEntry => "include entries are not implemented yet (#69)"@,
            Fault::Vanished { id } => "resolved entry "@ + id@ + " vanished from the catalog"@,
            Fault::NoCollection { name } => "no collection named "@ + quoted_text(name@)
                + " in the catalog"@,
            Fault::ManyCollections { name, found } => decimal(found.len())
                + " collections are named "@ + quoted_text(name@)
                + " — a collection entry must name exactly one (conflicting ids: "@ + comma_list(
                found,
            ) + "); rename one in the source and re-ingest"@,
            Fault::EmptyCollection { name, id } => "collection "@ + quoted_text(name@) + " ("@ + id@
                + ") has no members"@,
            Fault::GroupShowMissing { group, show } => "group "@ + quoted_text(group@)
                + " names show "@ + quoted_text(show@) + ", which is not in the catalog"@,
            Fault::MixedBlocks { count } => "channel mixes a pattern block with "@ + decimal(
                count as nat,
            )
                + " entries blocks: cutting several entries blocks to the window is only supported today when no pattern block shares the channel (see #190 on resume-position semantics for a fused multi-block cursor)"@,
            Fault::ZeroItems => "channel resolved to zero items"@,
            Fault::FieldNeedsCatalog { field } => "separate_by = "@ + quoted_text(field@)
                + " needs the catalog, which is not available"@,
            Fault::UnknownField { field } => "separate_by does not know the field "@ + quoted_text(
                field@,
            ),
            Fault::Unarranged { script } => "sequencer plugin "@ + script
                + " did not arrange the pools"@,
            Fault::Sequencer { why } => why@,
            Fault::PoolVanished { pool, id } => "pool "@ + quoted_text(pool@) + ": entry "@
                + quoted_text(id@) + " vanished from the catalog mid-resolution"@,
            Fault::NotInPools { script, id } => "sequencer plugin "@ + script
                + ": arrange() returned "@ + quoted_text(id@)
                + ", which is not in any of this block's pools"@,
        }
    }
}

fn named(head: &str, name: &String, tail: &str) -> (out: String)
    ensures
        out@ == head@ + quoted_text(name@) + tail@,
{
    let mut out: String = head.to_owned();
    out.append(quoted(name.as_str()).as_str());
    out.append(tail);
    out
}

impl ResolveError {
    /// What is said of this error.
    pub fn message(&self) -> (out: String)
        ensures
            out@ == self@.text(),
    {
        match self {
            ResolveError::UnansweredQuery { query } => {
                let mut out: String = "the catalog was not asked for ".to_owned();
                out.append(quoted(query.as_str()).as_str());
                out
            },
            ResolveError::UnansweredOrder { ids, order, seed: _ } => {
                let mut out: String = "the catalog was not asked to order ".to_owned();
                out.append(write_decimal(ids.len() as u64).as_str());
                out.append(" items by ");
                out.append(order_message(order).as_str());
                out
            },
            ResolveError::UnansweredDatastore { store, question } => write_unasked(
                store.as_str(),
                question,
            ),
            ResolveError::UnreadScript { path } => {
                let mut out: String = "plugin ".to_owned();
                out.append(path.as_str());
                out.append(" was not read");
                out
            },
            ResolveError::Failed { why } => why.clone(),
            ResolveError::PoolSource { pool } => named(
                "pool ",
                pool,
                " must set exactly one of `expr`, `plugin`, or `groups`",
            ),
            ResolveError::UndeclaredGroup { pool, group } => {
                let mut out: String = named("pool ", pool, " references group ");
                out.append(quoted(group.as_str()).as_str());
                out.append(", which this channel does not declare");
                out
            },
            ResolveError::ShowMissing { pool, show } => {
                let mut out: String = named("pool ", pool, ": show ");
                out.append(quoted(show.as_str()).as_str());
                out.append(" is not in the catalog");
                out
            },
            ResolveError::BucketOrder { pool, why } => {
                let mut out: String = named("pool ", pool, ": bucket_order: ");
                out.append(why.as_str());
                out
            },
            ResolveError::Plugin { pool, why } => {
                let mut out: String = named("pool ", pool, ": ");
                out.append(why.as_str());
                out
            },
            ResolveError::Unranked { pool } => named(
                "pool ",
                pool,
                " was not ranked by its plugin",
            ),
            ResolveError::PoolField { pool, field } => {
                let mut out: String = named(
                    "pool ",
                    pool,
                    ": separate_by does not know the field ",
                );
                out.append(quoted(field.as_str()).as_str());
                out
            },
            ResolveError::TooManyCycles { cycles } => {
                let mut out: String = "cycles = ".to_owned();
                out.append(write_decimal(*cycles as u64).as_str());
                out.append(" exceeds the maximum of ");
                out.append(write_decimal(MAX_CYCLES as u64).as_str());
                out
            },
            ResolveError::UnknownPool { pool } => {
                let mut out: String = "pattern step names unknown pool ".to_owned();
                out.append(quoted(pool.as_str()).as_str());
                out
            },
            ResolveError::NeedsCatalog { need } => need_message(*need),
            ResolveError::OrderNeedsCatalog { order } => {
                let mut out: String = "order ".to_owned();
                out.append(order_message(order).as_str());
                out.append(" needs the catalog, which is not available");
                out
            },
            ResolveError::NestedEntry =>
                "include entries are not implemented yet (#69)".to_owned(),
            ResolveError::Vanished { id } => {
                let mut out: String = "resolved entry ".to_owned();
                out.append(id.as_str());
                out.append(" vanished from the catalog");
                out
            },
            ResolveError::NoCollection { name } => named(
                "no collection named ",
                name,
                " in the catalog",
            ),
            ResolveError::ManyCollections { name, found } => {
                let mut out: String = write_decimal(found.len() as u64);
                out.append(" collections are named ");
                out.append(quoted(name.as_str()).as_str());
                out.append(" — a collection entry must name exactly one (conflicting ids: ");
                out.append(join_names(found).as_str());
                out.append("); rename one in the source and re-ingest");
                out
            },
            ResolveError::EmptyCollection { name, id } => {
                let mut out: String = named("collection ", name, " (");
                out.append(id.as_str());
                out.append(") has no members");
                out
            },
            ResolveError::GroupShowMissing { group, show } => {
                let mut out: String = named("group ", group, " names show ");
                out.append(quoted(show.as_str()).as_str());
                out.append(", which is not in the catalog");
                out
            },
            ResolveError::MixedBlocks { count } => {
                let mut out: String = "channel mixes a pattern block with ".to_owned();
                out.append(write_decimal(*count as u64).as_str());
                out.append(
                    " entries blocks: cutting several entries blocks to the window is only supported today when no pattern block shares the channel (see #190 on resume-position semantics for a fused multi-block cursor)",
                );
                out
            },
            ResolveError::ZeroItems => "channel resolved to zero items".to_owned(),
            ResolveError::FieldNeedsCatalog { field } => named(
                "separate_by = ",
                field,
                " needs the catalog, which is not available",
            ),
            ResolveError::UnknownField { field } => {
                let mut out: String = "separate_by does not know the field ".to_owned();
                out.append(quoted(field.as_str()).as_str());
                out
            },
            ResolveError::Unarranged { script } => {
                let mut out: String = "sequencer plugin ".to_owned();
                out.append(script.as_str());
                out.append(" did not arrange the pools");
                out
            },
            ResolveError::Sequencer { why } => why.clone(),
            ResolveError::PoolVanished { pool, id } => {
                let mut out: String = named("pool ", pool, ": entry ");
                out.append(quoted(id.as_str()).as_str());
                out.append(" vanished from the catalog mid-resolution");
                out
            },
            ResolveError::NotInPools { script, id } => {
                let mut out: String = "sequencer plugin ".to_owned();
                out.append(script.as_str());
                out.append(": arrange() returned ");
                out.append(quoted(id.as_str()).as_str());
                out.append(", which is not in any of this block's pools");
                out
            },
        }
    }
}

/// Whether a config asks for what is not supported, or for what is not valid.
#[derive(Clone, Copy, Debug, PartialEq, Eq, Structural)]
pub enum ErrorKind {
    Unsupported,
    Validation,
}

/// What went wrong with a channel, and where.
#[derive(Debug)]
pub struct ConfigError {
    pub kind: ErrorKind,
    /// The block at fault, where it is one.
    pub block: Option<usize>,
    /// Whether the block's fallback is at fault.
    pub fallback: bool,
    pub error: ResolveError,
}

/// What went wrong with a channel, as mathematical values.
pub struct ConfigFault {
    pub kind: ErrorKind,
    pub block: Option<usize>,
    pub fallback: bool,
    pub fault: Fault,
}

impl View for ConfigError {
    type V = ConfigFault;

    open spec fn view(&self) -> ConfigFault {
        ConfigFault {
            kind: self.kind,
            block: self.block,
            fallback: self.fallback,
            fault: self.error@,
        }
    }
}

impl ConfigFault {
    /// Something that a block asks for and that is not supported.
    pub open spec fn in_block(block: usize, fault: Fault) -> ConfigFault {
        ConfigFault { kind: ErrorKind::Unsupported, block: Some(block), fallback: false, fault }
    }

    /// Something that a block's fallback asks for and that is not supported.
    pub open spec fn in_fallback(block: usize, fault: Fault) -> ConfigFault {
        ConfigFault { kind: ErrorKind::Unsupported, block: Some(block), fallback: true, fault }
    }

    /// Something wrong with a channel as a whole.
    pub open spec fn of_channel(kind: ErrorKind, fault: Fault) -> ConfigFault {
        ConfigFault { kind, block: None, fallback: false, fault }
    }

    /// What is said of the fault.
    pub open spec fn text(self) -> Seq<char> {
        let place = match self.block {
            Some(idx) => "block #"@ + decimal(idx as nat) + ": "@,
            None => Seq::empty(),
        };
        let part = if self.fallback {
            "fallback: "@
        } else {
            Seq::empty()
        };
        place + part + self.fault.text()
    }
}

impl ConfigError {
    /// Something that a block asks for and that is not supported.
    pub fn in_block(block: usize, error: ResolveError) -> (out: ConfigError)
        ensures
            out@ == ConfigFault::in_block(block, error@),
    {
        ConfigError { kind: ErrorKind::Unsupported, block: Some(block), fallback: false, error }
    }

    /// Something wrong with a channel as a whole.
    pub fn of_channel(kind: ErrorKind, error: ResolveError) -> (out: ConfigError)
        ensures
            out@ == ConfigFault::of_channel(kind, error@),
    {
        ConfigError { kind, block: None, fallback: false, error }
    }

    /// What is said of the error.
    pub fn message(&self) -> (out: String)
        ensures
            out@ == self@.text(),
    {
        let mut out: String = match self.block {
            Some(idx) => {
                let mut place: String = "block #".to_owned();
                place.append(write_decimal(idx as u64).as_str());
                place.append(": ");
                place
            },
            None => String::new(),
        };
        let ghost place = out@;
        if self.fallback {
            out.append("fallback: ");
        } else {
            assert(place + Seq::<char>::empty() =~= place);
        }
        out.append(self.error.message().as_str());
        out
    }
}

} // verus!
