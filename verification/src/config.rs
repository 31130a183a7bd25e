//! What a channel's author writes: pools, pattern steps, blocks and their rules.

use vstd::prelude::*;

use std::sync::Arc;

use crate::constrain::{Limits, RepeatGap};
use crate::item::GuideConfig;
use crate::score::DatastoreGrant;
use crate::script::ScriptValue;
use crate::sources::PoolSources;

verus! {

/// Which series of a pool serves a visit.
#[derive(Clone, Copy, Debug, PartialEq, Eq, Structural)]
pub enum Select {
    RoundRobin,
    Random,
}

/// When a pool moves on to another series.
#[derive(Clone, Copy, Debug, PartialEq, Eq, Structural)]
pub enum Rotate {
    Visit,
    Slot,
}

/// Who fills a visit that the picked series cannot fill alone.
#[derive(Clone, Copy, Debug, PartialEq, Eq, Structural)]
pub enum OnShort {
    /// The next series in the rotation.
    Next,
    /// The same series, from its start.
    Wrap,
    /// Nobody: the visit stays short.
    Short,
}

/// Whether a pool replays from the top or continues where it stopped.
#[derive(Clone, Copy, Debug, PartialEq, Eq, Structural)]
pub enum Advance {
    Restart,
    Resume,
}

/// What makes a series of a pool.
#[derive(Clone, Copy, Debug, PartialEq, Eq, Structural)]
pub enum GroupBy {
    Show,
    Season,
}

/// How many items a step draws.
#[derive(Clone, Copy, Debug, PartialEq, Eq, Structural)]
pub enum Take {
    Count(usize),
    /// What is left of the picked series.
    All,
}

/// Where in the picked series a step draws from.
#[derive(Clone, Copy, Debug, PartialEq, Eq, Structural)]
pub enum TakeFrom {
    Start,
    End,
    Random,
}

/// How soon the same item may come round again.
#[derive(Clone, Copy, Debug, PartialEq, Eq, Structural)]
pub enum NoRepeatWithin {
    Positions(usize),
    /// In nanoseconds.
    Duration(u64),
}

/// A `[constraints]` table.
#[derive(Debug)]
pub struct Constraints {
    pub no_repeat_within: Option<NoRepeatWithin>,
    pub separate_by: Option<String>,
    pub separate_min_gap: Option<usize>,
}

impl Constraints {
    /// The adjacency rule the table asks for.
    pub open spec fn rule(self) -> Limits {
        Limits {
            no_repeat: match self.no_repeat_within {
                None => RepeatGap::Positions(0),
                Some(NoRepeatWithin::Positions(n)) => RepeatGap::Positions(n),
                Some(NoRepeatWithin::Duration(d)) => RepeatGap::Duration(d),
            },
            separate: match (self.separate_by, self.separate_min_gap) {
                (None, _) => 0,
                (Some(_), None) => 1,
                (Some(_), Some(gap)) => gap,
            },
        }
    }

    /// A table that says nothing.
    pub fn none() -> (out: Constraints)
        ensures
            out == (Constraints { no_repeat_within: None, separate_by: None, separate_min_gap: None }),
    {
        Constraints { no_repeat_within: None, separate_by: None, separate_min_gap: None }
    }

    /// How soon the same item may come round again; nothing said is no gap.
    pub fn no_repeat_gap(&self) -> (out: NoRepeatWithin)
        ensures
            out == (match self.no_repeat_within {
                Some(gap) => gap,
                None => NoRepeatWithin::Positions(0),
            }),
    {
        match self.no_repeat_within {
            Some(gap) => gap,
            None => NoRepeatWithin::Positions(0),
        }
    }

    /// How many items back none may share a value; a field named without a gap keeps
    /// neighbours apart, and no field is no gap.
    pub fn separate_gap(&self) -> (out: usize)
        ensures
            out == self.rule().separate,
    {
        if self.separate_by.is_none() {
            0
        } else {
            match self.separate_min_gap {
                Some(gap) => gap,
                None => 1,
            }
        }
    }

    /// The adjacency rule the table asks for.
    pub fn limits(&self) -> (out: Limits)
        ensures
            out == self.rule(),
    {
        let no_repeat: RepeatGap = match self.no_repeat_gap() {
            NoRepeatWithin::Positions(n) => RepeatGap::Positions(n),
            NoRepeatWithin::Duration(d) => RepeatGap::Duration(d),
        };
        Limits { no_repeat, separate: self.separate_gap() }
    }
}

/// How a list is ordered.
#[derive(Debug)]
pub enum Order {
    /// As authored.
    Manual,
    /// Shuffled.
    Random,
    /// By fields, such as `season:asc,episode:asc`.
    Sort(String),
}

/// How a list is ordered, as mathematical values.
pub enum OrderModel {
    Manual,
    Random,
    Sort(Seq<char>),
}

impl View for Order {
    type V = OrderModel;

    open spec fn view(&self) -> OrderModel {
        match *self {
            Order::Manual => OrderModel::Manual,
            Order::Random => OrderModel::Random,
            Order::Sort(fields) => OrderModel::Sort(fields@),
        }
    }
}

/// A named list of shows.
#[derive(Debug)]
pub struct ShowGroup {
    pub name: String,
    pub shows: Vec<String>,
}

/// A named source of items that a pattern draws from.
#[derive(Debug)]
pub struct Pool {
    pub name: String,
    pub expr: Option<String>,
    /// The path of the plugin that ranks the pool.
    pub plugin: Option<String>,
    /// The queries that the plugin reads, in place of those it asks for itself.
    pub sources: Option<PoolSources>,
    pub groups: Vec<String>,
    pub order: Option<Order>,
    pub bucket_order: Option<Order>,
    pub group_by: GroupBy,
    pub select: Select,
    pub rotate: Rotate,
    pub advance: Advance,
    pub on_short: OnShort,
    pub constraints: Option<Constraints>,
    /// What the plugin is configured with.
    pub config: Option<Arc<ScriptValue>>,
    /// The capabilities that the plugin is granted, by name.
    pub capabilities: Vec<String>,
    /// The datastores that the plugin is granted.
    pub datastores: Vec<DatastoreGrant>,
    /// The guide templates of what is drawn from the pool.
    pub guide: Option<GuideConfig>,
}

/// One step of a pattern.
#[derive(Debug)]
pub struct PatternStep {
    pub pool: String,
    pub take: Take,
    pub from: TakeFrom,
    /// How likely the step is to run, in slices of `roll::CHANCE_WHOLE`. A step of at
    /// least that many always runs.
    pub chance: u64,
}

/// How many of a block's items play.
#[derive(Clone, Copy, Debug, PartialEq, Eq, Structural)]
pub enum Mode {
    All,
    Count(usize),
}

/// What happens to an item that comes twice in a block.
#[derive(Clone, Copy, Debug, PartialEq, Eq, Structural)]
pub enum Duplicates {
    /// The first occurrence stays.
    Collapse,
    Keep,
}

/// A `[filter]` table.
#[derive(Debug)]
pub struct Filter {
    pub seasons: Option<Vec<u32>>,
    pub episode_ids: Option<Vec<String>>,
}

} // verus!
