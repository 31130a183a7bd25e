//! The playout: items on the clock, as they are written out for the player.

use vstd::prelude::*;

use std::sync::Arc;

use crate::item::{ItemModel, ProgramMetadata, ProgramModel, ResolvedItem, SourceConfig, SourceModel};
use crate::script::{share, ScriptValue};

verus! {

/// The number of nanoseconds in a millisecond.
pub const NANOS_PER_MILLI: u64 = 1_000_000;

/// What a scheduled item plays.
#[derive(Debug)]
pub enum PlayoutSource {
    /// A file, and where in it the item begins and ends, in milliseconds.
    Local { path: String, in_point_ms: Option<u64>, out_point_ms: Option<u64> },
    Lavfi { params: String },
    Http { uri: String, headers: Vec<(String, String)>, user_agent: Option<String> },
}

/// What a scheduled item plays, as mathematical values.
pub enum PlayoutSourceModel {
    Local { path: Seq<char>, in_point_ms: Option<u64>, out_point_ms: Option<u64> },
    Lavfi { params: Seq<char> },
    Http { uri: Seq<char>, headers: Seq<(String, String)>, user_agent: Option<String> },
}

impl View for PlayoutSource {
    type V = PlayoutSourceModel;

    open spec fn view(&self) -> PlayoutSourceModel {
        match *self {
            PlayoutSource::Local { path, in_point_ms, out_point_ms } => PlayoutSourceModel::Local {
                path: path@,
                in_point_ms,
                out_point_ms,
            },
            PlayoutSource::Lavfi { params } => PlayoutSourceModel::Lavfi { params: params@ },
            PlayoutSource::Http { uri, headers, user_agent } => PlayoutSourceModel::Http {
                uri: uri@,
                headers: headers@,
                user_agent,
            },
        }
    }
}

/// One item on the clock. Instants are nanoseconds since the epoch.
#[derive(Debug)]
pub struct PlayoutItem {
    pub id: String,
    pub start: i128,
    pub finish: i128,
    pub source: Option<PlayoutSource>,
    pub program: Option<ProgramMetadata>,
    /// The overlay that is drawn over the item.
    pub overlay: Option<String>,
    /// What a plugin attached to the pick.
    pub metadata: Option<Arc<ScriptValue>>,
}

/// One item on the clock, as mathematical values.
pub struct PlayoutModel {
    pub id: Seq<char>,
    pub start: int,
    pub finish: int,
    pub source: Option<PlayoutSourceModel>,
    pub program: Option<ProgramModel>,
    pub overlay: Option<String>,
    pub metadata: Option<Arc<ScriptValue>>,
}

impl View for PlayoutItem {
    type V = PlayoutModel;

    open spec fn view(&self) -> PlayoutModel {
        PlayoutModel {
            id: self.id@,
            start: self.start as int,
            finish: self.finish as int,
            source: match self.source {
                Some(s) => Some(s@),
                None => None,
            },
            program: match self.program {
                Some(p) => Some(p@),
                None => None,
            },
            overlay: self.overlay,
            metadata: self.metadata,
        }
    }
}

/// Items on the clock, as mathematical values.
pub open spec fn playout(list: Seq<PlayoutItem>) -> Seq<PlayoutModel> {
    list.map_values(|i: PlayoutItem| i@)
}

/// A point in a file, in milliseconds.
pub open spec fn millis(nanos: Option<u64>) -> Option<u64> {
    match nanos {
        Some(n) => Some((n / NANOS_PER_MILLI) as u64),
        None => None,
    }
}

fn to_millis(nanos: Option<u64>) -> (out: Option<u64>)
    ensures
        out == millis(nanos),
{
    match nanos {
        Some(n) => Some(n / NANOS_PER_MILLI),
        None => None,
    }
}

/// What an item plays once it is scheduled. Only a file is played in part.
pub open spec fn scheduled_source(
    source: SourceModel,
    in_point: Option<u64>,
    out_point: Option<u64>,
) -> PlayoutSourceModel {
    match source {
        SourceModel::Local { path } => PlayoutSourceModel::Local {
            path,
            in_point_ms: millis(in_point),
            out_point_ms: millis(out_point),
        },
        SourceModel::Lavfi { params } => PlayoutSourceModel::Lavfi { params },
        SourceModel::Http { uri, headers, user_agent } => PlayoutSourceModel::Http {
            uri,
            headers,
            user_agent,
        },
    }
}

impl ResolvedItem {
    /// What this item plays once it is scheduled.
    pub fn to_playout_source(&self) -> (out: PlayoutSource)
        ensures
            out@ == scheduled_source(self.source@, self.in_point, self.out_point),
    {
        match self.source.copy() {
            SourceConfig::Local { path } => PlayoutSource::Local {
                path,
                in_point_ms: to_millis(self.in_point),
                out_point_ms: to_millis(self.out_point),
            },
            SourceConfig::Lavfi { params } => PlayoutSource::Lavfi { params },
            SourceConfig::Http { uri, headers, user_agent } => PlayoutSource::Http {
                uri,
                headers,
                user_agent,
            },
        }
    }
}

/// An item put on the clock.
pub open spec fn scheduled(
    item: ItemModel,
    start: int,
    finish: int,
    overlay: Option<String>,
) -> PlayoutModel {
    PlayoutModel {
        id: item.id,
        start,
        finish,
        source: Some(scheduled_source(item.source, item.in_point, item.out_point)),
        program: item.program,
        overlay,
        metadata: item.metadata,
    }
}

/// Puts an item on the clock.
pub fn build_playout_item(
    item: &ResolvedItem,
    start: i128,
    finish: i128,
    overlay: &Option<String>,
) -> (out: PlayoutItem)
    ensures
        out@ == scheduled(item@, start as int, finish as int, *overlay),
{
    PlayoutItem {
        id: item.id.clone(),
        start,
        finish,
        source: Some(item.to_playout_source()),
        program: match &item.program {
            Some(p) => Some(p.copy()),
            None => None,
        },
        overlay: match overlay {
            Some(text) => Some(text.clone()),
            None => None,
        },
        metadata: match &item.metadata {
            Some(value) => Some(share(value)),
            None => None,
        },
    }
}

} // verus!
