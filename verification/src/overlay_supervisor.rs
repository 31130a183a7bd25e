//! The lifecycle of a channel's overlay process: it runs only while the channel is watched.
//!
//! Two marker files carry the demand. The channel's worker touches one before it opens the
//! overlay's pipe, and again before every item, so its time of change is a heartbeat; the
//! overlay writes the other once it has served a reader. An overlay that exits cleanly after
//! it served a reader is started again, to find out whether a reader waits; one that never
//! saw a reader goes cold, and stays so until a newer request comes.

use vstd::prelude::*;

use crate::paths::{absolute, is_absolute, join, joined, parent, parent_of};

verus! {

/// What the supervisor of one channel works with.
#[derive(Debug)]
pub struct OverlayContext {
    pub channel_name: String,
    pub output_folder: String,
    pub overlay_config: String,
    pub fifo_path: String,
}

impl OverlayContext {
    /// The marker that the overlay writes once it has served a reader.
    pub fn ready_path(&self) -> (out: String)
        ensures
            out@ == joined(self.output_folder@, ".overlay-ready"@),
    {
        join(self.output_folder.as_str(), ".overlay-ready")
    }

    /// The marker that the channel's worker touches to ask for an overlay.
    pub fn wanted_path(&self) -> (out: String)
        ensures
            out@ == joined(self.output_folder@, ".overlay-wanted"@),
    {
        join(self.output_folder.as_str(), ".overlay-wanted")
    }
}

/// The pipe of a channel: the configured one, else `overlay.fifo` in its output folder.
pub fn resolve_fifo_path(output_folder: &str, configured: Option<&str>) -> (out: String)
    ensures
        out@ == (match configured {
            Some(path) => path@,
            None => joined(output_folder@, "overlay.fifo"@),
        }),
{
    match configured {
        Some(path) => path.to_owned(),
        None => join(output_folder, "overlay.fifo"),
    }
}

/// An overlay config taken from the folder of the channel's own config, where there is one.
pub open spec fn config_in(folder: Option<Seq<char>>, configured: Seq<char>) -> Seq<char> {
    match folder {
        Some(folder) => joined(folder, configured),
        None => configured,
    }
}

/// An overlay config taken from the folder of the channel's own config, where there is one.
pub fn overlay_config_in(folder: Option<&str>, configured: &str) -> (out: String)
    ensures
        out@ == config_in(
            match folder {
                Some(folder) => Some(folder@),
                None => None,
            },
            configured@,
        ),
{
    match folder {
        Some(folder) => join(folder, configured),
        None => configured.to_owned(),
    }
}

/// The overlay config of a channel: an absolute path as it is, else taken from the folder of
/// the channel's own config.
pub fn resolve_overlay_config(channel_config_path: &str, configured: &str) -> (out: String)
    ensures
        out@ == (if absolute(configured@) {
            configured@
        } else {
            config_in(parent_of(channel_config_path@), configured@)
        }),
{
    if is_absolute(configured) {
        return configured.to_owned();
    }
    match parent(channel_config_path) {
        Some(folder) => overlay_config_in(Some(folder.as_str()), configured),
        None => overlay_config_in(None, configured),
    }
}

/// Whether a live request is outstanding: there is one, and it is newer than the request that
/// was already served to a cold exit, where there was such.
pub open spec fn wanted(request: Option<i128>, cold_at: Option<i128>) -> bool {
    match (request, cold_at) {
        (None, _) => false,
        (Some(_), None) => true,
        (Some(now), Some(cold)) => now > cold,
    }
}

/// Whether a live request is outstanding. Times are those of the request marker, in
/// nanoseconds since the epoch.
pub fn wants_overlay(request: Option<i128>, cold_at: Option<i128>) -> (out: bool)
    ensures
        out == wanted(request, cold_at),
{
    match (request, cold_at) {
        (None, _) => false,
        (Some(_), None) => true,
        (Some(now), Some(cold)) => now > cold,
    }
}

/// What the exit of an overlay means.
#[derive(Clone, Copy, Debug, PartialEq, Eq, Structural)]
pub enum Reap {
    /// It failed: start it again while it is wanted.
    Crashed,
    /// It idled out after it served a reader: start it again, for a reader may be waiting.
    Reprobe,
    /// It idled out without ever seeing a reader: nobody is watching.
    Retire,
}

/// What the exit of an overlay means.
pub open spec fn reaped(exited_cleanly: bool, had_reader: bool) -> Reap {
    if !exited_cleanly {
        Reap::Crashed
    } else if had_reader {
        Reap::Reprobe
    } else {
        Reap::Retire
    }
}

/// What the exit of an overlay means.
pub fn reap_decision(exited_cleanly: bool, had_reader: bool) -> (out: Reap)
    ensures
        out == reaped(exited_cleanly, had_reader),
{
    match (exited_cleanly, had_reader) {
        (false, _) => Reap::Crashed,
        (true, true) => Reap::Reprobe,
        (true, false) => Reap::Retire,
    }
}

/// What the supervisor of one channel remembers.
#[derive(Clone, Copy, Debug, PartialEq, Eq, Structural)]
pub struct Supervisor {
    /// Whether an overlay runs.
    pub running: bool,
    /// Whether the running overlay was seen to have served a reader.
    pub ready_observed: bool,
    /// The request that was served to a cold exit; any request is live when absent.
    pub cold_at: Option<i128>,
    /// The request that stood when the running overlay was started.
    pub served: Option<i128>,
}

/// What the supervisor finds when it looks.
#[derive(Clone, Copy, Debug, PartialEq, Eq, Structural)]
pub enum Event {
    /// The time to look has come.
    Tick {
        /// How the overlay exited, where it did: whether cleanly.
        exited: Option<bool>,
        /// Whether the ready marker is there.
        ready: bool,
        /// When the request marker was last touched, where it is there.
        request: Option<i128>,
    },
    /// The pipe could not be made.
    FifoFailed,
    /// The overlay could not be started.
    SpawnFailed,
    /// The overlay was started; with the request as it stands now.
    Spawned { request: Option<i128> },
    /// The station is shutting down.
    Shutdown,
}

/// What the supervisor does next.
#[derive(Clone, Copy, Debug, PartialEq, Eq, Structural)]
pub enum Action {
    Wait,
    /// Remove the ready marker of an overlay that exited; with what its exit means.
    ClearReady { reap: Reap },
    /// Make the pipe, remove the ready marker, and start the overlay.
    Spawn,
    /// Kill the overlay where one runs, and remove the pipe and both markers.
    Stop { kill: bool },
}

impl Supervisor {
    /// What the supervisor remembers at the start: nothing runs, and any request is live.
    pub open spec fn fresh() -> Supervisor {
        Supervisor { running: false, ready_observed: false, cold_at: None, served: None }
    }

    /// What the supervisor remembers at the start: nothing runs, and any request is live.
    /// The pipe is then to be made, and both markers of an earlier run to be removed.
    pub fn new() -> (out: Supervisor)
        ensures
            out == Supervisor::fresh(),
    {
        Supervisor { running: false, ready_observed: false, cold_at: None, served: None }
    }

    /// A supervisor that runs an overlay has not gone cold, and one that runs none has seen
    /// none serve a reader.
    pub open spec fn wf(self) -> bool {
        &&& self.running ==> self.cold_at is None
        &&& !self.running ==> !self.ready_observed
    }

    /// What the supervisor does about what it finds, and what it then remembers.
    pub open spec fn after(self, event: Event) -> (Supervisor, Action) {
        match event {
            Event::Tick { exited, ready, request } => if self.running {
                match exited {
                    Some(cleanly) => {
                        let reap = reaped(cleanly, self.ready_observed || ready);
                        (
                            Supervisor {
                                running: false,
                                ready_observed: false,
                                cold_at: if reap == Reap::Retire {
                                    self.served
                                } else {
                                    self.cold_at
                                },
                                served: self.served,
                            },
                            Action::ClearReady { reap },
                        )
                    },
                    None => (
                        Supervisor { ready_observed: self.ready_observed || ready, ..self },
                        Action::Wait,
                    ),
                }
            } else if wanted(request, self.cold_at) {
                (self, Action::Spawn)
            } else {
                (self, Action::Wait)
            },
            Event::FifoFailed => (self, Action::Wait),
            Event::SpawnFailed => (self, Action::Wait),
            Event::Spawned { request } => (
                Supervisor { running: true, ready_observed: false, cold_at: None, served: request },
                Action::Wait,
            ),
            Event::Shutdown => (Supervisor::fresh(), Action::Stop { kill: self.running }),
        }
    }

    /// Takes in what was found, and gives what to do about it.
    pub fn step(&mut self, event: Event) -> (action: Action)
        requires
            old(self).wf(),
        ensures
            (*final(self), action) == old(self).after(event),
            final(self).wf(),
    {
        match event {
            Event::Tick { exited, ready, request } => {
                if self.running {
                    match exited {
                        Some(cleanly) => {
                            // An instance can come and go between two looks, so the marker
                            // counts as well as what was seen of it before.
                            let had_reader: bool = self.ready_observed || ready;
                            let reap: Reap = reap_decision(cleanly, had_reader);
                            self.running = false;
                            self.ready_observed = false;
                            if reap == Reap::Retire {
                                // Going cold records the request that this overlay was
                                // started for, not the one that stands now: a viewer who
                                // came during the wind-down is still waiting.
                                self.cold_at = self.served;
                            }
                            Action::ClearReady { reap }
                        },
                        None => {
                            self.ready_observed = self.ready_observed || ready;
                            Action::Wait
                        },
                    }
                } else if wants_overlay(request, self.cold_at) {
                    Action::Spawn
                } else {
                    Action::Wait
                }
            },
            Event::FifoFailed => Action::Wait,
            Event::SpawnFailed => Action::Wait,
            Event::Spawned { request } => {
                self.running = true;
                self.ready_observed = false;
                self.cold_at = None;
                self.served = request;
                Action::Wait
            },
            Event::Shutdown => {
                let kill: bool = self.running;
                *self = Supervisor::new();
                Action::Stop { kill }
            },
        }
    }
}

/// The request that an overlay was started for does not start another once that overlay went
/// cold, and any newer request does.
pub proof fn a_served_request_stays_served_until_a_newer_one(
    s: Supervisor,
    ready: bool,
    request: i128,
    exited: Option<bool>,
)
    requires
        s.running,
        s.wf(),
        s.served is Some,
    ensures
        ({
            let left = Event::Tick { exited: Some(true), ready, request: Some(request) };
            let (after, action) = s.after(left);
            let look = Event::Tick { exited, ready: false, request: Some(request) };
            action == (Action::ClearReady { reap: Reap::Retire }) ==> (after.after(look).1
                == Action::Spawn <==> request > s.served->0)
        }),
{
}

/// An overlay that failed, or that idled out after it served a reader, is started again at
/// the next look while there is a request at all.
pub proof fn a_crash_or_a_reader_brings_the_overlay_back(
    s: Supervisor,
    cleanly: bool,
    ready: bool,
    request: i128,
    later: i128,
)
    requires
        s.running,
        s.wf(),
        !cleanly || s.ready_observed || ready,
    ensures
        ({
            let left = Event::Tick { exited: Some(cleanly), ready, request: Some(request) };
            let look = Event::Tick { exited: None, ready: false, request: Some(later) };
            s.after(left).0.after(look).1 == Action::Spawn
        }),
{
}

/// Nothing is started for a channel that nobody asked for.
pub proof fn no_request_starts_nothing(s: Supervisor, exited: Option<bool>, ready: bool)
    ensures
        s.after(Event::Tick { exited, ready, request: None }).1 != Action::Spawn,
{
}

/// A failure to make the pipe, or to start the overlay, changes nothing: the next look tries
/// again.
pub proof fn a_failed_start_is_tried_again(
    s: Supervisor,
    request: Option<i128>,
    exited: Option<bool>,
    ready: bool,
)
    requires
        s.after(Event::Tick { exited, ready, request }).1 == Action::Spawn,
    ensures
        ({
            let waiting = s.after(Event::Tick { exited, ready, request }).0;
            let look = Event::Tick { exited, ready, request };
            &&& waiting.after(Event::FifoFailed).0.after(look).1 == Action::Spawn
            &&& waiting.after(Event::SpawnFailed).0.after(look).1 == Action::Spawn
        }),
{
}

} // verus!
