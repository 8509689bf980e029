//! The application's handle for semantic snapshots and diagnostic logs.

use vstd::prelude::*;

#[allow(unused_imports)]
use crate::logs::{log_entry, recent, with_entry};
use crate::logs::LogEntry;
#[allow(unused_imports)]
use crate::observer::{
    publishes, stale_once_drawn, stale_once_observed, with_drawn_frame, with_drawn_nodes,
};
use crate::observer::{BridgeObserver, DrawnFrame};
use crate::protocol::{Highlight, UiTree};
#[allow(unused_imports)]
use crate::registry::{announced, initial_state, StateModel};
use crate::registry::SharedState;

verus! {

/// Application-side handle for semantic snapshots and diagnostic logs.
pub struct Automation {
    state: SharedState,
    observer: BridgeObserver,
    /// Build the tree only while a client uses the bridge, instead of always.
    on_demand: bool,
}

#[verifier::ext_equal]
pub struct AutomationModel {
    pub state: StateModel,
    /// The published tree may predate the next frame.
    pub stale: bool,
    pub on_demand: bool,
}

impl Automation {
    pub closed spec fn model(&self) -> AutomationModel {
        AutomationModel {
            state: self.state.model(),
            stale: self.observer.is_stale(),
            on_demand: self.on_demand,
        }
    }

    pub closed spec fn wf(&self) -> bool {
        self.state.wf()
    }

    /// Isolated in-process automation without a bridge.
    pub fn isolated() -> (automation: Self)
        ensures
            automation.wf(),
            automation.model() == (AutomationModel {
                state: initial_state(),
                stale: true,
                on_demand: false,
            }),
    {
        Automation::new(SharedState::new(), false)
    }

    pub fn new(state: SharedState, on_demand: bool) -> (automation: Self)
        requires
            state.wf(),
        ensures
            automation.wf(),
            automation.model() == (AutomationModel {
                state: state.model(),
                stale: true,
                on_demand,
            }),
    {
        Automation { state, observer: BridgeObserver::new(), on_demand }
    }

    /// Attach to a window that builds its tree or does not: whether it is to
    /// build the tree from the next frame on. Isolated automation wants it
    /// always; a bridge only while a client uses it. Attaching again changes
    /// nothing.
    pub fn attach(&mut self, was_observed: bool) -> (observe: bool)
        requires
            old(self).wf(),
        ensures
            final(self).wf(),
            observe == !old(self).model().on_demand,
            final(self).model() == (AutomationModel {
                stale: stale_once_observed(old(self).model().stale, was_observed, observe),
                ..old(self).model()
            }),
            was_observed ==> final(self).model() == old(self).model(),
    {
        if !self.on_demand {
            self.set_observed(was_observed, true);
            true
        } else {
            false
        }
    }

    /// The window builds its tree every frame, or stops building it.
    pub fn set_observed(&mut self, was_observed: bool, observed: bool)
        requires
            old(self).wf(),
        ensures
            final(self).wf(),
            final(self).model() == (AutomationModel {
                stale: stale_once_observed(old(self).model().stale, was_observed, observed),
                ..old(self).model()
            }),
    {
        self.observer.set_observed(was_observed, observed);
    }

    /// Observe a frame that the window has drawn: the generation to announce,
    /// if the tree changed.
    pub fn frame_finished(&mut self, frame: DrawnFrame) -> (generation: Option<u64>)
        requires
            old(self).wf(),
        ensures
            final(self).wf(),
            final(self).model() == (AutomationModel {
                state: with_drawn_frame(old(self).model().state, old(self).model().stale, frame),
                stale: stale_once_drawn(old(self).model().stale, frame),
                ..old(self).model()
            }),
            generation == (if publishes(old(self).model().stale, frame) {
                announced(with_drawn_nodes(old(self).model().state, frame))
            } else {
                None
            }),
    {
        self.observer.frame_finished(&mut self.state, frame)
    }

    /// Isolated automation for runtime tests.
    pub fn for_test() -> (automation: Self)
        ensures
            automation.wf(),
            automation.model() == (AutomationModel {
                state: initial_state(),
                stale: true,
                on_demand: false,
            }),
    {
        Automation::isolated()
    }

    /// The state that the bridge shares.
    pub fn state(&self) -> (state: &SharedState)
        requires
            self.wf(),
        ensures
            state.wf(),
            state.model() == self.model().state,
    {
        &self.state
    }

    /// Retain the highlight set that the window paints.
    pub fn set_highlights(&mut self, highlights: Vec<Highlight>)
        requires
            old(self).wf(),
        ensures
            final(self).wf(),
            final(self).model() == (AutomationModel {
                state: StateModel { highlights: highlights@, ..old(self).model().state },
                ..old(self).model()
            }),
    {
        self.state.set_highlights(highlights);
    }

    /// Forget every log entry.
    pub fn clear_logs(&mut self)
        requires
            old(self).wf(),
        ensures
            final(self).wf(),
            final(self).model() == (AutomationModel {
                state: StateModel { logs: Seq::empty(), ..old(self).model().state },
                ..old(self).model()
            }),
    {
        self.state.clear_logs();
    }

    /// The most recently completed semantic frame.
    pub fn snapshot(&self) -> (tree: UiTree)
        ensures
            tree.deep_view() == self.model().state.tree,
    {
        self.state.tree()
    }

    /// The generation of the most recently completed semantic frame.
    pub fn semantic_generation(&self) -> (generation: u64)
        ensures
            generation == self.model().state.tree.generation,
    {
        self.state.tree_generation()
    }

    /// How many frames the attached window has drawn and painted.
    pub fn completed_frames(&self) -> (count: u64)
        ensures
            count == self.model().state.completed_frame.frame_count,
    {
        self.state.frame_stats().frame_count
    }

    /// Retain a bounded, sanitized log entry for a message of this moment.
    pub fn log(&mut self, timestamp_ms: u64, level: &str, message: &str)
        requires
            old(self).wf(),
        ensures
            final(self).wf(),
            final(self).model() == (AutomationModel {
                state: StateModel {
                    logs: with_entry(
                        old(self).model().state.logs,
                        log_entry(timestamp_ms, level@, message@),
                    ),
                    ..old(self).model().state
                },
                ..old(self).model()
            }),
    {
        self.state.add_log(timestamp_ms, level, message);
    }

    /// Most recent log entries in chronological order, filtered to `min_level`
    /// when given, capped at `limit`.
    pub fn logs(&self, limit: u16, min_level: Option<&str>) -> (entries: Vec<LogEntry>)
        ensures
            entries.deep_view() == recent(self.model().state.logs, limit, min_level),
    {
        self.state.logs(limit, min_level)
    }
}

} // verus!
