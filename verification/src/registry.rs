//! The state that a window's bridge shares: the published tree, the frame
//! being recorded, timings, logs, and highlights.

use vstd::prelude::*;

use crate::frame::PendingFrame;
#[allow(unused_imports)]
use crate::frame::{
    begun, each_reported_once, emptied, finished, law_each_omission_is_reported_once,
    law_published_frames_are_valid, recorded, recorded_all, valid_frame, valid_pending,
    FinishedModel, PendingModel,
};
#[allow(unused_imports)]
use crate::logs::{log_entry, recent, with_entry, LogModel, MAX_LOG_ENTRIES};
use crate::logs::{LogEntry, Logs};
use crate::model::Modelled;
#[allow(unused_imports)]
use crate::protocol::{empty_tree, NodeModel, TreeModel};
use crate::protocol::{
    BridgeError, ErrorCode, Highlight, Rect, UiNode, UiTree, WindowGeometry,
};
use crate::number::Single;
use crate::timing::{no_stats, FrameStats, TimingState};
#[allow(unused_imports)]
use crate::timing::{
    frame_began, no_frames, prepaint_finished, root_paint_began, root_paint_finished, stats,
    windowed, TimingModel,
};

verus! {

/// What the bridge and the window share.
pub struct SharedState {
    tree: UiTree,
    pending: PendingFrame,
    highlights: Vec<Highlight>,
    timings: TimingState,
    logs: Logs,
    completed_frame: FrameStats,
    window_geometry: Option<WindowGeometry>,
}

#[verifier::ext_equal]
pub struct StateModel {
    /// The tree of the last frame that changed it.
    pub tree: TreeModel,
    /// The frame that is being recorded.
    pub pending: PendingModel,
    pub highlights: Seq<Highlight>,
    pub timings: TimingModel,
    pub logs: Seq<LogModel>,
    /// The stats of the last frame that was painted.
    pub completed_frame: FrameStats,
    pub window_geometry: Option<WindowGeometry>,
}

/// What the tree says, as a published frame.
pub open spec fn frame_in(tree: TreeModel) -> FinishedModel {
    FinishedModel { roots: tree.roots, nodes: tree.nodes, diagnostics: tree.diagnostics }
}

/// What holds of every state: the published tree is a rooted forest of valid
/// nodes, and everything stays within its limits.
pub open spec fn valid_state(state: StateModel) -> bool {
    &&& valid_frame(frame_in(state.tree))
    &&& valid_pending(state.pending)
    &&& windowed(state.timings)
    &&& state.logs.len() <= MAX_LOG_ENTRIES
    &&& state.window_geometry matches Some(geometry) ==> geometry.valid()
}

/// The state before any frame.
pub open spec fn initial_state() -> StateModel {
    StateModel {
        tree: empty_tree(),
        pending: emptied(),
        highlights: Seq::empty(),
        timings: no_frames(),
        logs: Seq::empty(),
        completed_frame: stats(no_frames()),
        window_geometry: None,
    }
}

/// The frame says something else than the tree.
pub open spec fn changes(tree: TreeModel, frame: FinishedModel) -> bool {
    tree.roots != frame.roots || tree.nodes != frame.nodes || tree.diagnostics
        != frame.diagnostics
}

/// One more than `count`, as far as it can be counted.
pub open spec fn counted(count: u64) -> u64 {
    if count < u64::MAX {
        (count + 1) as u64
    } else {
        u64::MAX
    }
}

/// The tree once a finished frame is published: the frame in a new generation,
/// or the tree itself where the frame changes nothing.
pub open spec fn with_frame(tree: TreeModel, frame: FinishedModel) -> TreeModel {
    if changes(tree, frame) {
        TreeModel {
            generation: counted(tree.generation),
            roots: frame.roots,
            nodes: frame.nodes,
            diagnostics: frame.diagnostics,
        }
    } else {
        tree
    }
}

/// The state once its pending frame, if there is one, is published.
pub open spec fn frame_finished(state: StateModel) -> StateModel {
    if state.pending.active {
        StateModel {
            tree: with_frame(state.tree, finished(state.pending)),
            pending: emptied(),
            ..state
        }
    } else {
        state
    }
}

/// The generation to announce: that of a tree which the pending frame changes.
pub open spec fn announced(state: StateModel) -> Option<u64> {
    if state.pending.active && changes(state.tree, finished(state.pending)) {
        Some(counted(state.tree.generation))
    } else {
        None
    }
}

/// The state once a frame has begun.
pub open spec fn frame_begun(state: StateModel, now: u64) -> StateModel {
    StateModel {
        timings: frame_began(state.timings, now),
        pending: begun(state.pending),
        ..state
    }
}

/// The state once the root paint of its frame has begun.
pub open spec fn root_paint_begun(state: StateModel, now: u64) -> StateModel {
    StateModel { timings: root_paint_began(state.timings, now), ..state }
}

/// The state once `nodes` are recorded.
pub open spec fn with_nodes(state: StateModel, nodes: Seq<NodeModel>) -> StateModel {
    StateModel { pending: recorded_all(state.pending, nodes), ..state }
}

/// Why a wait looks at the state again.
pub enum WaitSignal {
    /// It begins, or something was published.
    Published,
    /// Nothing will be published any more.
    PublisherStopped,
    /// It has taken as long as it may.
    TimedOut,
}

impl SharedState {
    pub closed spec fn model(&self) -> StateModel {
        StateModel {
            tree: self.tree.deep_view(),
            pending: self.pending.model(),
            highlights: self.highlights@,
            timings: self.timings.model(),
            logs: self.logs.model(),
            completed_frame: self.completed_frame,
            window_geometry: self.window_geometry,
        }
    }

    /// The invariant that every operation keeps.
    pub closed spec fn wf(&self) -> bool {
        self.pending.wf() && valid_state(self.model())
    }

    /// The invariant in terms of the model.
    pub proof fn lemma_valid(&self)
        requires
            self.wf(),
        ensures
            valid_state(self.model()),
    {
    }

    pub fn new() -> (state: Self)
        ensures
            state.wf(),
            state.model() == initial_state(),
    {
        let state = SharedState {
            tree: UiTree::new(),
            pending: PendingFrame::new(),
            highlights: Vec::new(),
            timings: TimingState::new(),
            logs: Logs::new(),
            completed_frame: no_stats(),
            window_geometry: None,
        };
        assert(state.model() =~= initial_state());
        state
    }

    /// A frame begins; one that is still pending is given up and reported.
    pub fn begin_frame(&mut self, now: u64)
        requires
            old(self).wf(),
        ensures
            final(self).wf(),
            final(self).model() == frame_begun(old(self).model(), now),
    {
        self.timings.begin_frame(now);
        self.pending.begin();
        proof {
            self.pending.lemma_valid();
        }
    }

    /// The prepaint of the frame ends.
    pub fn finish_prepaint(&mut self, now: u64)
        requires
            old(self).wf(),
        ensures
            final(self).wf(),
            final(self).model() == (StateModel {
                timings: prepaint_finished(old(self).model().timings, now),
                ..old(self).model()
            }),
    {
        self.timings.finish_prepaint(now);
    }

    /// The root paint of the frame begins.
    pub fn begin_root_paint(&mut self, now: u64)
        requires
            old(self).wf(),
        ensures
            final(self).wf(),
            final(self).model() == root_paint_begun(old(self).model(), now),
    {
        self.timings.begin_root_paint(now);
    }

    /// The root paint ends, and the frame is complete.
    pub fn finish_root_paint(&mut self, now: u64)
        requires
            old(self).wf(),
        ensures
            final(self).wf(),
            final(self).model() == ({
                let timings = root_paint_finished(old(self).model().timings, now);
                StateModel { timings, completed_frame: stats(timings), ..old(self).model() }
            }),
    {
        self.completed_frame = self.timings.finish_root_paint(now);
    }

    /// Count a complete frame whose tree is not published.
    pub fn complete_frame(&mut self, now: u64, prepaint: u64, paint: u64)
        requires
            old(self).wf(),
        ensures
            final(self).wf(),
            final(self).model() == painted(
                counted_frame(old(self).model(), now, prepaint),
                later(now, prepaint),
                paint,
            ),
    {
        let prepainted: u64 = now.saturating_add(prepaint);
        self.timings.begin_frame(now);
        self.finish_prepaint(prepainted);
        self.begin_root_paint(prepainted);
        self.finish_root_paint(prepainted.saturating_add(paint));
    }

    /// Publish a complete frame that consists of `nodes`: the generation to
    /// announce, if the tree changed.
    pub fn complete_published_frame(
        &mut self,
        nodes: Vec<UiNode>,
        now: u64,
        prepaint: u64,
        paint: u64,
    ) -> (generation: Option<u64>)
        requires
            old(self).wf(),
        ensures
            final(self).wf(),
            final(self).model() == painted(
                frame_finished(
                    observed_frame(old(self).model(), nodes.deep_view(), now, prepaint),
                ),
                later(now, prepaint),
                paint,
            ),
            generation == announced(
                observed_frame(old(self).model(), nodes.deep_view(), now, prepaint),
            ),
    {
        let prepainted: u64 = now.saturating_add(prepaint);
        self.begin_frame(now);
        let generation = self.publish_frame(nodes, prepainted);
        self.begin_root_paint(prepainted);
        self.finish_root_paint(prepainted.saturating_add(paint));
        generation
    }

    /// Where the window stands; bounds or a scale that are not valid are ignored.
    pub fn set_window_geometry(&mut self, content_bounds: Rect, scale_factor: Single)
        requires
            old(self).wf(),
        ensures
            final(self).wf(),
            final(self).model() == with_geometry(old(self).model(), content_bounds, scale_factor),
    {
        let geometry = WindowGeometry { content_bounds, scale_factor };
        if !geometry.is_valid() {
            return ;
        }
        self.window_geometry = Some(geometry);
    }

    pub fn window_geometry(&self) -> (geometry: Option<WindowGeometry>)
        ensures
            geometry == self.model().window_geometry,
    {
        self.window_geometry
    }

    /// Record one node of the frame: whether it was taken.
    pub fn record(&mut self, node: UiNode) -> (taken: bool)
        requires
            old(self).wf(),
        ensures
            final(self).wf(),
            (final(self).model().pending, taken) == recorded(
                old(self).model().pending,
                node.deep_view(),
            ),
            final(self).model() == (StateModel {
                pending: final(self).model().pending,
                ..old(self).model()
            }),
    {
        let taken = self.pending.record(node);
        proof {
            self.pending.lemma_valid();
        }
        taken
    }

    /// Record `nodes` and publish the frame: the generation to announce, if the
    /// tree changed.
    pub fn publish_frame(&mut self, nodes: Vec<UiNode>, now: u64) -> (generation: Option<u64>)
        requires
            old(self).wf(),
        ensures
            final(self).wf(),
            final(self).model() == frame_finished(
                (StateModel {
                    timings: prepaint_finished(old(self).model().timings, now),
                    ..with_nodes(old(self).model(), nodes.deep_view())
                }),
            ),
            generation == announced(with_nodes(old(self).model(), nodes.deep_view())),
            ({
                let pending = with_nodes(old(self).model(), nodes.deep_view()).pending;
                pending.active ==> each_reported_once(pending.nodes)
            }),
    {
        let ghost given = nodes.deep_view();
        let ghost before = self.model();
        assert(given.take(0) =~= Seq::empty());
        for node in iter: nodes
            invariant
                self.wf(),
                given == nodes.deep_view(),
                iter.seq() == nodes@,
                self.model() == with_nodes(before, given.take(iter.index() as int)),
        {
            proof {
                let i = iter.index() as int;
                assert(given.take(i + 1).drop_last() =~= given.take(i));
                assert(given.take(i + 1).last() == node.deep_view());
            }
            let _ = self.record(node);
        }
        assert(given.take(given.len() as int) =~= given);
        self.finish_prepaint(now);
        self.finish_frame()
    }

    /// Publish the pending frame, if there is one: the generation to announce,
    /// if the tree changed.
    pub fn finish_frame(&mut self) -> (generation: Option<u64>)
        requires
            old(self).wf(),
        ensures
            final(self).wf(),
            final(self).model() == frame_finished(old(self).model()),
            generation == announced(old(self).model()),
            old(self).model().pending.active ==> each_reported_once(
                old(self).model().pending.nodes,
            ),
    {
        proof {
            self.pending.lemma_valid();
            law_published_frames_are_valid(self.pending.model());
            law_each_omission_is_reported_once(self.pending.model().nodes);
        }
        match self.pending.finish() {
            None => None,
            Some(frame) => {
                proof {
                    self.pending.lemma_valid();
                }
                let changed = !self.tree.roots.same(&frame.roots) || !self.tree.nodes.same(
                    &frame.nodes,
                ) || !self.tree.diagnostics.same(&frame.diagnostics);
                if !changed {
                    return None;
                }
                let generation = self.tree.generation.saturating_add(1);
                self.tree = UiTree {
                    generation,
                    roots: frame.roots,
                    nodes: frame.nodes,
                    diagnostics: frame.diagnostics,
                };
                Some(generation)
            },
        }
    }

    /// A copy of the published tree.
    pub fn tree(&self) -> (tree: UiTree)
        ensures
            tree.deep_view() == self.model().tree,
    {
        self.tree.duplicate()
    }

    /// One published node.
    pub fn with_node(&self, id: &str) -> (node: Option<&UiNode>)
        ensures
            match node {
                Some(found) => self.model().tree.nodes.contains_key(id@) && found.deep_view()
                    == self.model().tree.nodes[id@],
                None => !self.model().tree.nodes.contains_key(id@),
            },
    {
        self.tree.nodes.get(id)
    }

    /// A copy of the tree, unless its generation is `known_generation`.
    pub fn tree_if_changed(&self, known_generation: u64) -> (tree: Option<UiTree>)
        ensures
            match tree {
                Some(copy) => self.model().tree.generation != known_generation && copy.deep_view()
                    == self.model().tree,
                None => self.model().tree.generation == known_generation,
            },
    {
        if self.tree.generation != known_generation {
            Some(self.tree())
        } else {
            None
        }
    }

    pub fn tree_generation(&self) -> (generation: u64)
        ensures
            generation == self.model().tree.generation,
    {
        self.tree.generation
    }

    /// What a wait for a tree after `after_generation` does next: end with the
    /// tree, go on (`None`), or fail.
    pub fn wait_for_tree(
        &self,
        after_generation: u64,
        signal: WaitSignal,
    ) -> (step: Result<Option<UiTree>, BridgeError>)
        ensures
            match signal {
                WaitSignal::Published => match step {
                    Ok(Some(tree)) => self.model().tree.generation > after_generation
                        && tree.deep_view() == self.model().tree,
                    Ok(None) => self.model().tree.generation <= after_generation,
                    Err(_) => false,
                },
                WaitSignal::PublisherStopped => step matches Err(error) && error.code
                    == ErrorCode::Internal && error.message@ == "semantic tree publisher stopped"@,
                WaitSignal::TimedOut => step matches Err(error) && error.code == ErrorCode::Timeout
                    && error.message@ == "semantic tree wait timed out"@,
            },
    {
        match signal {
            WaitSignal::Published => if self.tree.generation > after_generation {
                Ok(Some(self.tree()))
            } else {
                Ok(None)
            },
            WaitSignal::PublisherStopped => Err(
                BridgeError::new(ErrorCode::Internal, "semantic tree publisher stopped"),
            ),
            WaitSignal::TimedOut => Err(
                BridgeError::new(ErrorCode::Timeout, "semantic tree wait timed out"),
            ),
        }
    }

    /// What a wait for a frame after `after_frame_count` does next: end with
    /// the frame's stats, go on (`None`), or fail.
    pub fn wait_for_frame(
        &self,
        after_frame_count: u64,
        signal: WaitSignal,
    ) -> (step: Result<Option<FrameStats>, BridgeError>)
        ensures
            match signal {
                WaitSignal::Published => step == Ok::<Option<FrameStats>, BridgeError>(
                    if self.model().completed_frame.frame_count > after_frame_count {
                        Some(self.model().completed_frame)
                    } else {
                        None
                    },
                ),
                WaitSignal::PublisherStopped => step matches Err(error) && error.code
                    == ErrorCode::Internal && error.message@ == "frame publisher stopped"@,
                WaitSignal::TimedOut => step matches Err(error) && error.code == ErrorCode::Timeout
                    && error.message@ == "frame wait timed out"@,
            },
    {
        match signal {
            WaitSignal::Published => if self.completed_frame.frame_count > after_frame_count {
                Ok(Some(self.completed_frame))
            } else {
                Ok(None)
            },
            WaitSignal::PublisherStopped => Err(
                BridgeError::new(ErrorCode::Internal, "frame publisher stopped"),
            ),
            WaitSignal::TimedOut => Err(
                BridgeError::new(ErrorCode::Timeout, "frame wait timed out"),
            ),
        }
    }

    /// Retain the current highlight set.
    pub fn set_highlights(&mut self, highlights: Vec<Highlight>)
        requires
            old(self).wf(),
        ensures
            final(self).wf(),
            final(self).model() == (StateModel { highlights: highlights@, ..old(self).model() }),
    {
        self.highlights = highlights;
    }

    /// The current highlight set.
    pub fn highlights(&self) -> (highlights: &Vec<Highlight>)
        ensures
            highlights@ == self.model().highlights,
    {
        &self.highlights
    }

    /// The stats of the last complete frame.
    pub fn frame_stats(&self) -> (completed: FrameStats)
        ensures
            completed == self.model().completed_frame,
    {
        self.completed_frame
    }

    /// Add the entry for a message that was reported at `timestamp_ms`.
    pub fn add_log(&mut self, timestamp_ms: u64, level: &str, message: &str)
        requires
            old(self).wf(),
        ensures
            final(self).wf(),
            final(self).model() == (StateModel {
                logs: with_entry(
                    old(self).model().logs,
                    log_entry(timestamp_ms, level@, message@),
                ),
                ..old(self).model()
            }),
    {
        self.logs.add_log(timestamp_ms, level, message);
    }

    /// The latest log entries, oldest first.
    pub fn logs(&self, limit: u16, min_level: Option<&str>) -> (entries: Vec<LogEntry>)
        ensures
            entries.deep_view() == recent(self.model().logs, limit, min_level),
    {
        self.logs.logs(limit, min_level)
    }

    /// Forget every log entry.
    pub fn clear_logs(&mut self)
        requires
            old(self).wf(),
        ensures
            final(self).wf(),
            final(self).model() == (StateModel { logs: Seq::empty(), ..old(self).model() }),
    {
        self.logs.clear_logs();
    }
}

/// The instant `duration` after `now`, as far as the clock goes.
pub open spec fn later(now: u64, duration: u64) -> u64 {
    if now + duration <= u64::MAX {
        (now + duration) as u64
    } else {
        u64::MAX
    }
}

/// The state once a root paint that began at `now` has taken `paint`.
pub open spec fn painted(state: StateModel, now: u64, paint: u64) -> StateModel {
    let timings = root_paint_finished(root_paint_began(state.timings, now), later(now, paint));
    StateModel { timings, completed_frame: stats(timings), ..state }
}

/// The state once a frame has begun and its prepaint ended, without its nodes.
pub open spec fn counted_frame(state: StateModel, now: u64, prepaint: u64) -> StateModel {
    StateModel {
        timings: prepaint_finished(frame_began(state.timings, now), later(now, prepaint)),
        ..state
    }
}

/// The state once the window is known to stand there, if that is valid.
pub open spec fn with_geometry(
    state: StateModel,
    content_bounds: Rect,
    scale_factor: Single,
) -> StateModel {
    let geometry = WindowGeometry { content_bounds, scale_factor };
    if geometry.valid() {
        StateModel { window_geometry: Some(geometry), ..state }
    } else {
        state
    }
}

/// The state once a frame has begun, `nodes` are recorded, and its prepaint ended.
pub open spec fn observed_frame(
    state: StateModel,
    nodes: Seq<NodeModel>,
    now: u64,
    prepaint: u64,
) -> StateModel {
    StateModel {
        pending: recorded_all(begun(state.pending), nodes),
        timings: prepaint_finished(frame_began(state.timings, now), later(now, prepaint)),
        ..state
    }
}

// ---------------------------------------------------------------------------
// Laws
// ---------------------------------------------------------------------------
/// Publishing the same frame again changes nothing: unchanged semantics do not
/// advance the generation.
pub proof fn law_unchanged_semantics_keep_the_tree(tree: TreeModel, frame: FinishedModel)
    ensures
        with_frame(with_frame(tree, frame), frame) == with_frame(tree, frame),
        !changes(with_frame(tree, frame), frame),
{
}

/// The generation advances by one exactly when a frame changes the tree, and
/// never goes back; the tree then says what the frame says.
pub proof fn law_generation_counts_changes(tree: TreeModel, frame: FinishedModel)
    ensures
        with_frame(tree, frame).generation >= tree.generation,
        tree.generation < u64::MAX ==> (with_frame(tree, frame).generation == tree.generation + 1
            <==> changes(tree, frame)),
        with_frame(tree, frame).roots == frame.roots,
        with_frame(tree, frame).nodes == frame.nodes,
        with_frame(tree, frame).diagnostics == frame.diagnostics,
{
}

pub proof fn lemma_recording_stays_active(pending: PendingModel, nodes: Seq<NodeModel>)
    requires
        pending.active,
    ensures
        recorded_all(pending, nodes).active,
    decreases nodes.len(),
{
    if nodes.len() > 0 {
        lemma_recording_stays_active(pending, nodes.drop_last());
    }
}

/// The state once a frame of `nodes` has begun and is published.
pub open spec fn drawn(state: StateModel, nodes: Seq<NodeModel>, now: u64) -> StateModel {
    frame_finished(with_nodes(frame_begun(state, now), nodes))
}

/// Drawing the same nodes again leaves the tree as it is, and its generation.
pub proof fn law_redrawing_keeps_the_generation(
    state: StateModel,
    nodes: Seq<NodeModel>,
    first: u64,
    second: u64,
)
    requires
        !state.pending.active,
    ensures
        drawn(drawn(state, nodes, first), nodes, second).tree == drawn(state, nodes, first).tree,
        announced(with_nodes(frame_begun(drawn(state, nodes, first), second), nodes)) is None,
{
    let once = drawn(state, nodes, first);
    lemma_recording_stays_active(begun(state.pending), nodes);
    lemma_recording_stays_active(begun(once.pending), nodes);
    assert(begun(state.pending) =~= begun(once.pending));
}

/// A frame that has begun does not count until it is painted: what a wait for
/// frames sees stays the same through recording, publishing, and up to the
/// root paint.
pub proof fn law_incomplete_frames_do_not_count(
    state: StateModel,
    nodes: Seq<NodeModel>,
    began: u64,
    painting: u64,
)
    ensures
        root_paint_begun(drawn(state, nodes, began), painting).completed_frame
            == state.completed_frame,
{
}

/// A painted frame counts as one more, up to what can be counted.
pub proof fn law_painted_frames_count(
    state: StateModel,
    nodes: Seq<NodeModel>,
    began: u64,
    painting: u64,
    paint: u64,
)
    ensures
        painted(drawn(state, nodes, began), painting, paint).completed_frame.frame_count
            == counted(state.timings.frame_count),
{
}

/// A finished frame that has other roots, other nodes, or other diagnostics
/// than the tree is published in the next generation, which is announced; the
/// last generation that can be counted stays.
pub proof fn law_new_semantics_are_published(state: StateModel, frame: FinishedModel)
    requires
        state.pending.active,
        finished(state.pending) == frame,
        state.tree.roots != frame.roots || state.tree.nodes != frame.nodes
            || state.tree.diagnostics != frame.diagnostics,
    ensures
        ({
            let after = frame_finished(state).tree;
            &&& after == with_frame(state.tree, frame)
            &&& after.roots == frame.roots
            &&& after.nodes == frame.nodes
            &&& after.diagnostics == frame.diagnostics
            &&& state.tree.generation < u64::MAX ==> after.generation == state.tree.generation + 1
            &&& state.tree.generation == u64::MAX ==> after.generation == u64::MAX
            &&& announced(state) == Some(after.generation)
        }),
{
}

/// A finished frame with the tree's own roots, nodes, and diagnostics leaves
/// the tree in its generation, and nothing is announced.
pub proof fn law_old_semantics_are_not_published(state: StateModel, frame: FinishedModel)
    requires
        state.pending.active,
        finished(state.pending) == frame,
        state.tree.roots == frame.roots,
        state.tree.nodes == frame.nodes,
        state.tree.diagnostics == frame.diagnostics,
    ensures
        frame_finished(state).tree == state.tree,
        with_frame(state.tree, frame) == state.tree,
        announced(state) is None,
{
}

/// Finishing concerns the tree and the pending frame alone: no frame is pending
/// any more, and where none was, nothing happens.
pub proof fn law_finishing_ends_the_pending_frame(state: StateModel)
    ensures
        !state.pending.active ==> frame_finished(state) == state && announced(state) is None,
        ({
            let after = frame_finished(state);
            &&& !after.pending.active
            &&& state.pending.active ==> after.pending.nodes.len() == 0
                && after.pending.invalid =~= Set::empty() && after.pending.diagnostics.len() == 0
            &&& after.highlights == state.highlights
            &&& after.timings == state.timings
            &&& after.logs == state.logs
            &&& after.completed_frame == state.completed_frame
            &&& after.window_geometry == state.window_geometry
        }),
{
}

/// Beginning a frame leaves what is published, painted, logged, and highlighted
/// as it is; recording nodes changes nothing but the pending frame.
pub proof fn law_beginning_and_recording_publish_nothing(
    state: StateModel,
    now: u64,
    nodes: Seq<NodeModel>,
)
    ensures
        ({
            let after = frame_begun(state, now);
            &&& after.pending.active
            &&& after.tree == state.tree
            &&& after.highlights == state.highlights
            &&& after.logs == state.logs
            &&& after.completed_frame == state.completed_frame
            &&& after.window_geometry == state.window_geometry
            &&& after.timings.previous_frame == Some(now)
            &&& state.timings.frame_count < u64::MAX ==> after.timings.frame_count
                == state.timings.frame_count + 1
        }),
        ({
            let after = with_nodes(state, nodes);
            &&& after.pending == recorded_all(state.pending, nodes)
            &&& after.tree == state.tree
            &&& after.highlights == state.highlights
            &&& after.logs == state.logs
            &&& after.completed_frame == state.completed_frame
            &&& after.window_geometry == state.window_geometry
            &&& after.timings == state.timings
        }),
        ({
            let after = root_paint_begun(state, now);
            &&& after.timings.root_paint_started == Some(now)
            &&& after == (StateModel { timings: after.timings, ..state })
        }),
{
}

/// A paint leaves everything but the timings and the last complete frame as it
/// is, and that frame is what the timings then sum up to.
pub proof fn law_painting_completes_the_frame(state: StateModel, now: u64, paint: u64)
    ensures
        ({
            let after = painted(state, now, paint);
            &&& after.completed_frame == stats(after.timings)
            &&& after.completed_frame.frame_count == after.timings.frame_count
            &&& after.timings.frame_count == state.timings.frame_count
            &&& after.tree == state.tree
            &&& after.pending == state.pending
            &&& after.highlights == state.highlights
            &&& after.logs == state.logs
            &&& after.window_geometry == state.window_geometry
        }),
        now + paint <= u64::MAX ==> later(now, paint) - now == paint,
        now + paint > u64::MAX ==> later(now, paint) == u64::MAX,
{
}

/// A frame that is only counted keeps the tree and what is pending; one that is
/// observed records its nodes into a fresh frame. Both have a prepaint of the
/// given length.
pub proof fn law_counted_and_observed_frames(
    state: StateModel,
    nodes: Seq<NodeModel>,
    now: u64,
    prepaint: u64,
)
    ensures
        ({
            let after = counted_frame(state, now, prepaint);
            &&& after.tree == state.tree
            &&& after.pending == state.pending
            &&& after.highlights == state.highlights
            &&& after.logs == state.logs
            &&& after.window_geometry == state.window_geometry
            &&& after.completed_frame == state.completed_frame
            &&& after.timings == prepaint_finished(
                frame_begun(state, now).timings,
                later(now, prepaint),
            )
        }),
        ({
            let after = observed_frame(state, nodes, now, prepaint);
            &&& after.tree == state.tree
            &&& after.pending == with_nodes(frame_begun(state, now), nodes).pending
            &&& after.highlights == state.highlights
            &&& after.logs == state.logs
            &&& after.window_geometry == state.window_geometry
            &&& after.completed_frame == state.completed_frame
            &&& after.timings == counted_frame(state, now, prepaint).timings
        }),
{
}

/// The window stands where it was last validly said to stand.
pub proof fn law_windows_stand_where_they_are_said_to(
    state: StateModel,
    content_bounds: Rect,
    scale_factor: Single,
)
    ensures
        ({
            let geometry = WindowGeometry { content_bounds, scale_factor };
            let after = with_geometry(state, content_bounds, scale_factor);
            &&& geometry.valid() ==> after.window_geometry == Some(geometry)
            &&& !geometry.valid() ==> after.window_geometry == state.window_geometry
            &&& after == (StateModel { window_geometry: after.window_geometry, ..state })
        }),
{
}

/// At first nothing is published, pending, highlighted, logged, or painted, and
/// where the window stands is unknown.
pub proof fn law_nothing_at_first()
    ensures
        ({
            let state = initial_state();
            &&& state.tree.generation == 0
            &&& state.tree.roots.len() == 0
            &&& state.tree.nodes.dom() =~= Set::empty()
            &&& state.tree.diagnostics.len() == 0
            &&& !state.pending.active
            &&& state.pending.nodes.len() == 0
            &&& state.highlights.len() == 0
            &&& state.logs.len() == 0
            &&& state.completed_frame.frame_count == 0
            &&& state.timings.frame_count == 0
            &&& state.window_geometry is None
        }),
{
}

/// A wait for a tree goes on while the tree is none newer than the known one,
/// and ends with the tree as soon as it is.
pub proof fn law_waits_end_with_a_newer_tree(
    state: SharedState,
    after_generation: u64,
    step: Result<Option<UiTree>, BridgeError>,
)
    requires
        call_ensures(
            SharedState::wait_for_tree,
            (&state, after_generation, WaitSignal::Published),
            step,
        ),
    ensures
        step matches Ok(found) && (found is Some <==> state.model().tree.generation
            > after_generation),
        step matches Ok(Some(tree)) ==> tree.deep_view() == state.model().tree,
{
}

/// A wait for a frame goes on while no more frames are complete than the known
/// ones, and ends with the last one as soon as there are.
pub proof fn law_waits_end_with_a_later_frame(
    state: SharedState,
    after_frame_count: u64,
    step: Result<Option<FrameStats>, BridgeError>,
)
    requires
        call_ensures(
            SharedState::wait_for_frame,
            (&state, after_frame_count, WaitSignal::Published),
            step,
        ),
    ensures
        step matches Ok(found) && (found is Some <==> state.model().completed_frame.frame_count
            > after_frame_count),
        step matches Ok(Some(stats)) ==> stats == state.model().completed_frame,
{
}

/// A wait that nothing can end any more, or that takes too long, fails: as an
/// internal error or as a timeout.
pub proof fn law_waits_fail(
    state: SharedState,
    known: u64,
    tree: Result<Option<UiTree>, BridgeError>,
    frame: Result<Option<FrameStats>, BridgeError>,
    stopped: bool,
)
    requires
        call_ensures(
            SharedState::wait_for_tree,
            (
                &state,
                known,
                if stopped {
                    WaitSignal::PublisherStopped
                } else {
                    WaitSignal::TimedOut
                },
            ),
            tree,
        ),
        call_ensures(
            SharedState::wait_for_frame,
            (
                &state,
                known,
                if stopped {
                    WaitSignal::PublisherStopped
                } else {
                    WaitSignal::TimedOut
                },
            ),
            frame,
        ),
    ensures
        tree matches Err(error) && error.code == (if stopped {
            ErrorCode::Internal
        } else {
            ErrorCode::Timeout
        }) && error.message@ == (if stopped {
            "semantic tree publisher stopped"@
        } else {
            "semantic tree wait timed out"@
        }),
        frame matches Err(error) && error.code == (if stopped {
            ErrorCode::Internal
        } else {
            ErrorCode::Timeout
        }) && error.message@ == (if stopped {
            "frame publisher stopped"@
        } else {
            "frame wait timed out"@
        }),
{
}

/// A tree is handed out to whoever knows another generation, and to nobody who
/// knows its own.
pub proof fn law_known_trees_are_not_handed_out(
    state: SharedState,
    known_generation: u64,
    tree: Option<UiTree>,
)
    requires
        call_ensures(SharedState::tree_if_changed, (&state, known_generation), tree),
    ensures
        tree is None <==> state.model().tree.generation == known_generation,
        tree matches Some(copy) ==> copy.deep_view() == state.model().tree,
{
}

} // verus!
