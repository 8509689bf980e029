//! A semantic frame while it is being recorded, and what is published of it.

use vstd::hash_map::StringHashMap;
use vstd::hash_set::StringHashSet;
use vstd::prelude::*;

use crate::ancestry::{discard_invalid_relationships, Parent};
#[allow(unused_imports)]
use crate::ancestry::{
    climb, comes_back, cut_off_nodes, cyclic_nodes, ends_at, graph, grounded, lemma_climb_add,
    lemma_climb_bounded, lemma_entry_on_cycle, lemma_omission_lists, lemma_omitted_once,
    lemma_one_end, lemma_with_parent, omitted_nodes, orphaned_nodes, up, with_parent,
};
#[allow(unused_imports)]
use crate::model::lemma_deep_view_push;
use crate::protocol::{SemanticDiagnostic, SemanticDiagnosticCode, UiNode, MAX_TREE_NODES};
#[allow(unused_imports)]
use crate::protocol::{DiagnosticModel, NodeModel};
use crate::string_map::StringMap;
#[allow(unused_imports)]
use crate::validation::{lemma_children_do_not_matter, node_fault, valid_id};
use crate::validation::{valid_diagnostic_id, validate_node};

verus! {

/// Most diagnostics of one frame.
pub const MAX_DIAGNOSTICS: usize = 128;

// ---------------------------------------------------------------------------
// Recording
// ---------------------------------------------------------------------------
/// The nodes of a frame in recording order, and what was left out so far.
pub struct PendingFrame {
    active: bool,
    nodes: Vec<UiNode>,
    ids: StringHashSet,
    invalid_ids: StringHashSet,
    diagnostics: Vec<SemanticDiagnostic>,
}

/// A pending frame as a mathematical value.
#[verifier::ext_equal]
pub struct PendingModel {
    /// Whether a frame has begun and not finished.
    pub active: bool,
    /// The recorded nodes in order.
    pub nodes: Seq<NodeModel>,
    /// The identifiers that were recorded more than once.
    pub invalid: Set<Seq<char>>,
    /// What was reported so far.
    pub diagnostics: Seq<DiagnosticModel>,
}

/// Some node has this identifier.
pub open spec fn has_id(nodes: Seq<NodeModel>, id: Seq<char>) -> bool {
    exists|i: int| 0 <= i < nodes.len() && (#[trigger] nodes[i]).id == id
}

/// No two nodes share an identifier.
pub open spec fn distinct_ids(nodes: Seq<NodeModel>) -> bool {
    forall|i: int, j: int|
        0 <= i < j < nodes.len() ==> (#[trigger] nodes[i]).id != (#[trigger] nodes[j]).id
}

/// The nodes with another identifier.
pub open spec fn without_id(nodes: Seq<NodeModel>, id: Seq<char>) -> Seq<NodeModel> {
    nodes.filter(|node: NodeModel| node.id != id)
}

/// `reports` as far as they fit into one frame's diagnostics.
pub open spec fn bounded(reports: Seq<DiagnosticModel>) -> Seq<DiagnosticModel> {
    if reports.len() <= MAX_DIAGNOSTICS {
        reports
    } else {
        reports.take(MAX_DIAGNOSTICS as int)
    }
}

pub open spec fn reporting(pending: PendingModel, report: DiagnosticModel) -> PendingModel {
    PendingModel { diagnostics: bounded(pending.diagnostics.push(report)), ..pending }
}

pub open spec fn invalid_node_report(
    node_id: Option<Seq<char>>,
    message: Seq<char>,
) -> DiagnosticModel {
    DiagnosticModel { code: SemanticDiagnosticCode::InvalidNode, node_id, message }
}

pub open spec fn duplicate_id_report(id: Seq<char>) -> DiagnosticModel {
    DiagnosticModel {
        code: SemanticDiagnosticCode::DuplicateId,
        node_id: Some(id),
        message: "every node with this duplicate semantic identifier was omitted"@,
    }
}

pub open spec fn capacity_report() -> DiagnosticModel {
    DiagnosticModel {
        code: SemanticDiagnosticCode::CapacityExceeded,
        node_id: None,
        message: "semantic tree capacity was exceeded"@,
    }
}

/// A pending frame that has just begun.
pub open spec fn begun(pending: PendingModel) -> PendingModel {
    PendingModel {
        active: true,
        nodes: Seq::empty(),
        invalid: Set::empty(),
        diagnostics: if pending.active {
            seq![
                invalid_node_report(
                    None,
                    "the previous semantic frame did not reach root paint"@,
                ),
            ]
        } else {
            Seq::empty()
        },
    }
}

/// What recording `node` makes of a pending frame, and whether it was taken.
pub open spec fn recorded(pending: PendingModel, node: NodeModel) -> (PendingModel, bool) {
    let taken = NodeModel { children: Seq::empty(), ..node };
    if !pending.active {
        (pending, false)
    } else if let Some(message) = node_fault(node) {
        let node_id = if valid_id(node.id) {
            Some(node.id)
        } else {
            None
        };
        (reporting(pending, invalid_node_report(node_id, message)), false)
    } else if pending.invalid.contains(node.id) {
        (pending, false)
    } else if has_id(pending.nodes, node.id) {
        let rest = PendingModel {
            nodes: without_id(pending.nodes, node.id),
            invalid: pending.invalid.insert(node.id),
            ..pending
        };
        (reporting(rest, duplicate_id_report(node.id)), false)
    } else if pending.nodes.len() >= MAX_TREE_NODES {
        (reporting(pending, capacity_report()), false)
    } else {
        (PendingModel { nodes: pending.nodes.push(taken), ..pending }, true)
    }
}

/// What recording each of `nodes` in turn makes of a pending frame.
pub open spec fn recorded_all(pending: PendingModel, nodes: Seq<NodeModel>) -> PendingModel
    decreases nodes.len(),
{
    if nodes.len() == 0 {
        pending
    } else {
        recorded(recorded_all(pending, nodes.drop_last()), nodes.last()).0
    }
}

/// What holds of every pending frame: within both limits, each node valid and
/// without children, no identifier twice, and none of a duplicate's kept.
pub open spec fn valid_pending(pending: PendingModel) -> bool {
    &&& pending.nodes.len() <= MAX_TREE_NODES
    &&& pending.diagnostics.len() <= MAX_DIAGNOSTICS
    &&& distinct_ids(pending.nodes)
    &&& forall|i: int|
        0 <= i < pending.nodes.len() ==> {
            &&& (#[trigger] pending.nodes[i]).children == Seq::<Seq<char>>::empty()
            &&& node_fault(pending.nodes[i]) is None
            &&& !pending.invalid.contains(pending.nodes[i].id)
        }
}

pub proof fn lemma_without_id(nodes: Seq<NodeModel>, id: Seq<char>, at: int)
    requires
        distinct_ids(nodes),
        0 <= at < nodes.len(),
        nodes[at].id == id,
    ensures
        without_id(nodes, id) == nodes.remove(at),
    decreases nodes.len(),
{
    reveal(Seq::filter);
    let rest = nodes.drop_last();
    if at == nodes.len() - 1 {
        lemma_without_absent(rest, id);
        assert(nodes.remove(at) =~= rest);
    } else {
        assert(distinct_ids(rest)) by {
            assert forall|i: int, j: int| 0 <= i < j < rest.len() implies (#[trigger] rest[i]).id != (
            #[trigger] rest[j]).id by {
                assert(nodes[i].id != nodes[j].id);
            }
        }
        assert(nodes.last().id != id) by {
            assert(nodes[at].id != nodes[nodes.len() - 1].id);
        }
        lemma_without_id(rest, id, at);
        assert(nodes.remove(at) =~= rest.remove(at).push(nodes.last()));
    }
}

proof fn lemma_without_absent(nodes: Seq<NodeModel>, id: Seq<char>)
    requires
        !has_id(nodes, id),
    ensures
        without_id(nodes, id) == nodes,
    decreases nodes.len(),
{
    reveal(Seq::filter);
    if nodes.len() > 0 {
        let rest = nodes.drop_last();
        assert(nodes[nodes.len() - 1].id != id);
        assert(!has_id(rest, id)) by {
            if has_id(rest, id) {
                let i = choose|i: int| 0 <= i < rest.len() && (#[trigger] rest[i]).id == id;
                assert(nodes[i].id == id);
            }
        }
        lemma_without_absent(rest, id);
        assert(rest.push(nodes.last()) =~= nodes);
    } else {
        assert(without_id(nodes, id) =~= nodes);
    }
}

impl PendingFrame {
    pub closed spec fn model(&self) -> PendingModel {
        PendingModel {
            active: self.active,
            nodes: self.nodes.deep_view(),
            invalid: self.invalid_ids@,
            diagnostics: self.diagnostics.deep_view(),
        }
    }

    closed spec fn indexed(&self) -> bool {
        forall|id: Seq<char>| #[trigger]
            self.ids@.contains(id) <==> has_id(self.nodes.deep_view(), id)
    }

    /// The invariant that every operation keeps.
    pub closed spec fn wf(&self) -> bool {
        self.indexed() && valid_pending(self.model())
    }

    /// The invariant in terms of the model.
    pub proof fn lemma_valid(&self)
        requires
            self.wf(),
        ensures
            valid_pending(self.model()),
    {
    }

    /// A frame that has not begun.
    pub fn new() -> (pending: Self)
        ensures
            pending.wf(),
            pending.model() == (PendingModel {
                active: false,
                nodes: Seq::empty(),
                invalid: Set::empty(),
                diagnostics: Seq::empty(),
            }),
    {
        let pending = PendingFrame {
            active: false,
            nodes: Vec::new(),
            ids: StringHashSet::new(),
            invalid_ids: StringHashSet::new(),
            diagnostics: Vec::new(),
        };
        assert(pending.nodes.deep_view() =~= Seq::empty());
        assert(pending.diagnostics.deep_view() =~= Seq::empty());
        pending
    }

    fn push_diagnostic(
        &mut self,
        code: SemanticDiagnosticCode,
        node_id: Option<String>,
        message: &'static str,
    )
        requires
            old(self).wf(),
        ensures
            final(self).wf(),
            final(self).model() == reporting(
                old(self).model(),
                (DiagnosticModel { code, node_id: node_id.deep_view(), message: message@ }),
            ),
    {
        let ghost report = DiagnosticModel { code, node_id: node_id.deep_view(), message: message@ };
        let ghost before = self.diagnostics.deep_view();
        if self.diagnostics.len() < MAX_DIAGNOSTICS {
            let diagnostic = SemanticDiagnostic { code, node_id, message: message.to_owned() };
            self.diagnostics.push(diagnostic);
            assert(self.diagnostics.deep_view() =~= before.push(report));
        } else {
            assert(before.push(report).take(MAX_DIAGNOSTICS as int) =~= before);
        }
    }

    /// Begin a frame; one that is still pending is given up and reported.
    pub fn begin(&mut self)
        ensures
            final(self).wf(),
            final(self).model() == begun(old(self).model()),
    {
        let previous_was_incomplete = self.active;
        *self = PendingFrame::new();
        self.active = true;
        if previous_was_incomplete {
            self.push_diagnostic(
                SemanticDiagnosticCode::InvalidNode,
                None,
                "the previous semantic frame did not reach root paint",
            );
            assert(self.model().diagnostics =~= begun(old(self).model()).diagnostics);
        }
        assert(self.model() =~= begun(old(self).model()));
    }

    /// Where the node with this identifier stands.
    fn position(&self, id: &str) -> (at: usize)
        requires
            has_id(self.nodes.deep_view(), id@),
        ensures
            at < self.nodes@.len(),
            self.nodes@[at as int].id@ == id@,
    {
        let mut at: usize = 0;
        while at < self.nodes.len()
            invariant
                at <= self.nodes@.len(),
                has_id(self.nodes.deep_view(), id@),
                forall|j: int| 0 <= j < at ==> (#[trigger] self.nodes@[j]).id@ != id@,
            decreases self.nodes@.len() - at,
        {
            if crate::text::same_text(self.nodes[at].id.as_str(), id) {
                return at;
            }
            at += 1;
        }
        proof {
            let i = choose|i: int|
                0 <= i < self.nodes.deep_view().len() && (#[trigger] self.nodes.deep_view()[i]).id
                    == id@;
            assert(self.nodes@[i].id@ == id@);
            assert(false);
        }
        0
    }

    /// Take out the node with this identifier and refuse it from now on.
    fn refuse_id(&mut self, id: String)
        requires
            old(self).wf(),
            has_id(old(self).model().nodes, id@),
        ensures
            final(self).wf(),
            final(self).model() == (PendingModel {
                nodes: without_id(old(self).model().nodes, id@),
                invalid: old(self).model().invalid.insert(id@),
                ..old(self).model()
            }),
    {
        let ghost before = self.nodes.deep_view();
        let at = self.position(id.as_str());
        let _ = self.nodes.remove(at);
        let _ = self.ids.remove(id.as_str());
        proof {
            assert(before[at as int].id == id@);
            lemma_without_id(before, id@, at as int);
            let after = self.nodes.deep_view();
            assert(after =~= before.remove(at as int));
            assert forall|i: int| 0 <= i < after.len() implies (#[trigger] after[i]).id != id@
                && after[i] == before[if i < at { i } else { i + 1 }] by {
                let j = if i < at { i } else { i + 1 };
                assert(after[i] == before[j]);
                assert(before[j].id != before[at as int].id);
            }
            assert(distinct_ids(after)) by {
                assert forall|i: int, j: int| 0 <= i < j < after.len() implies (#[trigger] after[i]).id
                    != (#[trigger] after[j]).id by {
                    let a = if i < at { i } else { i + 1 };
                    let b = if j < at { j } else { j + 1 };
                    assert(after[i] == before[a] && after[j] == before[b]);
                    assert(before[a].id != before[b].id);
                }
            }
            assert forall|other: Seq<char>| #[trigger] self.ids@.contains(other) <==> has_id(
                after,
                other,
            ) by {
                if self.ids@.contains(other) {
                    assert(has_id(before, other));
                    let j = choose|j: int| 0 <= j < before.len() && (#[trigger] before[j]).id == other;
                    let i = if j < at { j } else { j - 1 };
                    assert(after[i] == before[j]);
                }
                if has_id(after, other) {
                    let i = choose|i: int| 0 <= i < after.len() && (#[trigger] after[i]).id == other;
                    let j = if i < at { i } else { i + 1 };
                    assert(before[j].id == other);
                }
            }
        }
        let _ = self.invalid_ids.insert(id);
        proof {
            let after = self.nodes.deep_view();
            assert forall|i: int| 0 <= i < after.len() implies {
                &&& (#[trigger] after[i]).children == Seq::<Seq<char>>::empty()
                &&& node_fault(after[i]) is None
                &&& !self.invalid_ids@.contains(after[i].id)
            } by {
                let j = if i < at { i } else { i + 1 };
                assert(after[i] == before[j]);
            }
        }
    }

    /// Record one node of the frame: whether it was taken.
    pub fn record(&mut self, node: UiNode) -> (taken: bool)
        requires
            old(self).wf(),
        ensures
            final(self).wf(),
            (final(self).model(), taken) == recorded(old(self).model(), node.deep_view()),
    {
        let ghost given = node.deep_view();
        let mut node = node;
        node.children = Vec::new();
        proof {
            assert(node.children.deep_view() =~= Seq::<Seq<char>>::empty());
            assert(node.deep_view() == (NodeModel { children: Seq::empty(), ..given }));
            lemma_children_do_not_matter(given, Seq::empty());
        }
        if !self.active {
            return false;
        }
        if let Err(message) = validate_node(&node) {
            let node_id = if valid_diagnostic_id(node.id.as_str()) {
                Some(node.id)
            } else {
                None
            };
            self.push_diagnostic(SemanticDiagnosticCode::InvalidNode, node_id, message);
            return false;
        }
        if self.invalid_ids.contains(node.id.as_str()) {
            return false;
        }
        if self.ids.contains(node.id.as_str()) {
            let id = node.id.clone();
            self.refuse_id(node.id);
            self.push_diagnostic(
                SemanticDiagnosticCode::DuplicateId,
                Some(id),
                "every node with this duplicate semantic identifier was omitted",
            );
            return false;
        }
        if self.nodes.len() >= MAX_TREE_NODES {
            self.push_diagnostic(
                SemanticDiagnosticCode::CapacityExceeded,
                None,
                "semantic tree capacity was exceeded",
            );
            return false;
        }
        let ghost nodes = self.nodes.deep_view();
        let ghost taken = node.deep_view();
        let _ = self.ids.insert(node.id.clone());
        self.nodes.push(node);
        proof {
            let after = self.nodes.deep_view();
            assert(after =~= nodes.push(taken));
            assert forall|other: Seq<char>| #[trigger] self.ids@.contains(other) <==> has_id(
                after,
                other,
            ) by {
                if has_id(nodes, other) {
                    let i = choose|i: int| 0 <= i < nodes.len() && (#[trigger] nodes[i]).id == other;
                    assert(after[i].id == other);
                }
                assert(after[nodes.len() as int].id == given.id);
                if has_id(after, other) && other != given.id {
                    let i = choose|i: int| 0 <= i < after.len() && (#[trigger] after[i]).id == other;
                    assert(nodes[i].id == other);
                }
            }
            assert(distinct_ids(after)) by {
                assert forall|i: int, j: int| 0 <= i < j < after.len() implies (#[trigger] after[i]).id
                    != (#[trigger] after[j]).id by {
                    assert(nodes[i] == after[i]);
                    if j < nodes.len() {
                        assert(nodes[j] == after[j]);
                    } else {
                        assert(!has_id(nodes, given.id));
                    }
                }
            }
        }
        true
    }
}

// ---------------------------------------------------------------------------
// Publishing
// ---------------------------------------------------------------------------
/// The number of the node with this identifier.
pub open spec fn number_of(nodes: Seq<NodeModel>, id: Seq<char>) -> int {
    choose|i: int| 0 <= i < nodes.len() && (#[trigger] nodes[i]).id == id
}

/// What the parent of a node is, by its identifier.
pub open spec fn parent_of(nodes: Seq<NodeModel>, node: NodeModel) -> Parent {
    match node.parent {
        None => Parent::Root,
        Some(id) => if has_id(nodes, id) {
            Parent::Node(number_of(nodes, id) as usize)
        } else {
            Parent::Missing
        },
    }
}

/// The parents of all nodes.
pub open spec fn parents_of(nodes: Seq<NodeModel>) -> Seq<Parent> {
    Seq::new(nodes.len(), |i: int| parent_of(nodes, nodes[i]))
}

/// The nodes that are not published: those whose parents do not lead to a root.
pub open spec fn left_out(nodes: Seq<NodeModel>) -> Seq<bool> {
    Seq::new(nodes.len(), |i: int| !grounded(parents_of(nodes), i as usize))
}

/// The identifiers of numbered nodes.
pub open spec fn ids_at(nodes: Seq<NodeModel>, numbers: Seq<usize>) -> Seq<Seq<char>> {
    Seq::new(numbers.len(), |i: int| nodes[numbers[i] as int].id)
}

/// The identifiers of the published nodes without a parent, in recording order.
pub open spec fn published_roots(nodes: Seq<NodeModel>) -> Seq<Seq<char>> {
    ids_at(nodes, with_parent(parents_of(nodes), left_out(nodes), Parent::Root, nodes.len()))
}

/// The identifiers of the published children of node `i`, in recording order.
pub open spec fn published_children(nodes: Seq<NodeModel>, i: int) -> Seq<Seq<char>> {
    ids_at(
        nodes,
        with_parent(parents_of(nodes), left_out(nodes), Parent::Node(i as usize), nodes.len()),
    )
}

/// Node `i` as it is published: with its children.
pub open spec fn published_node(nodes: Seq<NodeModel>, i: int) -> NodeModel {
    NodeModel { children: published_children(nodes, i), ..nodes[i] }
}

/// Node `i` is published under `id`.
pub open spec fn published_as(nodes: Seq<NodeModel>, i: int, id: Seq<char>) -> bool {
    0 <= i < nodes.len() && !left_out(nodes)[i] && nodes[i].id == id
}

/// The published nodes by their identifiers.
pub open spec fn published_nodes(nodes: Seq<NodeModel>) -> Map<Seq<char>, NodeModel> {
    Map::new(
        |id: Seq<char>| exists|i: int| published_as(nodes, i, id),
        |id: Seq<char>| published_node(nodes, choose|i: int| published_as(nodes, i, id)),
    )
}

pub open spec fn missing_parent_reports(
    nodes: Seq<NodeModel>,
    numbers: Seq<usize>,
) -> Seq<DiagnosticModel> {
    Seq::new(
        numbers.len(),
        |i: int|
            DiagnosticModel {
                code: SemanticDiagnosticCode::MissingParent,
                node_id: Some(nodes[numbers[i] as int].id),
                message: "semantic node whose parent was unavailable was omitted"@,
            },
    )
}

pub open spec fn parent_cycle_reports(
    nodes: Seq<NodeModel>,
    numbers: Seq<usize>,
) -> Seq<DiagnosticModel> {
    Seq::new(
        numbers.len(),
        |i: int|
            DiagnosticModel {
                code: SemanticDiagnosticCode::ParentCycle,
                node_id: Some(nodes[numbers[i] as int].id),
                message: "semantic node in a parent cycle was omitted"@,
            },
    )
}

/// The reports on the nodes that are left out: the orphaned ones, those on
/// parent cycles, and those cut off by a cycle.
pub open spec fn omission_reports(nodes: Seq<NodeModel>) -> Seq<DiagnosticModel> {
    let parents = parents_of(nodes);
    missing_parent_reports(nodes, orphaned_nodes(parents)) + parent_cycle_reports(
        nodes,
        cyclic_nodes(parents),
    ) + missing_parent_reports(nodes, cut_off_nodes(parents))
}

/// What a finished frame publishes.
pub struct FinishedFrame {
    pub roots: Vec<String>,
    pub nodes: StringMap<UiNode>,
    pub diagnostics: Vec<SemanticDiagnostic>,
}

#[verifier::ext_equal]
pub struct FinishedModel {
    pub roots: Seq<Seq<char>>,
    pub nodes: Map<Seq<char>, NodeModel>,
    pub diagnostics: Seq<DiagnosticModel>,
}

impl FinishedFrame {
    pub open spec fn model(&self) -> FinishedModel {
        FinishedModel {
            roots: self.roots.deep_view(),
            nodes: self.nodes.deep_view(),
            diagnostics: self.diagnostics.deep_view(),
        }
    }
}

/// What is published of a pending frame.
pub open spec fn finished(pending: PendingModel) -> FinishedModel {
    FinishedModel {
        roots: published_roots(pending.nodes),
        nodes: published_nodes(pending.nodes),
        diagnostics: bounded(pending.diagnostics + omission_reports(pending.nodes)),
    }
}

/// The pending frame that a finished one leaves behind.
pub open spec fn emptied() -> PendingModel {
    PendingModel {
        active: false,
        nodes: Seq::empty(),
        invalid: Set::empty(),
        diagnostics: Seq::empty(),
    }
}

pub proof fn lemma_number_of(nodes: Seq<NodeModel>, i: int)
    requires
        distinct_ids(nodes),
        0 <= i < nodes.len(),
    ensures
        has_id(nodes, nodes[i].id),
        number_of(nodes, nodes[i].id) == i,
{
    let id = nodes[i].id;
    let n = number_of(nodes, id);
    assert(0 <= n < nodes.len() && nodes[n].id == id);
    if n != i {
        let a = if n < i { n } else { i };
        let b = if n < i { i } else { n };
        assert(nodes[a].id != nodes[b].id);
    }
}

pub proof fn lemma_parents_graph(nodes: Seq<NodeModel>)
    requires
        nodes.len() <= MAX_TREE_NODES,
    ensures
        graph(parents_of(nodes)),
{
    let parents = parents_of(nodes);
    assert forall|i: int| 0 <= i < parents.len() implies match #[trigger] parents[i] {
        Parent::Node(p) => p < parents.len(),
        _ => true,
    } by {
        if let Some(id) = nodes[i].parent {
            if has_id(nodes, id) {
                let n = number_of(nodes, id);
                assert(0 <= n < nodes.len() && nodes[n].id == id);
            }
        }
    }
}

/// Reporting one by one is reporting all, as far as they fit.
proof fn lemma_bounded_push(reports: Seq<DiagnosticModel>, report: DiagnosticModel)
    ensures
        bounded(bounded(reports).push(report)) == bounded(reports.push(report)),
{
    assert(bounded(bounded(reports).push(report)) =~= bounded(reports.push(report)));
}

/// The number of each identifier.
fn number_nodes(nodes: &Vec<UiNode>) -> (numbers: StringHashMap<usize>)
    requires
        distinct_ids(nodes.deep_view()),
        nodes@.len() <= MAX_TREE_NODES,
    ensures
        forall|id: Seq<char>| #[trigger]
            numbers@.contains_key(id) <==> has_id(nodes.deep_view(), id),
        forall|id: Seq<char>| #[trigger]
            numbers@.contains_key(id) ==> numbers@[id] == number_of(nodes.deep_view(), id),
{
    let mut numbers: StringHashMap<usize> = StringHashMap::new();
    let ghost model = nodes.deep_view();
    let mut i: usize = 0;
    while i < nodes.len()
        invariant
            i <= nodes@.len(),
            model == nodes.deep_view(),
            distinct_ids(model),
            forall|j: int| 0 <= j < i ==> numbers@.contains_key((#[trigger] model[j]).id),
            forall|id: Seq<char>| #[trigger]
                numbers@.contains_key(id) ==> has_id(model, id) && numbers@[id] == number_of(model, id),
        decreases nodes@.len() - i,
    {
        proof {
            lemma_number_of(model, i as int);
        }
        numbers.insert(nodes[i].id.clone(), i);
        i += 1;
    }
    proof {
        assert forall|id: Seq<char>| has_id(model, id) implies #[trigger] numbers@.contains_key(id) by {
            let j = choose|j: int| 0 <= j < model.len() && (#[trigger] model[j]).id == id;
            assert(numbers@.contains_key(model[j].id));
        }
    }
    numbers
}

fn resolve_parents(nodes: &Vec<UiNode>) -> (parents: Vec<Parent>)
    requires
        distinct_ids(nodes.deep_view()),
        nodes@.len() <= MAX_TREE_NODES,
    ensures
        parents@ == parents_of(nodes.deep_view()),
{
    let numbers = number_nodes(nodes);
    let ghost model = nodes.deep_view();
    let mut parents: Vec<Parent> = Vec::new();
    let mut i: usize = 0;
    while i < nodes.len()
        invariant
            i <= nodes@.len(),
            model == nodes.deep_view(),
            forall|id: Seq<char>| #[trigger] numbers@.contains_key(id) <==> has_id(model, id),
            forall|id: Seq<char>| #[trigger]
                numbers@.contains_key(id) ==> numbers@[id] == number_of(model, id),
            parents@ == parents_of(model).take(i as int),
        decreases nodes@.len() - i,
    {
        let parent = match &nodes[i].parent {
            None => Parent::Root,
            Some(id) => match numbers.get(id.as_str()) {
                Some(number) => Parent::Node(*number),
                None => Parent::Missing,
            },
        };
        assert(parent == parent_of(model, model[i as int]));
        parents.push(parent);
        assert(parents@ =~= parents_of(model).take(i + 1));
        i += 1;
    }
    assert(parents@ =~= parents_of(model));
    parents
}

impl PendingFrame {
    fn report_omissions(
        &mut self,
        numbers: &Vec<usize>,
        code: SemanticDiagnosticCode,
        message: &'static str,
        Ghost(before): Ghost<Seq<DiagnosticModel>>,
    )
        requires
            old(self).wf(),
            old(self).model().diagnostics == bounded(before),
            forall|i: int| 0 <= i < numbers@.len() ==> #[trigger] numbers@[i] < old(self).model().nodes.len(),
        ensures
            final(self).wf(),
            final(self).model() == (PendingModel {
                diagnostics: bounded(
                    before + Seq::new(
                        numbers@.len(),
                        |i: int|
                            DiagnosticModel {
                                code,
                                node_id: Some(old(self).model().nodes[numbers@[i] as int].id),
                                message: message@,
                            },
                    ),
                ),
                ..old(self).model()
            }),
    {
        let ghost start = self.model();
        let ghost reports = Seq::new(
            numbers@.len(),
            |i: int|
                DiagnosticModel {
                    code,
                    node_id: Some(start.nodes[numbers@[i] as int].id),
                    message: message@,
                },
        );
        let mut i: usize = 0;
        assert(before + reports.take(0) =~= before);
        while i < numbers.len()
            invariant
                i <= numbers@.len(),
                numbers@.len() == reports.len(),
                self.wf(),
                forall|j: int| 0 <= j < numbers@.len() ==> #[trigger] numbers@[j] < start.nodes.len(),
                forall|j: int|
                    0 <= j < numbers@.len() ==> (#[trigger] reports[j]) == (DiagnosticModel {
                        code,
                        node_id: Some(start.nodes[numbers@[j] as int].id),
                        message: message@,
                    }),
                self.model() == (PendingModel {
                    diagnostics: bounded(before + reports.take(i as int)),
                    ..start
                }),
            decreases numbers@.len() - i,
        {
            assert(numbers@[i as int] < self.nodes.deep_view().len());
            let id = self.nodes[numbers[i]].id.clone();
            assert(self.model().nodes[numbers@[i as int] as int].id == id@);
            self.push_diagnostic(code, Some(id), message);
            proof {
                lemma_bounded_push(before + reports.take(i as int), reports[i as int]);
                assert((before + reports.take(i as int)).push(reports[i as int]) =~= before
                    + reports.take(i + 1));
            }
            i += 1;
        }
        assert(reports.take(numbers@.len() as int) =~= reports);
    }
}

proof fn lemma_ids_push(nodes: Seq<NodeModel>, numbers: Seq<usize>, number: usize)
    ensures
        ids_at(nodes, numbers.push(number)) == ids_at(nodes, numbers).push(nodes[number as int].id),
{
    assert(ids_at(nodes, numbers.push(number)) =~= ids_at(nodes, numbers).push(
        nodes[number as int].id,
    ));
}

/// The published roots, and the published children of each node.
pub fn build_relationships(
    nodes: &Vec<UiNode>,
    parents: &Vec<Parent>,
    omitted: &Vec<bool>,
) -> (relationships: (Vec<String>, Vec<Vec<String>>))
    requires
        nodes@.len() <= MAX_TREE_NODES,
        parents@ == parents_of(nodes.deep_view()),
        omitted@ == left_out(nodes.deep_view()),
    ensures
        relationships.0.deep_view() == published_roots(nodes.deep_view()),
        relationships.1@.len() == nodes@.len(),
        forall|i: int|
            0 <= i < nodes@.len() ==> (#[trigger] relationships.1@[i]).deep_view()
                == published_children(nodes.deep_view(), i),
{
    let ghost model = nodes.deep_view();
    let mut roots: Vec<String> = Vec::new();
    let mut children: Vec<Vec<String>> = Vec::new();
    while children.len() < nodes.len()
        invariant
            children@.len() <= nodes@.len(),
            forall|p: int|
                0 <= p < children@.len() ==> (#[trigger] children@[p]).deep_view() == Seq::<
                    Seq<char>,
                >::empty(),
        decreases nodes@.len() - children@.len(),
    {
        let none: Vec<String> = Vec::new();
        assert(none.deep_view() =~= Seq::<Seq<char>>::empty());
        children.push(none);
    }
    proof {
        lemma_parents_graph(model);
        assert(roots.deep_view() =~= ids_at(model, Seq::empty()));
        assert forall|p: int| 0 <= p < children@.len() implies (#[trigger] children@[p]).deep_view()
            == ids_at(model, with_parent(parents@, omitted@, Parent::Node(p as usize), 0)) by {
            assert(ids_at(model, Seq::empty()) =~= Seq::<Seq<char>>::empty());
        }
    }
    let mut i: usize = 0;
    while i < nodes.len()
        invariant
            i <= nodes@.len(),
            nodes@.len() <= MAX_TREE_NODES,
            model == nodes.deep_view(),
            graph(parents@),
            parents@.len() == nodes@.len(),
            omitted@.len() == nodes@.len(),
            children@.len() == nodes@.len(),
            roots.deep_view() == ids_at(
                model,
                with_parent(parents@, omitted@, Parent::Root, i as nat),
            ),
            forall|p: int|
                0 <= p < nodes@.len() ==> (#[trigger] children@[p]).deep_view() == ids_at(
                    model,
                    with_parent(parents@, omitted@, Parent::Node(p as usize), i as nat),
                ),
        decreases nodes@.len() - i,
    {
        let id = nodes[i].id.clone();
        let ghost before = children@;
        proof {
            assert(model[i as int].id == id@);
            assert(match parents@[i as int] {
                Parent::Node(p) => p < parents@.len(),
                _ => true,
            });
        }
        if !omitted[i] {
            match parents[i] {
                Parent::Root => {
                    proof {
                        lemma_ids_push(
                            model,
                            with_parent(parents@, omitted@, Parent::Root, i as nat),
                            i,
                        );
                        lemma_deep_view_push(roots@, id, roots@.push(id));
                    }
                    roots.push(id);
                },
                Parent::Node(p) => {
                    proof {
                        lemma_ids_push(
                            model,
                            with_parent(parents@, omitted@, Parent::Node(p), i as nat),
                            i,
                        );
                        lemma_deep_view_push(before[p as int]@, id, before[p as int]@.push(id));
                    }
                    children[p].push(id);
                },
                Parent::Missing => {},
            }
        }
        proof {
            assert forall|p: int| 0 <= p < nodes@.len() implies (#[trigger] children@[p]).deep_view()
                == ids_at(
                model,
                with_parent(parents@, omitted@, Parent::Node(p as usize), (i + 1) as nat),
            ) by {
                assert(before[p].deep_view() == ids_at(
                    model,
                    with_parent(parents@, omitted@, Parent::Node(p as usize), i as nat),
                ));
            }
        }
        i += 1;
    }
    (roots, children)
}

/// The map holds exactly the published nodes from `start` up to `end`.
spec fn holds_part(
    map: Map<Seq<char>, NodeModel>,
    model: Seq<NodeModel>,
    start: int,
    end: int,
) -> bool {
    &&& forall|i: int|
        start <= i < end && !#[trigger] left_out(model)[i] ==> map.contains_key(model[i].id)
            && map[model[i].id] == published_node(model, i)
    &&& forall|id: Seq<char>| #[trigger]
        map.contains_key(id) ==> exists|i: int| start <= i < end && published_as(model, i, id)
}

proof fn lemma_holds_both(
    left: Map<Seq<char>, NodeModel>,
    right: Map<Seq<char>, NodeModel>,
    model: Seq<NodeModel>,
    start: int,
    middle: int,
    end: int,
)
    requires
        distinct_ids(model),
        0 <= start <= middle <= end <= model.len(),
        holds_part(left, model, start, middle),
        holds_part(right, model, middle, end),
    ensures
        holds_part(left.union_prefer_right(right), model, start, end),
{
    let both = left.union_prefer_right(right);
    assert forall|i: int| start <= i < end && !#[trigger] left_out(model)[i] implies both.contains_key(
        model[i].id,
    ) && both[model[i].id] == published_node(model, i) by {
        if i < middle && right.contains_key(model[i].id) {
            let j = choose|j: int| middle <= j < end && published_as(model, j, model[i].id);
            lemma_number_of(model, i);
            lemma_number_of(model, j);
        }
    }
    assert forall|id: Seq<char>| #[trigger] both.contains_key(id) implies exists|i: int|
        start <= i < end && published_as(model, i, id) by {
        if right.contains_key(id) {
            let i = choose|i: int| middle <= i < end && published_as(model, i, id);
            assert(start <= i < end && published_as(model, i, id));
        } else {
            let i = choose|i: int| start <= i < middle && published_as(model, i, id);
            assert(start <= i < end && published_as(model, i, id));
        }
    }
}

/// The published nodes among those from `start` on, each with its children.
fn collect_part(
    nodes: Vec<UiNode>,
    children: Vec<Vec<String>>,
    omitted: &Vec<bool>,
    start: usize,
    Ghost(model): Ghost<Seq<NodeModel>>,
) -> (published: StringMap<UiNode>)
    requires
        model.len() <= MAX_TREE_NODES,
        distinct_ids(model),
        omitted@ == left_out(model),
        start + nodes@.len() <= model.len(),
        nodes.deep_view() == model.subrange(start as int, start + nodes@.len()),
        children@.len() == nodes@.len(),
        forall|i: int|
            0 <= i < nodes@.len() ==> (#[trigger] children@[i]).deep_view() == published_children(
                model,
                start + i,
            ),
    ensures
        holds_part(published.deep_view(), model, start as int, start + nodes@.len()),
    decreases nodes@.len(),
{
    let n = nodes.len();
    let mut nodes = nodes;
    let mut children = children;
    if n > 1 {
        let half: usize = n / 2;
        let middle: usize = start + half;
        let ghost all = nodes.deep_view();
        let ghost lists = children@;
        let upper_nodes = nodes.split_off(half);
        let upper_children = children.split_off(half);
        proof {
            assert(nodes.deep_view() =~= model.subrange(start as int, start + half)) by {
                assert forall|i: int| 0 <= i < half implies nodes.deep_view()[i] == model.subrange(
                    start as int,
                    start + half,
                )[i] by {
                    assert(nodes.deep_view()[i] == all[i]);
                }
            }
            assert(upper_nodes.deep_view() =~= model.subrange(middle as int, start + n)) by {
                assert forall|i: int| 0 <= i < n - half implies upper_nodes.deep_view()[i]
                    == model.subrange(middle as int, start + n)[i] by {
                    assert(upper_nodes.deep_view()[i] == all[half + i]);
                }
            }
            assert forall|i: int| 0 <= i < half implies (#[trigger] children@[i]).deep_view()
                == published_children(model, start + i) by {
                assert(children@[i] == lists[i]);
            }
            assert forall|i: int| 0 <= i < n - half implies (
            #[trigger] upper_children@[i]).deep_view() == published_children(model, middle + i) by {
                assert(upper_children@[i] == lists[half + i]);
            }
        }
        let lower = collect_part(nodes, children, omitted, start, Ghost(model));
        let upper = collect_part(upper_nodes, upper_children, omitted, middle, Ghost(model));
        proof {
            lemma_holds_both(
                lower.deep_view(),
                upper.deep_view(),
                model,
                start as int,
                middle as int,
                start + n,
            );
        }
        return StringMap::merged(lower, upper);
    }
    let mut published: StringMap<UiNode> = StringMap::new();
    if n == 1 {
        assert(nodes.deep_view()[0] == model[start as int]);
        assert(children@[0].deep_view() == published_children(model, start + 0));
        if let (Some(node), Some(list)) = (nodes.pop(), children.pop()) {
            let mut node = node;
            assert(node.deep_view() == model[start as int]);
            if !omitted[start] {
                node.children = list;
                assert(node.deep_view() == published_node(model, start as int));
                published.insert(node.id.clone(), node);
                assert(published_as(model, start as int, model[start as int].id));
            }
        }
    }
    published
}

/// The published nodes, each with its children.
fn collect_nodes(
    nodes: Vec<UiNode>,
    children: Vec<Vec<String>>,
    omitted: &Vec<bool>,
) -> (published: StringMap<UiNode>)
    requires
        nodes@.len() <= MAX_TREE_NODES,
        distinct_ids(nodes.deep_view()),
        omitted@ == left_out(nodes.deep_view()),
        children@.len() == nodes@.len(),
        forall|i: int|
            0 <= i < nodes@.len() ==> (#[trigger] children@[i]).deep_view() == published_children(
                nodes.deep_view(),
                i,
            ),
    ensures
        published.deep_view() == published_nodes(nodes.deep_view()),
{
    let ghost model = nodes.deep_view();
    assert(model.subrange(0, model.len() as int) =~= model);
    let published = collect_part(nodes, children, omitted, 0, Ghost(model));
    proof {
        let expected = published_nodes(model);
        let map = published.deep_view();
        assert forall|id: Seq<char>| map.contains_key(id) <==> expected.contains_key(id) by {
            if map.contains_key(id) {
                let i = choose|i: int| 0 <= i < model.len() && published_as(model, i, id);
                assert(published_as(model, i, id));
            }
            if expected.contains_key(id) {
                let i = choose|i: int| published_as(model, i, id);
                assert(!left_out(model)[i]);
            }
        }
        assert forall|id: Seq<char>| map.contains_key(id) implies map[id] == expected[id] by {
            assert(expected.contains_key(id));
            let i = choose|i: int| published_as(model, i, id);
            assert(!left_out(model)[i]);
        }
        assert(map =~= expected);
    }
    published
}

impl PendingFrame {
    /// Omit the nodes without a complete ancestry, and report them.
    fn discard_invalid_relationships(&mut self) -> (found: (Vec<Parent>, Vec<bool>))
        requires
            old(self).wf(),
        ensures
            final(self).wf(),
            final(self).model() == (PendingModel {
                diagnostics: bounded(
                    old(self).model().diagnostics + omission_reports(old(self).model().nodes),
                ),
                ..old(self).model()
            }),
            found.0@ == parents_of(old(self).model().nodes),
            found.1@ == left_out(old(self).model().nodes),
    {
        let ghost before = self.model();
        let ghost parents_model = parents_of(before.nodes);
        let parents = resolve_parents(&self.nodes);
        proof {
            lemma_parents_graph(before.nodes);
        }
        let omissions = discard_invalid_relationships(&parents);
        let ghost first = missing_parent_reports(before.nodes, omissions.orphaned@);
        let ghost second = parent_cycle_reports(before.nodes, omissions.cyclic@);
        let ghost third = missing_parent_reports(before.nodes, omissions.cut_off@);
        proof {
            assert(bounded(before.diagnostics) == before.diagnostics);
            lemma_omission_lists(parents_model);
            assert forall|i: int| 0 <= i < omissions.orphaned@.len() implies
                #[trigger] omissions.orphaned@[i] < before.nodes.len() by {
                assert(orphaned_nodes(parents_model).contains(omissions.orphaned@[i]));
            }
            assert forall|i: int| 0 <= i < omissions.cyclic@.len() implies
                #[trigger] omissions.cyclic@[i] < before.nodes.len() by {
                assert(cyclic_nodes(parents_model).contains(omissions.cyclic@[i]));
            }
            assert forall|i: int| 0 <= i < omissions.cut_off@.len() implies
                #[trigger] omissions.cut_off@[i] < before.nodes.len() by {
                assert(cut_off_nodes(parents_model).contains(omissions.cut_off@[i]));
            }
        }
        self.report_omissions(
            &omissions.orphaned,
            SemanticDiagnosticCode::MissingParent,
            "semantic node whose parent was unavailable was omitted",
            Ghost(before.diagnostics),
        );
        assert(self.model().diagnostics == bounded(before.diagnostics + first));
        self.report_omissions(
            &omissions.cyclic,
            SemanticDiagnosticCode::ParentCycle,
            "semantic node in a parent cycle was omitted",
            Ghost(before.diagnostics + first),
        );
        assert(self.model().diagnostics == bounded(before.diagnostics + first + second));
        self.report_omissions(
            &omissions.cut_off,
            SemanticDiagnosticCode::MissingParent,
            "semantic node whose parent was unavailable was omitted",
            Ghost(before.diagnostics + first + second),
        );
        proof {
            assert(before.diagnostics + first + second + third =~= before.diagnostics + (first
                + second + third));
            assert(omissions.omitted@ =~= left_out(before.nodes)) by {
                assert forall|i: int| 0 <= i < before.nodes.len() implies omissions.omitted@[i]
                    == left_out(before.nodes)[i] by {
                    let j = i as usize;
                    assert(omissions.omitted@[j as int] == !grounded(parents_model, j));
                }
            }
        }
        (parents, omissions.omitted)
    }

    /// End the frame: what it publishes, unless none was pending.
    pub fn finish(&mut self) -> (published: Option<FinishedFrame>)
        requires
            old(self).wf(),
        ensures
            final(self).wf(),
            match published {
                Some(frame) => {
                    &&& old(self).model().active
                    &&& frame.model() == finished(old(self).model())
                    &&& final(self).model() == emptied()
                },
                None => !old(self).model().active && final(self).model() == old(self).model(),
            },
    {
        if !self.active {
            return None;
        }
        let (parents, omitted) = self.discard_invalid_relationships();
        let (roots, children) = build_relationships(&self.nodes, &parents, &omitted);
        let mut taken = PendingFrame::new();
        std::mem::swap(self, &mut taken);
        let nodes = collect_nodes(taken.nodes, children, &omitted);
        Some(FinishedFrame { roots, nodes, diagnostics: taken.diagnostics })
    }
}

// ---------------------------------------------------------------------------
// Laws
// ---------------------------------------------------------------------------
pub proof fn lemma_parent_grounded(parents: Seq<Parent>, i: usize, p: usize)
    requires
        grounded(parents, i),
        up(parents, i) == Some(p),
    ensures
        grounded(parents, p),
{
    let k = choose|k: nat| ends_at(parents, i, k, Parent::Root);
    assert(climb(parents, i, 0) == Some(i));
    assert(k > 0);
    assert(climb(parents, i, 1) == Some(p)) by {
        assert(climb(parents, i, 0) == Some(i));
    }
    lemma_climb_add(parents, i, 1, (k - 1) as nat);
    assert(1 + (k - 1) as nat == k);
    assert(ends_at(parents, p, (k - 1) as nat, Parent::Root));
}

/// Node `i` under its identifier.
pub proof fn lemma_published(nodes: Seq<NodeModel>, i: int)
    requires
        distinct_ids(nodes),
        0 <= i < nodes.len(),
        !left_out(nodes)[i],
    ensures
        published_nodes(nodes).contains_key(nodes[i].id),
        published_nodes(nodes)[nodes[i].id] == published_node(nodes, i),
{
    assert(published_as(nodes, i, nodes[i].id));
    let j = choose|j: int| published_as(nodes, j, nodes[i].id);
    lemma_number_of(nodes, i);
    lemma_number_of(nodes, j);
}

/// What is listed at `parent` is what is published there, each once.
proof fn lemma_listed(nodes: Seq<NodeModel>, parent: Parent)
    requires
        nodes.len() <= MAX_TREE_NODES,
        distinct_ids(nodes),
    ensures
        ids_at(
            nodes,
            with_parent(parents_of(nodes), left_out(nodes), parent, nodes.len()),
        ).no_duplicates(),
        forall|id: Seq<char>| #[trigger]
            ids_at(
                nodes,
                with_parent(parents_of(nodes), left_out(nodes), parent, nodes.len()),
            ).contains(id) <==> has_id(nodes, id) && !left_out(nodes)[number_of(nodes, id)]
                && parents_of(nodes)[number_of(nodes, id)] == parent,
{
    let parents = parents_of(nodes);
    let omitted = left_out(nodes);
    lemma_with_parent(parents, omitted, parent, nodes.len());
    let numbers = with_parent(parents, omitted, parent, nodes.len());
    let ids = ids_at(nodes, numbers);
    assert forall|a: int, b: int| 0 <= a < ids.len() && 0 <= b < ids.len() && a != b implies ids[a]
        != ids[b] by {
        assert(numbers.contains(numbers[a]) && numbers.contains(numbers[b]));
        lemma_number_of(nodes, numbers[a] as int);
        lemma_number_of(nodes, numbers[b] as int);
    }
    assert forall|id: Seq<char>| #[trigger] ids.contains(id) <==> has_id(nodes, id) && !left_out(
        nodes,
    )[number_of(nodes, id)] && parents[number_of(nodes, id)] == parent by {
        if ids.contains(id) {
            let a = ids.index_of(id);
            assert(numbers.contains(numbers[a]));
            lemma_number_of(nodes, numbers[a] as int);
        }
        if has_id(nodes, id) && !left_out(nodes)[number_of(nodes, id)] && parents[number_of(
            nodes,
            id,
        )] == parent {
            let i = number_of(nodes, id);
            assert(0 <= i < nodes.len() && nodes[i].id == id);
            assert(numbers.contains(i as usize));
            let a = numbers.index_of(i as usize);
            assert(ids[a] == id);
        }
    }
}

/// Roots and nodes make a forest: a node without a parent is a root, any other
/// is among the children of its parent, which is there too; nothing else is
/// listed, and nothing is listed twice.
pub open spec fn forest(roots: Seq<Seq<char>>, nodes: Map<Seq<char>, NodeModel>) -> bool {
    &&& forall|id: Seq<char>| #[trigger]
        nodes.contains_key(id) ==> {
            &&& nodes[id].id == id
            &&& nodes[id].children.no_duplicates()
            &&& match nodes[id].parent {
                None => roots.contains(id),
                Some(parent) => nodes.contains_key(parent) && nodes[parent].children.contains(id),
            }
        }
    &&& forall|id: Seq<char>| #[trigger]
        roots.contains(id) ==> nodes.contains_key(id) && nodes[id].parent is None
    &&& forall|id: Seq<char>, child: Seq<char>|
        nodes.contains_key(id) && #[trigger] nodes[id].children.contains(child)
            ==> nodes.contains_key(child) && nodes[child].parent == Some(id)
    &&& roots.no_duplicates()
}

/// What is published is a forest.
pub proof fn law_published_forest(nodes: Seq<NodeModel>)
    requires
        nodes.len() <= MAX_TREE_NODES,
        distinct_ids(nodes),
    ensures
        forest(published_roots(nodes), published_nodes(nodes)),
{
    let published = published_nodes(nodes);
    let parents = parents_of(nodes);
    lemma_parents_graph(nodes);
    lemma_listed(nodes, Parent::Root);
    assert forall|id: Seq<char>| #[trigger] published.contains_key(id) implies {
        &&& published[id].id == id
        &&& published[id].children.no_duplicates()
        &&& match published[id].parent {
            None => published_roots(nodes).contains(id),
            Some(parent) => published.contains_key(parent) && published[parent].children.contains(
                id,
            ),
        }
    } by {
        let i = choose|i: int| published_as(nodes, i, id);
        lemma_number_of(nodes, i);
        lemma_published(nodes, i);
        lemma_listed(nodes, Parent::Node(i as usize));
        assert(parents[i] == parent_of(nodes, nodes[i]));
        if let Some(parent) = nodes[i].parent {
            assert(grounded(parents, i as usize));
            assert(has_id(nodes, parent)) by {
                if !has_id(nodes, parent) {
                    assert(ends_at(parents, i as usize, 0, Parent::Missing));
                    lemma_one_end(parents, i as usize);
                }
            }
            let p = number_of(nodes, parent);
            assert(0 <= p < nodes.len() && nodes[p].id == parent);
            lemma_parent_grounded(parents, i as usize, p as usize);
            lemma_published(nodes, p);
            lemma_listed(nodes, Parent::Node(p as usize));
        }
    }
    assert forall|id: Seq<char>| #[trigger] published_roots(nodes).contains(id) implies
        published.contains_key(id) && published[id].parent is None by {
        let i = number_of(nodes, id);
        assert(0 <= i < nodes.len() && nodes[i].id == id);
        lemma_published(nodes, i);
        assert(parents[i] == parent_of(nodes, nodes[i]));
    }
    assert forall|id: Seq<char>, child: Seq<char>|
        published.contains_key(id) && #[trigger] published[id].children.contains(child) implies
        published.contains_key(child) && published[child].parent == Some(id) by {
        let i = choose|i: int| published_as(nodes, i, id);
        lemma_number_of(nodes, i);
        lemma_published(nodes, i);
        lemma_listed(nodes, Parent::Node(i as usize));
        let c = number_of(nodes, child);
        assert(0 <= c < nodes.len() && nodes[c].id == child);
        lemma_published(nodes, c);
        assert(parents[c] == parent_of(nodes, nodes[c]));
        let parent = nodes[c].parent->0;
        let p = number_of(nodes, parent);
        assert(0 <= p < nodes.len() && nodes[p].id == parent);
    }
}

/// The identifier `k` parents above a node of a tree.
pub open spec fn ancestor(
    nodes: Map<Seq<char>, NodeModel>,
    id: Seq<char>,
    k: nat,
) -> Option<Seq<char>>
    decreases k,
{
    if k == 0 {
        Some(id)
    } else {
        match ancestor(nodes, id, (k - 1) as nat) {
            Some(below) => nodes[below].parent,
            None => None,
        }
    }
}

proof fn lemma_ancestor(nodes: Seq<NodeModel>, i: int, k: nat)
    requires
        nodes.len() <= MAX_TREE_NODES,
        distinct_ids(nodes),
        0 <= i < nodes.len(),
        !left_out(nodes)[i],
    ensures
        ancestor(published_nodes(nodes), nodes[i].id, k) == match climb(
            parents_of(nodes),
            i as usize,
            k,
        ) {
            Some(j) => Some(nodes[j as int].id),
            None => None,
        },
        climb(parents_of(nodes), i as usize, k) matches Some(j) ==> j < nodes.len() && grounded(
            parents_of(nodes),
            j,
        ),
    decreases k,
{
    if k > 0 {
        let parents = parents_of(nodes);
        lemma_ancestor(nodes, i, (k - 1) as nat);
        lemma_parents_graph(nodes);
        lemma_climb_bounded(parents, i as usize, (k - 1) as nat);
        if let Some(j) = climb(parents, i as usize, (k - 1) as nat) {
            lemma_published(nodes, j as int);
            assert(parents[j as int] == parent_of(nodes, nodes[j as int]));
            if let Some(parent) = nodes[j as int].parent {
                if has_id(nodes, parent) {
                    let p = number_of(nodes, parent);
                    assert(0 <= p < nodes.len() && nodes[p].id == parent);
                    lemma_parent_grounded(parents, j, p as usize);
                } else {
                    assert(ends_at(parents, j, 0, Parent::Missing));
                    lemma_one_end(parents, j);
                }
            }
        }
    }
}

/// The parents of a node lead to a root, and the node is not its own ancestor.
pub open spec fn rooted(
    roots: Seq<Seq<char>>,
    nodes: Map<Seq<char>, NodeModel>,
    id: Seq<char>,
) -> bool {
    &&& exists|k: nat|
        (#[trigger] ancestor(nodes, id, k)) matches Some(root) && roots.contains(root)
    &&& forall|k: nat| k > 0 ==> #[trigger] ancestor(nodes, id, k) != Some(id)
}

/// In a published tree the parents of every node lead to a root, and no node
/// is its own ancestor.
pub proof fn law_published_ancestry(nodes: Seq<NodeModel>, id: Seq<char>)
    requires
        nodes.len() <= MAX_TREE_NODES,
        distinct_ids(nodes),
        published_nodes(nodes).contains_key(id),
    ensures
        rooted(published_roots(nodes), published_nodes(nodes), id),
{
    let parents = parents_of(nodes);
    let i = choose|i: int| published_as(nodes, i, id);
    let x = i as usize;
    let k = choose|k: nat| ends_at(parents, x, k, Parent::Root);
    lemma_ancestor(nodes, i, k);
    let r = climb(parents, x, k)->0;
    lemma_number_of(nodes, r as int);
    lemma_listed(nodes, Parent::Root);
    assert(published_roots(nodes).contains(nodes[r as int].id));
    assert(ancestor(published_nodes(nodes), id, k) == Some(nodes[r as int].id));
    assert forall|k: nat| k > 0 implies #[trigger] ancestor(published_nodes(nodes), id, k) != Some(
        id,
    ) by {
        lemma_ancestor(nodes, i, k);
        if ancestor(published_nodes(nodes), id, k) == Some(id) {
            let j = climb(parents, i as usize, k)->0;
            lemma_number_of(nodes, i);
            lemma_number_of(nodes, j as int);
            assert(comes_back(parents, i as usize, k));
            lemma_entry_on_cycle(parents, i as usize);
            lemma_one_end(parents, i as usize);
        }
    }
}

/// Report `j` is about node `i`, which is left out.
pub open spec fn reports_node(nodes: Seq<NodeModel>, j: int, i: int) -> bool {
    &&& 0 <= i < nodes.len()
    &&& 0 <= j < omission_reports(nodes).len()
    &&& left_out(nodes)[i]
    &&& omission_reports(nodes)[j].node_id == Some(nodes[i].id)
}

/// Report `j` is about a node that is left out.
pub open spec fn reports_some(nodes: Seq<NodeModel>, j: int) -> bool {
    exists|i: int| reports_node(nodes, j, i)
}

/// Each node that is left out has one report, and no other node has one.
pub open spec fn each_reported_once(nodes: Seq<NodeModel>) -> bool {
    &&& forall|i: int|
        0 <= i < nodes.len() && #[trigger] left_out(nodes)[i] ==> exists|j: int|
            reports_node(nodes, j, i)
    &&& forall|j: int| 0 <= j < omission_reports(nodes).len() ==> #[trigger] reports_some(nodes, j)
    &&& forall|j: int, k: int|
        0 <= j < k < omission_reports(nodes).len() ==> (
        #[trigger] omission_reports(nodes)[j]).node_id != (
        #[trigger] omission_reports(nodes)[k]).node_id
}

/// The reports of a frame name each node that it leaves out once, and no other
/// node.
pub proof fn law_each_omission_is_reported_once(nodes: Seq<NodeModel>)
    requires
        nodes.len() <= MAX_TREE_NODES,
        distinct_ids(nodes),
    ensures
        each_reported_once(nodes),
{
    let parents = parents_of(nodes);
    lemma_parents_graph(nodes);
    lemma_omitted_once(parents);
    let all = omitted_nodes(parents);
    let reports = omission_reports(nodes);
    assert(reports.len() == all.len());
    assert forall|j: int| 0 <= j < all.len() implies {
        &&& (#[trigger] reports[j]).node_id == Some(nodes[all[j] as int].id)
        &&& all[j] < nodes.len()
        &&& left_out(nodes)[all[j] as int]
    } by {
        assert(all.contains(all[j]));
    }
    assert forall|i: int| 0 <= i < nodes.len() && #[trigger] left_out(nodes)[i] implies exists|j: int|
        reports_node(nodes, j, i) by {
        assert(all.contains(i as usize));
        let j = all.index_of(i as usize);
        assert(reports[j].node_id == Some(nodes[i].id));
        assert(reports_node(nodes, j, i));
    }
    assert forall|j: int| 0 <= j < reports.len() implies #[trigger] reports_some(nodes, j) by {
        assert(reports[j].node_id == Some(nodes[all[j] as int].id));
        assert(reports_node(nodes, j, all[j] as int));
    }
    assert forall|j: int, k: int| 0 <= j < k < reports.len() implies (#[trigger] reports[j]).node_id
        != (#[trigger] reports[k]).node_id by {
        assert(all[j] != all[k]);
        lemma_number_of(nodes, all[j] as int);
        lemma_number_of(nodes, all[k] as int);
    }
}

/// Recording keeps the invariant of pending frames.
pub proof fn law_recording_keeps_validity(pending: PendingModel, node: NodeModel)
    requires
        valid_pending(pending),
    ensures
        valid_pending(recorded(pending, node).0),
{
    let after = recorded(pending, node).0;
    lemma_children_do_not_matter(node, Seq::empty());
    if pending.active && node_fault(node) is None && !pending.invalid.contains(node.id) {
        if has_id(pending.nodes, node.id) {
            let at = number_of(pending.nodes, node.id);
            assert(0 <= at < pending.nodes.len() && pending.nodes[at].id == node.id);
            lemma_without_id(pending.nodes, node.id, at);
            assert forall|i: int| 0 <= i < after.nodes.len() implies (#[trigger] after.nodes[i])
                == pending.nodes[if i < at { i } else { i + 1 }] && after.nodes[i].id != node.id by {
                let j = if i < at { i } else { i + 1 };
                lemma_number_of(pending.nodes, j);
            }
            assert(distinct_ids(after.nodes)) by {
                assert forall|i: int, j: int| 0 <= i < j < after.nodes.len() implies (
                #[trigger] after.nodes[i]).id != (#[trigger] after.nodes[j]).id by {
                    let a = if i < at { i } else { i + 1 };
                    let b = if j < at { j } else { j + 1 };
                    assert(pending.nodes[a].id != pending.nodes[b].id);
                }
            }
        } else if pending.nodes.len() < MAX_TREE_NODES {
            assert(distinct_ids(after.nodes)) by {
                assert forall|i: int, j: int| 0 <= i < j < after.nodes.len() implies (
                #[trigger] after.nodes[i]).id != (#[trigger] after.nodes[j]).id by {
                    assert(after.nodes[i] == pending.nodes[i]);
                    if j < pending.nodes.len() {
                        assert(after.nodes[j] == pending.nodes[j]);
                    }
                }
            }
        }
    }
}

/// An identifier that was recorded twice is in the frame no more, whatever is
/// recorded after it.
pub proof fn law_duplicates_stay_out(pending: PendingModel, id: Seq<char>, nodes: Seq<NodeModel>)
    requires
        valid_pending(pending),
        pending.invalid.contains(id),
    ensures
        recorded_all(pending, nodes).invalid.contains(id),
        !has_id(recorded_all(pending, nodes).nodes, id),
        valid_pending(recorded_all(pending, nodes)),
    decreases nodes.len(),
{
    if nodes.len() > 0 {
        law_duplicates_stay_out(pending, id, nodes.drop_last());
        let before = recorded_all(pending, nodes.drop_last());
        law_recording_keeps_validity(before, nodes.last());
    }
}

/// What holds of every published frame: a rooted forest of valid nodes, with
/// a bounded number of diagnostics.
pub open spec fn valid_frame(frame: FinishedModel) -> bool {
    &&& forest(frame.roots, frame.nodes)
    &&& forall|id: Seq<char>| #[trigger]
        frame.nodes.contains_key(id) ==> rooted(frame.roots, frame.nodes, id) && node_fault(
            frame.nodes[id],
        ) is None
    &&& frame.diagnostics.len() <= MAX_DIAGNOSTICS
}

/// A valid pending frame is published as a valid frame.
pub proof fn law_published_frames_are_valid(pending: PendingModel)
    requires
        valid_pending(pending),
    ensures
        valid_frame(finished(pending)),
{
    let nodes = pending.nodes;
    law_published_forest(nodes);
    assert forall|id: Seq<char>| #[trigger] published_nodes(nodes).contains_key(id) implies rooted(
        published_roots(nodes),
        published_nodes(nodes),
        id,
    ) && node_fault(published_nodes(nodes)[id]) is None by {
        law_published_ancestry(nodes, id);
        let i = choose|i: int| published_as(nodes, i, id);
        lemma_published(nodes, i);
        lemma_children_do_not_matter(nodes[i], published_children(nodes, i));
    }
}

} // verus!
