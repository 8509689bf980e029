//! Laws of frames: what becomes of each recorded node, what is published, in
//! what order, and what is reported.

use vstd::prelude::*;

#[allow(unused_imports)]
use crate::ancestry::{
    climb, comes_back, cut_off_nodes, cyclic_nodes, ends_at, grounded, leads, lemma_climb_bounded,
    lemma_entry_on_cycle, lemma_omission_lists, lemma_one_end, lemma_with_parent, lost,
    omitted_nodes, on_cycle, orphaned_nodes, with_parent, Parent,
};
#[allow(unused_imports)]
use crate::frame::{
    begun, distinct_ids, finished, has_id, ids_at, left_out, lemma_number_of, lemma_parent_grounded,
    lemma_parents_graph, lemma_published, lemma_without_id, number_of, omission_reports, parent_of,
    parents_of, published_as, published_nodes, recorded, recorded_all, valid_pending, PendingModel,
};
#[allow(unused_imports)]
use crate::protocol::{DiagnosticModel, NodeModel, SemanticDiagnosticCode};
#[allow(unused_imports)]
use crate::shape_laws::lemma_climbed;
#[allow(unused_imports)]
use crate::validation::{clean_text, lemma_clean_text, node_fault};

verus! {

// ---------------------------------------------------------------------------
// Recording
// ---------------------------------------------------------------------------
/// What one more report makes of earlier ones: it comes last, unless there are
/// 128 of them.
pub open spec fn one_more(
    before: Seq<DiagnosticModel>,
    after: Seq<DiagnosticModel>,
    report: DiagnosticModel,
) -> bool {
    if before.len() < 128 {
        after == before.push(report)
    } else {
        after == before
    }
}

/// Where no frame has begun, recording does nothing.
pub proof fn law_nothing_is_recorded_outside_frames(pending: PendingModel, node: NodeModel)
    requires
        !pending.active,
    ensures
        recorded(pending, node).0 == pending,
        !recorded(pending, node).1,
{
}

/// A faulty node is not taken: its fault is reported, under its identifier where
/// that is a valid one, and nothing else changes.
pub proof fn law_faulty_nodes_are_reported(pending: PendingModel, node: NodeModel)
    requires
        valid_pending(pending),
        pending.active,
        node_fault(node) is Some,
    ensures
        ({
            let (after, taken) = recorded(pending, node);
            &&& !taken
            &&& after.active
            &&& after.nodes == pending.nodes
            &&& after.invalid == pending.invalid
            &&& one_more(
                pending.diagnostics,
                after.diagnostics,
                DiagnosticModel {
                    code: SemanticDiagnosticCode::InvalidNode,
                    node_id: if node.id.len() > 0 && clean_text(node.id, 256) {
                        Some(node.id)
                    } else {
                        None
                    },
                    message: node_fault(node)->0,
                },
            )
        }),
{
    lemma_clean_text(node.id, 256);
    let after = recorded(pending, node).0;
    if pending.diagnostics.len() >= 128 {
        assert(after.diagnostics =~= pending.diagnostics);
    }
}

/// The second node of one identifier takes the first one out: both stay out, the
/// others stay as they are, and that is reported once.
pub proof fn law_duplicates_are_taken_out(pending: PendingModel, node: NodeModel, at: int)
    requires
        valid_pending(pending),
        pending.active,
        node_fault(node) is None,
        0 <= at < pending.nodes.len(),
        pending.nodes[at].id == node.id,
    ensures
        ({
            let (after, taken) = recorded(pending, node);
            &&& !taken
            &&& after.active
            &&& after.nodes == pending.nodes.remove(at)
            &&& forall|id: Seq<char>| #[trigger]
                after.invalid.contains(id) <==> pending.invalid.contains(id) || id == node.id
            &&& one_more(
                pending.diagnostics,
                after.diagnostics,
                DiagnosticModel {
                    code: SemanticDiagnosticCode::DuplicateId,
                    node_id: Some(node.id),
                    message: "every node with this duplicate semantic identifier was omitted"@,
                },
            )
        }),
{
    lemma_without_id(pending.nodes, node.id, at);
    lemma_number_of(pending.nodes, at);
    let after = recorded(pending, node).0;
    if pending.diagnostics.len() >= 128 {
        assert(after.diagnostics =~= pending.diagnostics);
    }
}

/// A further node of an identifier that was taken out is passed over in silence.
pub proof fn law_further_duplicates_are_passed_over(pending: PendingModel, node: NodeModel)
    requires
        pending.active,
        node_fault(node) is None,
        pending.invalid.contains(node.id),
    ensures
        recorded(pending, node).0 == pending,
        !recorded(pending, node).1,
{
}

/// A new node is taken, behind the others and without children, as long as there
/// are fewer than ten thousand; from then on it is reported that the frame is
/// full.
pub proof fn law_new_nodes_are_taken(pending: PendingModel, node: NodeModel)
    requires
        valid_pending(pending),
        pending.active,
        node_fault(node) is None,
        !pending.invalid.contains(node.id),
        forall|i: int| 0 <= i < pending.nodes.len() ==> (#[trigger] pending.nodes[i]).id != node.id,
    ensures
        ({
            let (after, taken) = recorded(pending, node);
            &&& taken <==> pending.nodes.len() < 10_000
            &&& after.active
            &&& after.invalid == pending.invalid
            &&& taken ==> {
                let last = after.nodes.last();
                &&& after.nodes.len() > 0
                &&& after.nodes.drop_last() == pending.nodes
                &&& last.children.len() == 0
                &&& last == (NodeModel { children: last.children, ..node })
                &&& after.diagnostics == pending.diagnostics
            }
            &&& !taken ==> {
                &&& after.nodes == pending.nodes
                &&& one_more(
                    pending.diagnostics,
                    after.diagnostics,
                    DiagnosticModel {
                        code: SemanticDiagnosticCode::CapacityExceeded,
                        node_id: None,
                        message: "semantic tree capacity was exceeded"@,
                    },
                )
            }
        }),
{
    assert(!has_id(pending.nodes, node.id));
    let after = recorded(pending, node).0;
    if pending.nodes.len() < 10_000 {
        assert(after.nodes.drop_last() =~= pending.nodes);
    } else if pending.diagnostics.len() >= 128 {
        assert(after.diagnostics =~= pending.diagnostics);
    }
}

/// A frame begins without nodes; it reports one thing where the one before was
/// not finished, and nothing otherwise.
pub proof fn law_frames_begin_empty(pending: PendingModel)
    ensures
        ({
            let after = begun(pending);
            &&& after.active
            &&& after.nodes.len() == 0
            &&& after.invalid =~= Set::empty()
            &&& !pending.active ==> after.diagnostics.len() == 0
            &&& pending.active ==> after.diagnostics.len() == 1 && after.diagnostics[0] == (
            DiagnosticModel {
                code: SemanticDiagnosticCode::InvalidNode,
                node_id: None,
                message: "the previous semantic frame did not reach root paint"@,
            })
        }),
{
}

/// Nodes are recorded one behind the other.
pub proof fn law_nodes_are_recorded_in_turn(
    pending: PendingModel,
    nodes: Seq<NodeModel>,
    node: NodeModel,
)
    ensures
        recorded_all(pending, Seq::empty()) == pending,
        recorded_all(pending, nodes.push(node)) == recorded(recorded_all(pending, nodes), node).0,
{
    assert(nodes.push(node).drop_last() =~= nodes);
}

// ---------------------------------------------------------------------------
// Publishing
// ---------------------------------------------------------------------------
/// Node `i` has node `j` for a parent, by its identifier.
pub open spec fn child_of(nodes: Seq<NodeModel>, i: int, j: int) -> bool {
    nodes[i].parent == Some(nodes[j].id)
}

proof fn lemma_child_of(nodes: Seq<NodeModel>, i: int, j: int)
    requires
        distinct_ids(nodes),
        nodes.len() <= 10_000,
        0 <= i < nodes.len(),
        0 <= j < nodes.len(),
    ensures
        child_of(nodes, i, j) <==> parents_of(nodes)[i] == Parent::Node(j as usize),
{
    lemma_number_of(nodes, j);
    assert(parents_of(nodes)[i] == parent_of(nodes, nodes[i]));
    if let Some(id) = nodes[i].parent {
        if has_id(nodes, id) {
            let n = number_of(nodes, id);
            assert(0 <= n < nodes.len() && nodes[n].id == id);
        }
    }
}

/// A node without a parent is published; one whose parent was not recorded is
/// not; any other is published exactly if its parent is.
pub proof fn law_who_is_published(pending: PendingModel, i: int)
    requires
        valid_pending(pending),
        0 <= i < pending.nodes.len(),
    ensures
        ({
            let nodes = pending.nodes;
            let published = finished(pending).nodes;
            &&& nodes[i].parent is None ==> published.contains_key(nodes[i].id)
            &&& nodes[i].parent matches Some(parent) ==> {
                &&& (forall|j: int| 0 <= j < nodes.len() ==> (#[trigger] nodes[j]).id != parent)
                    ==> !published.contains_key(nodes[i].id)
                &&& forall|j: int|
                    0 <= j < nodes.len() && #[trigger] child_of(nodes, i, j) ==> (
                    published.contains_key(nodes[i].id) <==> published.contains_key(nodes[j].id))
            }
        }),
{
    let nodes = pending.nodes;
    let parents = parents_of(nodes);
    lemma_parents_graph(nodes);
    lemma_key(nodes, i);
    assert(climb(parents, i as usize, 0) == Some(i as usize));
    assert(parents[i] == parent_of(nodes, nodes[i]));
    match nodes[i].parent {
        None => {
            assert(ends_at(parents, i as usize, 0, Parent::Root));
        },
        Some(parent) => {
            if forall|j: int| 0 <= j < nodes.len() ==> (#[trigger] nodes[j]).id != parent {
                assert(!has_id(nodes, parent));
                assert(ends_at(parents, i as usize, 0, Parent::Missing));
                lemma_one_end(parents, i as usize);
            }
            assert forall|j: int| 0 <= j < nodes.len() && #[trigger] child_of(nodes, i, j) implies (
            published_nodes(nodes).contains_key(nodes[i].id) <==> published_nodes(
                nodes,
            ).contains_key(nodes[j].id)) by {
                lemma_child_of(nodes, i, j);
                lemma_key(nodes, j);
                if grounded(parents, i as usize) {
                    lemma_parent_grounded(parents, i as usize, j as usize);
                }
                if grounded(parents, j as usize) {
                    let above = j as usize;
                    let k = choose|k: nat| ends_at(parents, above, k, Parent::Root);
                    crate::identity::lemma_up_once(parents, i as usize, above, k + 1);
                    assert((k + 1 - 1) as nat == k);
                    assert(ends_at(parents, i as usize, k + 1, Parent::Root));
                }
            }
        },
    }
}

/// A recorded node is in the map exactly if its parents lead to a root.
proof fn lemma_key(nodes: Seq<NodeModel>, i: int)
    requires
        distinct_ids(nodes),
        0 <= i < nodes.len(),
    ensures
        published_nodes(nodes).contains_key(nodes[i].id) <==> grounded(
            parents_of(nodes),
            i as usize,
        ),
{
    if grounded(parents_of(nodes), i as usize) {
        lemma_published(nodes, i);
    }
    if published_nodes(nodes).contains_key(nodes[i].id) {
        let j = choose|j: int| published_as(nodes, j, nodes[i].id);
        lemma_number_of(nodes, i);
        lemma_number_of(nodes, j);
    }
}

/// What is published under an identifier is the recorded node, but for its
/// children; nothing is published that was not recorded.
pub proof fn law_recorded_nodes_are_published_as_they_are(pending: PendingModel, id: Seq<char>)
    requires
        valid_pending(pending),
        finished(pending).nodes.contains_key(id),
    ensures
        exists|i: int|
            0 <= i < pending.nodes.len() && (#[trigger] pending.nodes[i]).id == id && ({
                let node = finished(pending).nodes[id];
                node == (NodeModel { children: node.children, ..pending.nodes[i] })
            }),
{
    let nodes = pending.nodes;
    let i = choose|i: int| published_as(nodes, i, id);
    lemma_published(nodes, i);
    assert(nodes[i].id == id);
}

/// The places of a list in recording order.
pub proof fn lemma_ascending(
    parents: Seq<Parent>,
    omitted: Seq<bool>,
    parent: Parent,
    n: nat,
    a: int,
    b: int,
)
    requires
        n <= parents.len() <= usize::MAX,
        omitted.len() == parents.len(),
        0 <= a < b < with_parent(parents, omitted, parent, n).len(),
    ensures
        with_parent(parents, omitted, parent, n)[a] < with_parent(parents, omitted, parent, n)[b],
    decreases n,
{
    let before = with_parent(parents, omitted, parent, (n - 1) as nat);
    lemma_with_parent(parents, omitted, parent, (n - 1) as nat);
    assert(before.contains(before[a]) || a >= before.len());
    if b < before.len() {
        lemma_ascending(parents, omitted, parent, (n - 1) as nat, a, b);
    }
}

/// Roots come in the order in which they were recorded.
pub proof fn law_roots_come_in_recording_order(pending: PendingModel, i: int, j: int, a: int, b: int)
    requires
        valid_pending(pending),
        0 <= i < pending.nodes.len(),
        0 <= j < pending.nodes.len(),
        0 <= a < finished(pending).roots.len(),
        0 <= b < finished(pending).roots.len(),
        finished(pending).roots[a] == pending.nodes[i].id,
        finished(pending).roots[b] == pending.nodes[j].id,
    ensures
        a < b <==> i < j,
{
    lemma_listed_order(pending.nodes, Parent::Root, i, j, a, b);
}

/// The children of a published node come in the order in which they were
/// recorded.
pub proof fn law_children_come_in_recording_order(
    pending: PendingModel,
    id: Seq<char>,
    i: int,
    j: int,
    a: int,
    b: int,
)
    requires
        valid_pending(pending),
        finished(pending).nodes.contains_key(id),
        0 <= i < pending.nodes.len(),
        0 <= j < pending.nodes.len(),
        0 <= a < finished(pending).nodes[id].children.len(),
        0 <= b < finished(pending).nodes[id].children.len(),
        finished(pending).nodes[id].children[a] == pending.nodes[i].id,
        finished(pending).nodes[id].children[b] == pending.nodes[j].id,
    ensures
        a < b <==> i < j,
{
    let nodes = pending.nodes;
    let p = choose|p: int| published_as(nodes, p, id);
    lemma_published(nodes, p);
    lemma_listed_order(nodes, Parent::Node(p as usize), i, j, a, b);
}

proof fn lemma_listed_order(nodes: Seq<NodeModel>, parent: Parent, i: int, j: int, a: int, b: int)
    requires
        nodes.len() <= 10_000,
        distinct_ids(nodes),
        0 <= i < nodes.len(),
        0 <= j < nodes.len(),
        ({
            let ids = ids_at(
                nodes,
                with_parent(parents_of(nodes), left_out(nodes), parent, nodes.len()),
            );
            0 <= a < ids.len() && 0 <= b < ids.len() && ids[a] == nodes[i].id && ids[b]
                == nodes[j].id
        }),
    ensures
        a < b <==> i < j,
{
    let parents = parents_of(nodes);
    let omitted = left_out(nodes);
    let numbers = with_parent(parents, omitted, parent, nodes.len());
    lemma_with_parent(parents, omitted, parent, nodes.len());
    assert(numbers.contains(numbers[a]) && numbers.contains(numbers[b]));
    lemma_number_of(nodes, numbers[a] as int);
    lemma_number_of(nodes, numbers[b] as int);
    lemma_number_of(nodes, i);
    lemma_number_of(nodes, j);
    assert(numbers[a] == i && numbers[b] == j);
    if a < b {
        lemma_ascending(parents, omitted, parent, nodes.len(), a, b);
    } else if b < a {
        lemma_ascending(parents, omitted, parent, nodes.len(), b, a);
    }
}

// ---------------------------------------------------------------------------
// Reports
// ---------------------------------------------------------------------------
/// The reports of a finished frame begin with those of recording; behind them
/// come those on what is left out, and there are 128 at most.
pub proof fn law_reports_are_bounded_and_kept(pending: PendingModel, j: int)
    requires
        valid_pending(pending),
    ensures
        ({
            let before = pending.diagnostics;
            let more = omission_reports(pending.nodes);
            let after = finished(pending).diagnostics;
            &&& before.len() + more.len() <= 128 ==> after.len() == before.len() + more.len()
            &&& before.len() + more.len() > 128 ==> after.len() == 128
            &&& 0 <= j < after.len() ==> after[j] == (if j < before.len() {
                before[j]
            } else {
                more[j - before.len()]
            })
        }),
{
}

/// The node at `k` has the next one for a parent.
pub open spec fn step_to_parent(nodes: Seq<NodeModel>, chain: Seq<int>, k: int) -> bool {
    &&& 0 <= chain[k] < nodes.len()
    &&& 0 <= chain[k + 1] < nodes.len()
    &&& child_of(nodes, chain[k], chain[k + 1])
}

/// The chain leads from the node by its parents back to it.
pub open spec fn own_ancestor(nodes: Seq<NodeModel>, i: int, chain: Seq<int>) -> bool {
    &&& chain.len() > 1
    &&& chain[0] == i
    &&& chain.last() == i
    &&& forall|k: int| 0 <= k < chain.len() - 1 ==> #[trigger] step_to_parent(nodes, chain, k)
}

proof fn lemma_chain_climbs(nodes: Seq<NodeModel>, chain: Seq<int>, k: int)
    requires
        distinct_ids(nodes),
        nodes.len() <= 10_000,
        chain.len() > 1,
        forall|k: int| 0 <= k < chain.len() - 1 ==> #[trigger] step_to_parent(nodes, chain, k),
        0 <= k < chain.len(),
    ensures
        climb(parents_of(nodes), chain[0] as usize, k as nat) == Some(chain[k] as usize),
        0 <= chain[k] < nodes.len(),
    decreases k,
{
    if k > 0 {
        lemma_chain_climbs(nodes, chain, k - 1);
        assert(step_to_parent(nodes, chain, k - 1));
        lemma_child_of(nodes, chain[k - 1], chain[k]);
    } else {
        assert(step_to_parent(nodes, chain, 0));
    }
}

proof fn lemma_own_ancestor(nodes: Seq<NodeModel>, i: int, chain: Seq<int>)
    requires
        distinct_ids(nodes),
        nodes.len() <= 10_000,
        own_ancestor(nodes, i, chain),
    ensures
        on_cycle(parents_of(nodes), i as usize),
        0 <= i < nodes.len(),
{
    lemma_chain_climbs(nodes, chain, chain.len() - 1);
    assert(comes_back(parents_of(nodes), i as usize, (chain.len() - 1) as nat));
}

proof fn lemma_on_cycle(nodes: Seq<NodeModel>, i: int) -> (chain: Seq<int>)
    requires
        distinct_ids(nodes),
        nodes.len() <= 10_000,
        0 <= i < nodes.len(),
        on_cycle(parents_of(nodes), i as usize),
    ensures
        own_ancestor(nodes, i, chain),
{
    let parents = parents_of(nodes);
    let at = i as usize;
    lemma_parents_graph(nodes);
    let turn = choose|turn: nat| comes_back(parents, at, turn);
    let chain = Seq::new(turn + 1, |t: int| climb(parents, at, t as nat)->0 as int);
    assert(climb(parents, at, 0) == Some(at));
    assert forall|t: int| 0 <= t < chain.len() - 1 implies #[trigger] step_to_parent(
        nodes,
        chain,
        t,
    ) by {
        lemma_climbed(parents, at, turn, t as nat);
        lemma_climbed(parents, at, turn, (t + 1) as nat);
        lemma_climb_bounded(parents, at, t as nat);
        lemma_climb_bounded(parents, at, (t + 1) as nat);
        assert(parents[chain[t]] == Parent::Node(chain[t + 1] as usize));
        lemma_child_of(nodes, chain[t], chain[t + 1]);
    }
    chain
}

/// A report on a node that is left out says that it is on a parent cycle exactly
/// if the node is its own ancestor, and that its parent was unavailable
/// otherwise.
pub proof fn law_what_omission_reports_say(nodes: Seq<NodeModel>, j: int, i: int)
    requires
        nodes.len() <= 10_000,
        distinct_ids(nodes),
        0 <= j < omission_reports(nodes).len(),
        0 <= i < nodes.len(),
        omission_reports(nodes)[j].node_id == Some(nodes[i].id),
    ensures
        ({
            let report = omission_reports(nodes)[j];
            if exists|chain: Seq<int>| own_ancestor(nodes, i, chain) {
                &&& report.code == SemanticDiagnosticCode::ParentCycle
                &&& report.message == "semantic node in a parent cycle was omitted"@
            } else {
                &&& report.code == SemanticDiagnosticCode::MissingParent
                &&& report.message == "semantic node whose parent was unavailable was omitted"@
            }
        }),
{
    let parents = parents_of(nodes);
    let a = orphaned_nodes(parents);
    let b = cyclic_nodes(parents);
    lemma_reported(nodes, j, i);
    if exists|chain: Seq<int>| own_ancestor(nodes, i, chain) {
        let chain = choose|chain: Seq<int>| own_ancestor(nodes, i, chain);
        lemma_own_ancestor(nodes, i, chain);
    } else if on_cycle(parents, i as usize) {
        let chain = lemma_on_cycle(nodes, i);
        assert(own_ancestor(nodes, i, chain));
    }
}

/// Where a report stands says what it is about: first come the nodes whose
/// parents lead to a missing one, then those on cycles, then what descends from
/// those.
proof fn lemma_reported(nodes: Seq<NodeModel>, j: int, i: int)
    requires
        nodes.len() <= 10_000,
        distinct_ids(nodes),
        0 <= j < omission_reports(nodes).len(),
        0 <= i < nodes.len(),
        omission_reports(nodes)[j].node_id == Some(nodes[i].id),
    ensures
        ({
            let parents = parents_of(nodes);
            let a = orphaned_nodes(parents).len();
            let b = cyclic_nodes(parents).len();
            &&& j < a <==> lost(parents, i as usize)
            &&& a <= j < a + b <==> on_cycle(parents, i as usize)
            &&& !grounded(parents, i as usize)
        }),
{
    let parents = parents_of(nodes);
    lemma_parents_graph(nodes);
    lemma_omission_lists(parents);
    let a = orphaned_nodes(parents);
    let b = cyclic_nodes(parents);
    let c = cut_off_nodes(parents);
    let all = omitted_nodes(parents);
    assert(omission_reports(nodes)[j].node_id == Some(nodes[all[j] as int].id));
    let x = all[j];
    if j < a.len() {
        assert(a.contains(a[j]));
    } else if j < a.len() + b.len() {
        assert(b.contains(b[j - a.len()]));
        lemma_entry_on_cycle(parents, x);
    } else {
        assert(c.contains(c[j - a.len() - b.len()]));
    }
    lemma_number_of(nodes, x as int);
    lemma_number_of(nodes, i);
    lemma_one_end(parents, x);
    if on_cycle(parents, x) {
        lemma_entry_on_cycle(parents, x);
    }
}

/// Of two reports, the earlier one is about a node whose parents lead to a
/// missing one if the later one is; and a report on a cycle stands before every
/// one on what descends from a cycle.
pub proof fn law_omission_reports_come_in_order(
    nodes: Seq<NodeModel>,
    j: int,
    i: int,
    k: int,
    m: int,
)
    requires
        nodes.len() <= 10_000,
        distinct_ids(nodes),
        0 <= j < k < omission_reports(nodes).len(),
        0 <= i < nodes.len(),
        0 <= m < nodes.len(),
        omission_reports(nodes)[j].node_id == Some(nodes[i].id),
        omission_reports(nodes)[k].node_id == Some(nodes[m].id),
    ensures
        lost(parents_of(nodes), m as usize) ==> lost(parents_of(nodes), i as usize),
        on_cycle(parents_of(nodes), m as usize) ==> lost(parents_of(nodes), i as usize) || on_cycle(
            parents_of(nodes),
            i as usize,
        ),
{
    lemma_reported(nodes, j, i);
    lemma_reported(nodes, k, m);
}

} // verus!
