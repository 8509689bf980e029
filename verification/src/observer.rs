//! Read-only observation of a window's accessibility tree.
//!
//! Every drawn frame is counted. Its tree is translated into the bridge's
//! nodes and published where the window reports a change, or where the
//! published tree may predate the frame.

use vstd::prelude::*;

use crate::access::{
    is_redacted, is_text_role, label_from_content, node_actions, parse_color, protocol_role,
    push_action, Toggled,
};
#[allow(unused_imports)]
use crate::access::{
    color, content_label, node_action_list, redacted, role_word, textual, with_action, AccessNode,
};
use crate::ancestry::{discard_parent_cycles, Parent};
#[allow(unused_imports)]
use crate::ancestry::{
    climb, ends_at, grounded, hits, leads, lemma_climb_bounded, lemma_entry_on_cycle,
    lemma_every_end, lemma_live_none, lemma_one_end, lost, none_omitted,
};
#[allow(unused_imports)]
use crate::content::{contents_of, hidden_above, option_views};
#[allow(unused_imports)]
use crate::identity::{acyclic, identities_of, lineage, views};
use crate::model::Modelled;
#[allow(unused_imports)]
use crate::model::lemma_deep_view_push;
use crate::number::Single;
use crate::protocol::{Highlight, NodeAction, NodeState, Rect, TextInfo, UiNode, ValueInfo};
#[allow(unused_imports)]
use crate::protocol::{NodeModel, TextModel, ValueModel};
use crate::registry::SharedState;
#[allow(unused_imports)]
use crate::registry::{
    announced, counted_frame, frame_finished, later, observed_frame, painted, with_geometry,
    StateModel,
};
use crate::string_map::StringMap;
#[allow(unused_imports)]
use crate::text::decimal;
use crate::text::to_decimal;
#[allow(unused_imports)]
use crate::tree::{law_order_is_complete, order_of, place_of, placed, shape_of, Shape};
use crate::tree::{FrameTree, RawNode, TreeUpdate};

verus! {

// ---------------------------------------------------------------------------
// One node
// ---------------------------------------------------------------------------
/// What the whole tree says about a node.
pub struct PublishedNode {
    pub identity: String,
    pub parent: Option<String>,
    pub content: Option<String>,
    pub hidden: bool,
    pub focused: bool,
}

pub struct PublishedModel {
    pub identity: Seq<char>,
    pub parent: Option<Seq<char>>,
    pub content: Option<Seq<char>>,
    pub hidden: bool,
    pub focused: bool,
}

impl PublishedNode {
    pub open spec fn model(&self) -> PublishedModel {
        PublishedModel {
            identity: self.identity@,
            parent: self.parent.deep_view(),
            content: self.content.deep_view(),
            hidden: self.hidden,
            focused: self.focused,
        }
    }
}

/// The number is greater than zero.
pub open spec fn positive(number: Single) -> bool {
    !number.nan() && number.rank() > 0
}

/// Bounds that are not known, or that enclose something.
pub open spec fn has_area(bounds: Option<Rect>) -> bool {
    match bounds {
        Some(rect) => positive(rect.width) && positive(rect.height),
        None => true,
    }
}

/// The first text that is there.
pub open spec fn first_text(
    first: Option<Seq<char>>,
    second: Option<Seq<char>>,
) -> Option<Seq<char>> {
    if first is Some {
        first
    } else {
        second
    }
}

/// The text, or an empty one.
pub open spec fn or_empty(text: Option<Seq<char>>) -> Seq<char> {
    match text {
        Some(text) => text,
        None => Seq::empty(),
    }
}

/// A node's text: its value, or else its content; nothing where it is secret.
pub open spec fn text_value(node: AccessNode, content: Option<Seq<char>>) -> Option<Seq<char>> {
    if redacted(node.role) {
        None
    } else {
        first_text(node.value.deep_view(), content)
    }
}

pub open spec fn label_of(node: AccessNode, content: Option<Seq<char>>) -> Option<Seq<char>> {
    first_text(node.label.deep_view(), content_label(node.role, or_empty(content)))
}

pub open spec fn text_of(node: AccessNode, content: Option<Seq<char>>) -> Option<TextModel> {
    if textual(node.role) {
        Some(
            TextModel {
                text: or_empty(text_value(node, content)),
                caret: None,
                selection: None,
                redacted: redacted(node.role),
            },
        )
    } else {
        None
    }
}

pub open spec fn value_of(node: AccessNode, content: Option<Seq<char>>) -> Option<ValueModel> {
    if !redacted(node.role) && (node.numeric_value is Some || node.value is Some) {
        Some(
            ValueModel {
                value: or_empty(
                    first_text(node.numeric_value.deep_view(), text_value(node, content)),
                ),
                min: node.min_numeric_value.deep_view(),
                max: node.max_numeric_value.deep_view(),
                step: node.numeric_value_step.deep_view(),
            },
        )
    } else {
        None
    }
}

/// An action that enters text.
pub open spec fn enters_text(action: NodeAction) -> bool {
    action == NodeAction::SetText || action == NodeAction::SetValue
}

/// The advertised actions, then those of the pointer; none that enters text
/// where the value is secret.
pub open spec fn actions_of(raw: RawNode) -> Seq<NodeAction> {
    let advertised = node_action_list(raw.node.role, raw.node.actions);
    let hovered = with_action(advertised, raw.lookup.pointer.hover, NodeAction::Hover);
    let dragged = with_action(hovered, raw.lookup.pointer.drag, NodeAction::Drag);
    let all = with_action(dragged, raw.lookup.pointer.scroll, NodeAction::Scroll);
    if redacted(raw.node.role) {
        all.filter(|action: NodeAction| !enters_text(action))
    } else {
        all
    }
}

/// Whether a toggled element is on, where that can be said.
pub open spec fn checked_of(toggled: Option<Toggled>) -> Option<bool> {
    match toggled {
        Some(Toggled::True) => Some(true),
        Some(Toggled::False) => Some(false),
        _ => None,
    }
}

/// The bridge's node for an accessible element.
pub open spec fn node_of(raw: RawNode, published: PublishedModel) -> NodeModel {
    NodeModel {
        id: published.identity,
        parent: published.parent,
        children: Seq::empty(),
        role: role_word(raw.node.role),
        label: label_of(raw.node, published.content),
        description: raw.node.description.deep_view(),
        bounds: raw.lookup.bounds.deep_view(),
        state: NodeState {
            visible: !published.hidden && has_area(raw.lookup.bounds),
            enabled: !raw.node.disabled,
            focused: published.focused,
            checked: checked_of(raw.node.toggled),
            selected: raw.node.selected,
            expanded: raw.node.expanded,
        },
        actions: actions_of(raw),
        text: text_of(raw.node, published.content),
        value: value_of(raw.node, published.content),
        metadata: Map::empty().insert("accesskit_id"@, decimal(raw.id as nat)),
    }
}

fn text_or_empty(text: Option<String>) -> (out: String)
    ensures
        out@ == or_empty(text.deep_view()),
{
    match text {
        Some(text) => text,
        None => {
            let none = String::new();
            assert(none@ =~= Seq::<char>::empty());
            none
        },
    }
}

fn choose_text(first: &Option<String>, second: &Option<String>) -> (text: Option<String>)
    ensures
        text.deep_view() == first_text(first.deep_view(), second.deep_view()),
{
    match first {
        Some(text) => Some(text.clone()),
        None => second.duplicate(),
    }
}

fn encloses(bounds: &Option<Rect>) -> (answer: bool)
    ensures
        answer == has_area(*bounds),
{
    match bounds {
        Some(rect) => rect.width.is_positive() && rect.height.is_positive(),
        None => true,
    }
}

/// The actions that do not enter text.
fn without_text_entry(actions: Vec<NodeAction>) -> (kept: Vec<NodeAction>)
    ensures
        kept@ == actions@.filter(|action: NodeAction| !enters_text(action)),
{
    let ghost keep = |action: NodeAction| !enters_text(action);
    let mut kept: Vec<NodeAction> = Vec::new();
    let mut i: usize = 0;
    proof {
        reveal(Seq::filter);
        assert(actions@.take(0).filter(keep) =~= Seq::empty());
    }
    while i < actions.len()
        invariant
            i <= actions@.len(),
            keep == (|action: NodeAction| !enters_text(action)),
            kept@ == actions@.take(i as int).filter(keep),
        decreases actions@.len() - i,
    {
        proof {
            reveal(Seq::filter);
            assert(actions@.take(i + 1).drop_last() =~= actions@.take(i as int));
            assert(actions@.take(i + 1).last() == actions@[i as int]);
        }
        let action = actions[i];
        if action != NodeAction::SetText && action != NodeAction::SetValue {
            kept.push(action);
        }
        i += 1;
    }
    assert(actions@.take(i as int) =~= actions@);
    kept
}

fn offered_actions(raw: &RawNode) -> (actions: Vec<NodeAction>)
    ensures
        actions@ == actions_of(*raw),
{
    let mut actions = node_actions(&raw.node);
    push_action(&mut actions, raw.lookup.pointer.hover, NodeAction::Hover);
    push_action(&mut actions, raw.lookup.pointer.drag, NodeAction::Drag);
    push_action(&mut actions, raw.lookup.pointer.scroll, NodeAction::Scroll);
    if is_redacted(raw.node.role) {
        without_text_entry(actions)
    } else {
        actions
    }
}

/// The node holds the element's own numbers, signs of zeros included.
pub open spec fn keeps_numbers(node: UiNode, raw: RawNode) -> bool {
    &&& node.bounds == raw.lookup.bounds
    &&& node.value matches Some(value) ==> {
        &&& value.min == raw.node.min_numeric_value
        &&& value.max == raw.node.max_numeric_value
        &&& value.step == raw.node.numeric_value_step
    }
}

/// Build one bridge node from its own semantics and its tree context.
pub fn to_ui_node(raw: &RawNode, published: PublishedNode) -> (node: UiNode)
    ensures
        node.deep_view() == node_of(*raw, published.model()),
        keeps_numbers(node, *raw),
{
    let access = &raw.node;
    let role = access.role;
    let secret = is_redacted(role);
    let content_text = text_or_empty(published.content.duplicate());
    let label = choose_text(&access.label, &label_from_content(role, content_text.as_str()));
    let value_text = if secret {
        None
    } else {
        choose_text(&access.value, &published.content)
    };
    let text = if is_text_role(role) {
        Some(
            TextInfo {
                text: text_or_empty(value_text.duplicate()),
                caret: None,
                selection: None,
                redacted: secret,
            },
        )
    } else {
        None
    };
    let value = if !secret && (access.numeric_value.is_some() || access.value.is_some()) {
        Some(
            ValueInfo {
                value: text_or_empty(choose_text(&access.numeric_value, &value_text)),
                min: access.min_numeric_value,
                max: access.max_numeric_value,
                step: access.numeric_value_step,
            },
        )
    } else {
        None
    };
    let mut metadata: StringMap<String> = StringMap::new();
    metadata.insert("accesskit_id".to_owned(), to_decimal(raw.id));
    let node = UiNode {
        id: published.identity,
        parent: published.parent,
        children: Vec::new(),
        role: protocol_role(role),
        label,
        description: access.description.duplicate(),
        bounds: raw.lookup.bounds,
        state: NodeState {
            visible: !published.hidden && encloses(&raw.lookup.bounds),
            enabled: !access.disabled,
            focused: published.focused,
            checked: match access.toggled {
                Some(Toggled::True) => Some(true),
                Some(Toggled::False) => Some(false),
                _ => None,
            },
            selected: access.selected,
            expanded: access.expanded,
        },
        actions: offered_actions(raw),
        text,
        value,
        metadata,
    };
    proof {
        let model = node_of(*raw, published.model());
        assert(node.children.deep_view() =~= Seq::<Seq<char>>::empty());
        assert(node.actions.deep_view() =~= node.actions@);
        assert(node.label.deep_view() == model.label);
        assert(node.text.deep_view() == model.text);
        assert(node.value.deep_view() == model.value);
        assert(node.metadata.deep_view() == model.metadata);
        assert(node.state == model.state);
    }
    node
}

// ---------------------------------------------------------------------------
// One frame
// ---------------------------------------------------------------------------
/// The identity of the parent of a place; the host is never published, so a
/// child of it is a root.
pub open spec fn parent_identity(shape: Shape, i: int) -> Option<Seq<char>> {
    match shape.parent[i] {
        Some(above) => if shape.host == Some(above) {
            None
        } else {
            Some(identities_of(shape)[above as int])
        },
        None => None,
    }
}

/// What the whole tree says about the node at a place.
pub open spec fn published_at(
    nodes: Seq<RawNode>,
    shape: Shape,
    focus: Option<u64>,
    i: usize,
) -> PublishedModel {
    PublishedModel {
        identity: identities_of(shape)[i as int],
        parent: parent_identity(shape, i as int),
        content: contents_of(nodes, shape)[i as int],
        hidden: hidden_above(nodes, shape, i),
        focused: match focus {
            Some(id) => place_of(nodes, id) == Some(i),
            None => false,
        },
    }
}

/// The bridge's nodes for a tree of this shape, in order.
pub open spec fn nodes_in_order(
    nodes: Seq<RawNode>,
    shape: Shape,
    focus: Option<u64>,
) -> Seq<NodeModel> {
    Seq::new(
        order_of(shape).len(),
        |k: int|
            node_of(
                nodes[order_of(shape)[k] as int],
                published_at(nodes, shape, focus, order_of(shape)[k]),
            ),
    )
}

/// The bridge's nodes for a finalized accessibility tree.
pub open spec fn frame_of(
    nodes: Seq<RawNode>,
    root: Option<u64>,
    focus: Option<u64>,
) -> Seq<NodeModel> {
    nodes_in_order(nodes, shape_of(nodes, root), focus)
}

fn same_place(focus: Option<usize>, place: usize) -> (same: bool)
    ensures
        same == (focus == Some(place)),
{
    match focus {
        Some(other) => other == place,
        None => false,
    }
}

fn tree_nodes(tree: &FrameTree, gpui_focus: Option<u64>) -> (nodes: Vec<UiNode>)
    requires
        tree.wf(),
        acyclic(tree.shape()),
    ensures
        nodes.deep_view() == nodes_in_order(tree.nodes@, tree.shape(), gpui_focus),
        forall|k: int|
            0 <= k < nodes@.len() ==> keeps_numbers(
                #[trigger] nodes@[k],
                tree.nodes@[order_of(tree.shape())[k] as int],
            ),
{
    let ghost shape = tree.shape();
    let focus = match gpui_focus {
        Some(id) => tree.place(id),
        None => None,
    };
    let order = tree.depth_first_order();
    proof {
        law_order_is_complete(shape);
        assert forall|k: int| 0 <= k < order@.len() implies #[trigger] order@[k]
            < tree.nodes@.len() by {
            assert(order@[k] < shape.children.len());
        }
    }
    let identities = tree.assign_identities(&order);
    let contents = tree.content_texts(&order);
    let hidden = tree.hidden_nodes();
    let ghost expected = nodes_in_order(tree.nodes@, shape, gpui_focus);
    let mut nodes: Vec<UiNode> = Vec::new();
    let mut k: usize = 0;
    assert(nodes.deep_view() =~= expected.take(0));
    while k < order.len()
        invariant
            tree.wf(),
            shape == tree.shape(),
            order@ == order_of(shape),
            placed(tree.nodes@.len(), order@),
            views(identities@) == identities_of(shape),
            identities@.len() == tree.nodes@.len(),
            option_views(contents@) == contents_of(tree.nodes@, shape),
            contents@.len() == tree.nodes@.len(),
            hidden@.len() == tree.nodes@.len(),
            forall|i: usize|
                i < tree.nodes@.len() ==> #[trigger] hidden@[i as int] == hidden_above(
                    tree.nodes@,
                    shape,
                    i,
                ),
            focus == (match gpui_focus {
                Some(id) => place_of(tree.nodes@, id),
                None => None,
            }),
            expected == nodes_in_order(tree.nodes@, shape, gpui_focus),
            k <= order@.len(),
            nodes.deep_view() == expected.take(k as int),
            nodes@.len() == k,
            forall|j: int|
                0 <= j < k ==> keeps_numbers(#[trigger] nodes@[j], tree.nodes@[order@[j] as int]),
        decreases order@.len() - k,
    {
        let index = order[k];
        assert(order@[k as int] < tree.nodes@.len());
        assert(match shape.parent[index as int] {
            Some(p) => p < shape.ids.len(),
            None => true,
        });
        let parent = match tree.parent[index] {
            Some(above) => if same_place(tree.host, above) {
                None
            } else {
                Some(identities[above].clone())
            },
            None => None,
        };
        let published = PublishedNode {
            identity: identities[index].clone(),
            parent,
            content: contents[index].duplicate(),
            hidden: hidden[index],
            focused: same_place(focus, index),
        };
        proof {
            assert(views(identities@)[index as int] == identities@[index as int]@);
            assert(option_views(contents@)[index as int] == contents@[index as int].deep_view());
            if let Some(above) = shape.parent[index as int] {
                assert(views(identities@)[above as int] == identities@[above as int]@);
            }
            assert(published.model() == published_at(tree.nodes@, shape, gpui_focus, index));
        }
        let node = to_ui_node(&tree.nodes[index], published);
        let ghost before = nodes@;
        nodes.push(node);
        proof {
            lemma_deep_view_push(before, node, nodes@);
            assert(node.deep_view() == expected[k as int]);
            assert(expected.take(k + 1) =~= expected.take(k as int).push(expected[k as int]));
        }
        k += 1;
    }
    assert(expected.take(k as int) =~= expected);
    nodes
}

/// Translate one finalized accessibility tree into bridge nodes.
///
/// The tree's root is not published when it carries no element identity: it
/// is the window's own node, and its children are the application's roots.
/// Each published node also carries its number as `metadata["accesskit_id"]`
/// so focus requests can resolve a handle.
pub fn frame_nodes(update: TreeUpdate, gpui_focus: Option<u64>) -> (nodes: Vec<UiNode>)
    requires
        acyclic(shape_of(update.nodes@, update.root)),
    ensures
        nodes.deep_view() == frame_of(update.nodes@, update.root, gpui_focus),
        forall|k: int|
            0 <= k < nodes@.len() ==> keeps_numbers(
                #[trigger] nodes@[k],
                update.nodes@[order_of(shape_of(update.nodes@, update.root))[k] as int],
            ),
{
    let tree = FrameTree::new(update);
    tree_nodes(&tree, gpui_focus)
}

fn lineage_of(tree: &FrameTree) -> (parents: Vec<Parent>)
    requires
        tree.wf(),
    ensures
        parents@ == lineage(tree.shape()),
{
    let ghost expected = lineage(tree.shape());
    let mut parents: Vec<Parent> = Vec::new();
    let mut i: usize = 0;
    while i < tree.parent.len()
        invariant
            tree.wf(),
            expected == lineage(tree.shape()),
            i <= tree.parent@.len(),
            parents@ == expected.take(i as int),
        decreases tree.parent@.len() - i,
    {
        let parent = if same_place(tree.host, i) {
            Parent::Root
        } else {
            match tree.parent[i] {
                Some(above) => if same_place(tree.host, above) {
                    Parent::Root
                } else {
                    Parent::Node(above)
                },
                None => Parent::Root,
            }
        };
        parents.push(parent);
        assert(parents@ =~= expected.take(i + 1));
        i += 1;
    }
    assert(parents@ =~= expected);
    parents
}

/// Whether the parents of every element lead to a root.
fn is_acyclic(tree: &FrameTree) -> (answer: bool)
    requires
        tree.wf(),
    ensures
        answer == acyclic(tree.shape()),
{
    let ghost shape = tree.shape();
    let parents = lineage_of(tree);
    let n = parents.len();
    let mut omitted: Vec<bool> = Vec::new();
    while omitted.len() < n
        invariant
            omitted@.len() <= n,
            omitted@ =~= none_omitted(omitted@.len()),
        decreases n - omitted@.len(),
    {
        omitted.push(false);
    }
    proof {
        crate::identity::lemma_lineage_graph(shape);
        assert(omitted@ == none_omitted(parents@.len()));
        lemma_live_none(parents@);
    }
    let cyclic = discard_parent_cycles(&parents, &mut omitted);
    proof {
        let all = lineage(shape);
        assert forall|i: usize| i < n implies !lost(all, i) by {
            if lost(all, i) {
                let k = choose|k: nat| ends_at(all, i, k, Parent::Missing);
                lemma_climb_bounded(all, i, k);
                let j = climb(all, i, k)->0;
                assert(all[j as int] != Parent::Missing);
            }
        }
        if cyclic@.len() == 0 {
            assert forall|i: usize| i < shape.parent.len() implies #[trigger] grounded(all, i) by {
                lemma_every_end(all, i);
                if leads(all, i) {
                    let k = choose|k: nat| hits(all, i, k);
                    lemma_climb_bounded(all, i, k);
                    assert(cyclic@.contains(climb(all, i, k)->0));
                }
            }
        } else {
            let i = cyclic@[0];
            assert(cyclic@.contains(i));
            lemma_entry_on_cycle(all, i);
            lemma_one_end(all, i);
            assert(!grounded(all, i));
        }
    }
    cyclic.len() == 0
}

/// Translate a tree, unless some element is its own ancestor.
pub fn checked_frame_nodes(update: TreeUpdate, gpui_focus: Option<u64>) -> (nodes: Option<
    Vec<UiNode>,
>)
    ensures
        match nodes {
            Some(nodes) => {
                &&& acyclic(shape_of(update.nodes@, update.root))
                &&& nodes.deep_view() == frame_of(update.nodes@, update.root, gpui_focus)
                &&& forall|k: int|
                    0 <= k < nodes@.len() ==> keeps_numbers(
                        #[trigger] nodes@[k],
                        update.nodes@[order_of(shape_of(update.nodes@, update.root))[k] as int],
                    )
            },
            None => !acyclic(shape_of(update.nodes@, update.root)),
        },
{
    let tree = FrameTree::new(update);
    if is_acyclic(&tree) {
        Some(tree_nodes(&tree, gpui_focus))
    } else {
        None
    }
}

// ---------------------------------------------------------------------------
// Every frame
// ---------------------------------------------------------------------------
/// What a window reports when it has drawn a frame.
pub struct DrawnFrame {
    pub content_bounds: Rect,
    pub scale_factor: Single,
    /// The frame's accessibility tree, where one was built.
    pub tree: Option<TreeUpdate>,
    /// Whether tree, focus, or interactions differ from the previous frame's.
    pub changed: bool,
    /// The number of the focused element.
    pub gpui_focus: Option<u64>,
    /// When the frame began.
    pub began: u64,
    /// How long its prepaint took.
    pub prepaint: u64,
    /// How long its paint took.
    pub paint: u64,
}

/// Publishes drawn frames to the shared state.
pub struct BridgeObserver {
    /// The next frame that carries a tree is published even if it is reported
    /// unchanged, because the published tree may predate it.
    stale: bool,
}

/// The frame's tree is to be published.
pub open spec fn publishes(stale: bool, frame: DrawnFrame) -> bool {
    match frame.tree {
        Some(tree) => (frame.changed || stale) && acyclic(shape_of(tree.nodes@, tree.root)),
        None => false,
    }
}

/// The published tree may predate the next frame once the window builds its tree
/// or stops building it: building it anew makes it so.
pub open spec fn stale_once_observed(stale: bool, was_observed: bool, observed: bool) -> bool {
    stale || (observed && !was_observed)
}

/// The published tree may still predate the next frame once `frame` is drawn.
pub open spec fn stale_once_drawn(stale: bool, frame: DrawnFrame) -> bool {
    stale && frame.tree is None
}

/// The state with the frame recorded, before it is published.
pub open spec fn with_drawn_nodes(state: StateModel, frame: DrawnFrame) -> StateModel {
    let tree = frame.tree->0;
    observed_frame(
        with_geometry(state, frame.content_bounds, frame.scale_factor),
        frame_of(tree.nodes@, tree.root, frame.gpui_focus),
        frame.began,
        frame.prepaint,
    )
}

/// The state once a drawn frame is observed: counted in any case, and
/// published where it is to be.
pub open spec fn with_drawn_frame(state: StateModel, stale: bool, frame: DrawnFrame) -> StateModel {
    let prepainted = later(frame.began, frame.prepaint);
    if publishes(stale, frame) {
        painted(frame_finished(with_drawn_nodes(state, frame)), prepainted, frame.paint)
    } else {
        painted(
            counted_frame(
                with_geometry(state, frame.content_bounds, frame.scale_factor),
                frame.began,
                frame.prepaint,
            ),
            prepainted,
            frame.paint,
        )
    }
}

impl BridgeObserver {
    /// The published tree may predate the next frame.
    pub closed spec fn is_stale(&self) -> bool {
        self.stale
    }

    pub fn new() -> (observer: Self)
        ensures
            observer.is_stale(),
    {
        BridgeObserver { stale: true }
    }

    /// The window starts or stops building its tree.
    pub fn set_observed(&mut self, was_observed: bool, observed: bool)
        ensures
            final(self).is_stale() == stale_once_observed(
                old(self).is_stale(),
                was_observed,
                observed,
            ),
    {
        if observed && !was_observed {
            self.stale = true;
        }
    }

    /// Observe a drawn frame: the generation to announce, if the tree changed.
    pub fn frame_finished(&mut self, state: &mut SharedState, frame: DrawnFrame) -> (generation:
        Option<u64>)
        requires
            old(state).wf(),
        ensures
            final(state).wf(),
            final(state).model() == with_drawn_frame(
                old(state).model(),
                old(self).is_stale(),
                frame,
            ),
            final(self).is_stale() == stale_once_drawn(old(self).is_stale(), frame),
            generation == (if publishes(old(self).is_stale(), frame) {
                announced(with_drawn_nodes(old(state).model(), frame))
            } else {
                None
            }),
    {
        state.set_window_geometry(frame.content_bounds, frame.scale_factor);
        let mut nodes: Option<Vec<UiNode>> = None;
        if let Some(tree) = frame.tree {
            let republish = self.stale;
            self.stale = false;
            if frame.changed || republish {
                nodes = checked_frame_nodes(tree, frame.gpui_focus);
            }
        }
        match nodes {
            Some(nodes) => state.complete_published_frame(
                nodes,
                frame.began,
                frame.prepaint,
                frame.paint,
            ),
            None => {
                state.complete_frame(frame.began, frame.prepaint, frame.paint);
                None
            },
        }
    }
}

// ---------------------------------------------------------------------------
// Highlights
// ---------------------------------------------------------------------------
/// A solid outline to paint over the window, in a `0xRRGGBBAA` color.
#[derive(Clone, Copy, Debug, PartialEq)]
pub struct Outline {
    pub rect: Rect,
    pub color: u32,
}

/// The outlines of the highlights whose color can be read, in order.
pub open spec fn outlines_of(highlights: Seq<Highlight>) -> Seq<Outline>
    decreases highlights.len(),
{
    if highlights.len() == 0 {
        Seq::empty()
    } else {
        let before = outlines_of(highlights.drop_last());
        match color(highlights.last().color@) {
            Some(value) => before.push(
                Outline { rect: highlights.last().rect, color: value as u32 },
            ),
            None => before,
        }
    }
}

/// What to paint for the current highlight set; a highlight whose color cannot
/// be read is not painted.
pub fn paint_overlay(highlights: &Vec<Highlight>) -> (outlines: Vec<Outline>)
    ensures
        outlines@ == outlines_of(highlights@),
{
    let mut outlines: Vec<Outline> = Vec::new();
    let mut i: usize = 0;
    assert(highlights@.take(0) =~= Seq::empty());
    while i < highlights.len()
        invariant
            i <= highlights@.len(),
            outlines@ == outlines_of(highlights@.take(i as int)),
        decreases highlights@.len() - i,
    {
        proof {
            assert(highlights@.take(i + 1).drop_last() =~= highlights@.take(i as int));
            assert(highlights@.take(i + 1).last() == highlights@[i as int]);
        }
        if let Some(value) = parse_color(highlights[i].color.as_str()) {
            outlines.push(Outline { rect: highlights[i].rect, color: value });
        }
        i += 1;
    }
    assert(highlights@.take(i as int) =~= highlights@);
    outlines
}

} // verus!
