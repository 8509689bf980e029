//! Laws of observation: what stays secret, what is hidden, what nodes say, and
//! how they hang together.

use vstd::prelude::*;

#[allow(unused_imports)]
use crate::access::redacted;
#[allow(unused_imports)]
use crate::ancestry::{climb, ends_at, grounded, lemma_climb_bounded, lemma_no_omissions, Parent};
#[allow(unused_imports)]
use crate::content::{
    child_words, children_words, contents_along, contents_of, contents_within, hidden_above,
    hidden_at, lemma_contents_along, lemma_settled_content, settled, settled_contents,
    text_of_words,
};
#[allow(unused_imports)]
use crate::frame::{
    begun, distinct_ids, finished, has_id, left_out, omission_reports, parents_of, published_node,
    recorded_all, PendingModel,
};
#[allow(unused_imports)]
use crate::identity::{
    acyclic, identities_of, law_identities_are_unique, lemma_lineage_graph, lineage,
};
#[allow(unused_imports)]
use crate::observer::{
    actions_of, enters_text, frame_of, has_area, node_of, published_at, publishes, stale_once_drawn,
    stale_once_observed, with_drawn_frame, with_drawn_nodes, DrawnFrame, PublishedModel,
};
#[allow(unused_imports)]
use crate::protocol::{DiagnosticModel, NodeModel, TextModel, WindowGeometry, MAX_TREE_NODES};
#[allow(unused_imports)]
use crate::registry::{announced, counted, lemma_recording_stays_active, StateModel};
#[allow(unused_imports)]
use crate::shape_laws::{law_listers_are_parents, law_numbers_find_their_elements};
#[allow(unused_imports)]
use crate::timing::{stats, with_sample};
#[allow(unused_imports)]
use crate::tree::{
    all_placed, children_of, law_order_is_complete, lemma_valid_placed, order_of, own_name,
    place_of, placed, places_of, shape_of, valid_shape, RawNode, Shape,
};
#[allow(unused_imports)]
use crate::tree_laws::{law_trees_settle, treelike};
#[allow(unused_imports)]
use crate::validation::node_fault;

verus! {

// ---------------------------------------------------------------------------
// Secrets
// ---------------------------------------------------------------------------
/// The two elements differ in nothing but a secret value.
pub open spec fn agree(a: RawNode, b: RawNode) -> bool {
    &&& a.id == b.id
    &&& own_name(a) == own_name(b)
    &&& a.lookup.element_id is None == b.lookup.element_id is None
    &&& a.lookup.bounds == b.lookup.bounds
    &&& a.lookup.pointer == b.lookup.pointer
    &&& a.node.role == b.node.role
    &&& a.node.label.deep_view() == b.node.label.deep_view()
    &&& a.node.description.deep_view() == b.node.description.deep_view()
    &&& a.node.children@ == b.node.children@
    &&& a.node.hidden == b.node.hidden
    &&& a.node.disabled == b.node.disabled
    &&& a.node.toggled == b.node.toggled
    &&& a.node.selected == b.node.selected
    &&& a.node.expanded == b.node.expanded
    &&& a.node.actions == b.node.actions
    &&& redacted(a.node.role) || {
        &&& a.node.value.deep_view() == b.node.value.deep_view()
        &&& a.node.numeric_value.deep_view() == b.node.numeric_value.deep_view()
        &&& a.node.min_numeric_value.deep_view() == b.node.min_numeric_value.deep_view()
        &&& a.node.max_numeric_value.deep_view() == b.node.max_numeric_value.deep_view()
        &&& a.node.numeric_value_step.deep_view() == b.node.numeric_value_step.deep_view()
    }
}

pub open spec fn all_agree(a: Seq<RawNode>, b: Seq<RawNode>) -> bool {
    a.len() == b.len() && forall|i: int| 0 <= i < a.len() ==> agree(#[trigger] a[i], b[i])
}

proof fn lemma_same_place(a: Seq<RawNode>, b: Seq<RawNode>, id: u64)
    requires
        all_agree(a, b),
    ensures
        place_of(a, id) == place_of(b, id),
    decreases a.len(),
{
    if a.len() > 0 {
        assert(agree(a[a.len() - 1], b[b.len() - 1]));
        assert forall|i: int| 0 <= i < a.drop_last().len() implies agree(
            #[trigger] a.drop_last()[i],
            b.drop_last()[i],
        ) by {
            assert(agree(a[i], b[i]));
        }
        lemma_same_place(a.drop_last(), b.drop_last(), id);
    }
}

proof fn lemma_same_places(a: Seq<RawNode>, b: Seq<RawNode>, ids: Seq<u64>)
    requires
        all_agree(a, b),
    ensures
        places_of(a, ids) == places_of(b, ids),
    decreases ids.len(),
{
    if ids.len() > 0 {
        lemma_same_places(a, b, ids.drop_last());
        lemma_same_place(a, b, ids.last());
    }
}

proof fn lemma_same_shape(a: Seq<RawNode>, b: Seq<RawNode>, root: Option<u64>)
    requires
        all_agree(a, b),
        a.len() <= usize::MAX,
    ensures
        shape_of(a, root) == shape_of(b, root),
{
    let left = shape_of(a, root);
    let right = shape_of(b, root);
    assert forall|i: int| 0 <= i < a.len() implies children_of(a)[i] == children_of(b)[i] by {
        assert(agree(a[i], b[i]));
        lemma_same_places(a, b, a[i].node.children@);
    }
    assert(children_of(a) =~= children_of(b));
    assert(left.ids =~= right.ids) by {
        assert forall|i: int| 0 <= i < a.len() implies left.ids[i] == right.ids[i] by {
            assert(agree(a[i], b[i]));
        }
    }
    assert(left.names =~= right.names) by {
        assert forall|i: int| 0 <= i < a.len() implies left.names[i] == right.names[i] by {
            assert(agree(a[i], b[i]));
        }
    }
    assert(left.parent =~= right.parent);
    if let Some(id) = root {
        lemma_same_place(a, b, id);
        crate::tree::lemma_place_of(a, id);
        if let Some(place) = place_of(a, id) {
            assert(agree(a[place as int], b[place as int]));
        }
    }
}

proof fn lemma_same_words(
    a: Seq<RawNode>,
    b: Seq<RawNode>,
    children: Seq<usize>,
    contents: Seq<Option<Seq<char>>>,
)
    requires
        all_agree(a, b),
        placed(a.len(), children),
    ensures
        children_words(a, children, contents) == children_words(b, children, contents),
    decreases children.len(),
{
    if children.len() > 0 {
        let last = children[children.len() - 1] as int;
        assert(last < a.len());
        assert(agree(a[last], b[last]));
        assert(placed(a.len(), children.drop_last())) by {
            assert forall|i: int| 0 <= i < children.drop_last().len() implies
                #[trigger] children.drop_last()[i] < a.len() by {
                assert(children.drop_last()[i] == children[i]);
            }
        }
        lemma_same_words(a, b, children.drop_last(), contents);
        assert(child_words(a[last], contents[last]) == child_words(b[last], contents[last]));
    }
}

proof fn lemma_same_within(
    a: Seq<RawNode>,
    b: Seq<RawNode>,
    children: Seq<Seq<usize>>,
    host: Option<usize>,
    k: nat,
)
    requires
        all_agree(a, b),
        children.len() == a.len(),
        all_placed(children),
    ensures
        contents_within(a, children, host, k) == contents_within(b, children, host, k),
    decreases k,
{
    let left = contents_within(a, children, host, k);
    let right = contents_within(b, children, host, k);
    if k > 0 {
        lemma_same_within(a, b, children, host, (k - 1) as nat);
        let below = contents_within(a, children, host, (k - 1) as nat);
        assert forall|i: int| 0 <= i < a.len() implies left[i] == right[i] by {
            assert(placed(children.len(), children[i]));
            lemma_same_words(a, b, children[i], below);
        }
    }
    assert(left =~= right);
}

proof fn lemma_same_contents(
    a: Seq<RawNode>,
    b: Seq<RawNode>,
    children: Seq<Seq<usize>>,
    host: Option<usize>,
    order: Seq<usize>,
)
    requires
        all_agree(a, b),
        children.len() == a.len(),
        all_placed(children),
        placed(a.len(), order),
    ensures
        contents_along(a, children, host, order) == contents_along(b, children, host, order),
    decreases order.len(),
{
    if order.len() > 0 {
        let place = order[0] as int;
        assert(placed(a.len(), order.drop_first())) by {
            assert forall|i: int| 0 <= i < order.drop_first().len() implies
                #[trigger] order.drop_first()[i] < a.len() by {
                assert(order.drop_first()[i] == order[i + 1]);
            }
        }
        lemma_same_contents(a, b, children, host, order.drop_first());
        let behind = contents_along(a, children, host, order.drop_first());
        assert(place < children.len());
        assert(placed(children.len(), children[place]));
        lemma_same_words(a, b, children[place], behind);
    } else {
        lemma_same_within(a, b, children, host, children.len());
        assert(settled_contents(a, children, host) =~= settled_contents(b, children, host));
    }
}

proof fn lemma_same_hidden(a: Seq<RawNode>, b: Seq<RawNode>, shape: Shape, i: usize)
    requires
        all_agree(a, b),
        valid_shape(shape),
        shape.ids.len() == a.len(),
        i < a.len(),
    ensures
        hidden_above(a, shape, i) == hidden_above(b, shape, i),
{
    lemma_lineage_graph(shape);
    assert forall|k: nat| hidden_at(a, shape, i, k) == hidden_at(b, shape, i, k) by {
        lemma_climb_bounded(lineage(shape), i, k);
        if let Some(above) = climb(lineage(shape), i, k) {
            assert(agree(a[above as int], b[above as int]));
        }
    }
    if hidden_above(a, shape, i) {
        let k = choose|k: nat| hidden_at(a, shape, i, k);
        assert(hidden_at(b, shape, i, k));
    }
    if hidden_above(b, shape, i) {
        let k = choose|k: nat| hidden_at(b, shape, i, k);
        assert(hidden_at(a, shape, i, k));
    }
}

/// What is published does not depend on any secret: trees that differ in
/// nothing but the values of secret elements are published as the same nodes.
pub proof fn law_secrets_stay_secret(
    a: Seq<RawNode>,
    b: Seq<RawNode>,
    root: Option<u64>,
    focus: Option<u64>,
)
    requires
        all_agree(a, b),
        a.len() <= usize::MAX,
    ensures
        frame_of(a, root, focus) == frame_of(b, root, focus),
{
    lemma_same_shape(a, b, root);
    let shape = shape_of(a, root);
    let order = order_of(shape);
    crate::tree::lemma_shape_valid(a, root);
    lemma_valid_placed(shape);
    law_order_is_complete(shape);
    assert(placed(a.len(), order)) by {
        assert forall|i: int| 0 <= i < order.len() implies #[trigger] order[i] < a.len() by {
            assert(order[i] < shape.children.len());
        }
    }
    lemma_same_contents(a, b, shape.children, shape.host, order);
    if let Some(id) = focus {
        lemma_same_place(a, b, id);
    }
    let left = frame_of(a, root, focus);
    let right = frame_of(b, root, focus);
    assert forall|k: int| 0 <= k < left.len() implies left[k] == right[k] by {
        let i = order[k];
        assert(i < a.len());
        assert(agree(a[i as int], b[i as int]));
        lemma_same_hidden(a, b, shape, i);
        assert(published_at(a, shape, focus, i) == published_at(b, shape, focus, i));
        lemma_same_node(a[i as int], b[i as int], published_at(a, shape, focus, i));
    }
    assert(left =~= right);
}

proof fn lemma_same_node(a: RawNode, b: RawNode, published: PublishedModel)
    requires
        agree(a, b),
    ensures
        node_of(a, published) == node_of(b, published),
{
    assert(actions_of(a) == actions_of(b));
    if redacted(a.node.role) {
        assert(node_of(a, published).text == node_of(b, published).text);
        assert(node_of(a, published).value == node_of(b, published).value);
    }
}

/// A secret element is published with an empty, redacted text, without a
/// value, and without any action that enters text.
pub proof fn law_secret_elements_are_redacted(raw: RawNode, published: PublishedModel)
    requires
        redacted(raw.node.role),
    ensures
        node_of(raw, published).text == Some(
            (TextModel { text: Seq::empty(), caret: None, selection: None, redacted: true }),
        ),
        node_of(raw, published).value is None,
        forall|i: int|
            0 <= i < node_of(raw, published).actions.len() ==> !enters_text(
                #[trigger] node_of(raw, published).actions[i],
            ),
{
    let keep = |action: crate::protocol::NodeAction| !enters_text(action);
    let advertised = crate::access::node_action_list(raw.node.role, raw.node.actions);
    let hovered = crate::access::with_action(
        advertised,
        raw.lookup.pointer.hover,
        crate::protocol::NodeAction::Hover,
    );
    let dragged = crate::access::with_action(
        hovered,
        raw.lookup.pointer.drag,
        crate::protocol::NodeAction::Drag,
    );
    let all = crate::access::with_action(
        dragged,
        raw.lookup.pointer.scroll,
        crate::protocol::NodeAction::Scroll,
    );
    assert(actions_of(raw) == all.filter(keep));
    assert forall|i: int| 0 <= i < actions_of(raw).len() implies !enters_text(
        #[trigger] actions_of(raw)[i],
    ) by {
        all.lemma_filter_pred(keep, i);
        assert(keep(all.filter(keep)[i]));
    }
}

// ---------------------------------------------------------------------------
// Hidden nodes
// ---------------------------------------------------------------------------
/// A node is visible exactly when neither it nor an ancestor is hidden and its
/// bounds, where known, are not empty.
pub proof fn law_hiding_is_inherited(
    nodes: Seq<RawNode>,
    root: Option<u64>,
    focus: Option<u64>,
    k: int,
)
    requires
        0 <= k < frame_of(nodes, root, focus).len(),
    ensures
        ({
            let shape = shape_of(nodes, root);
            let place = order_of(shape)[k];
            frame_of(nodes, root, focus)[k].state.visible <==> !hidden_above(nodes, shape, place)
                && has_area(nodes[place as int].lookup.bounds)
        }),
{
}

// ---------------------------------------------------------------------------
// Parentage
// ---------------------------------------------------------------------------
/// Every node's parent is published: it is the identity of another node.
pub proof fn law_parents_are_published(
    nodes: Seq<RawNode>,
    root: Option<u64>,
    focus: Option<u64>,
    k: int,
)
    requires
        nodes.len() <= usize::MAX,
        0 <= k < frame_of(nodes, root, focus).len(),
    ensures
        match frame_of(nodes, root, focus)[k].parent {
            Some(parent) => exists|m: int|
                0 <= m < frame_of(nodes, root, focus).len() && (#[trigger] frame_of(
                    nodes,
                    root,
                    focus,
                )[m]).id == parent,
            None => true,
        },
{
    let shape = shape_of(nodes, root);
    let frame = frame_of(nodes, root, focus);
    crate::tree::lemma_shape_valid(nodes, root);
    law_order_is_complete(shape);
    let place = order_of(shape)[k];
    assert(place < shape.children.len());
    assert(match shape.parent[place as int] {
        Some(p) => p < shape.ids.len(),
        None => true,
    });
    if let Some(parent) = frame[k].parent {
        let above = shape.parent[place as int]->0;
        assert(order_of(shape).contains(above));
        let m = order_of(shape).index_of(above);
        assert(frame[m].id == parent);
    }
}

/// Every element but the host is published, once.
pub proof fn law_every_element_is_published(
    nodes: Seq<RawNode>,
    root: Option<u64>,
    focus: Option<u64>,
    place: usize,
) -> (k: int)
    requires
        nodes.len() <= usize::MAX,
        place < nodes.len(),
        shape_of(nodes, root).host != Some(place),
    ensures
        0 <= k < frame_of(nodes, root, focus).len(),
        order_of(shape_of(nodes, root))[k] == place,
        forall|m: int|
            0 <= m < frame_of(nodes, root, focus).len() && m != k ==> #[trigger] order_of(
                shape_of(nodes, root),
            )[m] != place,
        frame_of(nodes, root, focus)[k] == node_of(
            nodes[place as int],
            published_at(nodes, shape_of(nodes, root), focus, place),
        ),
{
    let shape = shape_of(nodes, root);
    crate::tree::lemma_shape_valid(nodes, root);
    law_order_is_complete(shape);
    assert(order_of(shape).contains(place));
    order_of(shape).index_of(place)
}

// ---------------------------------------------------------------------------
// Content
// ---------------------------------------------------------------------------
/// A node's content is made of what its children say: their texts and their
/// contents, in listed order. This holds of every place below which nothing is
/// listed below itself.
pub proof fn law_settled_content_comes_from_children(
    nodes: Seq<RawNode>,
    shape: Shape,
    place: usize,
)
    requires
        valid_shape(shape),
        nodes.len() == shape.ids.len(),
        place < nodes.len(),
        shape.host != Some(place),
        settled(shape.children, shape.host, place),
    ensures
        contents_of(nodes, shape)[place as int] == text_of_words(
            children_words(nodes, shape.children[place as int], contents_of(nodes, shape)),
        ),
{
    let order = order_of(shape);
    law_order_is_complete(shape);
    lemma_valid_placed(shape);
    assert(placed(nodes.len(), order)) by {
        assert forall|i: int| 0 <= i < order.len() implies #[trigger] order[i] < nodes.len() by {
            assert(order[i] < shape.children.len());
        }
    }
    lemma_contents_along(nodes, shape.children, shape.host, order);
    lemma_settled_content(
        nodes,
        shape.children,
        shape.host,
        place,
        contents_of(nodes, shape),
    );
    assert(contents_of(nodes, shape)[place as int] == settled_contents(
        nodes,
        shape.children,
        shape.host,
    )[place as int]);
}

/// In a tree the content of every element is made of what its children say:
/// their texts and their contents, in listed order.
pub proof fn law_content_comes_from_children(nodes: Seq<RawNode>, shape: Shape, place: usize)
    requires
        treelike(shape),
        nodes.len() == shape.ids.len(),
        place < nodes.len(),
        shape.host != Some(place),
    ensures
        contents_of(nodes, shape)[place as int] == text_of_words(
            children_words(nodes, shape.children[place as int], contents_of(nodes, shape)),
        ),
{
    law_trees_settle(shape, place);
    law_settled_content_comes_from_children(nodes, shape, place);
}

// ---------------------------------------------------------------------------
// From the window to the published tree
// ---------------------------------------------------------------------------
/// The nodes of a frame that the registry takes one by one.
pub open spec fn acceptable(frame: Seq<NodeModel>) -> bool {
    &&& frame.len() <= MAX_TREE_NODES
    &&& forall|k: int| 0 <= k < frame.len() ==> node_fault(#[trigger] frame[k]) is None
}

/// No two elements have the same number.
pub open spec fn distinct_numbers(nodes: Seq<RawNode>) -> bool {
    forall|i: int, j: int|
        0 <= i < j < nodes.len() ==> (#[trigger] nodes[i]).id != (#[trigger] nodes[j]).id
}

/// Elements of different numbers are published as nodes of different
/// identifiers.
pub proof fn law_published_ids_are_distinct(
    nodes: Seq<RawNode>,
    root: Option<u64>,
    focus: Option<u64>,
)
    requires
        nodes.len() <= usize::MAX,
        distinct_numbers(nodes),
    ensures
        distinct_ids(frame_of(nodes, root, focus)),
{
    let shape = shape_of(nodes, root);
    let order = order_of(shape);
    let frame = frame_of(nodes, root, focus);
    crate::tree::lemma_shape_valid(nodes, root);
    law_order_is_complete(shape);
    assert forall|i: int, j: int| 0 <= i < j < frame.len() implies (#[trigger] frame[i]).id != (
    #[trigger] frame[j]).id by {
        assert(order[i] != order[j]);
        assert(order[i] < shape.children.len() && order[j] < shape.children.len());
        assert(nodes[order[i] as int].id != nodes[order[j] as int].id);
        law_identities_are_unique(shape, order[i], order[j]);
    }
}

proof fn lemma_recorded_cleanly(pending: PendingModel, frame: Seq<NodeModel>, n: int)
    requires
        !pending.active,
        acceptable(frame),
        distinct_ids(frame),
        forall|k: int|
            0 <= k < frame.len() ==> (#[trigger] frame[k]).children == Seq::<Seq<char>>::empty(),
        0 <= n <= frame.len(),
    ensures
        recorded_all(begun(pending), frame.take(n)) == (PendingModel {
            active: true,
            nodes: frame.take(n),
            invalid: Set::empty(),
            diagnostics: Seq::empty(),
        }),
    decreases n,
{
    let after = recorded_all(begun(pending), frame.take(n));
    if n == 0 {
        assert(frame.take(0) =~= Seq::empty());
        assert(after =~= begun(pending));
    } else {
        lemma_recorded_cleanly(pending, frame, n - 1);
        let node = frame[n - 1];
        assert(frame.take(n).drop_last() =~= frame.take(n - 1));
        assert(frame.take(n).last() == node);
        assert(node_fault(node) is None);
        assert(node.children == Seq::<Seq<char>>::empty());
        assert(!has_id(frame.take(n - 1), node.id)) by {
            if has_id(frame.take(n - 1), node.id) {
                let i = choose|i: int|
                    0 <= i < frame.take(n - 1).len() && (#[trigger] frame.take(n - 1)[i]).id
                        == node.id;
                assert(frame[i].id == node.id);
                assert(frame[i].id != frame[n - 1].id);
            }
        }
        assert(frame.take(n - 1).push(node) =~= frame.take(n));
        assert((NodeModel { children: Seq::empty(), ..node }) == node);
    }
}

/// The places and the numbers of a frame's nodes have the same parents.
proof fn lemma_frame_parent(nodes: Seq<RawNode>, root: Option<u64>, focus: Option<u64>, k: int)
    requires
        nodes.len() <= usize::MAX,
        acceptable(frame_of(nodes, root, focus)),
        distinct_ids(frame_of(nodes, root, focus)),
        0 <= k < frame_of(nodes, root, focus).len(),
    ensures
        ({
            let shape = shape_of(nodes, root);
            let order = order_of(shape);
            parents_of(frame_of(nodes, root, focus))[k] == match lineage(shape)[order[k] as int] {
                Parent::Node(above) => Parent::Node(order.index_of(above) as usize),
                _ => Parent::Root,
            }
        }),
        ({
            let shape = shape_of(nodes, root);
            let order = order_of(shape);
            lineage(shape)[order[k] as int] matches Parent::Node(above) ==> order.contains(above)
        }),
{
    let shape = shape_of(nodes, root);
    let order = order_of(shape);
    let frame = frame_of(nodes, root, focus);
    crate::tree::lemma_shape_valid(nodes, root);
    law_order_is_complete(shape);
    let place = order[k];
    assert(order[k] < shape.children.len());
    assert(match shape.parent[place as int] {
        Some(p) => p < shape.ids.len(),
        None => true,
    });
    assert(shape.host != Some(place));
    if let Parent::Node(above) = lineage(shape)[place as int] {
        assert(order.contains(above));
        let m = order.index_of(above);
        assert(frame[m].id == identities_of(shape)[above as int]);
        assert(frame[k].parent == Some(frame[m].id));
        crate::frame::lemma_number_of(frame, m);
    }
}

proof fn lemma_frame_climb(
    nodes: Seq<RawNode>,
    root: Option<u64>,
    focus: Option<u64>,
    k: usize,
    steps: nat,
)
    requires
        nodes.len() <= usize::MAX,
        acceptable(frame_of(nodes, root, focus)),
        distinct_ids(frame_of(nodes, root, focus)),
        k < frame_of(nodes, root, focus).len(),
    ensures
        ({
            let shape = shape_of(nodes, root);
            let order = order_of(shape);
            match climb(lineage(shape), order[k as int], steps) {
                Some(above) => order.contains(above) && climb(
                    parents_of(frame_of(nodes, root, focus)),
                    k,
                    steps,
                ) == Some(order.index_of(above) as usize),
                None => climb(parents_of(frame_of(nodes, root, focus)), k, steps) is None,
            }
        }),
    decreases steps,
{
    let shape = shape_of(nodes, root);
    let order = order_of(shape);
    crate::tree::lemma_shape_valid(nodes, root);
    law_order_is_complete(shape);
    if steps == 0 {
        let at = order.index_of(order[k as int]);
        assert(order.contains(order[k as int]));
        assert(at == k);
    } else {
        lemma_frame_climb(nodes, root, focus, k, (steps - 1) as nat);
        if let Some(below) = climb(lineage(shape), order[k as int], (steps - 1) as nat) {
            lemma_frame_parent(nodes, root, focus, order.index_of(below));
        }
    }
}

/// Every element of an acyclic tree of distinct numbers whose nodes are
/// acceptable is in the published tree, which reports nothing.
pub proof fn law_observed_trees_are_published_whole(
    pending: PendingModel,
    nodes: Seq<RawNode>,
    root: Option<u64>,
    focus: Option<u64>,
)
    requires
        nodes.len() <= usize::MAX,
        !pending.active,
        acyclic(shape_of(nodes, root)),
        distinct_numbers(nodes),
        acceptable(frame_of(nodes, root, focus)),
    ensures
        ({
            let frame = frame_of(nodes, root, focus);
            let published = finished(recorded_all(begun(pending), frame));
            &&& published.diagnostics == Seq::<DiagnosticModel>::empty()
            &&& forall|k: int|
                0 <= k < frame.len() ==> published.nodes.contains_key((#[trigger] frame[k]).id)
                    && published.nodes[frame[k].id] == published_node(frame, k)
        }),
{
    let shape = shape_of(nodes, root);
    let order = order_of(shape);
    let frame = frame_of(nodes, root, focus);
    let parents = parents_of(frame);
    crate::tree::lemma_shape_valid(nodes, root);
    law_order_is_complete(shape);
    assert forall|k: int| 0 <= k < frame.len() implies (#[trigger] frame[k]).children == Seq::<
        Seq<char>,
    >::empty() by {}
    law_published_ids_are_distinct(nodes, root, focus);
    lemma_recorded_cleanly(pending, frame, frame.len() as int);
    assert(frame.take(frame.len() as int) =~= frame);
    crate::frame::lemma_parents_graph(frame);
    assert forall|k: usize| k < frame.len() implies #[trigger] grounded(parents, k) by {
        let place = order[k as int];
        assert(order[k as int] < shape.children.len());
        assert(grounded(lineage(shape), place));
        let steps = choose|steps: nat| ends_at(lineage(shape), place, steps, Parent::Root);
        lemma_frame_climb(nodes, root, focus, k, steps);
        let above = climb(lineage(shape), place, steps)->0;
        lemma_frame_parent(nodes, root, focus, order.index_of(above));
        assert(ends_at(parents, k, steps, Parent::Root));
    }
    assert forall|k: int| 0 <= k < frame.len() implies !#[trigger] left_out(frame)[k] by {
        assert(grounded(parents, k as usize));
    }
    assert forall|k: int| 0 <= k < frame.len() implies finished(
        recorded_all(begun(pending), frame),
    ).nodes.contains_key((#[trigger] frame[k]).id) && finished(
        recorded_all(begun(pending), frame),
    ).nodes[frame[k].id] == published_node(frame, k) by {
        assert(!left_out(frame)[k]);
        crate::frame::lemma_published(frame, k);
    }
    lemma_no_omissions(parents);
    assert(omission_reports(frame) =~= Seq::empty());
    assert(Seq::<DiagnosticModel>::empty() + omission_reports(frame) =~= Seq::empty());
}

// ---------------------------------------------------------------------------
// Observing frames
// ---------------------------------------------------------------------------
/// Every drawn frame counts as one more complete frame, whether or not its
/// tree is published.
pub proof fn law_every_frame_counts(state: StateModel, stale: bool, frame: DrawnFrame)
    ensures
        with_drawn_frame(state, stale, frame).completed_frame.frame_count == counted(
            state.timings.frame_count,
        ),
{
}

/// A frame without a tree, and one that is reported unchanged while the
/// published tree is current, leave the published tree alone.
pub proof fn law_unchanged_frames_do_not_publish(
    state: StateModel,
    stale: bool,
    frame: DrawnFrame,
)
    requires
        frame.tree is None || (!frame.changed && !stale),
    ensures
        !publishes(stale, frame),
        with_drawn_frame(state, stale, frame).tree == state.tree,
        with_drawn_frame(state, stale, frame).pending == state.pending,
{
}

/// While the published tree may be out of date, the next frame that carries a
/// tree is published, even if it is reported unchanged.
pub proof fn law_stale_trees_are_republished(frame: DrawnFrame)
    requires
        frame.tree matches Some(tree) && acyclic(shape_of(tree.nodes@, tree.root)),
    ensures
        publishes(true, frame),
{
}

/// A frame that is published says what its tree says: the published tree holds
/// the frame's nodes as the registry takes them.
pub proof fn law_published_frames_say_what_is_drawn(
    state: StateModel,
    stale: bool,
    frame: DrawnFrame,
)
    requires
        publishes(stale, frame),
    ensures
        ({
            let tree = frame.tree->0;
            let drawn = finished(
                recorded_all(
                    begun(state.pending),
                    frame_of(tree.nodes@, tree.root, frame.gpui_focus),
                ),
            );
            let published = with_drawn_frame(state, stale, frame).tree;
            &&& published.roots == drawn.roots
            &&& published.nodes == drawn.nodes
            &&& published.diagnostics == drawn.diagnostics
        }),
{
    let tree = frame.tree->0;
    lemma_recording_stays_active(
        begun(state.pending),
        frame_of(tree.nodes@, tree.root, frame.gpui_focus),
    );
}

/// A frame that carries a tree in which no element is its own ancestor is
/// published whenever it is reported changed, and otherwise exactly when the
/// published tree may predate it; no other frame is published.
pub proof fn law_which_frames_are_published(stale: bool, frame: DrawnFrame)
    ensures
        frame.tree matches Some(tree) ==> {
            &&& acyclic(shape_of(tree.nodes@, tree.root)) && frame.changed ==> publishes(
                stale,
                frame,
            )
            &&& acyclic(shape_of(tree.nodes@, tree.root)) && !frame.changed ==> (publishes(
                stale,
                frame,
            ) <==> stale)
            &&& !acyclic(shape_of(tree.nodes@, tree.root)) ==> !publishes(stale, frame)
        },
        frame.tree is None ==> !publishes(stale, frame),
{
}

/// Whatever a frame draws, the window then stands where the frame says, if that
/// is valid; highlights and logs stay; the frame is what the timings sum up to.
pub proof fn law_drawn_frames_leave_the_rest(state: StateModel, stale: bool, frame: DrawnFrame)
    ensures
        ({
            let after = with_drawn_frame(state, stale, frame);
            let geometry = WindowGeometry {
                content_bounds: frame.content_bounds,
                scale_factor: frame.scale_factor,
            };
            &&& geometry.valid() ==> after.window_geometry == Some(geometry)
            &&& !geometry.valid() ==> after.window_geometry == state.window_geometry
            &&& after.highlights == state.highlights
            &&& after.logs == state.logs
            &&& after.completed_frame == stats(after.timings)
            &&& after.timings.previous_frame == Some(frame.began)
            &&& !publishes(stale, frame) ==> after.tree == state.tree && after.pending
                == state.pending
            &&& publishes(stale, frame) ==> !after.pending.active
        }),
{
    if publishes(stale, frame) {
        let tree = frame.tree->0;
        lemma_recording_stays_active(
            begun(state.pending),
            frame_of(tree.nodes@, tree.root, frame.gpui_focus),
        );
    }
}

/// A drawn frame is timed in the same way whether or not its tree is published.
pub proof fn law_publishing_does_not_change_timings(
    state: StateModel,
    stale: bool,
    frame: DrawnFrame,
    other: DrawnFrame,
)
    requires
        frame.began == other.began,
        frame.prepaint == other.prepaint,
        frame.paint == other.paint,
    ensures
        with_drawn_frame(state, stale, frame).timings == with_drawn_frame(
            state,
            !stale,
            other,
        ).timings,
        with_drawn_frame(state, stale, frame).timings == with_drawn_frame(
            state,
            stale,
            other,
        ).timings,
{
}

/// The generation that is announced for a published frame is the one that the
/// tree then has, and the tree has a new one exactly when it is announced.
pub proof fn law_published_generations_are_announced(
    state: StateModel,
    stale: bool,
    frame: DrawnFrame,
)
    requires
        publishes(stale, frame),
        state.tree.generation < u64::MAX,
    ensures
        ({
            let after = with_drawn_frame(state, stale, frame).tree;
            match announced(with_drawn_nodes(state, frame)) {
                Some(generation) => after.generation == generation && generation
                    == state.tree.generation + 1 && (after.roots != state.tree.roots || after.nodes
                    != state.tree.nodes || after.diagnostics != state.tree.diagnostics),
                None => after == state.tree,
            }
        }),
{
    let tree = frame.tree->0;
    lemma_recording_stays_active(
        begun(state.pending),
        frame_of(tree.nodes@, tree.root, frame.gpui_focus),
    );
}

/// What the whole tree says about an element: it is focused exactly where the
/// focus has its number, and what it contains, whether it is hidden, and how it
/// is named are the element's own.
pub proof fn law_what_the_tree_says(
    nodes: Seq<RawNode>,
    root: Option<u64>,
    focus: Option<u64>,
    i: usize,
)
    requires
        nodes.len() <= usize::MAX,
        distinct_numbers(nodes),
        i < nodes.len(),
    ensures
        ({
            let shape = shape_of(nodes, root);
            let published = published_at(nodes, shape, focus, i);
            &&& published.focused <==> focus == Some(nodes[i as int].id)
            &&& published.identity == identities_of(shape)[i as int]
            &&& published.content == contents_of(nodes, shape)[i as int]
            &&& published.hidden == hidden_above(nodes, shape, i)
        }),
{
    if let Some(id) = focus {
        law_numbers_find_their_elements(nodes, id, i);
        if nodes[i as int].id == id {
            assert forall|j: int| i < j < nodes.len() implies (#[trigger] nodes[j]).id != id by {
                assert(nodes[i as int].id != nodes[j].id);
            }
        }
    }
}

/// In a tree of distinct numbers, an element that another one lists, and none
/// behind that one, is published below it; what nothing but the host lists is
/// published without a parent.
pub proof fn law_elements_are_published_below_their_listers(
    nodes: Seq<RawNode>,
    root: Option<u64>,
    focus: Option<u64>,
    k: int,
    m: int,
)
    requires
        nodes.len() <= usize::MAX,
        distinct_numbers(nodes),
        0 <= k < frame_of(nodes, root, focus).len(),
        0 <= m < frame_of(nodes, root, focus).len(),
    ensures
        ({
            let order = order_of(shape_of(nodes, root));
            let frame = frame_of(nodes, root, focus);
            let child = nodes[order[k] as int];
            let lister = nodes[order[m] as int];
            &&& lister.node.children@.contains(child.id) && (forall|q: int|
                order[m] < q < nodes.len() ==> !(#[trigger] nodes[q]).node.children@.contains(
                    child.id,
                )) ==> frame[k].parent == Some(frame[m].id)
            &&& (forall|q: int|
                0 <= q < nodes.len() && shape_of(nodes, root).host != Some(q as usize) ==> !(
                #[trigger] nodes[q]).node.children@.contains(child.id)) ==> frame[k].parent is None
        }),
{
    let shape = shape_of(nodes, root);
    let order = order_of(shape);
    let frame = frame_of(nodes, root, focus);
    crate::tree::lemma_shape_valid(nodes, root);
    law_order_is_complete(shape);
    let i = order[k];
    let p = order[m];
    assert(order[k] < shape.children.len() && order[m] < shape.children.len());
    assert(shape.host != Some(p));
    let child = nodes[i as int];
    assert forall|q: int| 0 <= q < nodes.len() implies (#[trigger] shape.children[q]).contains(i)
        <==> nodes[q].node.children@.contains(child.id) by {
        lemma_lists_number(nodes, nodes[q].node.children@, i);
    }
    law_listers_are_parents(shape.children, i, p);
    if nodes[p as int].node.children@.contains(child.id) && (forall|q: int|
        p < q < nodes.len() ==> !(#[trigger] nodes[q]).node.children@.contains(child.id)) {
        assert(shape.children[p as int].contains(i));
        assert forall|q: int| p < q < shape.children.len() implies !(
        #[trigger] shape.children[q]).contains(i) by {
            assert(!nodes[q].node.children@.contains(child.id));
        }
        assert(shape.parent[i as int] == Some(p));
    }
    if forall|q: int|
        0 <= q < nodes.len() && shape.host != Some(q as usize) ==> !(
        #[trigger] nodes[q]).node.children@.contains(child.id) {
        if let Some(q) = shape.parent[i as int] {
            law_listers_are_parents(shape.children, i, q);
            assert(shape.children[q as int].contains(i));
            assert(nodes[q as int].node.children@.contains(child.id));
        }
    }
}

/// A list of numbers holds the number of a place exactly if its places hold the
/// place.
proof fn lemma_lists_number(nodes: Seq<RawNode>, ids: Seq<u64>, i: usize)
    requires
        nodes.len() <= usize::MAX,
        distinct_numbers(nodes),
        i < nodes.len(),
    ensures
        places_of(nodes, ids).contains(i) <==> ids.contains(nodes[i as int].id),
    decreases ids.len(),
{
    if ids.len() > 0 {
        let last = ids.last();
        let before = ids.drop_last();
        lemma_lists_number(nodes, before, i);
        law_numbers_find_their_elements(nodes, last, i);
        assert(ids =~= before.push(last));
        let places = places_of(nodes, before);
        if nodes[i as int].id == last {
            assert forall|j: int| i < j < nodes.len() implies (#[trigger] nodes[j]).id
                != last by {
                assert(nodes[i as int].id != nodes[j].id);
            }
            assert(ids[ids.len() - 1] == last);
            assert(places_of(nodes, ids)[places.len() as int] == i);
        }
        if before.contains(nodes[i as int].id) {
            assert(ids[before.index_of(nodes[i as int].id)] == nodes[i as int].id);
        }
        if places.contains(i) {
            assert(places_of(nodes, ids)[places.index_of(i)] == i);
        }
        if ids.contains(nodes[i as int].id) && nodes[i as int].id != last {
            let at = ids.index_of(nodes[i as int].id);
            assert(before[at] == nodes[i as int].id);
        }
        if places_of(nodes, ids).contains(i) && place_of(nodes, last) != Some(i) {
            let at = places_of(nodes, ids).index_of(i);
            assert(places[at] == i);
        }
    }
}

/// A drawn frame adds its own prepaint and its own paint to those before it, and
/// the time since the frame before began to the intervals, as far as the clock
/// goes.
pub proof fn law_drawn_frames_are_timed(state: StateModel, stale: bool, frame: DrawnFrame)
    requires
        frame.began + frame.prepaint + frame.paint <= u64::MAX,
    ensures
        ({
            let before = state.timings;
            let after = with_drawn_frame(state, stale, frame).timings;
            &&& after.prepaint == with_sample(before.prepaint, frame.prepaint)
            &&& after.root_paint == with_sample(before.root_paint, frame.paint)
            &&& before.previous_frame is None ==> after.intervals == before.intervals
            &&& before.previous_frame matches Some(earlier) ==> after.intervals == with_sample(
                before.intervals,
                if earlier <= frame.began {
                    (frame.began - earlier) as u64
                } else {
                    0
                },
            )
        }),
{
}

/// A window that begins to build its tree makes the published one stale; one
/// that goes on, stops, or still does not build it leaves that as it was.
pub proof fn law_trees_are_stale_once_observation_begins(
    stale: bool,
    was_observed: bool,
    observed: bool,
)
    ensures
        !was_observed && observed ==> stale_once_observed(stale, was_observed, observed),
        was_observed || !observed ==> stale_once_observed(stale, was_observed, observed) == stale,
{
}

/// The first frame that carries a tree brings the published one up to date; a
/// frame without one changes nothing about that.
pub proof fn law_frames_with_a_tree_end_staleness(stale: bool, frame: DrawnFrame)
    ensures
        frame.tree is Some ==> !stale_once_drawn(stale, frame),
        frame.tree is None ==> stale_once_drawn(stale, frame) == stale,
{
}

} // verus!
