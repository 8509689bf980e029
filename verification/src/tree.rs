//! The accessibility tree of one frame, by places instead of numbers.

use std::collections::HashMap;

use vstd::prelude::*;

use crate::access::{AccessNode, NodeLookup};
#[allow(unused_imports)]
use crate::ancestry::lemma_distinct_below;
#[allow(unused_imports)]
use crate::text::decimal;
use crate::text::to_decimal;

verus! {

/// One accessible element with its number and what the window holds about it.
pub struct RawNode {
    pub id: u64,
    pub node: AccessNode,
    pub lookup: NodeLookup,
}

/// A finalized accessibility tree: its elements in any order, and its root.
pub struct TreeUpdate {
    pub nodes: Vec<RawNode>,
    pub root: Option<u64>,
}

// ---------------------------------------------------------------------------
// Shape
// ---------------------------------------------------------------------------
/// An element's own name: its element id, or its number where it has none.
pub open spec fn own_name(raw: RawNode) -> Seq<char> {
    match raw.lookup.element_id {
        Some(name) => name@,
        None => decimal(raw.id as nat),
    }
}

/// The place of the last element with this number.
pub open spec fn place_of(nodes: Seq<RawNode>, id: u64) -> Option<usize>
    decreases nodes.len(),
{
    if nodes.len() == 0 {
        None
    } else if nodes.last().id == id {
        Some((nodes.len() - 1) as usize)
    } else {
        place_of(nodes.drop_last(), id)
    }
}

/// The places of numbered elements, without those that are not there.
pub open spec fn places_of(nodes: Seq<RawNode>, ids: Seq<u64>) -> Seq<usize>
    decreases ids.len(),
{
    if ids.len() == 0 {
        Seq::empty()
    } else {
        let before = places_of(nodes, ids.drop_last());
        match place_of(nodes, ids.last()) {
            Some(place) => before.push(place),
            None => before,
        }
    }
}

/// The last of the first `n` elements that lists `child` among its children.
pub open spec fn last_lister(children: Seq<Seq<usize>>, child: usize, n: nat) -> Option<usize>
    decreases n,
{
    if n == 0 {
        None
    } else if children[n - 1].contains(child) {
        Some((n - 1) as usize)
    } else {
        last_lister(children, child, (n - 1) as nat)
    }
}

/// A tree's relationships.
#[verifier::ext_equal]
pub struct Shape {
    pub ids: Seq<u64>,
    pub names: Seq<Seq<char>>,
    pub children: Seq<Seq<usize>>,
    pub parent: Seq<Option<usize>>,
    pub root: Option<usize>,
    /// The root, where it has no element id: the window itself.
    pub host: Option<usize>,
}

pub open spec fn children_of(nodes: Seq<RawNode>) -> Seq<Seq<usize>> {
    Seq::new(nodes.len(), |i: int| places_of(nodes, nodes[i].node.children@))
}

pub open spec fn root_of(nodes: Seq<RawNode>, root: Option<u64>) -> Option<usize> {
    match root {
        Some(id) => place_of(nodes, id),
        None => None,
    }
}

pub open spec fn host_of(nodes: Seq<RawNode>, root: Option<u64>) -> Option<usize> {
    match root_of(nodes, root) {
        Some(place) => if nodes[place as int].lookup.element_id is None {
            Some(place)
        } else {
            None
        },
        None => None,
    }
}

/// The relationships that the elements of a tree spell out.
pub open spec fn shape_of(nodes: Seq<RawNode>, root: Option<u64>) -> Shape {
    let children = children_of(nodes);
    Shape {
        ids: Seq::new(nodes.len(), |i: int| nodes[i].id),
        names: Seq::new(nodes.len(), |i: int| own_name(nodes[i])),
        children,
        parent: Seq::new(
            nodes.len(),
            |i: int| last_lister(children, i as usize, nodes.len()),
        ),
        root: root_of(nodes, root),
        host: host_of(nodes, root),
    }
}

/// Every place is one of an element.
pub open spec fn valid_shape(shape: Shape) -> bool {
    let n = shape.ids.len();
    &&& n <= usize::MAX
    &&& shape.names.len() == n
    &&& shape.children.len() == n
    &&& shape.parent.len() == n
    &&& forall|i: int, j: int|
        0 <= i < n && 0 <= j < shape.children[i].len() ==> #[trigger] shape.children[i][j] < n
    &&& forall|i: int|
        0 <= i < n ==> match #[trigger] shape.parent[i] {
            Some(p) => p < n && shape.children[p as int].contains(i as usize),
            None => true,
        }
    &&& match shape.root {
        Some(place) => place < n,
        None => true,
    }
    &&& shape.host is Some ==> shape.host == shape.root
}

pub proof fn lemma_place_of(nodes: Seq<RawNode>, id: u64)
    requires
        nodes.len() <= usize::MAX,
    ensures
        place_of(nodes, id) matches Some(place) ==> place < nodes.len() && nodes[place as int].id
            == id,
    decreases nodes.len(),
{
    if nodes.len() > 0 && nodes.last().id != id {
        lemma_place_of(nodes.drop_last(), id);
    }
}

proof fn lemma_places_of(nodes: Seq<RawNode>, ids: Seq<u64>)
    requires
        nodes.len() <= usize::MAX,
    ensures
        forall|i: int|
            0 <= i < places_of(nodes, ids).len() ==> #[trigger] places_of(nodes, ids)[i]
                < nodes.len(),
    decreases ids.len(),
{
    if ids.len() > 0 {
        let before = places_of(nodes, ids.drop_last());
        lemma_places_of(nodes, ids.drop_last());
        lemma_place_of(nodes, ids.last());
        assert forall|i: int| 0 <= i < places_of(nodes, ids).len() implies #[trigger] places_of(
            nodes,
            ids,
        )[i] < nodes.len() by {
            if i < before.len() {
                assert(before[i] < nodes.len());
            }
        }
    }
}

pub proof fn lemma_last_lister(children: Seq<Seq<usize>>, child: usize, n: nat)
    requires
        n <= children.len() <= usize::MAX,
    ensures
        last_lister(children, child, n) matches Some(p) ==> p < n
            && children[p as int].contains(child),
        last_lister(children, child, n) is None ==> forall|p: int|
            0 <= p < n ==> !(#[trigger] children[p]).contains(child),
    decreases n,
{
    if n > 0 && !children[n - 1].contains(child) {
        lemma_last_lister(children, child, (n - 1) as nat);
    }
}

/// The relationships of any tree are valid.
pub proof fn lemma_shape_valid(nodes: Seq<RawNode>, root: Option<u64>)
    requires
        nodes.len() <= usize::MAX,
    ensures
        valid_shape(shape_of(nodes, root)),
{
    let shape = shape_of(nodes, root);
    let n = nodes.len();
    assert forall|i: int, j: int| 0 <= i < n && 0 <= j < shape.children[i].len() implies
        #[trigger] shape.children[i][j] < n by {
        lemma_places_of(nodes, nodes[i].node.children@);
    }
    assert forall|i: int| 0 <= i < n implies match #[trigger] shape.parent[i] {
        Some(p) => p < n && shape.children[p as int].contains(i as usize),
        None => true,
    } by {
        lemma_last_lister(shape.children, i as usize, n);
    }
    if let Some(id) = root {
        lemma_place_of(nodes, id);
    }
}

// ---------------------------------------------------------------------------
// The tree
// ---------------------------------------------------------------------------
/// A tree's elements, indexed so that every relationship is a place.
pub struct FrameTree {
    pub nodes: Vec<RawNode>,
    pub names: Vec<String>,
    pub index: HashMap<u64, usize>,
    pub children: Vec<Vec<usize>>,
    pub parent: Vec<Option<usize>>,
    pub root: Option<usize>,
    pub host: Option<usize>,
}

/// The places in lists of places.
pub open spec fn lists(children: Seq<Vec<usize>>) -> Seq<Seq<usize>> {
    Seq::new(children.len(), |i: int| children[i]@)
}

/// Every number that occurs is at its place.
pub open spec fn indexes(index: Map<u64, usize>, nodes: Seq<RawNode>) -> bool {
    forall|id: u64|
        #![trigger place_of(nodes, id)]
        #![trigger index.contains_key(id)]
        match place_of(nodes, id) {
            Some(place) => index.contains_key(id) && index[id] == place,
            None => !index.contains_key(id),
        }
}

fn index_nodes(nodes: &Vec<RawNode>) -> (index: HashMap<u64, usize>)
    ensures
        indexes(index@, nodes@),
{
    broadcast use vstd::std_specs::hash::group_hash_axioms;

    let mut index: HashMap<u64, usize> = HashMap::new();
    let mut i: usize = 0;
    assert(nodes@.take(0) =~= Seq::empty());
    while i < nodes.len()
        invariant
            i <= nodes@.len(),
            indexes(index@, nodes@.take(i as int)),
        decreases nodes@.len() - i,
    {
        broadcast use vstd::std_specs::hash::group_hash_axioms;

        let id = nodes[i].id;
        let ghost before = index@;
        let _ = index.insert(id, i);
        proof {
            let shorter = nodes@.take(i as int);
            let longer = nodes@.take(i + 1);
            assert(longer.drop_last() =~= shorter);
            assert(longer.last() == nodes@[i as int]);
            assert forall|other: u64|
                #![trigger place_of(longer, other)]
                #![trigger index@.contains_key(other)]
                match place_of(longer, other) {
                    Some(place) => index@.contains_key(other) && index@[other] == place,
                    None => !index@.contains_key(other),
                } by {
                if other != id {
                    assert(place_of(longer, other) == place_of(shorter, other));
                    assert(before.contains_key(other) == index@.contains_key(other));
                }
            }
        }
        i += 1;
    }
    assert(nodes@.take(nodes@.len() as int) =~= nodes@);
    index
}

fn name_nodes(nodes: &Vec<RawNode>) -> (names: Vec<String>)
    ensures
        names@.len() == nodes@.len(),
        forall|i: int| 0 <= i < nodes@.len() ==> (#[trigger] names@[i])@ == own_name(nodes@[i]),
{
    let mut names: Vec<String> = Vec::new();
    let mut i: usize = 0;
    while i < nodes.len()
        invariant
            i <= nodes@.len(),
            names@.len() == i,
            forall|j: int| 0 <= j < i ==> (#[trigger] names@[j])@ == own_name(nodes@[j]),
        decreases nodes@.len() - i,
    {
        let name = match &nodes[i].lookup.element_id {
            Some(name) => name.clone(),
            None => to_decimal(nodes[i].id),
        };
        names.push(name);
        i += 1;
    }
    names
}

/// The places of the children of one element.
fn find_places(
    nodes: &Vec<RawNode>,
    index: &HashMap<u64, usize>,
    ids: &Vec<u64>,
) -> (places: Vec<usize>)
    requires
        indexes(index@, nodes@),
    ensures
        places@ == places_of(nodes@, ids@),
{
    broadcast use vstd::std_specs::hash::group_hash_axioms;

    let mut places: Vec<usize> = Vec::new();
    let mut i: usize = 0;
    assert(ids@.take(0) =~= Seq::empty());
    while i < ids.len()
        invariant
            i <= ids@.len(),
            indexes(index@, nodes@),
            places@ == places_of(nodes@, ids@.take(i as int)),
        decreases ids@.len() - i,
    {
        broadcast use vstd::std_specs::hash::group_hash_axioms;

        proof {
            assert(ids@.take(i + 1).drop_last() =~= ids@.take(i as int));
            assert(ids@.take(i + 1).last() == ids@[i as int]);
            assert(match place_of(nodes@, ids@[i as int]) {
                Some(place) => index@.contains_key(ids@[i as int]) && index@[ids@[i as int]]
                    == place,
                None => !index@.contains_key(ids@[i as int]),
            });
        }
        if let Some(place) = index.get(&ids[i]) {
            places.push(*place);
        }
        i += 1;
    }
    assert(ids@.take(ids@.len() as int) =~= ids@);
    places
}

fn find_children(nodes: &Vec<RawNode>, index: &HashMap<u64, usize>) -> (children: Vec<Vec<usize>>)
    requires
        indexes(index@, nodes@),
    ensures
        lists(children@) == children_of(nodes@),
{
    let mut children: Vec<Vec<usize>> = Vec::new();
    let mut i: usize = 0;
    while i < nodes.len()
        invariant
            i <= nodes@.len(),
            indexes(index@, nodes@),
            children@.len() == i,
            forall|j: int|
                0 <= j < i ==> (#[trigger] children@[j])@ == places_of(
                    nodes@,
                    nodes@[j].node.children@,
                ),
        decreases nodes@.len() - i,
    {
        children.push(find_places(nodes, index, &nodes[i].node.children));
        i += 1;
    }
    assert(lists(children@) =~= children_of(nodes@));
    children
}

/// The last lister of every element.
fn find_parents(children: &Vec<Vec<usize>>) -> (parent: Vec<Option<usize>>)
    requires
        forall|i: int, j: int|
            0 <= i < children@.len() && 0 <= j < children@[i]@.len() ==> #[trigger] children@[i]@[j]
                < children@.len(),
    ensures
        parent@ == Seq::new(
            children@.len(),
            |i: int| last_lister(lists(children@), i as usize, children@.len()),
        ),
{
    let n = children.len();
    let ghost all = lists(children@);
    let mut parent: Vec<Option<usize>> = Vec::new();
    while parent.len() < n
        invariant
            parent@.len() <= n,
            forall|i: int| 0 <= i < parent@.len() ==> #[trigger] parent@[i] == None::<usize>,
        decreases n - parent@.len(),
    {
        parent.push(None);
    }
    let mut p: usize = 0;
    while p < n
        invariant
            n == children@.len(),
            all == lists(children@),
            parent@.len() == n,
            p <= n,
            forall|i: int, j: int|
                0 <= i < children@.len() && 0 <= j < children@[i]@.len() ==> #[trigger] children@[
                    i
                ]@[j] < children@.len(),
            forall|i: int|
                0 <= i < n ==> #[trigger] parent@[i] == last_lister(all, i as usize, p as nat),
        decreases n - p,
    {
        let mut k: usize = 0;
        while k < children[p].len()
            invariant
                p < n,
                n == children@.len(),
                all == lists(children@),
                parent@.len() == n,
                k <= children@[p as int]@.len(),
                forall|i: int, j: int|
                    0 <= i < children@.len() && 0 <= j < children@[i]@.len()
                        ==> #[trigger] children@[i]@[j] < children@.len(),
                forall|i: int|
                    0 <= i < n ==> #[trigger] parent@[i] == (if all[p as int].take(
                        k as int,
                    ).contains(i as usize) {
                        Some(p)
                    } else {
                        last_lister(all, i as usize, p as nat)
                    }),
            decreases children@[p as int]@.len() - k,
        {
            let child = children[p][k];
            assert(children@[p as int]@[k as int] < children@.len());
            let ghost before = parent@;
            parent.set(child, Some(p));
            proof {
                let shorter = all[p as int].take(k as int);
                let longer = all[p as int].take(k + 1);
                assert(longer =~= shorter.push(child));
                assert forall|i: int| 0 <= i < n implies #[trigger] parent@[i] == (
                if longer.contains(i as usize) {
                    Some(p)
                } else {
                    last_lister(all, i as usize, p as nat)
                }) by {
                    assert(longer[k as int] == child);
                    assert(before[i] == (if shorter.contains(i as usize) {
                        Some(p)
                    } else {
                        last_lister(all, i as usize, p as nat)
                    }));
                    if shorter.contains(i as usize) {
                        let at = shorter.index_of(i as usize);
                        assert(longer[at] == i);
                    }
                    if longer.contains(i as usize) && i != child {
                        let at = longer.index_of(i as usize);
                        assert(shorter[at] == i);
                    }
                }
            }
            k += 1;
        }
        proof {
            assert(all[p as int].take(k as int) =~= all[p as int]);
        }
        p += 1;
    }
    assert(parent@ =~= Seq::new(n as nat, |i: int| last_lister(all, i as usize, n as nat)));
    parent
}

impl FrameTree {
    pub open spec fn shape(&self) -> Shape {
        Shape {
            ids: Seq::new(self.nodes@.len(), |i: int| self.nodes@[i].id),
            names: Seq::new(self.names@.len(), |i: int| self.names@[i]@),
            children: lists(self.children@),
            parent: self.parent@,
            root: self.root,
            host: self.host,
        }
    }

    /// The tree holds the relationships of its elements.
    pub open spec fn wf(&self) -> bool {
        &&& valid_shape(self.shape())
        &&& indexes(self.index@, self.nodes@)
    }

    pub fn new(update: TreeUpdate) -> (tree: Self)
        ensures
            tree.wf(),
            tree.nodes == update.nodes,
            tree.shape() == shape_of(update.nodes@, update.root),
    {
        broadcast use vstd::std_specs::hash::group_hash_axioms;

        let nodes = update.nodes;
        let n = nodes.len();
        let index = index_nodes(&nodes);
        let names = name_nodes(&nodes);
        let children = find_children(&nodes, &index);
        proof {
            lemma_shape_valid(nodes@, update.root);
            assert(children@.len() == lists(children@).len());
            assert forall|i: int, j: int|
                0 <= i < children@.len() && 0 <= j < children@[i]@.len() implies
                #[trigger] children@[i]@[j] < children@.len() by {
                assert(children_of(nodes@)[i] == children@[i]@);
                assert(shape_of(nodes@, update.root).children[i][j] < n);
            }
        }
        let parent = find_parents(&children);
        let root = match update.root {
            Some(id) => {
                assert(match place_of(nodes@, id) {
                    Some(place) => index@.contains_key(id) && index@[id] == place,
                    None => !index@.contains_key(id),
                });
                match index.get(&id) {
                    Some(place) => Some(*place),
                    None => None,
                }
            },
            None => None,
        };
        proof {
            if let Some(id) = update.root {
                lemma_place_of(nodes@, id);
            }
        }
        let host = match root {
            Some(place) => if nodes[place].lookup.element_id.is_none() {
                Some(place)
            } else {
                None
            },
            None => None,
        };
        let tree = FrameTree { nodes, names, index, children, parent, root, host };
        assert(tree.shape() =~= shape_of(update.nodes@, update.root));
        tree
    }

    /// The place of the element with this number.
    pub fn place(&self, id: u64) -> (place: Option<usize>)
        requires
            self.wf(),
        ensures
            place == place_of(self.nodes@, id),
    {
        broadcast use vstd::std_specs::hash::group_hash_axioms;

        assert(match place_of(self.nodes@, id) {
            Some(place) => self.index@.contains_key(id) && self.index@[id] == place,
            None => !self.index@.contains_key(id),
        });
        match self.index.get(&id) {
            Some(place) => Some(*place),
            None => None,
        }
    }
}

// ---------------------------------------------------------------------------
// Depth-first order
// ---------------------------------------------------------------------------
/// The places in `order`, then those met from `waiting`: each element before
/// its children, these in listed order before what waits behind it. The host
/// and what was met before are skipped.
pub open spec fn visit(
    children: Seq<Seq<usize>>,
    host: Option<usize>,
    waiting: Seq<usize>,
    order: Seq<usize>,
) -> Seq<usize>
    decreases children.len() - order.len(), waiting.len(),
{
    if waiting.len() == 0 {
        order
    } else {
        let next = waiting[0];
        let rest = waiting.drop_first();
        if host == Some(next) || order.contains(next) || order.len() >= children.len() {
            visit(children, host, rest, order)
        } else {
            visit(children, host, children[next as int] + rest, order.push(next))
        }
    }
}

/// The places below `n` that are not in `order`, ascending.
pub open spec fn unvisited(order: Seq<usize>, n: nat) -> Seq<usize>
    decreases n,
{
    if n == 0 {
        Seq::empty()
    } else {
        let before = unvisited(order, (n - 1) as nat);
        if order.contains((n - 1) as usize) {
            before
        } else {
            before.push((n - 1) as usize)
        }
    }
}

/// A place put into a list that is sorted by number, behind those of its number.
pub open spec fn put_by_id(ids: Seq<u64>, sorted: Seq<usize>, place: usize) -> Seq<usize>
    decreases sorted.len(),
{
    if sorted.len() == 0 || ids[sorted.last() as int] <= ids[place as int] {
        sorted.push(place)
    } else {
        put_by_id(ids, sorted.drop_last(), place).push(sorted.last())
    }
}

/// Places sorted by number; those of one number stay in order.
pub open spec fn by_id(ids: Seq<u64>, places: Seq<usize>) -> Seq<usize>
    decreases places.len(),
{
    if places.len() == 0 {
        Seq::empty()
    } else {
        put_by_id(ids, by_id(ids, places.drop_last()), places.last())
    }
}

/// The places met from the root's children.
pub open spec fn reached(shape: Shape) -> Seq<usize> {
    match shape.root {
        Some(root) => visit(
            shape.children,
            shape.host,
            shape.children[root as int],
            Seq::empty(),
        ),
        None => Seq::empty(),
    }
}

/// Every place that is published, in order: depth first from the root's
/// children, then what cannot be reached from there, by number.
pub open spec fn order_of(shape: Shape) -> Seq<usize> {
    visit(
        shape.children,
        shape.host,
        by_id(shape.ids, unvisited(reached(shape), shape.ids.len())),
        reached(shape),
    )
}

/// Distinct places of elements, without the host.
pub open spec fn orderly(children: Seq<Seq<usize>>, host: Option<usize>, order: Seq<usize>) -> bool {
    &&& order.no_duplicates()
    &&& forall|i: int|
        0 <= i < order.len() ==> #[trigger] order[i] < children.len() && host != Some(order[i])
}

/// Every place in a list is one of an element.
pub open spec fn placed(n: nat, places: Seq<usize>) -> bool {
    forall|i: int| 0 <= i < places.len() ==> #[trigger] places[i] < n
}

pub open spec fn all_placed(children: Seq<Seq<usize>>) -> bool {
    forall|i: int| 0 <= i < children.len() ==> placed(children.len(), #[trigger] children[i])
}

pub proof fn lemma_push_orderly(
    children: Seq<Seq<usize>>,
    host: Option<usize>,
    order: Seq<usize>,
    next: usize,
)
    requires
        children.len() <= usize::MAX,
        orderly(children, host, order),
        next < children.len(),
        host != Some(next),
        !order.contains(next),
    ensures
        orderly(children, host, order.push(next)),
        order.len() < children.len(),
{
    let longer = order.push(next);
    assert forall|i: int, j: int| 0 <= i < longer.len() && 0 <= j < longer.len() && i != j implies
        longer[i] != longer[j] by {
        if i < order.len() {
            assert(order.contains(order[i]));
        }
        if j < order.len() {
            assert(order.contains(order[j]));
        }
    }
    assert forall|i: int| 0 <= i < longer.len() implies #[trigger] longer[i] < children.len()
        && host != Some(longer[i]) by {
        if i < order.len() {
            assert(order[i] < children.len());
        }
    }
    lemma_distinct_below(longer, children.len());
}

/// What is waiting is met, what was met stays where it was, and nothing is met
/// twice.
proof fn lemma_visit(
    children: Seq<Seq<usize>>,
    host: Option<usize>,
    waiting: Seq<usize>,
    order: Seq<usize>,
)
    requires
        children.len() <= usize::MAX,
        all_placed(children),
        placed(children.len(), waiting),
        orderly(children, host, order),
    ensures
        orderly(children, host, visit(children, host, waiting, order)),
        order.is_prefix_of(visit(children, host, waiting, order)),
        forall|i: int|
            0 <= i < waiting.len() && host != Some(#[trigger] waiting[i]) ==> visit(
                children,
                host,
                waiting,
                order,
            ).contains(waiting[i]),
    decreases children.len() - order.len(), waiting.len(),
{
    if waiting.len() > 0 {
        let next = waiting[0];
        let rest = waiting.drop_first();
        let met = visit(children, host, waiting, order);
        assert(next < children.len());
        assert(placed(children.len(), rest)) by {
            assert forall|i: int| 0 <= i < rest.len() implies #[trigger] rest[i]
                < children.len() by {
                assert(rest[i] == waiting[i + 1]);
            }
        }
        if host != Some(next) && !order.contains(next) {
            lemma_push_orderly(children, host, order, next);
            let more = children[next as int] + rest;
            assert(placed(children.len(), more)) by {
                assert(placed(children.len(), children[next as int]));
                assert forall|i: int| 0 <= i < more.len() implies #[trigger] more[i]
                    < children.len() by {
                    if i < children[next as int].len() {
                        assert(more[i] == children[next as int][i]);
                    } else {
                        assert(more[i] == rest[i - children[next as int].len()]);
                    }
                }
            }
            lemma_visit(children, host, more, order.push(next));
            assert(met[order.len() as int] == order.push(next)[order.len() as int]);
            assert(met.contains(next));
            assert forall|i: int|
                0 <= i < waiting.len() && host != Some(#[trigger] waiting[i]) implies met.contains(
                waiting[i],
            ) by {
                if i > 0 {
                    assert(more[children[next as int].len() + i - 1] == waiting[i]);
                }
            }
            assert(order.is_prefix_of(met)) by {
                assert forall|i: int| 0 <= i < order.len() implies order[i] == met[i] by {
                    assert(order.push(next)[i] == met[i]);
                }
            }
        } else {
            if host != Some(next) {
                lemma_distinct_orderly(children, host, order);
            }
            lemma_visit(children, host, rest, order);
            assert forall|i: int|
                0 <= i < waiting.len() && host != Some(#[trigger] waiting[i]) implies met.contains(
                waiting[i],
            ) by {
                if i > 0 {
                    assert(rest[i - 1] == waiting[i]);
                } else {
                    let at = order.index_of(next);
                    assert(met[at] == order[at]);
                }
            }
        }
    }
}

pub proof fn lemma_distinct_orderly(
    children: Seq<Seq<usize>>,
    host: Option<usize>,
    order: Seq<usize>,
)
    requires
        orderly(children, host, order),
    ensures
        order.len() <= children.len(),
{
    lemma_distinct_below(order, children.len());
}

pub proof fn lemma_unvisited(order: Seq<usize>, n: nat)
    requires
        n <= usize::MAX,
    ensures
        placed(n, unvisited(order, n)),
        forall|i: usize| i < n && !order.contains(i) ==> #[trigger] unvisited(order, n).contains(i),
    decreases n,
{
    if n > 0 {
        let before = unvisited(order, (n - 1) as nat);
        let after = unvisited(order, n);
        lemma_unvisited(order, (n - 1) as nat);
        assert forall|i: int| 0 <= i < after.len() implies #[trigger] after[i] < n by {
            if i < before.len() {
                assert(before[i] < n - 1);
            }
        }
        assert forall|i: usize| i < n && !order.contains(i) implies #[trigger] after.contains(i) by {
            if i < n - 1 {
                assert(before.contains(i));
                assert(after[before.index_of(i)] == i);
            } else {
                assert(after[before.len() as int] == i);
            }
        }
    }
}

proof fn lemma_put_by_id(ids: Seq<u64>, sorted: Seq<usize>, place: usize)
    ensures
        put_by_id(ids, sorted, place).to_multiset() == sorted.to_multiset().insert(place),
        put_by_id(ids, sorted, place).len() == sorted.len() + 1,
    decreases sorted.len(),
{
    broadcast use vstd::seq_lib::group_to_multiset_ensures;

    if sorted.len() > 0 && ids[sorted.last() as int] > ids[place as int] {
        lemma_put_by_id(ids, sorted.drop_last(), place);
        assert(sorted =~= sorted.drop_last().push(sorted.last()));
        assert(put_by_id(ids, sorted, place).to_multiset() =~= sorted.to_multiset().insert(place));
    }
}

/// Sorting keeps the places.
proof fn lemma_by_id(ids: Seq<u64>, places: Seq<usize>)
    ensures
        by_id(ids, places).to_multiset() == places.to_multiset(),
    decreases places.len(),
{
    broadcast use vstd::seq_lib::group_to_multiset_ensures;

    if places.len() > 0 {
        lemma_by_id(ids, places.drop_last());
        lemma_put_by_id(ids, by_id(ids, places.drop_last()), places.last());
        assert(places =~= places.drop_last().push(places.last()));
    } else {
        assert(by_id(ids, places) =~= places);
    }
}

pub proof fn lemma_by_id_contains(ids: Seq<u64>, places: Seq<usize>, place: usize)
    ensures
        by_id(ids, places).contains(place) <==> places.contains(place),
{
    broadcast use vstd::seq_lib::group_to_multiset_ensures;

    lemma_by_id(ids, places);
    assert(by_id(ids, places).to_multiset().count(place) == places.to_multiset().count(place));
}

pub proof fn lemma_valid_placed(shape: Shape)
    requires
        valid_shape(shape),
    ensures
        all_placed(shape.children),
{
    assert forall|i: int| 0 <= i < shape.children.len() implies placed(
        shape.children.len(),
        #[trigger] shape.children[i],
    ) by {
        assert forall|j: int| 0 <= j < shape.children[i].len() implies #[trigger] shape.children[i][j]
            < shape.children.len() by {}
    }
}

/// The order of a tree holds every element but the host exactly once, and
/// begins with what is reached from the root's children.
pub proof fn law_order_is_complete(shape: Shape)
    requires
        valid_shape(shape),
    ensures
        orderly(shape.children, shape.host, reached(shape)),
        orderly(shape.children, shape.host, order_of(shape)),
        reached(shape).is_prefix_of(order_of(shape)),
        forall|i: usize|
            i < shape.ids.len() && shape.host != Some(i) ==> #[trigger] order_of(shape).contains(i),
{
    let n = shape.ids.len();
    lemma_valid_placed(shape);
    assert(orderly(shape.children, shape.host, Seq::empty()));
    if let Some(root) = shape.root {
        assert(placed(n, shape.children[root as int]));
        lemma_visit(shape.children, shape.host, shape.children[root as int], Seq::empty());
    }
    let first = reached(shape);
    let rest = unvisited(first, n);
    let sorted = by_id(shape.ids, rest);
    lemma_unvisited(first, n);
    assert(placed(n, sorted)) by {
        assert forall|i: int| 0 <= i < sorted.len() implies #[trigger] sorted[i] < n by {
            assert(sorted.contains(sorted[i]));
            lemma_by_id_contains(shape.ids, rest, sorted[i]);
            let at = rest.index_of(sorted[i]);
            assert(rest[at] < n);
        }
    }
    lemma_visit(shape.children, shape.host, sorted, first);
    assert forall|i: usize| i < n && shape.host != Some(i) implies #[trigger] order_of(
        shape,
    ).contains(i) by {
        if first.contains(i) {
            let at = first.index_of(i);
            assert(order_of(shape)[at] == i);
        } else {
            assert(rest.contains(i));
            lemma_by_id_contains(shape.ids, rest, i);
            let at = sorted.index_of(i);
            assert(sorted[at] == i);
        }
    }
}

proof fn lemma_reverse_push(stack: Seq<usize>, next: usize)
    ensures
        stack.push(next).reverse() == seq![next] + stack.reverse(),
{
    assert(stack.push(next).reverse() =~= seq![next] + stack.reverse());
}

/// Put `places` on top of a stack, the first on top.
fn push_reversed(stack: &mut Vec<usize>, places: &Vec<usize>)
    ensures
        final(stack)@.reverse() == places@ + old(stack)@.reverse(),
{
    let ghost base = stack@.reverse();
    let mut k: usize = places.len();
    assert(places@.skip(k as int) + base =~= base);
    while k > 0
        invariant
            k <= places@.len(),
            stack@.reverse() == places@.skip(k as int) + base,
        decreases k,
    {
        k -= 1;
        proof {
            lemma_reverse_push(stack@, places@[k as int]);
            assert(seq![places@[k as int]] + (places@.skip(k + 1) + base) =~= places@.skip(
                k as int,
            ) + base);
        }
        stack.push(places[k]);
    }
    assert(places@.skip(0) =~= places@);
}

/// Put a place into a list that is sorted by number.
fn put_place(nodes: &Vec<RawNode>, sorted: &mut Vec<usize>, place: usize)
    requires
        place < nodes@.len(),
        placed(nodes@.len(), old(sorted)@),
    ensures
        final(sorted)@ == put_by_id(
            Seq::new(nodes@.len(), |i: int| nodes@[i].id),
            old(sorted)@,
            place,
        ),
{
    let ghost numbers = Seq::new(nodes@.len(), |i: int| nodes@[i].id);
    let ghost before = sorted@;
    let mut at: usize = sorted.len();
    assert(before.take(at as int) =~= before);
    assert(before.skip(at as int) =~= Seq::empty());
    assert(put_by_id(numbers, before, place) + Seq::<usize>::empty() =~= put_by_id(
        numbers,
        before,
        place,
    ));
    while at > 0 && nodes[sorted[at - 1]].id > nodes[place].id
        invariant
            at <= sorted@.len(),
            sorted@ == before,
            place < nodes@.len(),
            placed(nodes@.len(), before),
            numbers == Seq::new(nodes@.len(), |i: int| nodes@[i].id),
            put_by_id(numbers, before, place) == put_by_id(
                numbers,
                before.take(at as int),
                place,
            ) + before.skip(at as int),
        decreases at,
    {
        proof {
            let shorter = before.take(at - 1);
            assert(before.take(at as int).drop_last() =~= shorter);
            assert(before.take(at as int).last() == before[at - 1]);
            assert(put_by_id(numbers, shorter, place).push(before[at - 1]) + before.skip(at as int)
                =~= put_by_id(numbers, shorter, place) + before.skip(at - 1));
        }
        at -= 1;
    }
    proof {
        let start = before.take(at as int);
        if at > 0 {
            assert(start.last() == before[at - 1]);
            assert(before[at - 1] < nodes@.len());
        }
        assert(put_by_id(numbers, start, place) == start.push(place));
        assert(start.push(place) + before.skip(at as int) =~= before.insert(at as int, place));
    }
    sorted.insert(at, place);
}

impl FrameTree {
    /// Visit `start` and all that descends from it, depth first.
    fn collect_order(&self, start: &Vec<usize>, visited: &mut Vec<bool>, order: &mut Vec<usize>)
        requires
            self.wf(),
            placed(self.nodes@.len(), start@),
            orderly(self.shape().children, self.host, old(order)@),
            old(visited)@.len() == self.nodes@.len(),
            forall|i: usize|
                i < self.nodes@.len() ==> #[trigger] old(visited)@[i as int] == old(order)@.contains(i),
        ensures
            final(order)@ == visit(self.shape().children, self.host, start@, old(order)@),
            final(visited)@.len() == self.nodes@.len(),
            forall|i: usize|
                i < self.nodes@.len() ==> #[trigger] final(visited)@[i as int] == final(order)@.contains(i),
    {
        let ghost children = self.shape().children;
        let ghost goal = visit(children, self.host, start@, order@);
        let n = self.nodes.len();
        proof {
            lemma_valid_placed(self.shape());
        }
        let mut stack: Vec<usize> = Vec::new();
        push_reversed(&mut stack, start);
        assert(stack@.reverse() =~= start@);
        while stack.len() > 0
            invariant
                self.wf(),
                n == self.nodes@.len(),
                children == self.shape().children,
                all_placed(children),
                placed(n as nat, stack@.reverse()),
                orderly(children, self.host, order@),
                visited@.len() == n,
                forall|i: usize| i < n ==> #[trigger] visited@[i as int] == order@.contains(i),
                goal == visit(children, self.host, stack@.reverse(), order@),
            decreases n - order@.len(), stack@.len(),
        {
            let index = stack[stack.len() - 1];
            let ghost waiting = stack@.reverse();
            let _ = stack.pop();
            proof {
                assert(stack@.push(index).reverse() =~= waiting);
                lemma_reverse_push(stack@, index);
                assert(waiting[0] == index);
                assert(waiting.drop_first() =~= stack@.reverse());
                assert(waiting[0] < n);
                assert forall|i: int| 0 <= i < stack@.reverse().len() implies
                    #[trigger] stack@.reverse()[i] < n by {
                    assert(stack@.reverse()[i] == waiting[i + 1]);
                }
                lemma_distinct_orderly(children, self.host, order@);
            }
            if is_host(self.host, index) || visited[index] {
                continue ;
            }
            let ghost before = order@;
            proof {
                lemma_push_orderly(children, self.host, before, index);
            }
            visited.set(index, true);
            order.push(index);
            let ghost rest = stack@.reverse();
            push_reversed(&mut stack, &self.children[index]);
            proof {
                assert(placed(children.len(), children[index as int]));
                let more = children[index as int] + rest;
                assert forall|i: int| 0 <= i < more.len() implies #[trigger] more[i] < n by {
                    if i < children[index as int].len() {
                        assert(more[i] == children[index as int][i]);
                    } else {
                        assert(more[i] == rest[i - children[index as int].len()]);
                    }
                }
                assert forall|i: usize| i < n implies #[trigger] visited@[i as int]
                    == order@.contains(i) by {
                    assert(order@[before.len() as int] == index);
                    if before.contains(i) {
                        assert(order@[before.index_of(i)] == i);
                    }
                    if order@.contains(i) && i != index {
                        assert(before[order@.index_of(i)] == i);
                    }
                }
            }
        }
    }

    /// Every node reachable from the root's children, depth first in listed
    /// order, then any unreachable node by number. The host is skipped.
    pub fn depth_first_order(&self) -> (order: Vec<usize>)
        requires
            self.wf(),
        ensures
            order@ == order_of(self.shape()),
    {
        let n = self.nodes.len();
        let ghost shape = self.shape();
        let mut order: Vec<usize> = Vec::new();
        let mut visited: Vec<bool> = Vec::new();
        while visited.len() < n
            invariant
                visited@.len() <= n,
                forall|i: int| 0 <= i < visited@.len() ==> !#[trigger] visited@[i],
            decreases n - visited@.len(),
        {
            visited.push(false);
        }
        proof {
            lemma_valid_placed(shape);
        }
        if let Some(root) = self.root {
            assert(placed(n as nat, shape.children[root as int]));
            self.collect_order(&self.children[root], &mut visited, &mut order);
        }
        assert(order@ == reached(shape));
        let mut leftovers: Vec<usize> = Vec::new();
        let mut i: usize = 0;
        assert(unvisited(order@, 0) =~= Seq::empty());
        while i < n
            invariant
                i <= n,
                n == self.nodes@.len(),
                visited@.len() == n,
                forall|j: usize| j < n ==> #[trigger] visited@[j as int] == order@.contains(j),
                shape == self.shape(),
                leftovers@ == by_id(shape.ids, unvisited(order@, i as nat)),
                placed(n as nat, leftovers@),
            decreases n - i,
        {
            if !visited[i] {
                let ghost before = unvisited(order@, i as nat);
                proof {
                    assert(before.push(i).drop_last() =~= before);
                    assert(before.push(i).last() == i);
                }
                put_place(&self.nodes, &mut leftovers, i);
                proof {
                    lemma_sorted_placed(shape.ids, before.push(i), n as nat, order@, i);
                }
            }
            i += 1;
        }
        proof {
            law_order_is_complete(shape);
        }
        self.collect_order(&leftovers, &mut visited, &mut order);
        order
    }
}

proof fn lemma_sorted_placed(
    ids: Seq<u64>,
    places: Seq<usize>,
    n: nat,
    order: Seq<usize>,
    i: usize,
)
    requires
        i < n <= usize::MAX,
        places == unvisited(order, i as nat).push(i),
    ensures
        placed(n, by_id(ids, places)),
{
    lemma_unvisited(order, i as nat);
    let sorted = by_id(ids, places);
    assert forall|k: int| 0 <= k < sorted.len() implies #[trigger] sorted[k] < n by {
        assert(sorted.contains(sorted[k]));
        lemma_by_id_contains(ids, places, sorted[k]);
        let at = places.index_of(sorted[k]);
        if at < places.len() - 1 {
            assert(unvisited(order, i as nat)[at] < i);
        }
    }
}

/// Whether the host stands at this place.
pub(crate) fn is_host(host: Option<usize>, place: usize) -> (answer: bool)
    ensures
        answer == (host == Some(place)),
{
    match host {
        Some(host) => host == place,
        None => false,
    }
}

} // verus!
