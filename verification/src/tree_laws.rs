//! Laws of trees: in what order elements are published, and how they are nested.

use vstd::prelude::*;

#[allow(unused_imports)]
use crate::ancestry::{
    climb, comes_back, ends_at, grounded, hits, leads, lemma_climb_add, lemma_joined_once,
    lemma_long_climb, lemma_one_end, on_cycle, Parent,
};
#[allow(unused_imports)]
use crate::content::{lemma_settles_longer, settled, settles};
#[allow(unused_imports)]
use crate::identity::{acyclic, lemma_lineage_graph, lemma_up_once, lineage};
#[allow(unused_imports)]
use crate::tree::{
    last_lister, law_order_is_complete, lemma_last_lister, lemma_valid_placed, order_of, orderly,
    placed, reached, shape_of, valid_shape, visit, RawNode, Shape,
};

verus! {

// ---------------------------------------------------------------------------
// Parents
// ---------------------------------------------------------------------------
/// The parents are the last listers.
pub open spec fn linked(shape: Shape) -> bool {
    forall|i: int|
        0 <= i < shape.parent.len() ==> #[trigger] shape.parent[i] == last_lister(
            shape.children,
            i as usize,
            shape.children.len(),
        )
}

/// The relationships of any tree are linked.
pub proof fn law_shapes_are_linked(nodes: Seq<RawNode>, root: Option<u64>)
    ensures
        linked(shape_of(nodes, root)),
{
}

/// No element is listed twice.
pub open spec fn listed_once(shape: Shape) -> bool {
    forall|p: int, a: int, q: int, b: int|
        0 <= p < shape.children.len() && 0 <= a < shape.children[p].len() && 0 <= q
            < shape.children.len() && 0 <= b < shape.children[q].len()
            && #[trigger] shape.children[p][a] == #[trigger] shape.children[q][b] ==> p == q && a
            == b
}

/// No element is listed twice, and the parents of each lead to a root.
pub open spec fn treelike(shape: Shape) -> bool {
    &&& valid_shape(shape)
    &&& linked(shape)
    &&& listed_once(shape)
    &&& acyclic(shape)
}

/// The parent of a place is the host, or is met before `n`.
pub open spec fn ready(shape: Shape, order: Seq<usize>, n: int, place: usize) -> bool {
    match shape.parent[place as int] {
        Some(above) => shape.host == Some(above) || order.take(n).contains(above),
        None => false,
    }
}

/// Every place comes after its parent.
pub open spec fn parents_first(shape: Shape, order: Seq<usize>) -> bool {
    forall|k: int| 0 <= k < order.len() ==> ready(shape, order, k, #[trigger] order[k])
}

/// Whoever lists a place that is listed once is its parent.
proof fn lemma_only_lister(shape: Shape, p: usize, place: usize)
    requires
        valid_shape(shape),
        linked(shape),
        listed_once(shape),
        p < shape.children.len(),
        shape.children[p as int].contains(place),
        place < shape.parent.len(),
    ensures
        shape.parent[place as int] == Some(p),
{
    lemma_last_lister(shape.children, place, shape.children.len());
    assert(shape.parent[place as int] == last_lister(
        shape.children,
        place,
        shape.children.len(),
    ));
    match shape.parent[place as int] {
        Some(q) => {
            let a = shape.children[p as int].index_of(place);
            let b = shape.children[q as int].index_of(place);
            assert(shape.children[p as int][a] == shape.children[q as int][b]);
        },
        None => {
            assert(!shape.children[p as int].contains(place));
        },
    }
}

proof fn lemma_ready_extends(shape: Shape, order: Seq<usize>, longer: Seq<usize>, place: usize)
    requires
        order.is_prefix_of(longer),
        ready(shape, order, order.len() as int, place),
    ensures
        ready(shape, longer, order.len() as int, place),
        ready(shape, longer, longer.len() as int, place),
{
    assert(order.take(order.len() as int) =~= order);
    assert(longer.take(order.len() as int) =~= order);
    assert(longer.take(longer.len() as int) =~= longer);
    if let Some(above) = shape.parent[place as int] {
        if order.contains(above) {
            let at = order.index_of(above);
            assert(longer[at] == above);
        }
    }
}

proof fn lemma_visit_parents_first(shape: Shape, waiting: Seq<usize>, order: Seq<usize>)
    requires
        valid_shape(shape),
        linked(shape),
        listed_once(shape),
        placed(shape.children.len(), waiting),
        orderly(shape.children, shape.host, order),
        parents_first(shape, order),
        forall|i: int|
            0 <= i < waiting.len() ==> ready(
                shape,
                order,
                order.len() as int,
                #[trigger] waiting[i],
            ),
    ensures
        parents_first(shape, visit(shape.children, shape.host, waiting, order)),
    decreases shape.children.len() - order.len(), waiting.len(),
{
    if waiting.len() > 0 {
        let next = waiting[0];
        let rest = waiting.drop_first();
        assert(next < shape.children.len());
        assert forall|i: int| 0 <= i < rest.len() implies #[trigger] rest[i] < shape.children.len()
            && ready(shape, order, order.len() as int, rest[i]) by {
            assert(rest[i] == waiting[i + 1]);
        }
        crate::tree::lemma_distinct_orderly(shape.children, shape.host, order);
        if shape.host == Some(next) || order.contains(next) || order.len()
            >= shape.children.len() {
            lemma_visit_parents_first(shape, rest, order);
        } else {
            crate::tree::lemma_push_orderly(shape.children, shape.host, order, next);
            let longer = order.push(next);
            let more = shape.children[next as int] + rest;
            assert(order.is_prefix_of(longer));
            assert(longer.take(longer.len() as int) =~= longer);
            assert(longer[order.len() as int] == next);
            lemma_valid_placed(shape);
            assert(placed(shape.children.len(), shape.children[next as int]));
            assert forall|i: int| 0 <= i < more.len() implies #[trigger] more[i]
                < shape.children.len() && ready(shape, longer, longer.len() as int, more[i]) by {
                if i < shape.children[next as int].len() {
                    let child = shape.children[next as int][i];
                    assert(more[i] == child);
                    assert(shape.children[next as int].contains(child));
                    lemma_only_lister(shape, next, child);
                    assert(longer.contains(next));
                } else {
                    let j = i - shape.children[next as int].len();
                    assert(more[i] == rest[j]);
                    lemma_ready_extends(shape, order, longer, rest[j]);
                }
            }
            assert(parents_first(shape, longer)) by {
                assert forall|k: int| 0 <= k < longer.len() implies ready(
                    shape,
                    longer,
                    k,
                    #[trigger] longer[k],
                ) by {
                    if k < order.len() {
                        assert(longer[k] == order[k]);
                        assert(longer.take(k) =~= order.take(k));
                    } else {
                        lemma_ready_extends(shape, order, longer, next);
                    }
                }
            }
            lemma_visit_parents_first(shape, more, longer);
        }
    }
}

/// Where the root is the window itself and no element is listed twice, every
/// element that is reached comes after its parent.
pub proof fn law_parents_come_first(shape: Shape)
    requires
        shape.host is Some,
        valid_shape(shape),
        linked(shape),
        listed_once(shape),
    ensures
        parents_first(shape, reached(shape)),
{
    let host = shape.host->0;
    lemma_valid_placed(shape);
    assert(placed(shape.children.len(), shape.children[host as int]));
    assert forall|i: int| 0 <= i < shape.children[host as int].len() implies ready(
        shape,
        Seq::empty(),
        0,
        #[trigger] shape.children[host as int][i],
    ) by {
        let child = shape.children[host as int][i];
        assert(shape.children[host as int].contains(child));
        lemma_only_lister(shape, host, child);
    }
    lemma_visit_parents_first(shape, shape.children[host as int], Seq::empty());
}

// ---------------------------------------------------------------------------
// Nesting
// ---------------------------------------------------------------------------
/// What is `steps` below a root settles with that many levels less.
proof fn lemma_tree_settles(shape: Shape, place: usize, steps: nat)
    requires
        treelike(shape),
        place < shape.parent.len(),
        shape.host != Some(place),
        ends_at(lineage(shape), place, steps, Parent::Root),
    ensures
        steps < shape.parent.len(),
        settles(shape.children, shape.host, place, (shape.parent.len() - steps) as nat),
    decreases shape.parent.len() - steps,
{
    let n = shape.parent.len();
    let parents = lineage(shape);
    lemma_lineage_graph(shape);
    lemma_valid_placed(shape);
    assert(grounded(parents, place));
    if climb(parents, place, n) is Some {
        lemma_long_climb(parents, place);
        lemma_one_end(parents, place);
    }
    if steps >= n {
        lemma_climb_add(parents, place, n, (steps - n) as nat);
        assert(n + (steps - n) as nat == steps);
    }
    assert forall|i: int| 0 <= i < shape.children[place as int].len() implies settles(
        shape.children,
        shape.host,
        #[trigger] shape.children[place as int][i],
        (n - steps - 1) as nat,
    ) by {
        let child = shape.children[place as int][i];
        assert(shape.children[place as int][i] < shape.ids.len());
        if shape.host != Some(child) {
            assert(shape.children[place as int].contains(child));
            lemma_only_lister(shape, place, child);
            assert(parents[child as int] == Parent::Node(place));
            lemma_up_once(parents, child, place, steps + 1);
            assert(ends_at(parents, child, steps + 1, Parent::Root));
            lemma_tree_settles(shape, child, steps + 1);
        }
    }
}

/// In a tree nothing is listed below itself.
pub proof fn law_trees_settle(shape: Shape, place: usize)
    requires
        treelike(shape),
        place < shape.parent.len(),
        shape.host != Some(place),
    ensures
        settled(shape.children, shape.host, place),
{
    assert(grounded(lineage(shape), place));
    let steps = choose|steps: nat| ends_at(lineage(shape), place, steps, Parent::Root);
    lemma_tree_settles(shape, place, steps);
    lemma_settles_longer(
        shape.children,
        shape.host,
        place,
        (shape.parent.len() - steps) as nat,
        shape.parent.len(),
    );
}

// ---------------------------------------------------------------------------
// Depth first
// ---------------------------------------------------------------------------
/// The places of a list and all that is listed below them, `k` levels deep:
/// each before what it lists, and that before the next of the list. The host is
/// left out, with what it lists.
pub open spec fn preorder(
    children: Seq<Seq<usize>>,
    host: Option<usize>,
    list: Seq<usize>,
    k: nat,
) -> Seq<usize>
    decreases k, list.len(),
{
    if k == 0 || list.len() == 0 {
        Seq::empty()
    } else {
        let rest = preorder(children, host, list.drop_first(), k);
        if host == Some(list[0]) {
            rest
        } else {
            seq![list[0]] + preorder(children, host, children[list[0] as int], (k - 1) as nat)
                + rest
        }
    }
}

/// The places of a list and all that is listed below them, depth first.
pub open spec fn depth_first(shape: Shape, list: Seq<usize>) -> Seq<usize> {
    preorder(shape.children, shape.host, list, shape.children.len())
}

proof fn lemma_preorder_joined(
    children: Seq<Seq<usize>>,
    host: Option<usize>,
    a: Seq<usize>,
    b: Seq<usize>,
    k: nat,
)
    ensures
        preorder(children, host, a + b, k) == preorder(children, host, a, k) + preorder(
            children,
            host,
            b,
            k,
        ),
    decreases a.len(),
{
    let left = preorder(children, host, a, k);
    let right = preorder(children, host, b, k);
    if a.len() == 0 {
        assert(a + b =~= b);
        assert(left + right =~= right);
    } else if k > 0 {
        let rest = a.drop_first();
        assert((a + b).drop_first() =~= rest + b);
        assert((a + b)[0] == a[0]);
        lemma_preorder_joined(children, host, rest, b, k);
        if host != Some(a[0]) {
            let head = seq![a[0]] + preorder(
                children,
                host,
                children[a[0] as int],
                (k - 1) as nat,
            );
            let tail = preorder(children, host, rest, k);
            assert(head + (tail + right) =~= (head + tail) + right);
        }
    } else {
        assert(left + right =~= Seq::empty());
    }
}

/// More levels add nothing to what settles.
proof fn lemma_preorder_longer(
    children: Seq<Seq<usize>>,
    host: Option<usize>,
    list: Seq<usize>,
    k: nat,
    m: nat,
)
    requires
        k <= m,
        forall|i: int| 0 <= i < list.len() ==> settles(children, host, #[trigger] list[i], k),
    ensures
        preorder(children, host, list, k) == preorder(children, host, list, m),
    decreases k, list.len(),
{
    if list.len() > 0 && m > 0 {
        let rest = list.drop_first();
        assert(settles(children, host, list[0], k));
        assert forall|i: int| 0 <= i < rest.len() implies settles(
            children,
            host,
            #[trigger] rest[i],
            k,
        ) by {
            assert(rest[i] == list[i + 1]);
        }
        lemma_preorder_longer(children, host, rest, k, m);
        if host != Some(list[0]) {
            lemma_preorder_longer(
                children,
                host,
                children[list[0] as int],
                (k - 1) as nat,
                (m - 1) as nat,
            );
        }
    }
}

proof fn lemma_first_of_joined(order: Seq<usize>, next: usize, more: Seq<usize>)
    requires
        (order + (seq![next] + more)).no_duplicates(),
    ensures
        !order.contains(next),
        (order.push(next) + more).no_duplicates(),
{
    let all = order + (seq![next] + more);
    assert(all[order.len() as int] == next);
    if order.contains(next) {
        let at = order.index_of(next);
        assert(all[at] == next);
    }
    assert(order.push(next) + more =~= all);
}

/// Where nothing is met twice, visiting is going depth first.
proof fn lemma_visit_preorder(
    children: Seq<Seq<usize>>,
    host: Option<usize>,
    waiting: Seq<usize>,
    order: Seq<usize>,
    k: nat,
)
    requires
        children.len() <= usize::MAX,
        crate::tree::all_placed(children),
        placed(children.len(), waiting),
        orderly(children, host, order),
        forall|i: int| 0 <= i < waiting.len() ==> settles(children, host, #[trigger] waiting[i], k),
        (order + preorder(children, host, waiting, k)).no_duplicates(),
    ensures
        visit(children, host, waiting, order) == order + preorder(children, host, waiting, k),
    decreases children.len() - order.len(), waiting.len(),
{
    let all = preorder(children, host, waiting, k);
    if waiting.len() == 0 {
        assert(order + all =~= order);
    } else {
        let next = waiting[0];
        let rest = waiting.drop_first();
        assert(next < children.len());
        assert(settles(children, host, waiting[0], k));
        assert forall|i: int| 0 <= i < rest.len() implies #[trigger] rest[i] < children.len()
            && settles(children, host, rest[i], k) by {
            assert(rest[i] == waiting[i + 1]);
        }
        if host == Some(next) {
            if k == 0 {
                assert(preorder(children, host, rest, k) =~= all);
            }
            lemma_visit_preorder(children, host, rest, order, k);
        } else {
            let list = children[next as int];
            let more = list + rest;
            let below = preorder(children, host, list, k);
            let behind = preorder(children, host, rest, k);
            lemma_preorder_longer(children, host, list, (k - 1) as nat, k);
            lemma_preorder_joined(children, host, list, rest, k);
            assert(all =~= seq![next] + (below + behind));
            lemma_first_of_joined(order, next, below + behind);
            crate::tree::lemma_push_orderly(children, host, order, next);
            assert(placed(children.len(), children[next as int]));
            assert forall|i: int| 0 <= i < more.len() implies #[trigger] more[i] < children.len()
                && settles(children, host, more[i], k) by {
                if i < list.len() {
                    assert(more[i] == children[next as int][i]);
                    assert(settles(children, host, children[next as int][i], (k - 1) as nat));
                    lemma_settles_longer(children, host, more[i], (k - 1) as nat, k);
                } else {
                    assert(more[i] == rest[i - list.len()]);
                }
            }
            lemma_visit_preorder(children, host, more, order.push(next), k);
            assert(order.push(next) + (below + behind) =~= order + all);
        }
    }
}

/// Whatever is met below a list has one of the list as an ancestor.
proof fn lemma_preorder_climb(shape: Shape, list: Seq<usize>, k: nat, x: usize) -> (found: (
    int,
    nat,
))
    requires
        treelike(shape),
        placed(shape.children.len(), list),
        preorder(shape.children, shape.host, list, k).contains(x),
    ensures
        0 <= found.0 < list.len(),
        shape.host != Some(list[found.0]),
        climb(lineage(shape), x, found.1) == Some(list[found.0]),
    decreases k, list.len(),
{
    let all = preorder(shape.children, shape.host, list, k);
    let at = all.index_of(x);
    let first = list[0];
    let rest = list.drop_first();
    assert(first < shape.children.len());
    assert(placed(shape.children.len(), rest)) by {
        assert forall|i: int| 0 <= i < rest.len() implies #[trigger] rest[i]
            < shape.children.len() by {
            assert(rest[i] == list[i + 1]);
        }
    }
    if shape.host == Some(first) {
        let (i, steps) = lemma_preorder_climb(shape, rest, k, x);
        (i + 1, steps)
    } else {
        let under = shape.children[first as int];
        let below = preorder(shape.children, shape.host, under, (k - 1) as nat);
        let behind = preorder(shape.children, shape.host, rest, k);
        lemma_valid_placed(shape);
        assert(placed(shape.children.len(), shape.children[first as int]));
        if at == 0 {
            assert(climb(lineage(shape), x, 0) == Some(x));
            (0, 0)
        } else if at <= below.len() {
            assert(below[at - 1] == x);
            let (i, steps) = lemma_preorder_climb(shape, under, (k - 1) as nat, x);
            let child = under[i];
            assert(shape.children[first as int].contains(child));
            assert(child < shape.children.len());
            lemma_only_lister(shape, first, child);
            assert(lineage(shape)[child as int] == Parent::Node(first));
            assert(climb(lineage(shape), x, steps + 1) == Some(first));
            (0, steps + 1)
        } else {
            assert(behind[at - 1 - below.len()] == x);
            let (i, steps) = lemma_preorder_climb(shape, rest, k, x);
            (i + 1, steps)
        }
    }
}

/// No place of an acyclic tree is its own ancestor.
proof fn lemma_no_return(shape: Shape, place: usize, steps: nat)
    requires
        valid_shape(shape),
        acyclic(shape),
        place < shape.parent.len(),
        steps > 0,
    ensures
        climb(lineage(shape), place, steps) != Some(place),
{
    if climb(lineage(shape), place, steps) == Some(place) {
        assert(comes_back(lineage(shape), place, steps));
        assert(on_cycle(lineage(shape), place));
        assert(climb(lineage(shape), place, 0) == Some(place));
        assert(hits(lineage(shape), place, 0));
        assert(leads(lineage(shape), place));
        assert(grounded(lineage(shape), place));
        lemma_lineage_graph(shape);
        lemma_one_end(lineage(shape), place);
    }
}

/// Nothing below a place is below a sibling of it.
proof fn lemma_siblings(shape: Shape, x: usize, a: usize, t: nat, b: usize, s: nat)
    requires
        valid_shape(shape),
        acyclic(shape),
        a < shape.parent.len(),
        b < shape.parent.len(),
        a != b,
        t <= s,
        lineage(shape)[a as int] == lineage(shape)[b as int],
        climb(lineage(shape), x, t) == Some(a),
    ensures
        climb(lineage(shape), x, s) != Some(b),
{
    let parents = lineage(shape);
    let up = (s - t) as nat;
    lemma_lineage_graph(shape);
    lemma_climb_add(parents, x, t, up);
    assert(t + up == s);
    if climb(parents, x, s) == Some(b) {
        assert(climb(parents, a, up) == Some(b));
        assert(climb(parents, a, 0) == Some(a));
        assert(up > 0);
        match parents[a as int] {
            Parent::Node(p) => {
                assert(match parents[a as int] {
                    Parent::Node(p) => p < parents.len(),
                    _ => true,
                });
                lemma_up_once(parents, a, p, up);
                assert(climb(parents, p, up) == Some(p));
                lemma_no_return(shape, p, up);
            },
            _ => {
                assert(climb(parents, a, 1) is None);
                lemma_climb_add(parents, a, 1, (up - 1) as nat);
                assert(1 + (up - 1) as nat == up);
            },
        }
    }
}

/// All places of a list but the host have the same parent.
pub open spec fn siblings(shape: Shape, list: Seq<usize>, parent: Parent) -> bool {
    forall|i: int|
        0 <= i < list.len() && shape.host != Some(#[trigger] list[i]) ==> lineage(
            shape,
        )[list[i] as int] == parent
}

/// What a place lists are siblings, each listed once.
proof fn lemma_children_siblings(shape: Shape, place: usize)
    requires
        treelike(shape),
        place < shape.children.len(),
    ensures
        placed(shape.children.len(), shape.children[place as int]),
        shape.children[place as int].no_duplicates(),
        siblings(
            shape,
            shape.children[place as int],
            if shape.host == Some(place) {
                Parent::Root
            } else {
                Parent::Node(place)
            },
        ),
{
    let list = shape.children[place as int];
    lemma_valid_placed(shape);
    assert(placed(shape.children.len(), shape.children[place as int]));
    assert forall|i: int, j: int| 0 <= i < list.len() && 0 <= j < list.len() && i != j implies list[i]
        != list[j] by {
        assert(shape.children[place as int][i] != shape.children[place as int][j]);
    }
    assert forall|i: int| 0 <= i < list.len() && shape.host != Some(#[trigger] list[i]) implies lineage(
        shape,
    )[list[i] as int] == (if shape.host == Some(place) {
        Parent::Root
    } else {
        Parent::Node(place)
    }) by {
        assert(list[i] < shape.children.len());
        assert(shape.children[place as int].contains(list[i]));
        lemma_only_lister(shape, place, list[i]);
    }
}

/// Going depth first through siblings meets nothing twice.
proof fn lemma_preorder_distinct(shape: Shape, list: Seq<usize>, k: nat, parent: Parent)
    requires
        treelike(shape),
        placed(shape.children.len(), list),
        list.no_duplicates(),
        siblings(shape, list, parent),
    ensures
        preorder(shape.children, shape.host, list, k).no_duplicates(),
    decreases k, list.len(),
{
    if k > 0 && list.len() > 0 {
        let first = list[0];
        let rest = list.drop_first();
        let behind = preorder(shape.children, shape.host, rest, k);
        assert(first < shape.children.len());
        assert forall|i: int| 0 <= i < rest.len() implies #[trigger] rest[i] < shape.children.len()
            && rest[i] != first && (shape.host != Some(rest[i]) ==> lineage(shape)[rest[i] as int]
            == parent) by {
            assert(rest[i] == list[i + 1]);
            assert(list[i + 1] != list[0]);
        }
        assert(rest.no_duplicates()) by {
            assert forall|i: int, j: int|
                0 <= i < rest.len() && 0 <= j < rest.len() && i != j implies rest[i] != rest[j] by {
                assert(list[i + 1] != list[j + 1]);
            }
        }
        lemma_preorder_distinct(shape, rest, k, parent);
        if shape.host != Some(first) {
            let under = shape.children[first as int];
            let below = preorder(shape.children, shape.host, under, (k - 1) as nat);
            lemma_children_siblings(shape, first);
            lemma_preorder_distinct(shape, under, (k - 1) as nat, Parent::Node(first));
            let head = seq![first];
            assert(climb(lineage(shape), first, 0) == Some(first));
            assert forall|x: usize| head.contains(x) implies !#[trigger] below.contains(x) by {
                assert(x == first);
                if below.contains(first) {
                    let (i, steps) = lemma_preorder_climb(shape, under, (k - 1) as nat, first);
                    assert(under[i] < shape.children.len());
                    assert(climb(lineage(shape), first, steps + 1) == Some(first));
                    lemma_no_return(shape, first, steps + 1);
                }
            }
            lemma_joined_once(head, below);
            let start = head + below;
            assert forall|x: usize| start.contains(x) implies !#[trigger] behind.contains(x) by {
                if behind.contains(x) {
                    let (j, s) = lemma_preorder_climb(shape, rest, k, x);
                    assert(rest[j] < shape.children.len());
                    let at = start.index_of(x);
                    let t = if at == 0 {
                        0
                    } else {
                        assert(below[at - 1] == x);
                        let (i, steps) = lemma_preorder_climb(shape, under, (k - 1) as nat, x);
                        assert(under[i] < shape.children.len());
                        assert(climb(lineage(shape), x, steps + 1) == Some(first));
                        steps + 1
                    };
                    assert(climb(lineage(shape), x, t) == Some(first));
                    assert(lineage(shape)[first as int] == parent) by {
                        assert(shape.host != Some(list[0]));
                    }
                    if t <= s {
                        lemma_siblings(shape, x, first, t, rest[j], s);
                    } else {
                        lemma_siblings(shape, x, rest[j], s, first, t);
                    }
                }
            }
            lemma_joined_once(start, behind);
        }
    }
}

/// The list of an element settles.
proof fn lemma_lists_settle(shape: Shape, list: Seq<usize>)
    requires
        treelike(shape),
        placed(shape.children.len(), list),
    ensures
        forall|i: int|
            0 <= i < list.len() ==> settled(shape.children, shape.host, #[trigger] list[i]),
{
    assert forall|i: int| 0 <= i < list.len() implies settled(
        shape.children,
        shape.host,
        #[trigger] list[i],
    ) by {
        assert(list[i] < shape.children.len());
        if shape.host != Some(list[i]) {
            law_trees_settle(shape, list[i]);
        }
    }
}

/// Depth first means: an element, then depth first what it lists, then depth
/// first what follows it.
pub proof fn law_elements_come_before_their_lists(shape: Shape, place: usize, rest: Seq<usize>)
    requires
        treelike(shape),
        place < shape.children.len(),
        shape.host != Some(place),
        placed(shape.children.len(), rest),
    ensures
        depth_first(shape, seq![place] + rest) == seq![place] + depth_first(
            shape,
            shape.children[place as int],
        ) + depth_first(shape, rest),
{
    let n = shape.children.len();
    let list = shape.children[place as int];
    law_trees_settle(shape, place);
    assert((seq![place] + rest).drop_first() =~= rest);
    assert forall|i: int| 0 <= i < list.len() implies settles(
        shape.children,
        shape.host,
        #[trigger] list[i],
        (n - 1) as nat,
    ) by {
        assert(settles(
            shape.children,
            shape.host,
            shape.children[place as int][i],
            (n - 1) as nat,
        ));
    }
    lemma_preorder_longer(shape.children, shape.host, list, (n - 1) as nat, n);
}

/// A tree is published depth first from what its root lists; behind that comes
/// everything else, once.
pub proof fn law_trees_are_published_depth_first(shape: Shape, root: usize)
    requires
        treelike(shape),
        shape.root == Some(root),
    ensures
        ({
            let first = depth_first(shape, shape.children[root as int]);
            let rest = order_of(shape).skip(first.len() as int);
            &&& reached(shape) == first
            &&& order_of(shape) == first + rest
            &&& order_of(shape).no_duplicates()
            &&& forall|i: usize|
                i < shape.ids.len() && shape.host != Some(i) ==> (#[trigger] rest.contains(i)
                    <==> !first.contains(i))
        }),
{
    let n = shape.children.len();
    let list = shape.children[root as int];
    let first = depth_first(shape, list);
    let order = order_of(shape);
    let rest = order.skip(first.len() as int);
    lemma_valid_placed(shape);
    lemma_children_siblings(shape, root);
    lemma_lists_settle(shape, list);
    if shape.host == Some(root) {
        lemma_preorder_distinct(shape, list, n, Parent::Root);
    } else {
        lemma_preorder_distinct(shape, list, n, Parent::Node(root));
    }
    assert(Seq::<usize>::empty() + first =~= first);
    assert(orderly(shape.children, shape.host, Seq::empty()));
    lemma_visit_preorder(shape.children, shape.host, list, Seq::empty(), n);
    law_order_is_complete(shape);
    assert(order =~= first + rest);
    assert forall|i: usize| i < shape.ids.len() && shape.host != Some(i) implies (
    #[trigger] rest.contains(i) <==> !first.contains(i)) by {
        assert(order.contains(i));
        let at = order.index_of(i);
        if at < first.len() {
            assert(first[at] == i);
        } else {
            assert(rest[at - first.len()] == i);
        }
        if rest.contains(i) && first.contains(i) {
            let a = first.index_of(i);
            let b = rest.index_of(i);
            assert(order[a] == order[first.len() + b]);
        }
    }
}

} // verus!
