//! Laws of shapes: how an element's numbers, lists, and flags come out as
//! places, parents, order, hiding, and content.

use vstd::prelude::*;

#[allow(unused_imports)]
use crate::access::{law_what_roles_mean, law_words_for_roles, role_word, AccessRole};
#[allow(unused_imports)]
use crate::ancestry::{
    climb, comes_back, ends_at, grounded, hits, lemma_climb_bounded, lemma_every_end, lemma_one_end,
    lost, Parent,
};
#[allow(unused_imports)]
use crate::content::{
    children_words, contents_along, contents_of, hidden_above, lemma_hidden_above,
    lemma_settles_longer, settled, settled_contents, settles, text_of_words,
};
#[allow(unused_imports)]
use crate::identity::{acyclic, lemma_lineage_graph, lineage};
#[allow(unused_imports)]
use crate::protocol::Role;
#[allow(unused_imports)]
use crate::text::{
    all_words, decimal_value, law_decimals_spell_their_numbers, law_written_words_are_read_back,
    with_words, words,
};
#[allow(unused_imports)]
use crate::tree::{
    by_id, last_lister, law_order_is_complete, lemma_distinct_orderly, lemma_push_orderly,
    lemma_valid_placed, order_of, orderly, place_of, placed, places_of, put_by_id, reached,
    shape_of, unvisited, valid_shape, visit, RawNode, Shape,
};

verus! {

// ---------------------------------------------------------------------------
// Places
// ---------------------------------------------------------------------------
/// A number stands for the last element that has it, and for none where no
/// element has it.
pub proof fn law_numbers_find_their_elements(nodes: Seq<RawNode>, id: u64, i: usize)
    requires
        nodes.len() <= usize::MAX,
    ensures
        place_of(nodes, id) == Some(i) <==> i < nodes.len() && nodes[i as int].id == id
            && forall|j: int| i < j < nodes.len() ==> (#[trigger] nodes[j]).id != id,
        place_of(nodes, id) is None <==> forall|j: int|
            0 <= j < nodes.len() ==> (#[trigger] nodes[j]).id != id,
    decreases nodes.len(),
{
    if nodes.len() > 0 {
        let rest = nodes.drop_last();
        law_numbers_find_their_elements(rest, id, i);
        assert forall|j: int| 0 <= j < rest.len() implies rest[j] == nodes[j] by {}
        if nodes.last().id == id {
            assert(nodes[nodes.len() - 1].id == id);
        } else {
            if place_of(rest, id) == Some(i) {
                assert forall|j: int| i < j < nodes.len() implies (#[trigger] nodes[j]).id
                    != id by {
                    if j < rest.len() {
                        assert(rest[j].id != id);
                    }
                }
            }
            if i < nodes.len() && nodes[i as int].id == id && forall|j: int|
                i < j < nodes.len() ==> (#[trigger] nodes[j]).id != id {
                assert forall|j: int| i < j < rest.len() implies (#[trigger] rest[j]).id
                    != id by {
                    assert(nodes[j].id != id);
                }
            }
            if place_of(rest, id) is None {
                assert forall|j: int| 0 <= j < nodes.len() implies (#[trigger] nodes[j]).id
                    != id by {
                    if j < rest.len() {
                        assert(rest[j].id != id);
                    }
                }
            }
            if forall|j: int| 0 <= j < nodes.len() ==> (#[trigger] nodes[j]).id != id {
                assert forall|j: int| 0 <= j < rest.len() implies (#[trigger] rest[j]).id
                    != id by {
                    assert(nodes[j].id != id);
                }
            }
        }
    }
}

/// Listed numbers become places one by one and in order; a number that no
/// element has is passed over.
pub proof fn law_lists_keep_their_order(nodes: Seq<RawNode>, ids: Seq<u64>, id: u64)
    ensures
        places_of(nodes, Seq::empty()) == Seq::<usize>::empty(),
        places_of(nodes, ids.push(id)) == match place_of(nodes, id) {
            Some(place) => places_of(nodes, ids).push(place),
            None => places_of(nodes, ids),
        },
{
    assert(ids.push(id).drop_last() =~= ids);
}

/// The parent of an element is the last one that lists it; who is not listed
/// has none.
pub proof fn law_listers_are_parents(children: Seq<Seq<usize>>, child: usize, p: usize)
    requires
        children.len() <= usize::MAX,
    ensures
        last_lister(children, child, children.len()) == Some(p) <==> p < children.len()
            && children[p as int].contains(child) && forall|q: int|
            p < q < children.len() ==> !(#[trigger] children[q]).contains(child),
        last_lister(children, child, children.len()) is None <==> forall|q: int|
            0 <= q < children.len() ==> !(#[trigger] children[q]).contains(child),
{
    lemma_lister(children, child, p, children.len());
}

proof fn lemma_lister(children: Seq<Seq<usize>>, child: usize, p: usize, n: nat)
    requires
        n <= children.len() <= usize::MAX,
    ensures
        last_lister(children, child, n) == Some(p) <==> p < n && children[p as int].contains(child)
            && forall|q: int| p < q < n ==> !(#[trigger] children[q]).contains(child),
        last_lister(children, child, n) is None <==> forall|q: int|
            0 <= q < n ==> !(#[trigger] children[q]).contains(child),
    decreases n,
{
    if n > 0 {
        lemma_lister(children, child, p, (n - 1) as nat);
        if children[n - 1].contains(child) {
            assert(!(forall|q: int| 0 <= q < n ==> !(#[trigger] children[q]).contains(child)));
        }
    }
}

/// What a tree's shape says of each element: its number, its own name, what it
/// lists, and who lists it last. The root is the host where it has no element
/// id of its own.
pub proof fn law_shapes_say_what_elements_say(nodes: Seq<RawNode>, root: Option<u64>, i: usize)
    requires
        nodes.len() <= usize::MAX,
        i < nodes.len(),
    ensures
        ({
            let shape = shape_of(nodes, root);
            let raw = nodes[i as int];
            &&& shape.ids.len() == nodes.len()
            &&& shape.ids[i as int] == raw.id
            &&& raw.lookup.element_id matches Some(name) ==> shape.names[i as int] == name@
            &&& raw.lookup.element_id is None ==> decimal_value(shape.names[i as int]) == raw.id
            &&& shape.children[i as int] == places_of(nodes, raw.node.children@)
            &&& shape.parent[i as int] == last_lister(shape.children, i, nodes.len())
            &&& shape.root == Some(i) <==> (root matches Some(id) && place_of(nodes, id) == Some(i))
            &&& shape.host == Some(i) <==> shape.root == Some(i) && raw.lookup.element_id is None
        }),
{
    law_decimals_spell_their_numbers(nodes[i as int].id as nat);
}

// ---------------------------------------------------------------------------
// Cycles
// ---------------------------------------------------------------------------
/// The place at `k` is listed by the next one, and neither is the host.
pub open spec fn step_up(shape: Shape, chain: Seq<usize>, k: int) -> bool {
    &&& shape.host != Some(chain[k])
    &&& shape.host != Some(chain[k + 1])
    &&& shape.parent[chain[k] as int] == Some(chain[k + 1])
}

/// Every place of the chain but the last has the next one for a parent.
pub open spec fn chain_up(shape: Shape, chain: Seq<usize>) -> bool {
    forall|k: int| 0 <= k < chain.len() - 1 ==> #[trigger] step_up(shape, chain, k)
}

proof fn lemma_chain_climb(shape: Shape, chain: Seq<usize>, k: int)
    requires
        valid_shape(shape),
        chain_up(shape, chain),
        chain.len() > 0,
        chain[0] < shape.parent.len(),
        0 <= k < chain.len(),
    ensures
        climb(lineage(shape), chain[0], k as nat) == Some(chain[k]),
        chain[k] < shape.parent.len(),
    decreases k,
{
    if k > 0 {
        lemma_chain_climb(shape, chain, k - 1);
        assert(step_up(shape, chain, k - 1));
        assert(match shape.parent[chain[k - 1] as int] {
            Some(p) => p < shape.parent.len(),
            None => true,
        });
    }
}

/// In an acyclic tree no element is its own ancestor below the host.
pub proof fn law_acyclic_trees_have_no_cycle(shape: Shape, chain: Seq<usize>)
    requires
        valid_shape(shape),
        acyclic(shape),
        chain_up(shape, chain),
        chain.len() > 1,
        chain[0] < shape.parent.len(),
    ensures
        chain[0] != chain.last(),
{
    let parents = lineage(shape);
    let i = chain[0];
    lemma_chain_climb(shape, chain, chain.len() - 1);
    if chain.last() == i {
        assert(comes_back(parents, i, (chain.len() - 1) as nat));
        assert(climb(parents, i, 0) == Some(i));
        assert(hits(parents, i, 0));
        assert(grounded(parents, i));
        lemma_one_end(parents, i);
    }
}

/// A tree that is not acyclic has an element that is its own ancestor below the
/// host.
pub proof fn law_cyclic_trees_have_a_cycle(shape: Shape) -> (chain: Seq<usize>)
    requires
        valid_shape(shape),
        !acyclic(shape),
    ensures
        chain_up(shape, chain),
        chain.len() > 1,
        chain[0] < shape.parent.len(),
        chain[0] == chain.last(),
{
    let parents = lineage(shape);
    lemma_lineage_graph(shape);
    let i = choose|i: usize| i < shape.parent.len() && !#[trigger] grounded(parents, i);
    lemma_every_end(parents, i);
    if lost(parents, i) {
        let k = choose|k: nat| ends_at(parents, i, k, Parent::Missing);
        lemma_climb_bounded(parents, i, k);
        let j = climb(parents, i, k)->0;
        assert(parents[j as int] != Parent::Missing);
    }
    let k = choose|k: nat| hits(parents, i, k);
    lemma_climb_bounded(parents, i, k);
    let at = climb(parents, i, k)->0;
    let turn = choose|turn: nat| comes_back(parents, at, turn);
    let chain = Seq::new(turn + 1, |t: int| climb(parents, at, t as nat)->0);
    assert(climb(parents, at, 0) == Some(at));
    assert forall|t: int| 0 <= t < chain.len() - 1 implies #[trigger] step_up(shape, chain, t) by {
        lemma_climbed(parents, at, turn, t as nat);
        lemma_climbed(parents, at, turn, (t + 1) as nat);
        lemma_climb_bounded(parents, at, t as nat);
        assert(climb(parents, at, (t + 1) as nat) == Some(chain[t + 1]));
        assert(parents[chain[t] as int] == Parent::Node(chain[t + 1]));
    }
    chain
}

/// Whoever climbs `turn` steps has climbed any fewer.
pub proof fn lemma_climbed(parents: Seq<Parent>, i: usize, turn: nat, k: nat)
    requires
        climb(parents, i, turn) is Some,
        k <= turn,
    ensures
        climb(parents, i, k) is Some,
    decreases turn - k,
{
    if k < turn {
        lemma_climbed(parents, i, turn, k + 1);
    }
}

// ---------------------------------------------------------------------------
// What cannot be reached
// ---------------------------------------------------------------------------
pub open spec fn sorted_by_number(ids: Seq<u64>, places: Seq<usize>) -> bool {
    forall|a: int, b: int|
        0 <= a <= b < places.len() ==> ids[#[trigger] places[a] as int]
            <= ids[#[trigger] places[b] as int]
}

proof fn lemma_put_sorted(ids: Seq<u64>, sorted: Seq<usize>, place: usize)
    requires
        sorted_by_number(ids, sorted),
    ensures
        sorted_by_number(ids, put_by_id(ids, sorted, place)),
        forall|b: int|
            0 <= b < put_by_id(ids, sorted, place).len() ==> (#[trigger] put_by_id(
                ids,
                sorted,
                place,
            )[b]) == place || sorted.contains(put_by_id(ids, sorted, place)[b]),
    decreases sorted.len(),
{
    let longer = put_by_id(ids, sorted, place);
    if sorted.len() == 0 || ids[sorted.last() as int] <= ids[place as int] {
        assert forall|a: int, b: int| 0 <= a <= b < longer.len() implies ids[
            #[trigger] longer[a] as int] <= ids[#[trigger] longer[b] as int] by {
            if a < sorted.len() {
                assert(sorted[a] == longer[a]);
                assert(ids[sorted[a] as int] <= ids[sorted[sorted.len() - 1] as int]);
            }
        }
        assert forall|b: int| 0 <= b < longer.len() implies (#[trigger] longer[b]) == place
            || sorted.contains(longer[b]) by {
            if b < sorted.len() {
                assert(sorted[b] == longer[b]);
            }
        }
    } else {
        let front = sorted.drop_last();
        let last = sorted.last();
        assert forall|a: int, b: int| 0 <= a <= b < front.len() implies ids[
            #[trigger] front[a] as int] <= ids[#[trigger] front[b] as int] by {
            assert(front[a] == sorted[a] && front[b] == sorted[b]);
        }
        lemma_put_sorted(ids, front, place);
        let before = put_by_id(ids, front, place);
        assert forall|b: int| 0 <= b < before.len() implies ids[#[trigger] before[b] as int]
            <= ids[last as int] by {
            if before[b] != place {
                let at = front.index_of(before[b]);
                assert(sorted[at] == before[b]);
                assert(sorted[sorted.len() - 1] == last);
            }
        }
        assert forall|a: int, b: int| 0 <= a <= b < longer.len() implies ids[
            #[trigger] longer[a] as int] <= ids[#[trigger] longer[b] as int] by {
            if b < before.len() {
                assert(before[a] == longer[a] && before[b] == longer[b]);
            } else if a < before.len() {
                assert(before[a] == longer[a]);
            }
        }
        assert forall|b: int| 0 <= b < longer.len() implies (#[trigger] longer[b]) == place
            || sorted.contains(longer[b]) by {
            if b < before.len() {
                assert(before[b] == longer[b]);
                if before[b] != place {
                    let at = front.index_of(before[b]);
                    assert(sorted[at] == before[b]);
                }
            } else {
                assert(sorted[sorted.len() - 1] == last);
            }
        }
    }
}

proof fn lemma_sorted(ids: Seq<u64>, places: Seq<usize>)
    ensures
        sorted_by_number(ids, by_id(ids, places)),
    decreases places.len(),
{
    if places.len() > 0 {
        lemma_sorted(ids, places.drop_last());
        lemma_put_sorted(ids, by_id(ids, places.drop_last()), places.last());
    }
}

/// The place at `m` is listed by one that stands before it, at `base` or behind.
pub open spec fn listed_before(
    children: Seq<Seq<usize>>,
    order: Seq<usize>,
    base: int,
    m: int,
) -> bool {
    exists|k: int| base <= k < m && children[#[trigger] order[k] as int].contains(order[m])
}

/// No place behind `m` has a smaller number than the place at `m`.
pub open spec fn least_behind(ids: Seq<u64>, order: Seq<usize>, m: int) -> bool {
    forall|n: int|
        m < n < order.len() ==> ids[order[m] as int] <= ids[#[trigger] order[n] as int]
}

proof fn lemma_visit_by_number(
    shape: Shape,
    listed: Seq<usize>,
    sorted: Seq<usize>,
    j: int,
    base: int,
    order: Seq<usize>,
)
    requires
        valid_shape(shape),
        sorted_by_number(shape.ids, sorted),
        placed(shape.children.len(), sorted),
        placed(shape.children.len(), listed),
        orderly(shape.children, shape.host, order),
        0 <= j <= sorted.len(),
        0 <= base <= order.len(),
        // What was passed is met.
        forall|s: int|
            0 <= s < j ==> shape.host == Some(#[trigger] sorted[s]) || order.contains(sorted[s]),
        // What is still to come was put in.
        forall|i: usize|
            i < shape.children.len() && !order.contains(i) && shape.host != Some(i)
                ==> #[trigger] sorted.contains(i),
        // What waits in front was listed.
        forall|s: int|
            0 <= s < listed.len() ==> exists|k: int|
                base <= k < order.len() && shape.children[#[trigger] order[k] as int].contains(
                    #[trigger] listed[s],
                ),
    ensures
        ({
            let met = visit(shape.children, shape.host, listed + sorted.skip(j), order);
            &&& order.is_prefix_of(met)
            &&& orderly(shape.children, shape.host, met)
            &&& forall|m: int|
                order.len() <= m < met.len() ==> #[trigger] listed_before(
                    shape.children,
                    met,
                    base,
                    m,
                ) || least_behind(shape.ids, met, m)
        }),
    decreases shape.children.len() - order.len(), listed.len() + sorted.len() - j,
{
    let children = shape.children;
    let host = shape.host;
    let waiting = listed + sorted.skip(j);
    let met = visit(children, host, waiting, order);
    lemma_valid_placed(shape);
    lemma_distinct_orderly(children, host, order);
    if waiting.len() > 0 {
        let next = waiting[0];
        let rest = waiting.drop_first();
        let from_list = listed.len() > 0;
        let front = if from_list {
            listed.drop_first()
        } else {
            listed
        };
        let i = if from_list {
            j
        } else {
            j + 1
        };
        assert(rest =~= front + sorted.skip(i));
        assert(next == if from_list {
            listed[0]
        } else {
            sorted[j]
        });
        assert(next < children.len());
        assert(placed(children.len(), front)) by {
            assert forall|s: int| 0 <= s < front.len() implies #[trigger] front[s]
                < children.len() by {
                assert(front[s] == listed[s + 1]);
            }
        }
        if host == Some(next) || order.contains(next) || order.len() >= children.len() {
            if order.len() >= children.len() && host != Some(next) && !order.contains(next) {
                lemma_push_orderly(children, host, order, next);
            }
            assert forall|s: int| 0 <= s < front.len() implies exists|k: int|
                base <= k < order.len() && children[#[trigger] order[k] as int].contains(
                    #[trigger] front[s],
                ) by {
                assert(front[s] == listed[s + 1]);
            }
            lemma_visit_by_number(shape, front, sorted, i, base, order);
        } else {
            lemma_push_orderly(children, host, order, next);
            let longer = order.push(next);
            let list = children[next as int] + front;
            assert(placed(children.len(), children[next as int]));
            assert(placed(children.len(), list)) by {
                assert forall|s: int| 0 <= s < list.len() implies #[trigger] list[s]
                    < children.len() by {
                    if s < children[next as int].len() {
                        assert(list[s] == children[next as int][s]);
                    } else {
                        assert(list[s] == front[s - children[next as int].len()]);
                    }
                }
            }
            assert(children[next as int] + rest =~= list + sorted.skip(i));
            assert(longer[order.len() as int] == next);
            assert forall|x: usize| order.contains(x) implies #[trigger] longer.contains(x) by {
                assert(longer[order.index_of(x)] == x);
            }
            assert(longer.contains(next));
            assert forall|s: int| 0 <= s < i implies host == Some(#[trigger] sorted[s])
                || longer.contains(sorted[s]) by {}
            assert forall|x: usize|
                x < children.len() && !longer.contains(x) && host != Some(x) implies
                #[trigger] sorted.contains(x) by {
                assert(!order.contains(x));
            }
            assert forall|s: int| 0 <= s < list.len() implies exists|k: int|
                base <= k < longer.len() && children[#[trigger] longer[k] as int].contains(
                    #[trigger] list[s],
                ) by {
                if s < children[next as int].len() {
                    assert(list[s] == children[next as int][s]);
                    assert(children[longer[order.len() as int] as int].contains(list[s]));
                } else {
                    let t = s - children[next as int].len() + 1;
                    assert(list[s] == listed[t]);
                    let k = choose|k: int|
                        base <= k < order.len() && children[#[trigger] order[k] as int].contains(
                            listed[t],
                        );
                    assert(longer[k] == order[k]);
                }
            }
            lemma_visit_by_number(shape, list, sorted, i, base, longer);
            lemma_visited_next(shape, listed, sorted, j, base, order, met);
            assert forall|m: int| order.len() <= m < met.len() implies #[trigger] listed_before(
                children,
                met,
                base,
                m,
            ) || least_behind(shape.ids, met, m) by {
                if m > order.len() {
                    assert(longer.len() <= m);
                }
            }
            assert(order.is_prefix_of(met)) by {
                assert forall|s: int| 0 <= s < order.len() implies order[s] == met[s] by {
                    assert(longer[s] == met[s]);
                }
            }
        }
    } else {
        assert(met == order);
    }
}

/// What is met next was listed before, or has the least number of all that
/// come.
proof fn lemma_visited_next(
    shape: Shape,
    listed: Seq<usize>,
    sorted: Seq<usize>,
    j: int,
    base: int,
    order: Seq<usize>,
    met: Seq<usize>,
)
    requires
        sorted_by_number(shape.ids, sorted),
        0 <= j <= sorted.len(),
        0 <= base <= order.len(),
        order.len() < met.len(),
        orderly(shape.children, shape.host, met),
        (listed + sorted.skip(j)).len() > 0,
        order.push((listed + sorted.skip(j))[0]).is_prefix_of(met),
        forall|s: int|
            0 <= s < j ==> shape.host == Some(#[trigger] sorted[s]) || order.contains(sorted[s]),
        forall|i: usize|
            i < shape.children.len() && !order.contains(i) && shape.host != Some(i)
                ==> #[trigger] sorted.contains(i),
        forall|s: int|
            0 <= s < listed.len() ==> exists|k: int|
                base <= k < order.len() && shape.children[#[trigger] order[k] as int].contains(
                    #[trigger] listed[s],
                ),
    ensures
        listed_before(shape.children, met, base, order.len() as int) || least_behind(
            shape.ids,
            met,
            order.len() as int,
        ),
{
    let waiting = listed + sorted.skip(j);
    let next = waiting[0];
    let longer = order.push(next);
    let m = order.len() as int;
    assert(longer[m] == met[m]);
    if listed.len() > 0 {
        assert(next == listed[0]);
        let k = choose|k: int|
            base <= k < order.len() && shape.children[#[trigger] order[k] as int].contains(
                listed[0],
            );
        assert(longer[k] == met[k]);
        assert(shape.children[met[k] as int].contains(met[m]));
    } else {
        assert(next == sorted[j]);
        assert forall|n: int| m < n < met.len() implies shape.ids[met[m] as int]
            <= shape.ids[#[trigger] met[n] as int] by {
            let x = met[n];
            assert(x < shape.children.len() && shape.host != Some(x));
            if order.contains(x) {
                let at = order.index_of(x);
                assert(longer[at] == met[at]);
            }
            assert(sorted.contains(x));
            let s = sorted.index_of(x);
            if s < j {
                assert(order.contains(sorted[s]));
            }
            assert(shape.ids[sorted[j] as int] <= shape.ids[sorted[s] as int]);
        }
    }
}

/// Behind what is reached from the root's children stands what is not. Of that,
/// an element stands where one before it lists it; any other has the least
/// number of all that still come.
pub proof fn law_the_rest_comes_by_number(shape: Shape, m: int)
    requires
        valid_shape(shape),
        reached(shape).len() <= m < order_of(shape).len(),
    ensures
        listed_before(shape.children, order_of(shape), reached(shape).len() as int, m)
            || least_behind(shape.ids, order_of(shape), m),
{
    let first = reached(shape);
    let n = shape.ids.len();
    let rest = unvisited(first, n);
    let sorted = by_id(shape.ids, rest);
    law_order_is_complete(shape);
    lemma_sorted(shape.ids, rest);
    crate::tree::lemma_unvisited(first, n);
    assert(placed(n, sorted)) by {
        assert forall|i: int| 0 <= i < sorted.len() implies #[trigger] sorted[i] < n by {
            assert(sorted.contains(sorted[i]));
            crate::tree::lemma_by_id_contains(shape.ids, rest, sorted[i]);
            let at = rest.index_of(sorted[i]);
            assert(rest[at] < n);
        }
    }
    assert forall|i: usize|
        i < shape.children.len() && !first.contains(i) && shape.host != Some(i) implies
        #[trigger] sorted.contains(i) by {
        assert(rest.contains(i));
        crate::tree::lemma_by_id_contains(shape.ids, rest, i);
    }
    assert(Seq::<usize>::empty() + sorted.skip(0) =~= sorted);
    lemma_visit_by_number(shape, Seq::empty(), sorted, 0, first.len() as int, first);
}

// ---------------------------------------------------------------------------
// Hiding
// ---------------------------------------------------------------------------
/// An element is hidden where it is marked so itself, or where its parent is
/// hidden; what the host is does not count for those below it.
pub proof fn law_hiding_comes_from_above(nodes: Seq<RawNode>, root: Option<u64>, i: usize)
    requires
        nodes.len() <= usize::MAX,
        i < nodes.len(),
    ensures
        ({
            let shape = shape_of(nodes, root);
            &&& nodes[i as int].node.hidden ==> hidden_above(nodes, shape, i)
            &&& !nodes[i as int].node.hidden && shape.host != Some(i) ==> (hidden_above(
                nodes,
                shape,
                i,
            ) <==> match shape.parent[i as int] {
                Some(p) => shape.host != Some(p) && hidden_above(nodes, shape, p),
                None => false,
            })
        }),
{
    lemma_hidden_above(nodes, shape_of(nodes, root), i);
}

// ---------------------------------------------------------------------------
// Content
// ---------------------------------------------------------------------------
/// What children say is said one child behind the other: the words of a text's
/// or text input's own value, then those of what it contains. A password says
/// nothing.
pub proof fn law_children_speak_in_order(
    nodes: Seq<RawNode>,
    children: Seq<usize>,
    child: usize,
    contents: Seq<Option<Seq<char>>>,
)
    ensures
        children_words(nodes, Seq::empty(), contents) == Seq::<Seq<char>>::empty(),
        ({
            let raw = nodes[child as int].node;
            let before = children_words(nodes, children, contents);
            let after = children_words(nodes, children.push(child), contents);
            let texts = role_word(raw.role) == Role::Text || role_word(raw.role) == Role::TextInput
                || raw.role == AccessRole::SearchInput;
            if raw.role == AccessRole::PasswordInput {
                after == before
            } else {
                after == before + (match raw.value {
                    Some(value) => if texts {
                        words(value@)
                    } else {
                        Seq::empty()
                    },
                    None => Seq::empty(),
                }) + (match contents[child as int] {
                    Some(content) => words(content),
                    None => Seq::empty(),
                })
            }
        }),
{
    let raw = nodes[child as int].node;
    law_what_roles_mean(raw.role);
    law_words_for_roles(raw.role);
    assert(children.push(child).drop_last() =~= children);
    let before = children_words(nodes, children, contents);
    let after = children_words(nodes, children.push(child), contents);
    let own = match raw.value {
        Some(value) if crate::access::textual(raw.role) => words(value@),
        _ => Seq::empty(),
    };
    let below = match contents[child as int] {
        Some(content) => words(content),
        None => Seq::empty(),
    };
    if raw.role == AccessRole::PasswordInput {
        assert(after =~= before);
    } else {
        assert(after =~= before + own + below);
    }
}

/// Words become a text that reads back as those words, one space apart; no word
/// makes no text.
pub proof fn law_content_reads_back(list: Seq<Seq<char>>)
    requires
        all_words(list),
    ensures
        text_of_words(list) is None <==> list.len() == 0,
        text_of_words(list) matches Some(text) ==> words(text) == list && text.len() > 0 && text
            == with_words(Seq::empty(), list),
{
    law_written_words_are_read_back(Seq::empty(), list);
    crate::text::law_words_are_split_by_white_space(Seq::empty(), ' ', Seq::empty());
    let text = with_words(Seq::empty(), list);
    assert(words(Seq::empty()) + list =~= list);
    if text.len() == 0 {
        assert(text =~= Seq::empty());
    }
}

/// What an element listed below itself contains: it draws on what settled
/// elements contain and on those behind it in the order, and on nothing else.
pub proof fn law_unsettled_content_draws_on_what_follows(
    nodes: Seq<RawNode>,
    shape: Shape,
    k: int,
    seen: Seq<Option<Seq<char>>>,
)
    requires
        valid_shape(shape),
        nodes.len() == shape.ids.len(),
        0 <= k < order_of(shape).len(),
        !settled(shape.children, shape.host, order_of(shape)[k]),
        seen.len() == nodes.len(),
        forall|i: int|
            0 <= i < nodes.len() ==> #[trigger] seen[i] == (if settled(
                shape.children,
                shape.host,
                i as usize,
            ) || order_of(shape).skip(k + 1).contains(i as usize) {
                contents_of(nodes, shape)[i]
            } else {
                None
            }),
    ensures
        contents_of(nodes, shape)[order_of(shape)[k] as int] == text_of_words(
            children_words(nodes, shape.children[order_of(shape)[k] as int], seen),
        ),
{
    let order = order_of(shape);
    law_order_is_complete(shape);
    let place = order[k];
    assert(order[k] < shape.children.len());
    assert(placed(nodes.len(), order)) by {
        assert forall|s: int| 0 <= s < order.len() implies #[trigger] order[s] < nodes.len() by {
            assert(order[s] < shape.children.len());
        }
    }
    assert(placed(nodes.len(), order.skip(k + 1))) by {
        assert forall|s: int| 0 <= s < order.skip(k + 1).len() implies #[trigger] order.skip(
            k + 1,
        )[s] < nodes.len() by {
            assert(order.skip(k + 1)[s] == order[s + k + 1]);
        }
    }
    let behind = contents_along(nodes, shape.children, shape.host, order.skip(k + 1));
    assert(order.skip(k).drop_first() =~= order.skip(k + 1));
    lemma_along(nodes, shape, order, k, place as int);
    assert forall|i: int| 0 <= i < nodes.len() implies #[trigger] behind[i] == seen[i] by {
        lemma_along(nodes, shape, order, k + 1, i);
        lemma_along_settled(nodes, shape, order.skip(k + 1), i);
        lemma_along_settled(nodes, shape, order, i);
    }
    lemma_along_settled(nodes, shape, order.skip(k + 1), 0);
    assert(behind =~= seen);
    lemma_along_len(nodes, shape, order.skip(k + 1));
    assert(order.skip(k)[0] == place);
}

/// The host contains nothing.
pub proof fn law_hosts_contain_nothing(nodes: Seq<RawNode>, shape: Shape, place: usize)
    requires
        valid_shape(shape),
        nodes.len() == shape.ids.len(),
        place < nodes.len(),
        shape.host == Some(place),
    ensures
        contents_of(nodes, shape)[place as int] is None,
{
    let order = order_of(shape);
    law_order_is_complete(shape);
    assert(placed(nodes.len(), order)) by {
        assert forall|s: int| 0 <= s < order.len() implies #[trigger] order[s] < nodes.len() by {
            assert(order[s] < shape.children.len());
        }
    }
    if order.contains(place) {
        let at = order.index_of(place);
        assert(shape.host != Some(order[at]));
    }
    lemma_along_settled(nodes, shape, order, place as int);
}

proof fn lemma_along_len(nodes: Seq<RawNode>, shape: Shape, order: Seq<usize>)
    requires
        placed(nodes.len(), order),
    ensures
        contents_along(nodes, shape.children, shape.host, order).len() == nodes.len(),
    decreases order.len(),
{
    if order.len() > 0 {
        assert(placed(nodes.len(), order.drop_first())) by {
            assert forall|s: int| 0 <= s < order.drop_first().len() implies
                #[trigger] order.drop_first()[s] < nodes.len() by {
                assert(order.drop_first()[s] == order[s + 1]);
            }
        }
        assert(order[0] < nodes.len());
        lemma_along_len(nodes, shape, order.drop_first());
    }
}

/// What is settled, and what is not in the list, is not touched on the way.
proof fn lemma_along_settled(nodes: Seq<RawNode>, shape: Shape, order: Seq<usize>, i: int)
    requires
        placed(nodes.len(), order),
    ensures
        contents_along(nodes, shape.children, shape.host, order).len() == nodes.len(),
        0 <= i < nodes.len() <= usize::MAX && (settled(shape.children, shape.host, i as usize)
            || !order.contains(i as usize)) ==> contents_along(
            nodes,
            shape.children,
            shape.host,
            order,
        )[i] == settled_contents(nodes, shape.children, shape.host)[i],
    decreases order.len(),
{
    if order.len() > 0 {
        let rest = order.drop_first();
        assert(placed(nodes.len(), order.drop_first())) by {
            assert forall|s: int| 0 <= s < order.drop_first().len() implies
                #[trigger] order.drop_first()[s] < nodes.len() by {
                assert(order.drop_first()[s] == order[s + 1]);
            }
        }
        assert(order[0] < nodes.len());
        lemma_along_settled(nodes, shape, rest, i);
        if 0 <= i < nodes.len() <= usize::MAX && rest.contains(i as usize) {
            let at = rest.index_of(i as usize);
            assert(order[at + 1] == i as usize);
        }
        if 0 <= i < nodes.len() <= usize::MAX && order[0] == i as usize {
            assert(order.contains(i as usize));
        }
    }
}

/// What stands in the list from `k` on is not touched any more by what stands
/// before it.
proof fn lemma_along(nodes: Seq<RawNode>, shape: Shape, order: Seq<usize>, k: int, i: int)
    requires
        nodes.len() <= usize::MAX,
        placed(nodes.len(), order),
        order.no_duplicates(),
        0 <= k <= order.len(),
        0 <= i < nodes.len(),
    ensures
        order.skip(k).contains(i as usize) || settled(shape.children, shape.host, i as usize)
            ==> contents_along(nodes, shape.children, shape.host, order)[i] == contents_along(
            nodes,
            shape.children,
            shape.host,
            order.skip(k),
        )[i],
    decreases k,
{
    if k == 0 {
        assert(order.skip(0) =~= order);
    } else {
        let rest = order.drop_first();
        assert(rest.no_duplicates()) by {
            assert forall|a: int, b: int| 0 <= a < rest.len() && 0 <= b < rest.len() && a != b implies
                rest[a] != rest[b] by {
                assert(rest[a] == order[a + 1] && rest[b] == order[b + 1]);
            }
        }
        assert(placed(nodes.len(), order.drop_first())) by {
            assert forall|s: int| 0 <= s < order.drop_first().len() implies
                #[trigger] order.drop_first()[s] < nodes.len() by {
                assert(order.drop_first()[s] == order[s + 1]);
            }
        }
        assert(order[0] < nodes.len());
        assert(rest.skip(k - 1) =~= order.skip(k));
        lemma_along(nodes, shape, rest, k - 1, i);
        lemma_along_len(nodes, shape, rest);
        if order.skip(k).contains(i as usize) {
            let at = order.skip(k).index_of(i as usize);
            assert(order[k + at] == i as usize);
            assert(order[0] != order[k + at]);
        }
    }
}

// ---------------------------------------------------------------------------
// Settled places
// ---------------------------------------------------------------------------
/// The place settles within `k` levels, and no fewer.
spec fn settles_exactly(shape: Shape, place: usize, k: nat) -> bool {
    settles(shape.children, shape.host, place, k) && (k > 0 ==> !settles(
        shape.children,
        shape.host,
        place,
        (k - 1) as nat,
    ))
}

/// Places that settle within fewer and fewer levels.
spec fn settles_down(shape: Shape, chain: Seq<usize>, k: nat) -> bool {
    &&& chain.len() == k
    &&& forall|t: int|
        0 <= t < chain.len() ==> #[trigger] chain[t] < shape.children.len() && settles_exactly(
            shape,
            chain[t],
            (k - t) as nat,
        )
}

proof fn lemma_chain_down(shape: Shape, place: usize, k: nat) -> (chain: Seq<usize>)
    requires
        valid_shape(shape),
        place < shape.children.len(),
        settles_exactly(shape, place, k),
    ensures
        settles_down(shape, chain, k),
    decreases k,
{
    if k == 0 {
        Seq::empty()
    } else if k == 1 {
        seq![place]
    } else {
        let list = shape.children[place as int];
        let at = choose|at: int|
            0 <= at < list.len() && !settles(
                shape.children,
                shape.host,
                #[trigger] list[at],
                (k - 2) as nat,
            );
        let child = list[at];
        assert(settles(shape.children, shape.host, child, (k - 1) as nat));
        assert(shape.children[place as int][at] < shape.children.len());
        let rest = lemma_chain_down(shape, child, (k - 1) as nat);
        let chain = seq![place] + rest;
        assert forall|t: int| 0 <= t < chain.len() implies #[trigger] chain[t]
            < shape.children.len() && settles_exactly(shape, chain[t], (k - t) as nat) by {
            if t > 0 {
                assert(chain[t] == rest[t - 1]);
                assert((k - 1) as nat - (t - 1) == k - t);
            }
        }
        chain
    }
}

/// What settles at all settles within as many levels as there are places.
proof fn lemma_settles_in_time(shape: Shape, place: usize, k: nat)
    requires
        valid_shape(shape),
        place < shape.children.len(),
        settles(shape.children, shape.host, place, k),
    ensures
        settled(shape.children, shape.host, place),
    decreases k,
{
    let n = shape.children.len();
    if k <= n {
        lemma_settles_longer(shape.children, shape.host, place, k, n);
    } else if settles(shape.children, shape.host, place, (k - 1) as nat) {
        lemma_settles_in_time(shape, place, (k - 1) as nat);
    } else {
        let chain = lemma_chain_down(shape, place, k);
        assert(chain.no_duplicates()) by {
            assert forall|a: int, b: int|
                0 <= a < chain.len() && 0 <= b < chain.len() && a < b implies chain[a]
                != chain[b] by {
                assert(settles_exactly(shape, chain[a], (k - a) as nat));
                assert(settles_exactly(shape, chain[b], (k - b) as nat));
                if chain[a] == chain[b] {
                    lemma_settles_longer(
                        shape.children,
                        shape.host,
                        chain[b],
                        (k - b) as nat,
                        (k - a - 1) as nat,
                    );
                }
            }
        }
        crate::ancestry::lemma_distinct_below(chain, n);
    }
}

/// A place is settled exactly if it is the host or all that it lists is settled.
pub proof fn law_settling_comes_from_below(shape: Shape, place: usize)
    requires
        valid_shape(shape),
        place < shape.children.len(),
    ensures
        settled(shape.children, shape.host, place) <==> shape.host == Some(place) || forall|i: int|
            0 <= i < shape.children[place as int].len() ==> settled(
                shape.children,
                shape.host,
                #[trigger] shape.children[place as int][i],
            ),
{
    let n = shape.children.len();
    let list = shape.children[place as int];
    if settled(shape.children, shape.host, place) && shape.host != Some(place) {
        assert forall|i: int| 0 <= i < list.len() implies settled(
            shape.children,
            shape.host,
            #[trigger] list[i],
        ) by {
            assert(shape.children[place as int][i] < n);
            assert(settles(shape.children, shape.host, list[i], (n - 1) as nat));
            lemma_settles_longer(shape.children, shape.host, list[i], (n - 1) as nat, n);
        }
    }
    if forall|i: int|
        0 <= i < list.len() ==> settled(shape.children, shape.host, #[trigger] list[i]) {
        assert(settles(shape.children, shape.host, place, n + 1)) by {
            assert forall|i: int| 0 <= i < list.len() implies settles(
                shape.children,
                shape.host,
                #[trigger] list[i],
                n,
            ) by {
                assert(settled(shape.children, shape.host, list[i]));
            }
        }
        lemma_settles_in_time(shape, place, n + 1);
    }
}

/// The place at `k` lists the next one, and is not the host.
pub open spec fn step_down(shape: Shape, chain: Seq<usize>, k: int) -> bool {
    &&& chain[k] < shape.children.len()
    &&& shape.host != Some(chain[k])
    &&& shape.children[chain[k] as int].contains(chain[k + 1])
}

/// No element that is listed below itself is settled.
pub proof fn law_listed_below_itself_is_not_settled(shape: Shape, chain: Seq<usize>)
    requires
        valid_shape(shape),
        chain.len() > 1,
        chain[0] == chain.last(),
        forall|k: int| 0 <= k < chain.len() - 1 ==> #[trigger] step_down(shape, chain, k),
    ensures
        !settled(shape.children, shape.host, chain[0]),
{
    if settled(shape.children, shape.host, chain[0]) {
        lemma_never_settles(shape, chain, 0, shape.children.len());
    }
}

proof fn lemma_never_settles(shape: Shape, chain: Seq<usize>, at: int, k: nat)
    requires
        chain.len() > 1,
        chain[0] == chain.last(),
        forall|k: int| 0 <= k < chain.len() - 1 ==> #[trigger] step_down(shape, chain, k),
        0 <= at < chain.len() - 1,
    ensures
        !settles(shape.children, shape.host, chain[at], k),
    decreases k,
{
    assert(step_down(shape, chain, at));
    if k > 0 {
        let next = if at + 1 == chain.len() - 1 {
            0
        } else {
            at + 1
        };
        lemma_never_settles(shape, chain, next, (k - 1) as nat);
        let list = shape.children[chain[at] as int];
        let i = list.index_of(chain[at + 1]);
        assert(list[i] == chain[next]);
    }
}

} // verus!
