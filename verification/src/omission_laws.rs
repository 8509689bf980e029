//! Laws of omissions: in what order the nodes that a frame leaves out are
//! reported.

use vstd::prelude::*;

#[allow(unused_imports)]
use crate::ancestry::{
    climb, comes_back, cut_off_nodes, cycle, cycles, cyclic_nodes, ends_at, entry, first_hit,
    first_return, graph, hits, lemma_climb_needs_node, lemma_cycle_once, lemma_entry,
    lemma_least_hit, lemma_least_return, lemma_live_none, lemma_next_level, lemma_next_wave,
    lemma_waves, lemma_with_parent, live, next_wave, none_omitted, on_cycle, on_level, on_levels,
    orphaned_nodes, orphans, up, waves, with_parent, without_cyclic, without_orphaned, Parent,
};
#[allow(unused_imports)]
use crate::frame_laws::lemma_ascending;

verus! {

// ---------------------------------------------------------------------------
// Level by level
// ---------------------------------------------------------------------------
/// One place stands before another in a list.
pub open spec fn stands_before(list: Seq<usize>, first: usize, second: usize) -> bool {
    exists|s: int, t: int|
        0 <= s < t < list.len() && #[trigger] list[s] == first && #[trigger] list[t] == second
}

/// Of two nodes with parents, the first one's parent stands before the other's,
/// or they have one parent and the first one was recorded first.
pub open spec fn follows_parents(
    parents: Seq<Parent>,
    list: Seq<usize>,
    first: usize,
    second: usize,
) -> bool {
    match (parents[first as int], parents[second as int]) {
        (Parent::Node(p), Parent::Node(q)) => (p == q && first < second) || stands_before(
            list,
            p,
            q,
        ),
        _ => false,
    }
}

/// The children of a wave follow their parents.
proof fn lemma_next_wave_order(
    parents: Seq<Parent>,
    omitted: Seq<bool>,
    wave: Seq<usize>,
    a: int,
    b: int,
)
    requires
        omitted.len() == parents.len() <= usize::MAX,
        wave.no_duplicates(),
        0 <= a < b < next_wave(parents, omitted, wave).len(),
    ensures
        follows_parents(
            parents,
            wave,
            next_wave(parents, omitted, wave)[a],
            next_wave(parents, omitted, wave)[b],
        ),
    decreases wave.len(),
{
    let rest = wave.drop_last();
    let last = wave.last();
    let before = next_wave(parents, omitted, rest);
    let behind = with_parent(parents, omitted, Parent::Node(last), parents.len());
    let all = next_wave(parents, omitted, wave);
    assert(rest.no_duplicates());
    lemma_with_parent(parents, omitted, Parent::Node(last), parents.len());
    lemma_next_wave(parents, omitted, rest);
    if b < before.len() {
        lemma_next_wave_order(parents, omitted, rest, a, b);
        assert(all[a] == before[a] && all[b] == before[b]);
        let p = parents[all[a] as int]->Node_0;
        let q = parents[all[b] as int]->Node_0;
        if stands_before(rest, p, q) {
            let (s, t) = choose|s: int, t: int|
                0 <= s < t < rest.len() && #[trigger] rest[s] == p && #[trigger] rest[t] == q;
            assert(wave[s] == p && wave[t] == q);
        }
    } else {
        assert(behind.contains(behind[b - before.len()]));
        if a < before.len() {
            assert(before.contains(before[a]));
            let p = parents[all[a] as int]->Node_0;
            let s = rest.index_of(p);
            assert(wave[s] == p && wave[wave.len() - 1] == last);
        } else {
            assert(behind.contains(behind[a - before.len()]));
            lemma_ascending(
                parents,
                omitted,
                Parent::Node(last),
                parents.len(),
                a - before.len(),
                b - before.len(),
            );
        }
    }
}

/// A node's parents lead to a missing one after one number of steps only.
proof fn lemma_one_level(parents: Seq<Parent>, i: usize, d: nat, e: nat)
    requires
        ends_at(parents, i, d, Parent::Missing),
        ends_at(parents, i, e, Parent::Missing),
    ensures
        d == e,
{
    if d < e {
        lemma_climb_needs_node(parents, i, d, e);
    }
    if e < d {
        lemma_climb_needs_node(parents, i, e, d);
    }
}

/// Waves list shallower levels first, and within a level they follow the
/// parents.
proof fn lemma_waves_order(
    rest: Seq<Parent>,
    omitted: Seq<bool>,
    wave: Seq<usize>,
    k: nat,
    count: nat,
    a: int,
    b: int,
    d: nat,
    e: nat,
)
    requires
        graph(rest),
        omitted.len() == rest.len() <= usize::MAX,
        live(rest, omitted) == rest,
        wave.no_duplicates(),
        forall|j: usize| #[trigger] wave.contains(j) <==> on_level(rest, omitted, k, j),
        0 <= a < b < waves(rest, omitted, wave, count).len(),
        ends_at(rest, waves(rest, omitted, wave, count)[a], d, Parent::Missing),
        ends_at(rest, waves(rest, omitted, wave, count)[b], e, Parent::Missing),
    ensures
        k <= d <= e,
        d == k ==> a < wave.len(),
        e == k ==> b < wave.len(),
        d == e && d > k ==> follows_parents(
            rest,
            waves(rest, omitted, wave, count),
            waves(rest, omitted, wave, count)[a],
            waves(rest, omitted, wave, count)[b],
        ),
    decreases count,
{
    let all = waves(rest, omitted, wave, count);
    let less = (count - 1) as nat;
    let below = next_wave(rest, omitted, wave);
    let others = waves(rest, omitted, below, less);
    let n = wave.len();
    lemma_next_wave(rest, omitted, wave);
    assert forall|j: usize| #[trigger] below.contains(j) <==> on_level(
        rest,
        omitted,
        k + 1,
        j,
    ) by {
        lemma_next_level(rest, omitted, wave, k, j);
    }
    lemma_waves(rest, omitted, below, k + 1, less);
    lemma_wave_level(rest, omitted, wave, k, count, a, d);
    lemma_wave_level(rest, omitted, wave, k, count, b, e);
    if a >= n {
        let x = all[a];
        let y = all[b];
        assert(x == others[a - n] && y == others[b - n]);
        lemma_waves_order(rest, omitted, below, k + 1, less, a - n, b - n, d, e);
        if d == e {
            if d > k + 1 {
                let p = rest[x as int]->Node_0;
                let q = rest[y as int]->Node_0;
                if stands_before(others, p, q) {
                    let (s, t) = choose|s: int, t: int|
                        0 <= s < t < others.len() && #[trigger] others[s] == p
                            && #[trigger] others[t] == q;
                    assert(all[n + s] == p && all[n + t] == q);
                }
            } else {
                assert(less > 0);
                assert(others[a - n] == below[a - n] && others[b - n] == below[b - n]);
                lemma_next_wave_order(rest, omitted, wave, a - n, b - n);
                let p = rest[x as int]->Node_0;
                let q = rest[y as int]->Node_0;
                if stands_before(wave, p, q) {
                    let (s, t) = choose|s: int, t: int|
                        0 <= s < t < wave.len() && #[trigger] wave[s] == p && #[trigger] wave[t]
                            == q;
                    assert(all[s] == p && all[t] == q);
                }
            }
        }
    }
}

/// What stands in the first wave is on its level; what stands behind is deeper.
proof fn lemma_wave_level(
    rest: Seq<Parent>,
    omitted: Seq<bool>,
    wave: Seq<usize>,
    k: nat,
    count: nat,
    a: int,
    d: nat,
)
    requires
        graph(rest),
        omitted.len() == rest.len() <= usize::MAX,
        live(rest, omitted) == rest,
        wave.no_duplicates(),
        forall|j: usize| #[trigger] wave.contains(j) <==> on_level(rest, omitted, k, j),
        0 <= a < waves(rest, omitted, wave, count).len(),
        ends_at(rest, waves(rest, omitted, wave, count)[a], d, Parent::Missing),
    ensures
        a < wave.len() ==> d == k,
        a >= wave.len() ==> d > k,
{
    let all = waves(rest, omitted, wave, count);
    let less = (count - 1) as nat;
    let below = next_wave(rest, omitted, wave);
    let others = waves(rest, omitted, below, less);
    if a < wave.len() {
        assert(wave[a] == all[a]);
        assert(wave.contains(all[a]));
        lemma_one_level(rest, all[a], d, k);
    } else {
        lemma_next_wave(rest, omitted, wave);
        assert forall|j: usize| #[trigger] below.contains(j) <==> on_level(
            rest,
            omitted,
            k + 1,
            j,
        ) by {
            lemma_next_level(rest, omitted, wave, k, j);
        }
        lemma_waves(rest, omitted, below, k + 1, less);
        assert(others[a - wave.len()] == all[a]);
        assert(others.contains(all[a]));
        assert(on_levels(rest, omitted, k + 1, less, all[a]));
        let j = choose|j: nat|
            k + 1 <= j < k + 1 + less && #[trigger] on_level(rest, omitted, j, all[a]);
        lemma_one_level(rest, all[a], d, j);
    }
}

proof fn lemma_orphans_order(
    parents: Seq<Parent>,
    omitted: Seq<bool>,
    a: int,
    b: int,
    d: nat,
    e: nat,
)
    requires
        graph(parents),
        omitted.len() == parents.len() <= usize::MAX,
        0 <= a < b < orphans(parents, omitted).len(),
        ends_at(live(parents, omitted), orphans(parents, omitted)[a], d, Parent::Missing),
        ends_at(live(parents, omitted), orphans(parents, omitted)[b], e, Parent::Missing),
    ensures
        d <= e,
        e == 0 ==> orphans(parents, omitted)[a] < orphans(parents, omitted)[b],
        d == e && d > 0 ==> follows_parents(
            live(parents, omitted),
            orphans(parents, omitted),
            orphans(parents, omitted)[a],
            orphans(parents, omitted)[b],
        ),
{
    let rest = live(parents, omitted);
    let n = rest.len();
    let wave = with_parent(rest, omitted, Parent::Missing, n);
    assert forall|i: int| 0 <= i < rest.len() implies match #[trigger] rest[i] {
        Parent::Node(p) => p < rest.len(),
        _ => true,
    } by {
        assert(parents[i] matches Parent::Node(p) ==> p < parents.len());
    }
    assert(live(rest, omitted) =~= rest);
    lemma_with_parent(rest, omitted, Parent::Missing, n);
    assert forall|i: usize| #[trigger] wave.contains(i) <==> on_level(rest, omitted, 0, i) by {
        assert(climb(rest, i, 0) == Some(i));
    }
    lemma_waves_order(rest, omitted, wave, 0, n, a, b, d, e);
    if e == 0 {
        lemma_ascending(rest, omitted, Parent::Missing, n, a, b);
    }
}

/// The nodes whose parents lead to a missing one are reported level by level:
/// those that name it first, in recording order, and then their descendants,
/// each level in the order of its parents.
pub proof fn law_orphans_are_reported_level_by_level(
    parents: Seq<Parent>,
    a: int,
    b: int,
    d: nat,
    e: nat,
)
    requires
        graph(parents),
        parents.len() <= usize::MAX,
        0 <= a < b < orphaned_nodes(parents).len(),
        ends_at(parents, orphaned_nodes(parents)[a], d, Parent::Missing),
        ends_at(parents, orphaned_nodes(parents)[b], e, Parent::Missing),
    ensures
        d <= e,
        e == 0 ==> orphaned_nodes(parents)[a] < orphaned_nodes(parents)[b],
        d == e && d > 0 ==> follows_parents(
            parents,
            orphaned_nodes(parents),
            orphaned_nodes(parents)[a],
            orphaned_nodes(parents)[b],
        ),
{
    lemma_live_none(parents);
    lemma_orphans_order(parents, none_omitted(parents.len()), a, b, d, e);
}

/// The nodes that descend from a cycle are reported in the same way: first those
/// whose parent is on it.
pub proof fn law_cut_off_nodes_are_reported_level_by_level(
    parents: Seq<Parent>,
    a: int,
    b: int,
    d: nat,
    e: nat,
)
    requires
        graph(parents),
        parents.len() <= usize::MAX,
        0 <= a < b < cut_off_nodes(parents).len(),
        ends_at(
            live(parents, without_cyclic(parents)),
            cut_off_nodes(parents)[a],
            d,
            Parent::Missing,
        ),
        ends_at(
            live(parents, without_cyclic(parents)),
            cut_off_nodes(parents)[b],
            e,
            Parent::Missing,
        ),
    ensures
        d <= e,
        e == 0 ==> cut_off_nodes(parents)[a] < cut_off_nodes(parents)[b],
        d == e && d > 0 ==> follows_parents(
            live(parents, without_cyclic(parents)),
            cut_off_nodes(parents),
            cut_off_nodes(parents)[a],
            cut_off_nodes(parents)[b],
        ),
{
    lemma_orphans_order(parents, without_cyclic(parents), a, b, d, e);
}

// ---------------------------------------------------------------------------
// Cycles
// ---------------------------------------------------------------------------
/// Behind a node of a cycle stands its parent, unless that stands before it.
pub open spec fn goes_up(parents: Seq<Parent>, list: Seq<usize>, j: int) -> bool {
    match parents[list[j] as int] {
        Parent::Node(p) => (j + 1 < list.len() && list[j + 1] == p) || list.take(j + 1).contains(p),
        _ => false,
    }
}

proof fn lemma_ring_goes_up(parents: Seq<Parent>, i: usize, k: int)
    requires
        on_cycle(parents, i),
        0 <= k < cycle(parents, i).len(),
    ensures
        goes_up(parents, cycle(parents, i), k),
{
    let ring = cycle(parents, i);
    let some = choose|c: nat| comes_back(parents, i, c);
    lemma_least_return(parents, i, some);
    let c = choose|c: nat| first_return(parents, i, c);
    lemma_cycle_once(parents, i);
    assert(climb(parents, i, k as nat) == Some(ring[k]));
    assert(climb(parents, i, (k + 1) as nat) == up(parents, ring[k]));
    if k + 1 < ring.len() {
        assert(climb(parents, i, (k + 1) as nat) == Some(ring[k + 1]));
    } else {
        assert(climb(parents, i, 0) == Some(ring[0]));
        assert(ring.take(k + 1)[0] == i);
        assert(comes_back(parents, i, c));
        assert(up(parents, ring[k]) == Some(i));
    }
}

proof fn lemma_cycles_go_up(parents: Seq<Parent>, omitted: Seq<bool>, n: nat, j: int)
    requires
        graph(parents),
        omitted.len() == parents.len() <= usize::MAX,
        n <= parents.len(),
        0 <= j < cycles(parents, omitted, n).len(),
    ensures
        goes_up(parents, cycles(parents, omitted, n), j),
    decreases n,
{
    let i = (n - 1) as usize;
    let before = cycles(parents, omitted, (n - 1) as nat);
    let all = cycles(parents, omitted, n);
    if j < before.len() {
        lemma_cycles_go_up(parents, omitted, (n - 1) as nat, j);
        assert(all[j] == before[j]);
        assert(all.take(j + 1) =~= before.take(j + 1));
    } else {
        let k = choose|k: nat| hits(parents, i, k);
        lemma_least_hit(parents, i, k);
        let m = choose|m: nat| first_hit(parents, i, m);
        lemma_entry(parents, i, m);
        let ring = cycle(parents, entry(parents, i));
        let at = j - before.len();
        lemma_ring_goes_up(parents, entry(parents, i), at);
        assert(all[j] == ring[at]);
        let p = parents[ring[at] as int]->Node_0;
        if ring.take(at + 1).contains(p) {
            let s = ring.take(at + 1).index_of(p);
            assert(all.take(j + 1)[before.len() + s] == p);
        }
    }
}

/// The nodes of a cycle are reported upwards: behind each stands its parent,
/// until the cycle closes.
pub proof fn law_cycles_are_reported_upwards(parents: Seq<Parent>, j: int)
    requires
        graph(parents),
        parents.len() <= usize::MAX,
        0 <= j < cyclic_nodes(parents).len(),
    ensures
        goes_up(parents, cyclic_nodes(parents), j),
{
    let first = without_orphaned(parents);
    let rest = live(parents, first);
    assert forall|i: int| 0 <= i < rest.len() implies match #[trigger] rest[i] {
        Parent::Node(p) => p < rest.len(),
        _ => true,
    } by {
        assert(parents[i] matches Parent::Node(p) ==> p < parents.len());
    }
    lemma_cycles_go_up(rest, first, parents.len(), j);
    crate::ancestry::lemma_cycles(rest, first, parents.len());
    assert(cyclic_nodes(parents).contains(cyclic_nodes(parents)[j]));
}

} // verus!
