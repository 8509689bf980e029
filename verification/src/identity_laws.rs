//! Laws of identities: how paths are made of names, and which run of its path
//! names an element.

use vstd::prelude::*;

#[allow(unused_imports)]
use crate::ancestry::{climb, grounded, lemma_long_climb, lemma_one_end, Parent};
#[allow(unused_imports)]
use crate::identity::{
    acyclic, alone, ancestor_places, candidate, exhausted, identities_of, law_every_node_is_named,
    law_numbers_tell_equal_paths_apart, lemma_lineage_graph, lemma_naming_at,
    lemma_number_means_shared, lemma_resolved_in, lemma_shared_means_number, lemma_spelled_alike,
    lemma_taken_by, lemma_up_once, lemma_was_unresolved, lineage, naming_at, number_mark, path_of,
    places_up, plainly_named, resolves, same_path, spelled, tail, takes_number, takes_run,
};
#[allow(unused_imports)]
use crate::text::{decimal_value, joined, law_decimals_spell_their_numbers};
#[allow(unused_imports)]
use crate::tree::{law_order_is_complete, valid_shape, Shape};

verus! {

// ---------------------------------------------------------------------------
// Paths
// ---------------------------------------------------------------------------
/// Whoever comes to an end within `k` steps has no more places above.
proof fn lemma_places_end(parents: Seq<Parent>, i: usize, k: nat)
    requires
        climb(parents, i, k) is None,
    ensures
        places_up(parents, i, k + 1) == places_up(parents, i, k),
    decreases k,
{
    assert(k > 0) by {
        assert(climb(parents, i, 0) == Some(i));
    }
    if let Parent::Node(p) = parents[i as int] {
        lemma_up_once(parents, i, p, k);
        lemma_places_end(parents, p, (k - 1) as nat);
        assert((k - 1) as nat + 1 == k);
        assert((k + 1 - 1) as nat == k);
    }
}

/// An element's path is that of its parent with its own name behind it; it is
/// its own name alone where it has no parent or hangs from the host. The host
/// has no path.
pub proof fn law_paths_grow_by_names(shape: Shape, i: usize)
    requires
        valid_shape(shape),
        acyclic(shape),
        i < shape.parent.len(),
    ensures
        shape.host == Some(i) ==> path_of(shape, i as int).len() == 0,
        shape.host != Some(i) ==> path_of(shape, i as int) == (match shape.parent[i as int] {
            Some(p) => if shape.host == Some(p) {
                seq![shape.names[i as int]]
            } else {
                path_of(shape, p as int).push(shape.names[i as int])
            },
            None => seq![shape.names[i as int]],
        }),
{
    let parents = lineage(shape);
    let n = shape.parent.len();
    lemma_lineage_graph(shape);
    if shape.host != Some(i) {
        assert(match shape.parent[i as int] {
            Some(p) => p < n,
            None => true,
        });
        assert(grounded(parents, i));
        if climb(parents, i, n) is Some {
            lemma_long_climb(parents, i);
            lemma_one_end(parents, i);
        }
        match parents[i as int] {
            Parent::Node(p) => {
                lemma_up_once(parents, i, p, n);
                lemma_places_end(parents, p, (n - 1) as nat);
                assert((n - 1) as nat + 1 == n);
                assert(ancestor_places(shape, i) == ancestor_places(shape, p).push(i));
                assert(path_of(shape, i as int) =~= path_of(shape, p as int).push(
                    shape.names[i as int],
                ));
            },
            _ => {
                assert(ancestor_places(shape, i) == seq![i]);
                assert(path_of(shape, i as int) =~= seq![shape.names[i as int]]);
            },
        }
    }
}

/// The trailing part of a sequence holds its last elements in order: as many as
/// asked, or all.
pub proof fn law_tails_are_the_end(segments: Seq<Seq<char>>, depth: nat, k: int)
    ensures
        segments.len() <= depth ==> tail(segments, depth) == segments,
        segments.len() > depth ==> tail(segments, depth).len() == depth,
        0 <= k < tail(segments, depth).len() ==> tail(segments, depth)[tail(segments, depth).len()
            - 1 - k] == segments[segments.len() - 1 - k],
{
}

// ---------------------------------------------------------------------------
// Runs
// ---------------------------------------------------------------------------
/// The last `depth` names of two paths are the same, as many as there are.
pub open spec fn end_alike(left: Seq<Seq<char>>, right: Seq<Seq<char>>, depth: nat) -> bool {
    &&& left.len() == right.len() || (left.len() >= depth && right.len() >= depth)
    &&& forall|k: int|
        0 <= k < depth && k < left.len() ==> #[trigger] left[left.len() - 1 - k]
            == right[right.len() - 1 - k]
}

/// Another published element has a path with the same end.
pub open spec fn shares_end(shape: Shape, i: usize, j: usize, depth: nat) -> bool {
    &&& j != i
    &&& j < shape.parent.len()
    &&& shape.host != Some(j)
    &&& end_alike(path_of(shape, i as int), path_of(shape, j as int), depth)
}

/// Some other published element has a path with the same end.
pub open spec fn is_shared(shape: Shape, i: usize, depth: nat) -> bool {
    exists|j: usize| shares_end(shape, i, j, depth)
}

proof fn lemma_end_alike(left: Seq<Seq<char>>, right: Seq<Seq<char>>, depth: nat)
    ensures
        end_alike(left, right, depth) <==> tail(left, depth) == tail(right, depth),
{
    let a = tail(left, depth);
    let b = tail(right, depth);
    if end_alike(left, right, depth) {
        assert forall|m: int| 0 <= m < a.len() implies a[m] == b[m] by {
            let k = a.len() - 1 - m;
            assert(left[left.len() - 1 - k] == right[right.len() - 1 - k]);
        }
        assert(a =~= b);
    }
    if a == b {
        assert forall|k: int| 0 <= k < depth && k < left.len() implies #[trigger] left[left.len()
            - 1 - k] == right[right.len() - 1 - k] by {
            assert(a[a.len() - 1 - k] == b[b.len() - 1 - k]);
        }
    }
}

/// Candidates that agree at some depth agree at any smaller one.
proof fn lemma_shorter_candidates(shape: Shape, i: usize, j: usize, depth: nat, shorter: nat)
    requires
        candidate(shape, i, depth) == candidate(shape, j, depth),
        shorter <= depth,
    ensures
        candidate(shape, i, shorter) == candidate(shape, j, shorter),
{
    let left = path_of(shape, i as int);
    let right = path_of(shape, j as int);
    lemma_end_alike(left, right, depth);
    lemma_end_alike(left, right, shorter);
    assert forall|k: int| 0 <= k < shorter && k < left.len() implies #[trigger] left[left.len() - 1
        - k] == right[right.len() - 1 - k] by {}
}

/// Whoever takes a run at a depth shares it with no element that is resolved
/// later or in the same round.
proof fn lemma_run_unshared(shape: Shape, taker: usize, round: nat, i: usize)
    requires
        valid_shape(shape),
        takes_run(shape, taker, round),
        naming_at(shape, round).unresolved.contains(i),
        i != taker,
    ensures
        candidate(shape, i, round) != candidate(shape, taker, round),
{
    let unresolved = naming_at(shape, round).unresolved;
    let at = unresolved.index_of(i);
    assert(unresolved[at] == i);
}

/// An element does not take a run that another one shares.
proof fn lemma_no_shared_run(shape: Shape, i: usize, round: nat, j: usize)
    requires
        valid_shape(shape),
        takes_run(shape, i, round),
        i != j,
        j < shape.parent.len(),
        shape.host != Some(j),
    ensures
        candidate(shape, i, round) != candidate(shape, j, round),
{
    if candidate(shape, i, round) == candidate(shape, j, round) {
        if naming_at(shape, round).unresolved.contains(j) {
            lemma_run_unshared(shape, i, round, j);
        } else {
            law_order_is_complete(shape);
            assert(naming_at(shape, 1).unresolved.contains(j));
            let earlier = lemma_resolved_in(shape, j, 1);
            if earlier >= round {
                lemma_was_unresolved(shape, j, round, earlier);
            } else {
                lemma_was_unresolved(shape, i, earlier, round);
                assert(!exhausted(shape, naming_at(shape, earlier).unresolved, earlier));
                assert(takes_run(shape, j, earlier));
                lemma_shorter_candidates(shape, i, j, round, earlier);
                lemma_run_unshared(shape, j, earlier, i);
            }
        }
    }
}

/// An element that no other one shares its last `depth` names with is resolved
/// by then.
proof fn lemma_unshared_is_taken(shape: Shape, i: usize, depth: nat, round: nat)
    requires
        valid_shape(shape),
        plainly_named(shape),
        i < shape.parent.len(),
        shape.host != Some(i),
        1 <= depth < round,
        naming_at(shape, round).unresolved.contains(i),
        forall|j: usize|
            j != i && j < shape.parent.len() && shape.host != Some(j) ==> #[trigger] candidate(
                shape,
                j,
                depth,
            ) != candidate(shape, i, depth),
        round <= shape.parent.len(),
    ensures
        resolves(shape, naming_at(shape, depth), depth, i),
{
    let naming = naming_at(shape, depth);
    lemma_naming_at(shape, depth);
    lemma_was_unresolved(shape, i, depth, round);
    assert forall|k: int|
        0 <= k < naming.unresolved.len() && #[trigger] naming.unresolved[k] != i implies candidate(
        shape,
        naming.unresolved[k],
        depth,
    ) != candidate(shape, i, depth) by {
        assert(naming.unresolved[k] < shape.children.len());
    }
    assert(alone(shape, naming.unresolved, i, depth));
    assert forall|k: int|
        0 <= k < naming.unresolved.len() && #[trigger] naming.unresolved[k] != i implies spelled(
        shape,
        naming.unresolved[k],
        depth,
    ) != spelled(shape, i, depth) by {
        let other = naming.unresolved[k];
        assert(naming.unresolved[k] < shape.children.len());
        if spelled(shape, other, depth) == spelled(shape, i, depth) {
            lemma_spelled_alike(shape, other, depth, i, depth);
        }
    }
    if naming.taken.contains(spelled(shape, i, depth)) {
        let (other, earlier) = lemma_taken_by(shape, depth, spelled(shape, i, depth));
        let before = naming_at(shape, earlier);
        lemma_naming_at(shape, earlier);
        let at = before.unresolved.index_of(other);
        assert(before.unresolved[at] < shape.children.len());
        lemma_was_unresolved(shape, i, earlier, depth);
        assert(other != i);
        lemma_spelled_alike(shape, other, earlier, i, depth);
        assert(candidate(shape, i, earlier) == candidate(shape, i, depth));
        lemma_run_unshared(shape, other, earlier, i);
    }
}

/// Where no element's name holds a `/` or a `#`, an element's identity is the
/// shortest run of its path's last names that no other published element's path
/// ends with.
pub proof fn law_identities_are_the_shortest_runs(shape: Shape, i: usize, depth: nat)
    requires
        valid_shape(shape),
        plainly_named(shape),
        i < shape.parent.len(),
        shape.host != Some(i),
        depth >= 1,
        !is_shared(shape, i, depth),
        forall|shorter: nat| 1 <= shorter < depth ==> #[trigger] is_shared(shape, i, shorter),
    ensures
        ({
            let path = path_of(shape, i as int);
            identities_of(shape)[i as int] == joined(
                if path.len() <= depth {
                    path
                } else {
                    path.skip(path.len() - depth)
                },
            )
        }),
{
    let path = path_of(shape, i as int);
    assert forall|j: usize|
        j != i && j < shape.parent.len() && shape.host != Some(j) implies #[trigger] candidate(
        shape,
        j,
        depth,
    ) != candidate(shape, i, depth) by {
        lemma_end_alike(path, path_of(shape, j as int), depth);
        assert(!shares_end(shape, i, j, depth));
    }
    let round = law_every_node_is_named(shape, i);
    if takes_number(shape, i, round) {
        let other = lemma_number_means_shared(shape, i, round);
        assert(candidate(shape, other, depth) == candidate(shape, i, depth));
    }
    assert(takes_run(shape, i, round));
    if round < depth {
        assert(is_shared(shape, i, round));
        let j = choose|j: usize| shares_end(shape, i, j, round);
        lemma_end_alike(path, path_of(shape, j as int), round);
        lemma_no_shared_run(shape, i, round, j);
    }
    if round > depth {
        lemma_unshared_is_taken(shape, i, depth, round);
        lemma_was_unresolved(shape, i, depth, round);
    }
}

/// Where no element's name holds a `/` or a `#`, elements of one path are told
/// apart by their numbers, which stand behind a `#`.
pub proof fn law_equal_paths_are_numbered(shape: Shape, i: usize, j: usize)
    requires
        valid_shape(shape),
        plainly_named(shape),
        i < shape.parent.len(),
        shape.host != Some(i),
        j < shape.parent.len(),
        shape.host != Some(j),
        i != j,
        path_of(shape, i as int) == path_of(shape, j as int),
    ensures
        ({
            let path = joined(path_of(shape, i as int));
            let identity = identities_of(shape)[i as int];
            &&& identity.len() > path.len()
            &&& identity.take(path.len() as int) == path
            &&& identity[path.len() as int] == '#'
            &&& decimal_value(identity.skip(path.len() as int + 1)) == shape.ids[i as int]
        }),
{
    assert(same_path(shape, i, j));
    let depth = lemma_shared_means_number(shape, i, j);
    assert(takes_number(shape, i, depth));
    law_numbers_tell_equal_paths_apart(shape, i);
    let number = shape.ids[i as int] as nat;
    law_decimals_spell_their_numbers(number);
    let path = joined(path_of(shape, i as int));
    let identity = identities_of(shape)[i as int];
    assert(identity == path + number_mark(shape, i));
    assert(identity.take(path.len() as int) =~= path);
    assert(identity.skip(path.len() as int + 1) =~= crate::text::decimal(number));
}

} // verus!
