//! The identities of published nodes.
//!
//! A node keeps its own name while that names it alone. Otherwise it takes the
//! shortest trailing run of its ancestor path that separates it, and where even
//! the full path collides, that path with the node's number. Runs are compared
//! name by name; what is given out is never spelled like anything else that is.

use vstd::hash_map::StringHashMap;
use vstd::hash_set::StringHashSet;
use vstd::prelude::*;

use crate::ancestry::Parent;
#[allow(unused_imports)]
use crate::ancestry::{
    climb, graph, grounded, lemma_climb_add, lemma_long_climb, lemma_one_end, up,
};
#[allow(unused_imports)]
use crate::text::{
    decimal, joined, lemma_decimal_injective, lemma_decimal_last, lemma_joined_injective,
    plain_segment,
};
use crate::text::to_decimal;
use crate::tree::FrameTree;
#[allow(unused_imports)]
use crate::tree::{law_order_is_complete, order_of, orderly, placed, valid_shape, Shape};

verus! {

// ---------------------------------------------------------------------------
// Ancestor paths
// ---------------------------------------------------------------------------
/// The parents of all places below the host: a child of the host is a root,
/// and so is the host itself.
pub open spec fn lineage(shape: Shape) -> Seq<Parent> {
    Seq::new(
        shape.parent.len(),
        |i: int|
            if shape.host == Some(i as usize) {
                Parent::Root
            } else {
                match shape.parent[i] {
                    Some(p) => if shape.host == Some(p) {
                        Parent::Root
                    } else {
                        Parent::Node(p)
                    },
                    None => Parent::Root,
                }
            },
    )
}

/// The parents of every place lead to a root.
pub open spec fn acyclic(shape: Shape) -> bool {
    forall|i: usize| i < shape.parent.len() ==> #[trigger] grounded(lineage(shape), i)
}

/// A place and up to `k - 1` of its ancestors, the topmost first.
pub open spec fn places_up(parents: Seq<Parent>, i: usize, k: nat) -> Seq<usize>
    decreases k,
{
    if k == 0 {
        Seq::empty()
    } else {
        match parents[i as int] {
            Parent::Node(p) => places_up(parents, p, (k - 1) as nat).push(i),
            _ => seq![i],
        }
    }
}

/// A place and its ancestors below the host, the topmost first; none for the
/// host.
pub open spec fn ancestor_places(shape: Shape, i: usize) -> Seq<usize> {
    if shape.host == Some(i) {
        Seq::empty()
    } else {
        places_up(lineage(shape), i, shape.parent.len())
    }
}

/// The texts that stand at places.
pub open spec fn texts_at(texts: Seq<Seq<char>>, places: Seq<usize>) -> Seq<Seq<char>> {
    Seq::new(places.len(), |i: int| texts[places[i] as int])
}

/// The names of a place and its ancestors, the topmost first.
pub open spec fn path_of(shape: Shape, i: int) -> Seq<Seq<char>> {
    texts_at(shape.names, ancestor_places(shape, i as usize))
}

pub proof fn lemma_lineage_graph(shape: Shape)
    requires
        valid_shape(shape),
    ensures
        graph(lineage(shape)),
{
    let parents = lineage(shape);
    assert forall|i: int| 0 <= i < parents.len() implies match #[trigger] parents[i] {
        Parent::Node(p) => p < parents.len(),
        _ => true,
    } by {
        assert(match shape.parent[i] {
            Some(p) => p < shape.parent.len(),
            None => true,
        });
    }
}

/// A path holds the place itself last, only places, and at most `k` of them.
proof fn lemma_places_up(parents: Seq<Parent>, i: usize, k: nat)
    requires
        graph(parents),
        i < parents.len(),
        k > 0,
    ensures
        0 < places_up(parents, i, k).len() <= k,
        places_up(parents, i, k).last() == i,
        placed(parents.len(), places_up(parents, i, k)),
    decreases k,
{
    assert(match parents[i as int] {
        Parent::Node(p) => p < parents.len(),
        _ => true,
    });
    if let Parent::Node(p) = parents[i as int] {
        if k > 1 {
            lemma_places_up(parents, p, (k - 1) as nat);
        }
        let rest = places_up(parents, p, (k - 1) as nat);
        assert forall|j: int| 0 <= j < places_up(parents, i, k).len() implies #[trigger] places_up(
            parents,
            i,
            k,
        )[j] < parents.len() by {
            if j < rest.len() {
                assert(rest[j] < parents.len());
            }
        }
    }
}

pub proof fn lemma_up_once(parents: Seq<Parent>, i: usize, p: usize, k: nat)
    requires
        k > 0,
        parents[i as int] == Parent::Node(p),
    ensures
        climb(parents, i, k) == climb(parents, p, (k - 1) as nat),
{
    assert(climb(parents, i, 0) == Some(i));
    assert(climb(parents, i, 1) == Some(p));
    lemma_climb_add(parents, i, 1, (k - 1) as nat);
    assert(1 + (k - 1) as nat == k);
}

fn reversed(places: Vec<usize>) -> (backwards: Vec<usize>)
    ensures
        backwards@ == places@.reverse(),
{
    let mut backwards: Vec<usize> = Vec::new();
    let mut i: usize = places.len();
    while i > 0
        invariant
            i <= places@.len(),
            backwards@ == places@.reverse().take(places@.len() - i),
        decreases i,
    {
        i -= 1;
        backwards.push(places[i]);
        assert(backwards@ =~= places@.reverse().take(places@.len() - i));
    }
    assert(backwards@ =~= places@.reverse());
    backwards
}

impl FrameTree {
    /// The places of `index` and its ancestors, root first, stopping below the host.
    pub fn ancestor_path(&self, index: usize) -> (path: Vec<usize>)
        requires
            self.wf(),
            acyclic(self.shape()),
            index < self.nodes@.len(),
        ensures
            path@ == ancestor_places(self.shape(), index),
    {
        let ghost shape = self.shape();
        let ghost parents = lineage(shape);
        let ghost n = shape.parent.len();
        if self.host.is_some() && self.host.unwrap() == index {
            let path: Vec<usize> = Vec::new();
            assert(path@ =~= ancestor_places(shape, index));
            return path;
        }
        let mut path: Vec<usize> = Vec::new();
        let mut node: usize = index;
        let ghost mut left: nat = n;
        proof {
            lemma_lineage_graph(shape);
            assert(grounded(parents, index));
            if climb(parents, index, n) is Some {
                lemma_long_climb(parents, index);
                lemma_one_end(parents, index);
            }
            assert(places_up(parents, index, n) + path@.reverse() =~= places_up(parents, index, n));
        }
        loop
            invariant_except_break
                places_up(parents, index, n) == places_up(parents, node, left) + path@.reverse(),
            invariant
                self.wf(),
                shape == self.shape(),
                parents == lineage(shape),
                graph(parents),
                node < parents.len(),
                shape.host != Some(node),
                climb(parents, node, left) is None,
            ensures
                path@.reverse() == places_up(parents, index, n),
            decreases left,
        {
            proof {
                assert(climb(parents, node, 0) == Some(node));
                assert(left > 0);
                assert(path@.push(node).reverse() =~= seq![node] + path@.reverse());
                assert(match parents[node as int] {
                    Parent::Node(p) => p < parents.len(),
                    _ => true,
                });
            }
            let ghost before = path@.reverse();
            path.push(node);
            match self.parent[node] {
                Some(above) => {
                    if self.host.is_some() && self.host.unwrap() == above {
                        break ;
                    }
                    proof {
                        lemma_up_once(parents, node, above, left);
                        let rest = places_up(parents, above, (left - 1) as nat);
                        assert(rest.push(node) + before =~= rest + path@.reverse());
                        left = (left - 1) as nat;
                    }
                    node = above;
                },
                None => {
                    break ;
                },
            }
        }
        let path = reversed(path);
        path
    }

    fn ancestor_paths(&self) -> (paths: Vec<Vec<usize>>)
        requires
            self.wf(),
            acyclic(self.shape()),
        ensures
            paths@.len() == self.nodes@.len(),
            forall|i: int|
                0 <= i < paths@.len() ==> (#[trigger] paths@[i])@ == ancestor_places(
                    self.shape(),
                    i as usize,
                ),
    {
        let mut paths: Vec<Vec<usize>> = Vec::new();
        let mut i: usize = 0;
        while i < self.nodes.len()
            invariant
                self.wf(),
                acyclic(self.shape()),
                i <= self.nodes@.len(),
                paths@.len() == i,
                forall|j: int|
                    0 <= j < i ==> (#[trigger] paths@[j])@ == ancestor_places(
                        self.shape(),
                        j as usize,
                    ),
            decreases self.nodes@.len() - i,
        {
            paths.push(self.ancestor_path(i));
            i += 1;
        }
        paths
    }
}

// ---------------------------------------------------------------------------
// Suffixes and their texts
// ---------------------------------------------------------------------------
/// The trailing `depth` elements of a sequence, or all where it has no more.
pub open spec fn tail<T>(segments: Seq<T>, depth: nat) -> Seq<T> {
    if segments.len() <= depth {
        segments
    } else {
        segments.skip(segments.len() - depth)
    }
}

/// The trailing `depth` segments of a path.
pub fn suffix<T>(segments: &[T], depth: usize) -> (trailing: &[T])
    ensures
        trailing@ == tail(segments@, depth as nat),
{
    let len = segments.len();
    let trailing = vstd::slice::slice_subrange(segments, len.saturating_sub(depth), len);
    assert(trailing@ =~= tail(segments@, depth as nat));
    trailing
}

proof fn lemma_tail_texts(texts: Seq<Seq<char>>, places: Seq<usize>, depth: nat)
    ensures
        texts_at(texts, tail(places, depth)) == tail(texts_at(texts, places), depth),
{
    assert(texts_at(texts, tail(places, depth)) =~= tail(texts_at(texts, places), depth));
}

pub open spec fn views(texts: Seq<String>) -> Seq<Seq<char>> {
    Seq::new(texts.len(), |i: int| texts[i]@)
}

/// The texts at places, joined.
fn join_at(texts: &Vec<String>, places: &[usize]) -> (text: String)
    requires
        placed(texts@.len(), places@),
    ensures
        text@ == joined(texts_at(views(texts@), places@)),
{
    let ghost parts = texts_at(views(texts@), places@);
    let mut text = String::new();
    let mut i: usize = 0;
    assert(text@ =~= joined(parts.take(0)));
    while i < places.len()
        invariant
            placed(texts@.len(), places@),
            parts == texts_at(views(texts@), places@),
            i <= places@.len(),
            text@ == joined(parts.take(i as int)),
        decreases places@.len() - i,
    {
        assert(places@[i as int] < texts@.len());
        let part = texts[places[i]].as_str();
        proof {
            assert(parts.take(i + 1).drop_last() =~= parts.take(i as int));
            assert(parts.take(i + 1).last() == part@);
        }
        if i > 0 {
            text.push('/');
        }
        text.append(part);
        assert(text@ =~= joined(parts.take(i + 1)));
        i += 1;
    }
    assert(parts.take(places@.len() as int) =~= parts);
    text
}

/// Each name's number in order of first occurrence, as a text.
fn number_names(names: &Vec<String>) -> (codes: Vec<String>)
    ensures
        codes@.len() == names@.len(),
        forall|i: int, j: int|
            0 <= i < names@.len() && 0 <= j < names@.len() ==> ((#[trigger] codes@[i])@ == (
            #[trigger] codes@[j])@ <==> names@[i]@ == names@[j]@),
        forall|i: int| 0 <= i < codes@.len() ==> plain_segment((#[trigger] codes@[i])@),
{
    let mut numbers: StringHashMap<u64> = StringHashMap::new();
    let mut next: u64 = 0;
    let mut codes: Vec<String> = Vec::new();
    let ghost mut given: Seq<u64> = Seq::empty();
    let mut i: usize = 0;
    while i < names.len()
        invariant
            i <= names@.len(),
            next <= i,
            codes@.len() == i,
            given.len() == i,
            forall|j: int| 0 <= j < i ==> (#[trigger] codes@[j])@ == decimal(given[j] as nat),
            forall|j: int|
                0 <= j < i ==> numbers@.contains_key((#[trigger] names@[j])@) && given[j]
                    == numbers@[names@[j]@],
            forall|name: Seq<char>| #[trigger]
                numbers@.contains_key(name) ==> numbers@[name] < next,
            forall|a: Seq<char>, b: Seq<char>|
                #![trigger numbers@.contains_key(a), numbers@.contains_key(b)]
                numbers@.contains_key(a) && numbers@.contains_key(b) && numbers@[a] == numbers@[b]
                    ==> a == b,
        decreases names@.len() - i,
    {
        let number: u64 = match numbers.get(names[i].as_str()) {
            Some(number) => *number,
            None => {
                let number = next;
                numbers.insert(names[i].clone(), number);
                next += 1;
                number
            },
        };
        proof {
            given = given.push(number);
        }
        codes.push(to_decimal(number));
        i += 1;
    }
    proof {
        assert forall|i: int, j: int| 0 <= i < names@.len() && 0 <= j < names@.len() implies ((
        #[trigger] codes@[i])@ == (#[trigger] codes@[j])@ <==> names@[i]@ == names@[j]@) by {
            assert(numbers@.contains_key(names@[i]@) && numbers@.contains_key(names@[j]@));
            if codes@[i]@ == codes@[j]@ {
                lemma_decimal_injective(given[i] as nat, given[j] as nat);
            }
        }
        assert forall|i: int| 0 <= i < codes@.len() implies plain_segment(
            (#[trigger] codes@[i])@,
        ) by {
            lemma_decimal_last(given[i] as nat);
        }
    }
    codes
}

// ---------------------------------------------------------------------------
// Naming
// ---------------------------------------------------------------------------
/// Identities while they are being given out.
#[verifier::ext_equal]
pub struct Naming {
    /// The identity of each place that has one.
    pub identities: Seq<Seq<char>>,
    /// The runs that were given out.
    pub taken: Set<Seq<char>>,
    /// The places that still have no identity, in publishing order.
    pub unresolved: Seq<usize>,
}

/// The trailing `depth` names of the path of a place.
pub open spec fn candidate(shape: Shape, i: usize, depth: nat) -> Seq<Seq<char>> {
    tail(path_of(shape, i as int), depth)
}

/// How the trailing `depth` names of the path of a place are spelled.
pub open spec fn spelled(shape: Shape, i: usize, depth: nat) -> Seq<char> {
    joined(candidate(shape, i, depth))
}

/// No other unresolved place has the same candidate, name by name.
pub open spec fn alone(shape: Shape, unresolved: Seq<usize>, i: usize, depth: nat) -> bool {
    forall|k: int|
        0 <= k < unresolved.len() && #[trigger] unresolved[k] != i ==> candidate(
            shape,
            unresolved[k],
            depth,
        ) != candidate(shape, i, depth)
}

/// No other unresolved place that is alone with its candidate spells it the
/// same.
pub open spec fn distinctly_spelled(
    shape: Shape,
    unresolved: Seq<usize>,
    i: usize,
    depth: nat,
) -> bool {
    forall|k: int|
        0 <= k < unresolved.len() && #[trigger] unresolved[k] != i && alone(
            shape,
            unresolved,
            unresolved[k],
            depth,
        ) ==> spelled(shape, unresolved[k], depth) != spelled(shape, i, depth)
}

/// The candidates of all unresolved places are their full paths.
pub open spec fn exhausted(shape: Shape, unresolved: Seq<usize>, depth: nat) -> bool {
    forall|k: int|
        0 <= k < unresolved.len() ==> path_of(shape, (#[trigger] unresolved[k]) as int).len()
            <= depth
}

/// The candidate of a place separates it, and its spelling is free: no other
/// place could take it in this round, and it was never given out.
pub open spec fn separates(shape: Shape, naming: Naming, depth: nat, i: usize) -> bool {
    &&& alone(shape, naming.unresolved, i, depth)
    &&& distinctly_spelled(shape, naming.unresolved, i, depth)
    &&& !naming.taken.contains(spelled(shape, i, depth))
}

/// One of the first `k` unresolved places takes `name` as its run.
pub open spec fn given_out(
    shape: Shape,
    naming: Naming,
    depth: nat,
    k: int,
    name: Seq<char>,
) -> bool {
    exists|j: int|
        0 <= j < k && separates(shape, naming, depth, #[trigger] naming.unresolved[j]) && spelled(
            shape,
            naming.unresolved[j],
            depth,
        ) == name
}

/// The naming once every place that its candidate separates has taken it.
pub open spec fn with_runs(shape: Shape, naming: Naming, depth: nat) -> Naming {
    Naming {
        identities: Seq::new(
            naming.identities.len(),
            |i: int|
                if naming.unresolved.contains(i as usize) && separates(
                    shape,
                    naming,
                    depth,
                    i as usize,
                ) {
                    spelled(shape, i as usize, depth)
                } else {
                    naming.identities[i]
                },
        ),
        taken: Set::new(
            |name: Seq<char>|
                naming.taken.contains(name) || given_out(
                    shape,
                    naming,
                    depth,
                    naming.unresolved.len() as int,
                    name,
                ),
        ),
        unresolved: naming.unresolved.filter(|i: usize| !separates(shape, naming, depth, i)),
    }
}

/// A text with a mark behind it as often as it takes to leave `used`, at most
/// `tries` times.
pub open spec fn first_free(
    text: Seq<char>,
    mark: Seq<char>,
    used: Set<Seq<char>>,
    tries: nat,
) -> Seq<char>
    decreases tries,
{
    if tries == 0 || !used.contains(text) {
        text
    } else {
        first_free(text + mark, mark, used, (tries - 1) as nat)
    }
}

/// The number of a place as it is put behind a path.
pub open spec fn number_mark(shape: Shape, i: usize) -> Seq<char> {
    seq!['#'] + decimal(shape.ids[i as int] as nat)
}

/// The full path of a place with its number, which is repeated where that is
/// how a run was spelled.
pub open spec fn numbered(shape: Shape, used: Set<Seq<char>>, i: usize) -> Seq<char> {
    first_free(
        joined(path_of(shape, i as int)) + number_mark(shape, i),
        number_mark(shape, i),
        used,
        used.len(),
    )
}

/// The naming once every unresolved place has taken its numbered path.
pub open spec fn with_numbers(shape: Shape, naming: Naming) -> Naming {
    Naming {
        identities: Seq::new(
            naming.identities.len(),
            |i: int|
                if naming.unresolved.contains(i as usize) {
                    numbered(shape, naming.taken, i as usize)
                } else {
                    naming.identities[i]
                },
        ),
        taken: naming.taken,
        unresolved: Seq::empty(),
    }
}

/// The naming after the round at `depth`: what candidates separate takes them,
/// and where there is nothing longer to try, the rest takes numbered paths.
pub open spec fn next_naming(shape: Shape, naming: Naming, depth: nat) -> Naming {
    if exhausted(shape, naming.unresolved, depth) {
        with_numbers(shape, with_runs(shape, naming, depth))
    } else {
        with_runs(shape, naming, depth)
    }
}

/// The naming after the rounds at `depth` and beyond.
pub open spec fn named_from(shape: Shape, naming: Naming, depth: nat) -> Naming
    decreases shape.parent.len() + 1 - depth,
{
    if naming.unresolved.len() == 0 || depth > shape.parent.len() {
        naming
    } else {
        named_from(shape, next_naming(shape, naming, depth), depth + 1)
    }
}

/// No identity is given out yet.
pub open spec fn unnamed(shape: Shape) -> Naming {
    Naming {
        identities: Seq::new(shape.parent.len(), |i: int| Seq::<char>::empty()),
        taken: Set::empty(),
        unresolved: order_of(shape),
    }
}

/// The identity of every place; the host's is empty.
pub open spec fn identities_of(shape: Shape) -> Seq<Seq<char>> {
    named_from(shape, unnamed(shape), 1).identities
}

/// Unresolved places are distinct, published, and have a slot; finitely many
/// runs were given out.
pub open spec fn valid_naming(shape: Shape, naming: Naming) -> bool {
    &&& orderly(shape.children, shape.host, naming.unresolved)
    &&& naming.identities.len() == shape.parent.len()
    &&& naming.taken.finite()
}

proof fn lemma_filtered(shape: Shape, unresolved: Seq<usize>, keep: spec_fn(usize) -> bool)
    requires
        orderly(shape.children, shape.host, unresolved),
    ensures
        orderly(shape.children, shape.host, unresolved.filter(keep)),
        forall|i: usize| #[trigger]
            unresolved.filter(keep).contains(i) <==> unresolved.contains(i) && keep(i),
    decreases unresolved.len(),
{
    reveal(Seq::filter);
    if unresolved.len() > 0 {
        let rest = unresolved.drop_last();
        let last = unresolved.last();
        assert forall|i: int| 0 <= i < rest.len() implies #[trigger] rest[i]
            < shape.children.len() && shape.host != Some(rest[i]) by {
            assert(rest[i] == unresolved[i]);
        }
        assert(!rest.contains(last)) by {
            if rest.contains(last) {
                let at = rest.index_of(last);
                assert(unresolved[at] == unresolved[unresolved.len() - 1]);
            }
        }
        lemma_filtered(shape, rest, keep);
        let shorter = rest.filter(keep);
        let after = unresolved.filter(keep);
        assert forall|i: usize| #[trigger] after.contains(i) <==> unresolved.contains(i) && keep(
            i,
        ) by {
            assert(unresolved[unresolved.len() - 1] == last);
            if unresolved.contains(i) && i != last {
                let at = unresolved.index_of(i);
                assert(rest[at] == i);
            }
            if rest.contains(i) {
                assert(unresolved[rest.index_of(i)] == i);
            }
            if after.contains(i) {
                let at = after.index_of(i);
                if at < shorter.len() {
                    assert(shorter[at] == i);
                    assert(shorter.contains(i));
                }
            }
            if shorter.contains(i) {
                assert(after[shorter.index_of(i)] == i);
            }
            if i == last && keep(last) {
                assert(after[shorter.len() as int] == last);
            }
        }
        assert(after.no_duplicates()) by {
            assert forall|i: int, j: int|
                0 <= i < after.len() && 0 <= j < after.len() && i != j implies after[i]
                != after[j] by {
                if i < shorter.len() {
                    assert(shorter.contains(shorter[i]));
                }
                if j < shorter.len() {
                    assert(shorter.contains(shorter[j]));
                }
            }
        }
        assert forall|i: int| 0 <= i < after.len() implies #[trigger] after[i]
            < shape.children.len() && shape.host != Some(after[i]) by {
            assert(after.contains(after[i]));
            let at = unresolved.index_of(after[i]);
            assert(unresolved[at] < shape.children.len());
        }
    }
}

proof fn lemma_with_runs(shape: Shape, naming: Naming, depth: nat)
    requires
        valid_naming(shape, naming),
    ensures
        valid_naming(shape, with_runs(shape, naming, depth)),
        forall|i: usize| #[trigger]
            with_runs(shape, naming, depth).unresolved.contains(i)
                <==> naming.unresolved.contains(i) && !separates(shape, naming, depth, i),
{
    let ran = with_runs(shape, naming, depth);
    lemma_filtered(shape, naming.unresolved, |i: usize| !separates(shape, naming, depth, i));
    let texts = Seq::new(
        naming.unresolved.len(),
        |k: int| spelled(shape, naming.unresolved[k], depth),
    );
    let all = naming.taken.union(texts.to_set());
    vstd::seq_lib::seq_to_set_is_finite(texts);
    vstd::set_lib::lemma_set_union_finite_iff(naming.taken, texts.to_set());
    assert(ran.taken.subset_of(all)) by {
        assert forall|name: Seq<char>| ran.taken.contains(name) implies all.contains(name) by {
            if !naming.taken.contains(name) {
                let j = choose|j: int|
                    0 <= j < naming.unresolved.len() && separates(
                        shape,
                        naming,
                        depth,
                        #[trigger] naming.unresolved[j],
                    ) && spelled(shape, naming.unresolved[j], depth) == name;
                assert(texts[j] == name);
                assert(texts.contains(name));
            }
        }
    }
    vstd::set_lib::lemma_set_subset_finite(all, ran.taken);
}

/// A place is resolved in a round that separates it or leaves nothing to try.
pub open spec fn resolves(shape: Shape, naming: Naming, depth: nat, i: usize) -> bool {
    separates(shape, naming, depth, i) || exhausted(shape, naming.unresolved, depth)
}

proof fn lemma_next_naming(shape: Shape, naming: Naming, depth: nat)
    requires
        valid_naming(shape, naming),
    ensures
        valid_naming(shape, next_naming(shape, naming, depth)),
        next_naming(shape, naming, depth).taken == with_runs(shape, naming, depth).taken,
        forall|i: usize| #[trigger]
            next_naming(shape, naming, depth).unresolved.contains(i)
                <==> naming.unresolved.contains(i) && !resolves(shape, naming, depth, i),
{
    lemma_with_runs(shape, naming, depth);
}

/// Paths are not empty and not longer than the tree is large.
proof fn lemma_path(shape: Shape, i: usize)
    requires
        valid_shape(shape),
        i < shape.parent.len(),
        shape.host != Some(i),
    ensures
        0 < ancestor_places(shape, i).len() <= shape.parent.len(),
        path_of(shape, i as int).len() == ancestor_places(shape, i).len(),
        placed(shape.parent.len(), ancestor_places(shape, i)),
        ancestor_places(shape, i).last() == i,
        path_of(shape, i as int).last() == shape.names[i as int],
{
    lemma_lineage_graph(shape);
    lemma_places_up(lineage(shape), i, shape.parent.len());
}

proof fn lemma_tail_placed(n: nat, places: Seq<usize>, depth: nat)
    requires
        placed(n, places),
    ensures
        placed(n, tail(places, depth)),
{
    let end = tail(places, depth);
    assert forall|i: int| 0 <= i < end.len() implies #[trigger] end[i] < n by {
        if places.len() > depth {
            assert(end[i] == places[places.len() - depth + i]);
        }
    }
}

/// What separates candidates: the numbers of their names, joined.
pub open spec fn key(shape: Shape, codes: Seq<Seq<char>>, i: usize, depth: nat) -> Seq<char> {
    joined(texts_at(codes, tail(ancestor_places(shape, i), depth)))
}

/// The keys of places' candidates.
pub open spec fn keys_of(
    shape: Shape,
    codes: Seq<Seq<char>>,
    places: Seq<usize>,
    depth: nat,
) -> Seq<Seq<char>> {
    Seq::new(places.len(), |k: int| key(shape, codes, places[k], depth))
}

/// The codes tell the names apart, and are plain segments.
pub open spec fn coded(shape: Shape, codes: Seq<Seq<char>>) -> bool {
    &&& codes.len() == shape.names.len()
    &&& forall|i: int, j: int|
        0 <= i < codes.len() && 0 <= j < codes.len() ==> (#[trigger] codes[i] == #[trigger] codes[j]
            <==> shape.names[i] == shape.names[j])
    &&& forall|i: int| 0 <= i < codes.len() ==> plain_segment(#[trigger] codes[i])
}

proof fn lemma_key(shape: Shape, codes: Seq<Seq<char>>, i: usize, j: usize, depth: nat)
    requires
        valid_shape(shape),
        coded(shape, codes),
        depth > 0,
        i < shape.parent.len(),
        j < shape.parent.len(),
        shape.host != Some(i),
        shape.host != Some(j),
    ensures
        key(shape, codes, i, depth) == key(shape, codes, j, depth) <==> candidate(shape, i, depth)
            == candidate(shape, j, depth),
{
    let n = shape.parent.len();
    let a = tail(ancestor_places(shape, i), depth);
    let b = tail(ancestor_places(shape, j), depth);
    lemma_path(shape, i);
    lemma_path(shape, j);
    lemma_tail_placed(n, ancestor_places(shape, i), depth);
    lemma_tail_placed(n, ancestor_places(shape, j), depth);
    lemma_tail_texts(shape.names, ancestor_places(shape, i), depth);
    lemma_tail_texts(shape.names, ancestor_places(shape, j), depth);
    let left = texts_at(codes, a);
    let right = texts_at(codes, b);
    assert forall|k: int| 0 <= k < left.len() implies plain_segment(#[trigger] left[k]) by {
        assert(a[k] < n);
        assert(plain_segment(codes[a[k] as int]));
    }
    assert forall|k: int| 0 <= k < right.len() implies plain_segment(#[trigger] right[k]) by {
        assert(b[k] < n);
        assert(plain_segment(codes[b[k] as int]));
    }
    if key(shape, codes, i, depth) == key(shape, codes, j, depth) {
        lemma_joined_injective(left, right);
        assert(a.len() == b.len());
        assert forall|k: int| 0 <= k < a.len() implies shape.names[a[k] as int]
            == shape.names[b[k] as int] by {
            assert(a[k] < n && b[k] < n);
            assert(left[k] == right[k]);
            assert(codes[a[k] as int] == codes[b[k] as int]);
        }
        assert(texts_at(shape.names, a) =~= texts_at(shape.names, b));
    }
    if candidate(shape, i, depth) == candidate(shape, j, depth) {
        let x = texts_at(shape.names, a);
        let y = texts_at(shape.names, b);
        assert(x == y);
        assert(a.len() == x.len() && b.len() == y.len());
        assert forall|k: int| 0 <= k < a.len() implies codes[a[k] as int] == codes[b[k] as int] by {
            assert(a[k] < n && b[k] < n);
            assert(x[k] == y[k]);
        }
        assert(left =~= right);
    }
}

/// Paths and codes as they are looked up.
pub struct PathTable {
    places: Vec<Vec<usize>>,
    codes: Vec<String>,
}

impl PathTable {
    spec fn describes(&self, tree: &FrameTree) -> bool {
        &&& tree.wf()
        &&& coded(tree.shape(), views(self.codes@))
        &&& self.places@.len() == tree.nodes@.len()
        &&& forall|i: int|
            0 <= i < self.places@.len() ==> (#[trigger] self.places@[i])@ == ancestor_places(
                tree.shape(),
                i as usize,
            )
    }

    fn new(tree: &FrameTree) -> (table: Self)
        requires
            tree.wf(),
            acyclic(tree.shape()),
        ensures
            table.describes(tree),
    {
        let places = tree.ancestor_paths();
        let codes = number_names(&tree.names);
        proof {
            let shape = tree.shape();
            let texts = views(codes@);
            assert forall|i: int, j: int| 0 <= i < texts.len() && 0 <= j < texts.len() implies (
            #[trigger] texts[i] == #[trigger] texts[j] <==> shape.names[i] == shape.names[j]) by {
                assert(codes@[i]@ == texts[i] && codes@[j]@ == texts[j]);
                assert(tree.names@[i]@ == shape.names[i] && tree.names@[j]@ == shape.names[j]);
            }
            assert forall|i: int| 0 <= i < texts.len() implies plain_segment(#[trigger] texts[i]) by {
                assert(codes@[i]@ == texts[i]);
            }
        }
        PathTable { places, codes }
    }

    /// The key of a place's candidate.
    fn key_of(&self, tree: &FrameTree, i: usize, depth: usize) -> (text: String)
        requires
            self.describes(tree),
            i < tree.nodes@.len(),
            tree.host != Some(i),
        ensures
            text@ == key(tree.shape(), views(self.codes@), i, depth as nat),
    {
        proof {
            lemma_path(tree.shape(), i);
            lemma_tail_placed(
                tree.nodes@.len(),
                ancestor_places(tree.shape(), i),
                depth as nat,
            );
        }
        join_at(&self.codes, suffix(self.places[i].as_slice(), depth))
    }

    /// The joined names of a place's candidate.
    fn candidate_text(&self, tree: &FrameTree, i: usize, depth: usize) -> (text: String)
        requires
            self.describes(tree),
            i < tree.nodes@.len(),
            tree.host != Some(i),
        ensures
            text@ == spelled(tree.shape(), i, depth as nat),
    {
        proof {
            let shape = tree.shape();
            lemma_path(shape, i);
            lemma_tail_placed(tree.nodes@.len(), ancestor_places(shape, i), depth as nat);
            lemma_tail_texts(shape.names, ancestor_places(shape, i), depth as nat);
            assert(views(tree.names@) =~= shape.names);
        }
        join_at(&tree.names, suffix(self.places[i].as_slice(), depth))
    }

    /// The joined names of the candidates of these places.
    fn candidate_texts(
        &self,
        tree: &FrameTree,
        places: &Vec<usize>,
        depth: usize,
    ) -> (texts: Vec<String>)
        requires
            self.describes(tree),
            orderly(tree.shape().children, tree.host, places@),
        ensures
            views(texts@) == Seq::new(
                places@.len(),
                |k: int| spelled(tree.shape(), places@[k], depth as nat),
            ),
    {
        let mut texts: Vec<String> = Vec::new();
        while texts.len() < places.len()
            invariant
                self.describes(tree),
                orderly(tree.shape().children, tree.host, places@),
                texts@.len() <= places@.len(),
                forall|k: int|
                    0 <= k < texts@.len() ==> (#[trigger] texts@[k])@ == spelled(
                        tree.shape(),
                        places@[k],
                        depth as nat,
                    ),
            decreases places@.len() - texts@.len(),
        {
            assert(places@[texts@.len() as int] < tree.shape().children.len());
            let text = self.candidate_text(tree, places[texts.len()], depth);
            texts.push(text);
        }
        assert(views(texts@) =~= Seq::new(
            places@.len(),
            |k: int| spelled(tree.shape(), places@[k], depth as nat),
        ));
        texts
    }

    /// The keys of the candidates of all unresolved places.
    fn keys(&self, tree: &FrameTree, unresolved: &Vec<usize>, depth: usize) -> (keys: Vec<String>)
        requires
            self.describes(tree),
            orderly(tree.shape().children, tree.host, unresolved@),
        ensures
            views(keys@) == keys_of(
                tree.shape(),
                views(self.codes@),
                unresolved@,
                depth as nat,
            ),
    {
        let mut keys: Vec<String> = Vec::new();
        while keys.len() < unresolved.len()
            invariant
                self.describes(tree),
                orderly(tree.shape().children, tree.host, unresolved@),
                keys@.len() <= unresolved@.len(),
                forall|k: int|
                    0 <= k < keys@.len() ==> (#[trigger] keys@[k])@ == key(
                        tree.shape(),
                        views(self.codes@),
                        unresolved@[k],
                        depth as nat,
                    ),
            decreases unresolved@.len() - keys@.len(),
        {
            assert(unresolved@[keys@.len() as int] < tree.shape().children.len());
            let text = self.key_of(tree, unresolved[keys.len()], depth);
            keys.push(text);
        }
        assert(views(keys@) =~= keys_of(
            tree.shape(),
            views(self.codes@),
            unresolved@,
            depth as nat,
        ));
        keys
    }

    /// The full path of a place with its number, as often as it takes.
    fn numbered_text(&self, tree: &FrameTree, i: usize, taken: &StringHashSet) -> (text: String)
        requires
            self.describes(tree),
            i < tree.nodes@.len(),
            tree.host != Some(i),
        ensures
            text@ == numbered(tree.shape(), taken@, i),
    {
        let ghost shape = tree.shape();
        proof {
            lemma_path(shape, i);
            assert(views(tree.names@) =~= shape.names);
        }
        let mut mark = String::new();
        mark.push('#');
        let number = to_decimal(tree.nodes[i].id);
        mark.append(number.as_str());
        assert(mark@ =~= number_mark(shape, i));
        let mut text = join_at(&tree.names, self.places[i].as_slice());
        text.append(mark.as_str());
        let mut tries: usize = taken.len();
        while tries > 0 && taken.contains(text.as_str())
            invariant
                mark@ == number_mark(shape, i),
                numbered(shape, taken@, i) == first_free(text@, mark@, taken@, tries as nat),
            decreases tries,
        {
            text.append(mark.as_str());
            tries -= 1;
        }
        text
    }

    /// Whether no unresolved place has a longer path than `depth`.
    fn is_exhausted(&self, tree: &FrameTree, unresolved: &Vec<usize>, depth: usize) -> (answer: bool)
        requires
            self.describes(tree),
            orderly(tree.shape().children, tree.host, unresolved@),
        ensures
            answer == exhausted(tree.shape(), unresolved@, depth as nat),
    {
        let mut k: usize = 0;
        while k < unresolved.len()
            invariant
                self.describes(tree),
                orderly(tree.shape().children, tree.host, unresolved@),
                k <= unresolved@.len(),
                forall|j: int|
                    0 <= j < k ==> path_of(tree.shape(), (#[trigger] unresolved@[j]) as int).len()
                        <= depth,
            decreases unresolved@.len() - k,
        {
            assert(unresolved@[k as int] < tree.shape().children.len());
            proof {
                lemma_path(tree.shape(), unresolved@[k as int]);
            }
            if self.places[unresolved[k]].len() > depth {
                return false;
            }
            k += 1;
        }
        true
    }
}

/// The text at `k` is nowhere else.
pub open spec fn unique_at(texts: Seq<Seq<char>>, k: int) -> bool {
    forall|l: int| 0 <= l < texts.len() && l != k ==> #[trigger] texts[l] != texts[k]
}

proof fn lemma_unique_push(texts: Seq<Seq<char>>, text: Seq<char>, k: int)
    requires
        0 <= k <= texts.len(),
    ensures
        k < texts.len() ==> (unique_at(texts.push(text), k) <==> unique_at(texts, k) && texts[k]
            != text),
        k == texts.len() ==> (unique_at(texts.push(text), k) <==> !texts.contains(text)),
{
    let longer = texts.push(text);
    if k < texts.len() {
        if unique_at(longer, k) {
            assert forall|l: int| 0 <= l < texts.len() && l != k implies #[trigger] texts[l]
                != texts[k] by {
                assert(longer[l] != longer[k]);
            }
            assert(longer[texts.len() as int] != longer[k]);
        }
    } else {
        if unique_at(longer, k) && texts.contains(text) {
            assert(longer[texts.index_of(text)] == longer[k]);
        }
    }
}

/// Whether each text occurs more than once.
fn repeated_texts(texts: &Vec<String>) -> (seen: StringHashMap<bool>)
    ensures
        forall|k: int|
            0 <= k < texts@.len() ==> seen@.contains_key((#[trigger] texts@[k])@)
                && seen@[texts@[k]@] == !unique_at(views(texts@), k),
{
    let ghost all = views(texts@);
    let mut seen: StringHashMap<bool> = StringHashMap::new();
    let mut k: usize = 0;
    while k < texts.len()
        invariant
            all == views(texts@),
            k <= texts@.len(),
            forall|j: int| 0 <= j < k ==> seen@.contains_key(#[trigger] all[j]),
            forall|text: Seq<char>| #[trigger]
                seen@.contains_key(text) ==> all.take(k as int).contains(text),
            forall|j: int|
                0 <= j < k ==> seen@[#[trigger] all[j]] == !unique_at(all.take(k as int), j),
        decreases texts@.len() - k,
    {
        let again = seen.contains_key(texts[k].as_str());
        let ghost before = seen@;
        seen.insert(texts[k].clone(), again);
        proof {
            let shorter = all.take(k as int);
            let longer = all.take(k + 1);
            assert(texts@[k as int]@ == all[k as int]);
            assert(longer =~= shorter.push(all[k as int]));
            assert forall|name: Seq<char>| #[trigger] seen@.contains_key(name) implies
                longer.contains(name) by {
                if shorter.contains(name) {
                    assert(longer[shorter.index_of(name)] == name);
                } else {
                    assert(longer[k as int] == name);
                }
            }
            assert forall|j: int| 0 <= j < k + 1 implies seen@[#[trigger] all[j]] == !unique_at(
                longer,
                j,
            ) by {
                lemma_unique_push(shorter, all[k as int], j);
                if j < k {
                    assert(shorter[j] == all[j]);
                    if all[j] == all[k as int] {
                        assert(before.contains_key(all[j]));
                    }
                } else {
                    if again {
                        assert(shorter.contains(all[j]));
                    } else {
                        assert forall|l: int| 0 <= l < k implies shorter[l] != all[j] by {
                            assert(before.contains_key(all[l]));
                        }
                    }
                }
            }
        }
        k += 1;
    }
    proof {
        assert(all.take(all.len() as int) =~= all);
        assert forall|k: int| 0 <= k < texts@.len() implies seen@.contains_key(
            (#[trigger] texts@[k])@,
        ) && seen@[texts@[k]@] == !unique_at(views(texts@), k) by {
            assert(all[k] == texts@[k]@);
        }
    }
    seen
}

/// A place is alone when its key is.
proof fn lemma_alone(
    shape: Shape,
    codes: Seq<Seq<char>>,
    unresolved: Seq<usize>,
    depth: nat,
    k: int,
)
    requires
        valid_shape(shape),
        coded(shape, codes),
        depth > 0,
        orderly(shape.children, shape.host, unresolved),
        0 <= k < unresolved.len(),
    ensures
        alone(shape, unresolved, unresolved[k], depth) <==> unique_at(
            keys_of(shape, codes, unresolved, depth),
            k,
        ),
{
    let keys = keys_of(shape, codes, unresolved, depth);
    assert forall|l: int| 0 <= l < keys.len() implies (keys[l] == keys[k] <==> candidate(
        shape,
        #[trigger] unresolved[l],
        depth,
    ) == candidate(shape, unresolved[k], depth)) by {
        assert(unresolved[l] < shape.children.len());
        assert(unresolved[k] < shape.children.len());
        lemma_key(shape, codes, unresolved[l], unresolved[k], depth);
    }
    if unique_at(keys, k) {
        assert forall|l: int|
            0 <= l < unresolved.len() && #[trigger] unresolved[l] != unresolved[k] implies candidate(
            shape,
            unresolved[l],
            depth,
        ) != candidate(shape, unresolved[k], depth) by {
            assert(keys[l] != keys[k]);
        }
    }
    if alone(shape, unresolved, unresolved[k], depth) {
        assert forall|l: int| 0 <= l < keys.len() && l != k implies #[trigger] keys[l]
            != keys[k] by {
            assert(unresolved[l] != unresolved[k]);
        }
    }
}

/// A place that is alone is distinctly spelled when its text is, among the
/// texts of all places that are alone.
proof fn lemma_distinctly_spelled(
    shape: Shape,
    unresolved: Seq<usize>,
    lone: Seq<usize>,
    depth: nat,
    j: int,
)
    requires
        lone.no_duplicates(),
        forall|i: usize| #[trigger]
            lone.contains(i) <==> unresolved.contains(i) && alone(shape, unresolved, i, depth),
        0 <= j < lone.len(),
    ensures
        distinctly_spelled(shape, unresolved, lone[j], depth) <==> unique_at(
            Seq::new(lone.len(), |l: int| spelled(shape, lone[l], depth)),
            j,
        ),
{
    let texts = Seq::new(lone.len(), |l: int| spelled(shape, lone[l], depth));
    if unique_at(texts, j) {
        assert forall|k: int|
            0 <= k < unresolved.len() && #[trigger] unresolved[k] != lone[j] && alone(
                shape,
                unresolved,
                unresolved[k],
                depth,
            ) implies spelled(shape, unresolved[k], depth) != spelled(shape, lone[j], depth) by {
            assert(lone.contains(unresolved[k]));
            let l = lone.index_of(unresolved[k]);
            assert(texts[l] != texts[j]);
        }
    }
    if distinctly_spelled(shape, unresolved, lone[j], depth) {
        assert forall|l: int| 0 <= l < texts.len() && l != j implies #[trigger] texts[l]
            != texts[j] by {
            assert(lone.contains(lone[l]));
            let k = unresolved.index_of(lone[l]);
            assert(unresolved[k] == lone[l]);
            assert(lone[l] != lone[j]);
        }
    }
}

/// Whether a text occurs more than once.
fn is_repeated(seen: &StringHashMap<bool>, text: &str) -> (repeated: bool)
    requires
        seen@.contains_key(text@),
    ensures
        repeated == seen@[text@],
{
    match seen.get(text) {
        Some(repeated) => *repeated,
        None => true,
    }
}

proof fn lemma_filter_step(places: Seq<usize>, keep: spec_fn(usize) -> bool, k: int)
    requires
        0 <= k < places.len(),
    ensures
        places.take(k + 1).filter(keep) == (if keep(places[k]) {
            places.take(k).filter(keep).push(places[k])
        } else {
            places.take(k).filter(keep)
        }),
{
    reveal(Seq::filter);
    let longer = places.take(k + 1);
    assert(longer.drop_last() =~= places.take(k));
    assert(longer.last() == places[k]);
}

/// One more place takes its run, or does not.
proof fn lemma_given_step(shape: Shape, naming: Naming, depth: nat, k: int, name: Seq<char>)
    requires
        0 <= k < naming.unresolved.len(),
    ensures
        given_out(shape, naming, depth, k + 1, name) <==> given_out(shape, naming, depth, k, name)
            || (separates(shape, naming, depth, naming.unresolved[k]) && name == spelled(
            shape,
            naming.unresolved[k],
            depth,
        )),
{
    if given_out(shape, naming, depth, k + 1, name) {
        let j = choose|j: int|
            0 <= j < k + 1 && separates(shape, naming, depth, #[trigger] naming.unresolved[j])
                && spelled(shape, naming.unresolved[j], depth) == name;
        if j < k {
            assert(given_out(shape, naming, depth, k, name));
        }
    }
}

proof fn lemma_take_contains(places: Seq<usize>, k: int)
    requires
        places.no_duplicates(),
        0 <= k < places.len(),
    ensures
        !places.take(k).contains(places[k]),
        forall|i: usize| #[trigger]
            places.take(k + 1).contains(i) <==> places.take(k).contains(i) || i == places[k],
{
    let shorter = places.take(k);
    let longer = places.take(k + 1);
    assert(longer[k] == places[k]);
    if shorter.contains(places[k]) {
        assert(places[shorter.index_of(places[k])] == places[k]);
    }
    assert forall|i: usize| #[trigger] longer.contains(i) <==> shorter.contains(i) || i
        == places[k] by {
        if shorter.contains(i) {
            assert(longer[shorter.index_of(i)] == i);
        }
        if longer.contains(i) && i != places[k] {
            assert(shorter[longer.index_of(i)] == i);
        }
    }
}

impl PathTable {
    /// The unresolved places that are alone with their candidates.
    fn lone_places(&self, tree: &FrameTree, unresolved: &Vec<usize>, depth: usize) -> (lone: Vec<
        usize,
    >)
        requires
            self.describes(tree),
            orderly(tree.shape().children, tree.host, unresolved@),
            depth > 0,
        ensures
            orderly(tree.shape().children, tree.host, lone@),
            forall|i: usize| #[trigger]
                lone@.contains(i) <==> unresolved@.contains(i) && alone(
                    tree.shape(),
                    unresolved@,
                    i,
                    depth as nat,
                ),
    {
        let ghost shape = tree.shape();
        let ghost keep = |i: usize| alone(shape, unresolved@, i, depth as nat);
        let keys = self.keys(tree, unresolved, depth);
        let seen = repeated_texts(&keys);
        let mut lone: Vec<usize> = Vec::new();
        let mut k: usize = 0;
        proof {
            reveal(Seq::filter);
            assert(unresolved@.take(0).filter(keep) =~= Seq::empty());
        }
        while k < unresolved.len()
            invariant
                self.describes(tree),
                shape == tree.shape(),
                orderly(shape.children, tree.host, unresolved@),
                depth > 0,
                keep == (|i: usize| alone(shape, unresolved@, i, depth as nat)),
                views(keys@) == keys_of(shape, views(self.codes@), unresolved@, depth as nat),
                forall|j: int|
                    0 <= j < keys@.len() ==> seen@.contains_key((#[trigger] keys@[j])@)
                        && seen@[keys@[j]@] == !unique_at(views(keys@), j),
                k <= unresolved@.len(),
                lone@ == unresolved@.take(k as int).filter(keep),
            decreases unresolved@.len() - k,
        {
            proof {
                lemma_filter_step(unresolved@, keep, k as int);
                lemma_alone(shape, views(self.codes@), unresolved@, depth as nat, k as int);
                assert(views(keys@).len() == unresolved@.len());
            }
            if !is_repeated(&seen, keys[k].as_str()) {
                lone.push(unresolved[k]);
            }
            k += 1;
        }
        proof {
            assert(unresolved@.take(k as int) =~= unresolved@);
            lemma_filtered(shape, unresolved@, keep);
        }
        lone
    }

    /// The places among these whose texts no other of them has, as flags of all
    /// places.
    fn distinct_among(&self, tree: &FrameTree, lone: &Vec<usize>, texts: &Vec<String>) -> (flags:
        Vec<bool>)
        requires
            self.describes(tree),
            orderly(tree.shape().children, tree.host, lone@),
            texts@.len() == lone@.len(),
        ensures
            flags@.len() == tree.nodes@.len(),
            forall|i: usize|
                i < flags@.len() && !lone@.contains(i) ==> !#[trigger] flags@[i as int],
            forall|j: int|
                0 <= j < lone@.len() ==> flags@[(#[trigger] lone@[j]) as int] == unique_at(
                    views(texts@),
                    j,
                ),
    {
        let n = tree.nodes.len();
        let seen = repeated_texts(texts);
        let mut flags: Vec<bool> = Vec::new();
        while flags.len() < n
            invariant
                flags@.len() <= n,
                forall|i: int| 0 <= i < flags@.len() ==> !#[trigger] flags@[i],
            decreases n - flags@.len(),
        {
            flags.push(false);
        }
        let mut j: usize = 0;
        while j < lone.len()
            invariant
                tree.wf(),
                n == tree.nodes@.len(),
                orderly(tree.shape().children, tree.host, lone@),
                texts@.len() == lone@.len(),
                flags@.len() == n,
                forall|l: int|
                    0 <= l < texts@.len() ==> seen@.contains_key((#[trigger] texts@[l])@)
                        && seen@[texts@[l]@] == !unique_at(views(texts@), l),
                j <= lone@.len(),
                forall|i: usize|
                    i < n && !lone@.contains(i) ==> !#[trigger] flags@[i as int],
                forall|l: int|
                    0 <= l < j ==> flags@[(#[trigger] lone@[l]) as int] == unique_at(
                        views(texts@),
                        l,
                    ),
            decreases lone@.len() - j,
        {
            let index = lone[j];
            let ghost before = flags@;
            assert(lone@[j as int] < tree.shape().children.len());
            assert(lone@.contains(index));
            flags.set(index, !is_repeated(&seen, texts[j].as_str()));
            assert forall|l: int| 0 <= l < j + 1 implies flags@[(#[trigger] lone@[l]) as int]
                == unique_at(views(texts@), l) by {
                if l < j {
                    assert(lone@[l] != lone@[j as int]);
                    assert(before[lone@[l] as int] == unique_at(views(texts@), l));
                }
            }
            j += 1;
        }
        flags
    }

    /// Whether each unresolved place is alone with its candidate and distinctly
    /// spelled.
    fn separable(&self, tree: &FrameTree, unresolved: &Vec<usize>, depth: usize) -> (flags: Vec<
        bool,
    >)
        requires
            self.describes(tree),
            orderly(tree.shape().children, tree.host, unresolved@),
            depth > 0,
        ensures
            flags@.len() == tree.nodes@.len(),
            forall|k: int|
                0 <= k < unresolved@.len() ==> flags@[(#[trigger] unresolved@[k]) as int] == (
                alone(tree.shape(), unresolved@, unresolved@[k], depth as nat)
                    && distinctly_spelled(
                    tree.shape(),
                    unresolved@,
                    unresolved@[k],
                    depth as nat,
                )),
    {
        let ghost shape = tree.shape();
        let ghost d = depth as nat;
        let lone = self.lone_places(tree, unresolved, depth);
        let texts = self.candidate_texts(tree, &lone, depth);
        assert(texts@.len() == views(texts@).len());
        let flags = self.distinct_among(tree, &lone, &texts);
        proof {
            assert forall|k: int| 0 <= k < unresolved@.len() implies flags@[(
            #[trigger] unresolved@[k]) as int] == (alone(shape, unresolved@, unresolved@[k], d)
                && distinctly_spelled(shape, unresolved@, unresolved@[k], d)) by {
                let place = unresolved@[k];
                assert(unresolved@[k] < shape.children.len());
                if lone@.contains(place) {
                    let j = lone@.index_of(place);
                    lemma_distinctly_spelled(shape, unresolved@, lone@, d, j);
                    assert(flags@[lone@[j] as int] == unique_at(views(texts@), j));
                }
            }
        }
        flags
    }

    /// Give every place that its candidate separates that run. Returns the
    /// places that still have no identity.
    fn give_runs(
        &self,
        tree: &FrameTree,
        unresolved: &Vec<usize>,
        depth: usize,
        taken: &mut StringHashSet,
        identities: &mut Vec<String>,
    ) -> (still: Vec<usize>)
        requires
            self.describes(tree),
            depth > 0,
            valid_naming(
                tree.shape(),
                (Naming {
                    identities: views(old(identities)@),
                    taken: old(taken)@,
                    unresolved: unresolved@,
                }),
            ),
        ensures
            (Naming {
                identities: views(final(identities)@),
                taken: final(taken)@,
                unresolved: still@,
            }) == with_runs(
                tree.shape(),
                (Naming {
                    identities: views(old(identities)@),
                    taken: old(taken)@,
                    unresolved: unresolved@,
                }),
                depth as nat,
            ),
    {
        let ghost shape = tree.shape();
        let ghost d = depth as nat;
        let ghost naming = Naming {
            identities: views(identities@),
            taken: taken@,
            unresolved: unresolved@,
        };
        let ghost keep = |i: usize| !separates(shape, naming, d, i);
        let flags = self.separable(tree, unresolved, depth);
        let mut still: Vec<usize> = Vec::new();
        let mut k: usize = 0;
        proof {
            reveal(Seq::filter);
            assert(unresolved@.take(0).filter(keep) =~= Seq::empty());
        }
        while k < unresolved.len()
            invariant
                self.describes(tree),
                shape == tree.shape(),
                d == depth,
                valid_naming(shape, naming),
                naming.unresolved == unresolved@,
                keep == (|i: usize| !separates(shape, naming, d, i)),
                flags@.len() == tree.nodes@.len(),
                forall|j: int|
                    0 <= j < unresolved@.len() ==> flags@[(#[trigger] unresolved@[j]) as int] == (
                    alone(shape, unresolved@, unresolved@[j], d) && distinctly_spelled(
                        shape,
                        unresolved@,
                        unresolved@[j],
                        d,
                    )),
                k <= unresolved@.len(),
                identities@.len() == shape.parent.len(),
                forall|i: usize|
                    i < identities@.len() ==> (#[trigger] identities@[i as int])@ == (
                    if unresolved@.take(k as int).contains(i) && separates(shape, naming, d, i) {
                        spelled(shape, i, d)
                    } else {
                        naming.identities[i as int]
                    }),
                still@ == unresolved@.take(k as int).filter(keep),
                forall|name: Seq<char>| #[trigger]
                    taken@.contains(name) <==> naming.taken.contains(name) || given_out(
                        shape,
                        naming,
                        d,
                        k as int,
                        name,
                    ),
            decreases unresolved@.len() - k,
        {
            let index = unresolved[k];
            let ghost before = identities@;
            let ghost before_taken = taken@;
            proof {
                assert(unresolved@[k as int] < shape.children.len());
                lemma_filter_step(unresolved@, keep, k as int);
                lemma_take_contains(unresolved@, k as int);
            }
            let mut name: Option<String> = None;
            if flags[index] {
                let text = self.candidate_text(tree, index, depth);
                if !taken.contains(text.as_str()) {
                    name = Some(text);
                }
            }
            assert(name is Some <==> separates(shape, naming, d, index)) by {
                let text = spelled(shape, index, d);
                if flags@[index as int] && given_out(shape, naming, d, k as int, text) {
                    let j = choose|j: int|
                        0 <= j < k && separates(shape, naming, d, #[trigger] naming.unresolved[j])
                            && spelled(shape, naming.unresolved[j], d) == text;
                    assert(unresolved@[j] != unresolved@[k as int]);
                }
            }
            match name {
                Some(text) => {
                    let _ = taken.insert(text.clone());
                    identities.set(index, text);
                },
                None => {
                    still.push(index);
                },
            }
            proof {
                assert forall|name: Seq<char>| #[trigger] taken@.contains(name)
                    <==> naming.taken.contains(name) || given_out(
                    shape,
                    naming,
                    d,
                    k + 1,
                    name,
                ) by {
                    lemma_given_step(shape, naming, d, k as int, name);
                    assert(before_taken.contains(name) <==> naming.taken.contains(name)
                        || given_out(shape, naming, d, k as int, name));
                }
                assert forall|i: usize| i < identities@.len() implies (
                #[trigger] identities@[i as int])@ == (if unresolved@.take(k + 1).contains(i)
                    && separates(shape, naming, d, i) {
                    spelled(shape, i, d)
                } else {
                    naming.identities[i as int]
                }) by {
                    assert(before[i as int]@ == (if unresolved@.take(k as int).contains(i)
                        && separates(shape, naming, d, i) {
                        spelled(shape, i, d)
                    } else {
                        naming.identities[i as int]
                    }));
                }
            }
            k += 1;
        }
        proof {
            let next = with_runs(shape, naming, d);
            assert(unresolved@.take(k as int) =~= unresolved@);
            assert(taken@ =~= next.taken);
            assert(views(identities@) =~= next.identities) by {
                assert forall|i: int| 0 <= i < identities@.len() implies views(identities@)[i]
                    == next.identities[i] by {
                    let x = i as usize;
                    assert(identities@[x as int]@ == views(identities@)[i]);
                }
            }
            assert(still@ =~= next.unresolved);
        }
        still
    }

    /// Give every unresolved place its numbered path.
    fn give_numbers(
        &self,
        tree: &FrameTree,
        unresolved: &Vec<usize>,
        taken: &StringHashSet,
        identities: &mut Vec<String>,
    )
        requires
            self.describes(tree),
            valid_naming(
                tree.shape(),
                (Naming {
                    identities: views(old(identities)@),
                    taken: taken@,
                    unresolved: unresolved@,
                }),
            ),
        ensures
            (Naming {
                identities: views(final(identities)@),
                taken: taken@,
                unresolved: Seq::empty(),
            }) == with_numbers(
                tree.shape(),
                (Naming {
                    identities: views(old(identities)@),
                    taken: taken@,
                    unresolved: unresolved@,
                }),
            ),
    {
        let ghost shape = tree.shape();
        let ghost naming = Naming {
            identities: views(identities@),
            taken: taken@,
            unresolved: unresolved@,
        };
        let mut k: usize = 0;
        while k < unresolved.len()
            invariant
                self.describes(tree),
                shape == tree.shape(),
                valid_naming(shape, naming),
                naming.unresolved == unresolved@,
                naming.taken == taken@,
                k <= unresolved@.len(),
                identities@.len() == shape.parent.len(),
                forall|i: usize|
                    i < identities@.len() ==> (#[trigger] identities@[i as int])@ == (
                    if unresolved@.take(k as int).contains(i) {
                        numbered(shape, taken@, i)
                    } else {
                        naming.identities[i as int]
                    }),
            decreases unresolved@.len() - k,
        {
            let index = unresolved[k];
            let ghost before = identities@;
            proof {
                assert(unresolved@[k as int] < shape.children.len());
                lemma_take_contains(unresolved@, k as int);
            }
            let text = self.numbered_text(tree, index, taken);
            identities.set(index, text);
            proof {
                assert forall|i: usize| i < identities@.len() implies (
                #[trigger] identities@[i as int])@ == (if unresolved@.take(k + 1).contains(i) {
                    numbered(shape, taken@, i)
                } else {
                    naming.identities[i as int]
                }) by {
                    assert(before[i as int]@ == (if unresolved@.take(k as int).contains(i) {
                        numbered(shape, taken@, i)
                    } else {
                        naming.identities[i as int]
                    }));
                }
            }
            k += 1;
        }
        proof {
            let next = with_numbers(shape, naming);
            assert(unresolved@.take(k as int) =~= unresolved@);
            assert(views(identities@) =~= next.identities) by {
                assert forall|i: int| 0 <= i < identities@.len() implies views(identities@)[i]
                    == next.identities[i] by {
                    let x = i as usize;
                    assert(identities@[x as int]@ == views(identities@)[i]);
                }
            }
        }
    }

    /// Give out the identities of one round. Returns the places that still have
    /// none.
    fn name_round(
        &self,
        tree: &FrameTree,
        unresolved: &Vec<usize>,
        depth: usize,
        taken: &mut StringHashSet,
        identities: &mut Vec<String>,
    ) -> (still: Vec<usize>)
        requires
            self.describes(tree),
            depth > 0,
            valid_naming(
                tree.shape(),
                (Naming {
                    identities: views(old(identities)@),
                    taken: old(taken)@,
                    unresolved: unresolved@,
                }),
            ),
        ensures
            (Naming {
                identities: views(final(identities)@),
                taken: final(taken)@,
                unresolved: still@,
            }) == next_naming(
                tree.shape(),
                (Naming {
                    identities: views(old(identities)@),
                    taken: old(taken)@,
                    unresolved: unresolved@,
                }),
                depth as nat,
            ),
    {
        let ghost naming = Naming {
            identities: views(identities@),
            taken: taken@,
            unresolved: unresolved@,
        };
        let nothing_longer = self.is_exhausted(tree, unresolved, depth);
        let still = self.give_runs(tree, unresolved, depth, taken, identities);
        proof {
            lemma_with_runs(tree.shape(), naming, depth as nat);
        }
        if nothing_longer {
            self.give_numbers(tree, &still, taken, identities);
            let none: Vec<usize> = Vec::new();
            assert(none@ =~= Seq::empty());
            none
        } else {
            still
        }
    }
}

impl FrameTree {
    /// Name every published node.
    ///
    /// Round by round, longer candidates are tried for the nodes that share one;
    /// a candidate that was given out in an earlier round is not used again.
    pub fn assign_identities(&self, order: &Vec<usize>) -> (identities: Vec<String>)
        requires
            self.wf(),
            acyclic(self.shape()),
            order@ == order_of(self.shape()),
        ensures
            views(identities@) == identities_of(self.shape()),
            identities@.len() == self.nodes@.len(),
    {
        let ghost shape = self.shape();
        let n = self.nodes.len();
        let table = PathTable::new(self);
        let mut identities: Vec<String> = Vec::new();
        while identities.len() < n
            invariant
                identities@.len() <= n,
                forall|i: int|
                    0 <= i < identities@.len() ==> (#[trigger] identities@[i])@ == Seq::<
                        char,
                    >::empty(),
            decreases n - identities@.len(),
        {
            identities.push(String::new());
            assert(identities@[identities@.len() - 1]@ =~= Seq::<char>::empty());
        }
        let mut taken = StringHashSet::new();
        let mut unresolved: Vec<usize> = Vec::new();
        let mut k: usize = 0;
        while k < order.len()
            invariant
                k <= order@.len(),
                unresolved@ == order@.take(k as int),
            decreases order@.len() - k,
        {
            unresolved.push(order[k]);
            assert(unresolved@ =~= order@.take(k + 1));
            k += 1;
        }
        let mut depth: usize = 1;
        proof {
            law_order_is_complete(shape);
            assert(unresolved@ =~= order@);
            assert(views(identities@) =~= unnamed(shape).identities);
            if n == 0 {
                if unresolved@.len() > 0 {
                    assert(unresolved@[0] < shape.children.len());
                }
            }
        }
        while unresolved.len() > 0
            invariant
                table.describes(self),
                shape == self.shape(),
                n == self.nodes@.len(),
                0 < depth,
                unresolved@.len() > 0 ==> depth <= n,
                ({
                    let naming = Naming {
                        identities: views(identities@),
                        taken: taken@,
                        unresolved: unresolved@,
                    };
                    &&& valid_naming(shape, naming)
                    &&& named_from(shape, unnamed(shape), 1) == named_from(
                        shape,
                        naming,
                        depth as nat,
                    )
                }),
            decreases
                if unresolved@.len() > 0 {
                    n + 1 - depth
                } else {
                    0
                },
        {
            let ghost naming = Naming {
                identities: views(identities@),
                taken: taken@,
                unresolved: unresolved@,
            };
            let still = table.name_round(self, &unresolved, depth, &mut taken, &mut identities);
            proof {
                let next = next_naming(shape, naming, depth as nat);
                lemma_next_naming(shape, naming, depth as nat);
                if depth == n && still@.len() > 0 {
                    lemma_last_round(shape, naming, depth as nat);
                }
                assert((Naming {
                    identities: views(identities@),
                    taken: taken@,
                    unresolved: still@,
                }) =~= next);
            }
            unresolved = still;
            if unresolved.len() > 0 {
                depth += 1;
            } else {
                proof {
                    assert(named_from(shape, next_naming(shape, naming, depth as nat), depth as nat + 1)
                        == next_naming(shape, naming, depth as nat));
                    assert(named_from(shape, next_naming(shape, naming, depth as nat), depth as nat)
                        == next_naming(shape, naming, depth as nat));
                }
            }
        }
        identities
    }
}

/// No path is longer than the tree is large, so the last round settles all.
proof fn lemma_last_round(shape: Shape, naming: Naming, depth: nat)
    requires
        valid_shape(shape),
        valid_naming(shape, naming),
        depth >= shape.parent.len(),
    ensures
        next_naming(shape, naming, depth).unresolved.len() == 0,
{
    assert forall|k: int| 0 <= k < naming.unresolved.len() implies path_of(
        shape,
        (#[trigger] naming.unresolved[k]) as int,
    ).len() <= depth by {
        assert(naming.unresolved[k] < shape.children.len());
        lemma_path(shape, naming.unresolved[k]);
    }
    let next = next_naming(shape, naming, depth);
    lemma_next_naming(shape, naming, depth);
    if next.unresolved.len() > 0 {
        assert(next.unresolved.contains(next.unresolved[0]));
    }
}

// ---------------------------------------------------------------------------
// Laws
// ---------------------------------------------------------------------------
/// The naming before the round at `depth`.
pub open spec fn naming_at(shape: Shape, depth: nat) -> Naming
    decreases depth,
{
    if depth <= 1 {
        unnamed(shape)
    } else {
        next_naming(shape, naming_at(shape, (depth - 1) as nat), (depth - 1) as nat)
    }
}

/// In the round at `depth` the place takes the run of its last `depth` names.
pub open spec fn takes_run(shape: Shape, i: usize, depth: nat) -> bool {
    let naming = naming_at(shape, depth);
    &&& 1 <= depth <= shape.parent.len()
    &&& naming.unresolved.contains(i)
    &&& separates(shape, naming, depth, i)
}

/// In the round at `depth` the place takes its numbered path.
pub open spec fn takes_number(shape: Shape, i: usize, depth: nat) -> bool {
    let naming = naming_at(shape, depth);
    &&& 1 <= depth <= shape.parent.len()
    &&& naming.unresolved.contains(i)
    &&& exhausted(shape, naming.unresolved, depth)
    &&& !takes_run(shape, i, depth)
}

/// The runs that are given out up to and in the round at `depth`.
pub open spec fn runs_until(shape: Shape, depth: nat) -> Set<Seq<char>> {
    with_runs(shape, naming_at(shape, depth), depth).taken
}

/// What a place takes in the round at `depth`, if it is resolved there.
pub open spec fn taken_name(shape: Shape, i: usize, depth: nat) -> Seq<char> {
    if separates(shape, naming_at(shape, depth), depth, i) {
        spelled(shape, i, depth)
    } else {
        numbered(shape, runs_until(shape, depth), i)
    }
}

pub proof fn lemma_naming_at(shape: Shape, depth: nat)
    requires
        valid_shape(shape),
    ensures
        valid_naming(shape, naming_at(shape, depth)),
    decreases depth,
{
    if depth <= 1 {
        law_order_is_complete(shape);
    } else {
        lemma_naming_at(shape, (depth - 1) as nat);
        lemma_next_naming(shape, naming_at(shape, (depth - 1) as nat), (depth - 1) as nat);
    }
}

/// Once nothing is unresolved, further rounds change no identity.
proof fn lemma_resolved(shape: Shape, depth: nat, later: nat)
    requires
        valid_shape(shape),
        1 <= depth <= later,
        naming_at(shape, depth).unresolved.len() == 0,
    ensures
        naming_at(shape, later).unresolved.len() == 0,
        naming_at(shape, later).identities == naming_at(shape, depth).identities,
    decreases later,
{
    if later > depth {
        let before = (later - 1) as nat;
        lemma_resolved(shape, depth, before);
        lemma_naming_at(shape, before);
        lemma_next_naming(shape, naming_at(shape, before), before);
        let next = naming_at(shape, later);
        if next.unresolved.len() > 0 {
            assert(next.unresolved.contains(next.unresolved[0]));
        }
        assert(next.identities =~= naming_at(shape, before).identities);
    }
}

/// The rounds from `depth` on end with the identities of the last naming.
proof fn lemma_named_from(shape: Shape, depth: nat)
    requires
        valid_shape(shape),
        1 <= depth <= shape.parent.len() + 1,
    ensures
        named_from(shape, naming_at(shape, depth), depth).identities == naming_at(
            shape,
            shape.parent.len() + 1,
        ).identities,
    decreases shape.parent.len() + 1 - depth,
{
    if naming_at(shape, depth).unresolved.len() == 0 {
        lemma_resolved(shape, depth, shape.parent.len() + 1);
    } else if depth <= shape.parent.len() {
        lemma_named_from(shape, depth + 1);
        assert(naming_at(shape, depth + 1) == next_naming(shape, naming_at(shape, depth), depth));
    }
}

/// A place that is resolved keeps its identity.
proof fn lemma_keeps(shape: Shape, i: usize, depth: nat, later: nat)
    requires
        valid_shape(shape),
        1 <= depth <= later,
        i < shape.parent.len(),
        !naming_at(shape, depth).unresolved.contains(i),
    ensures
        !naming_at(shape, later).unresolved.contains(i),
        naming_at(shape, later).identities[i as int] == naming_at(shape, depth).identities[i as int],
    decreases later,
{
    if later > depth {
        let before = (later - 1) as nat;
        lemma_keeps(shape, i, depth, before);
        lemma_naming_at(shape, before);
        lemma_next_naming(shape, naming_at(shape, before), before);
        lemma_with_runs(shape, naming_at(shape, before), before);
    }
}

/// A run that is given out is given out for good.
proof fn lemma_stays_taken(shape: Shape, name: Seq<char>, depth: nat, later: nat)
    requires
        valid_shape(shape),
        1 <= depth <= later,
        runs_until(shape, depth).contains(name),
    ensures
        runs_until(shape, later).contains(name),
        depth < later ==> naming_at(shape, later).taken.contains(name),
    decreases later,
{
    if later > depth {
        let before = (later - 1) as nat;
        lemma_stays_taken(shape, name, depth, before);
        lemma_naming_at(shape, before);
        lemma_next_naming(shape, naming_at(shape, before), before);
    }
}

/// What a place takes at `depth` is its own after that round.
proof fn lemma_takes_next(shape: Shape, i: usize, depth: nat)
    requires
        valid_shape(shape),
        1 <= depth <= shape.parent.len(),
        naming_at(shape, depth).unresolved.contains(i),
        resolves(shape, naming_at(shape, depth), depth, i),
    ensures
        i < shape.parent.len(),
        !naming_at(shape, depth + 1).unresolved.contains(i),
        naming_at(shape, depth + 1).identities[i as int] == taken_name(shape, i, depth),
        separates(shape, naming_at(shape, depth), depth, i) ==> runs_until(shape, depth).contains(
            spelled(shape, i, depth),
        ),
{
    let naming = naming_at(shape, depth);
    let next = naming_at(shape, depth + 1);
    let ran = with_runs(shape, naming, depth);
    lemma_naming_at(shape, depth);
    lemma_next_naming(shape, naming, depth);
    lemma_with_runs(shape, naming, depth);
    assert(next == next_naming(shape, naming, depth));
    let at = naming.unresolved.index_of(i);
    assert(naming.unresolved[at] < shape.children.len());
    if separates(shape, naming, depth, i) {
        assert(separates(shape, naming, depth, naming.unresolved[at]));
        assert(given_out(
            shape,
            naming,
            depth,
            naming.unresolved.len() as int,
            spelled(shape, i, depth),
        ));
        assert(ran.identities[i as int] == spelled(shape, i, depth));
        assert(!ran.unresolved.contains(i));
    } else {
        assert(ran.unresolved.contains(i));
    }
}

/// A place that takes a name at `depth` has it as its identity.
proof fn lemma_takes(shape: Shape, i: usize, depth: nat)
    requires
        valid_shape(shape),
        1 <= depth <= shape.parent.len(),
        naming_at(shape, depth).unresolved.contains(i),
        resolves(shape, naming_at(shape, depth), depth, i),
    ensures
        i < shape.parent.len(),
        identities_of(shape)[i as int] == taken_name(shape, i, depth),
{
    lemma_takes_next(shape, i, depth);
    lemma_keeps(shape, i, depth + 1, shape.parent.len() + 1);
    lemma_named_from(shape, 1);
}

/// A place that is unresolved before a round was so before every earlier one.
pub proof fn lemma_was_unresolved(shape: Shape, i: usize, earlier: nat, depth: nat)
    requires
        valid_shape(shape),
        1 <= earlier <= depth,
        naming_at(shape, depth).unresolved.contains(i),
    ensures
        naming_at(shape, earlier).unresolved.contains(i),
        earlier < depth ==> !resolves(shape, naming_at(shape, earlier), earlier, i),
    decreases depth,
{
    if earlier < depth {
        let before = (depth - 1) as nat;
        lemma_naming_at(shape, before);
        lemma_next_naming(shape, naming_at(shape, before), before);
        lemma_was_unresolved(shape, i, earlier, before);
    }
}

/// The first round from `depth` on in which a place takes a name.
pub proof fn lemma_resolved_in(shape: Shape, i: usize, depth: nat) -> (round: nat)
    requires
        valid_shape(shape),
        1 <= depth <= shape.parent.len(),
        naming_at(shape, depth).unresolved.contains(i),
    ensures
        depth <= round <= shape.parent.len(),
        naming_at(shape, round).unresolved.contains(i),
        resolves(shape, naming_at(shape, round), round, i),
    decreases shape.parent.len() - depth,
{
    let naming = naming_at(shape, depth);
    if resolves(shape, naming, depth, i) {
        depth
    } else {
        lemma_naming_at(shape, depth);
        lemma_next_naming(shape, naming, depth);
        assert(naming_at(shape, depth + 1) == next_naming(shape, naming, depth));
        assert(naming_at(shape, depth + 1).unresolved.contains(i));
        if depth == shape.parent.len() {
            lemma_last_round(shape, naming, depth);
        }
        lemma_resolved_in(shape, i, depth + 1)
    }
}

/// Every published node takes either a run of its path or its numbered path,
/// in one round, and that is its identity.
pub proof fn law_every_node_is_named(shape: Shape, i: usize) -> (depth: nat)
    requires
        valid_shape(shape),
        i < shape.parent.len(),
        shape.host != Some(i),
    ensures
        1 <= depth <= shape.parent.len(),
        takes_run(shape, i, depth) ==> identities_of(shape)[i as int] == spelled(
            shape,
            i,
            depth,
        ),
        takes_number(shape, i, depth) ==> identities_of(shape)[i as int] == numbered(
            shape,
            runs_until(shape, depth),
            i,
        ),
        takes_run(shape, i, depth) || takes_number(shape, i, depth),
{
    law_order_is_complete(shape);
    assert(naming_at(shape, 1).unresolved.contains(i));
    let depth = lemma_resolved_in(shape, i, 1);
    lemma_takes(shape, i, depth);
    depth
}

/// A run is the shortest that separates: every shorter one is shared with
/// another node, spelled like one that separates another node, or was given out
/// before.
pub proof fn law_runs_are_shortest(shape: Shape, i: usize, depth: nat, shorter: nat)
    requires
        valid_shape(shape),
        takes_run(shape, i, depth),
        1 <= shorter < depth,
    ensures
        naming_at(shape, shorter).unresolved.contains(i),
        ({
            let naming = naming_at(shape, shorter);
            ||| !alone(shape, naming.unresolved, i, shorter)
            ||| !distinctly_spelled(shape, naming.unresolved, i, shorter)
            ||| naming.taken.contains(spelled(shape, i, shorter))
        }),
{
    lemma_was_unresolved(shape, i, shorter, depth);
}

/// A numbered path is the last resort: nothing that is still without an
/// identity has a longer path, and the path itself is shared with another node,
/// spelled like that of one, or was given out before.
pub proof fn law_numbers_are_the_last_resort(shape: Shape, i: usize, depth: nat)
    requires
        valid_shape(shape),
        takes_number(shape, i, depth),
    ensures
        path_of(shape, i as int).len() <= depth,
        candidate(shape, i, depth) == path_of(shape, i as int),
        ({
            let naming = naming_at(shape, depth);
            ||| !alone(shape, naming.unresolved, i, depth)
            ||| !distinctly_spelled(shape, naming.unresolved, i, depth)
            ||| naming.taken.contains(joined(path_of(shape, i as int)))
        }),
{
    let unresolved = naming_at(shape, depth).unresolved;
    let at = unresolved.index_of(i);
    assert(path_of(shape, unresolved[at] as int).len() <= depth);
}

/// A node whose own name no other published node has keeps it.
pub proof fn law_unambiguous_names_are_kept(shape: Shape, i: usize)
    requires
        valid_shape(shape),
        i < shape.parent.len(),
        shape.host != Some(i),
        forall|j: usize|
            j < shape.parent.len() && shape.host != Some(j) && j != i ==> #[trigger] shape.names[
                j as int
            ] != shape.names[i as int],
    ensures
        identities_of(shape)[i as int] == shape.names[i as int],
{
    law_order_is_complete(shape);
    let naming = naming_at(shape, 1);
    assert(naming.unresolved.contains(i));
    lemma_own_name(shape, i);
    assert forall|k: int|
        0 <= k < naming.unresolved.len() && #[trigger] naming.unresolved[k] != i implies spelled(
        shape,
        naming.unresolved[k],
        1,
    ) != spelled(shape, i, 1) by {
        let j = naming.unresolved[k];
        assert(j < shape.children.len());
        lemma_own_name(shape, j);
        assert(shape.names[j as int] != shape.names[i as int]);
    }
    assert(separates(shape, naming, 1, i));
    lemma_takes(shape, i, 1);
}

proof fn lemma_own_name(shape: Shape, i: usize)
    requires
        valid_shape(shape),
        i < shape.parent.len(),
        shape.host != Some(i),
    ensures
        candidate(shape, i, 1) == seq![shape.names[i as int]],
        joined(candidate(shape, i, 1)) == shape.names[i as int],
{
    lemma_path(shape, i);
    assert(candidate(shape, i, 1) =~= seq![shape.names[i as int]]);
}

proof fn lemma_numbers_apart(a: Seq<char>, m: nat, b: Seq<char>, n: nat)
    requires
        a.push('#') + decimal(m) == b.push('#') + decimal(n),
    ensures
        m == n,
{
    let text = a.push('#') + decimal(m);
    lemma_decimal_last(m);
    lemma_decimal_last(n);
    let other = b.push('#') + decimal(n);
    assert(text == other);
    assert(text.len() == a.len() + 1 + decimal(m).len());
    assert(other.len() == b.len() + 1 + decimal(n).len());
    assert(text[a.len() as int] == '#');
    assert(text[b.len() as int] == '#');
    if a.len() < b.len() {
        assert(text[b.len() as int] == decimal(m)[b.len() - a.len() - 1]);
    }
    if b.len() < a.len() {
        assert(other[a.len() as int] == decimal(n)[a.len() - b.len() - 1]);
    }
    assert(text.skip(a.len() as int + 1) =~= decimal(m));
    assert(other.skip(b.len() as int + 1) =~= decimal(n));
    lemma_decimal_injective(m, n);
}

/// A used text does not matter to longer ones.
proof fn lemma_free_without(
    text: Seq<char>,
    mark: Seq<char>,
    used: Set<Seq<char>>,
    tries: nat,
    shorter: Seq<char>,
)
    requires
        shorter.len() < text.len(),
    ensures
        first_free(text, mark, used.remove(shorter), tries) == first_free(text, mark, used, tries),
        first_free(text, mark, used, tries) != shorter,
    decreases tries,
{
    if tries > 0 && used.contains(text) {
        lemma_free_without(text + mark, mark, used, (tries - 1) as nat, shorter);
    }
}

/// As many tries as there are used texts lead to a free one.
proof fn lemma_first_free(text: Seq<char>, mark: Seq<char>, used: Set<Seq<char>>, tries: nat)
    requires
        mark.len() > 0,
        used.finite(),
        used.len() <= tries,
    ensures
        !used.contains(first_free(text, mark, used, tries)),
    decreases tries,
{
    if used.contains(text) {
        let others = used.remove(text);
        assert(used.len() > 0);
        lemma_first_free(text + mark, mark, others, (tries - 1) as nat);
        lemma_free_without(text + mark, mark, used, (tries - 1) as nat, text);
    }
}

/// However often the mark is put behind a text, it stands at the end.
proof fn lemma_free_ends(
    text: Seq<char>,
    mark: Seq<char>,
    used: Set<Seq<char>>,
    tries: nat,
) -> (start: Seq<char>)
    ensures
        first_free(text + mark, mark, used, tries) == start + mark,
    decreases tries,
{
    if tries > 0 && used.contains(text + mark) {
        lemma_free_ends(text + mark, mark, used, (tries - 1) as nat)
    } else {
        text
    }
}

/// Numbered paths of different numbers differ.
proof fn lemma_numbered_apart(
    shape: Shape,
    i: usize,
    j: usize,
    used: Set<Seq<char>>,
    more: Set<Seq<char>>,
)
    requires
        shape.ids[i as int] != shape.ids[j as int],
    ensures
        numbered(shape, used, i) != numbered(shape, more, j),
{
    let a = lemma_free_ends(
        joined(path_of(shape, i as int)),
        number_mark(shape, i),
        used,
        used.len(),
    );
    let b = lemma_free_ends(
        joined(path_of(shape, j as int)),
        number_mark(shape, j),
        more,
        more.len(),
    );
    let m = shape.ids[i as int] as nat;
    let n = shape.ids[j as int] as nat;
    assert(a + number_mark(shape, i) =~= a.push('#') + decimal(m));
    assert(b + number_mark(shape, j) =~= b.push('#') + decimal(n));
    if numbered(shape, used, i) == numbered(shape, more, j) {
        lemma_numbers_apart(a, m, b, n);
    }
}

/// A run and a numbered path differ.
proof fn lemma_run_is_no_number(shape: Shape, i: usize, j: usize, a: nat, b: nat)
    requires
        valid_shape(shape),
        takes_run(shape, i, a),
        takes_number(shape, j, b),
    ensures
        spelled(shape, i, a) != numbered(shape, runs_until(shape, b), j),
{
    lemma_takes_next(shape, i, a);
    if a > b {
        lemma_was_unresolved(shape, i, b, a);
    }
    lemma_stays_taken(shape, spelled(shape, i, a), a, b);
    lemma_naming_at(shape, b);
    lemma_with_runs(shape, naming_at(shape, b), b);
    lemma_first_free(
        joined(path_of(shape, j as int)) + number_mark(shape, j),
        number_mark(shape, j),
        runs_until(shape, b),
        runs_until(shape, b).len(),
    );
}

/// Two runs differ.
proof fn lemma_runs_differ(shape: Shape, i: usize, j: usize, a: nat, b: nat)
    requires
        valid_shape(shape),
        i != j,
        a <= b,
        takes_run(shape, i, a),
        takes_run(shape, j, b),
    ensures
        spelled(shape, i, a) != spelled(shape, j, b),
{
    if a < b {
        lemma_takes_next(shape, i, a);
        lemma_stays_taken(shape, spelled(shape, i, a), a, b);
    } else {
        let unresolved = naming_at(shape, a).unresolved;
        let at = unresolved.index_of(j);
        assert(unresolved[at] == j);
    }
}

/// No two published nodes share an identity.
pub proof fn law_identities_are_unique(shape: Shape, i: usize, j: usize)
    requires
        valid_shape(shape),
        i < shape.parent.len(),
        j < shape.parent.len(),
        shape.host != Some(i),
        shape.host != Some(j),
        shape.ids[i as int] != shape.ids[j as int],
    ensures
        identities_of(shape)[i as int] != identities_of(shape)[j as int],
{
    let a = law_every_node_is_named(shape, i);
    let b = law_every_node_is_named(shape, j);
    if takes_run(shape, i, a) && takes_run(shape, j, b) {
        if a <= b {
            lemma_runs_differ(shape, i, j, a, b);
        } else {
            lemma_runs_differ(shape, j, i, b, a);
        }
    } else if takes_run(shape, i, a) {
        lemma_run_is_no_number(shape, i, j, a, b);
    } else if takes_run(shape, j, b) {
        lemma_run_is_no_number(shape, j, i, b, a);
    } else {
        lemma_numbered_apart(shape, i, j, runs_until(shape, a), runs_until(shape, b));
    }
}

// ---------------------------------------------------------------------------
// Plain names
// ---------------------------------------------------------------------------
/// A name without the characters that identities add.
pub open spec fn plain_name(name: Seq<char>) -> bool {
    plain_segment(name) && !name.contains('#')
}

/// No element's name holds a `/` or a `#`.
pub open spec fn plainly_named(shape: Shape) -> bool {
    forall|k: int| 0 <= k < shape.names.len() ==> plain_name(#[trigger] shape.names[k])
}

/// Another published place has the same full path.
pub open spec fn same_path(shape: Shape, i: usize, j: usize) -> bool {
    &&& j != i
    &&& j < shape.parent.len()
    &&& shape.host != Some(j)
    &&& path_of(shape, j as int) == path_of(shape, i as int)
}

proof fn lemma_joined_without_number(segments: Seq<Seq<char>>)
    requires
        forall|k: int| 0 <= k < segments.len() ==> plain_name(#[trigger] segments[k]),
    ensures
        !joined(segments).contains('#'),
    decreases segments.len(),
{
    if segments.len() > 1 {
        let rest = segments.drop_last();
        assert forall|k: int| 0 <= k < rest.len() implies plain_name(#[trigger] rest[k]) by {
            assert(rest[k] == segments[k]);
        }
        lemma_joined_without_number(rest);
        let text = joined(segments);
        if text.contains('#') {
            let at = text.index_of('#');
            if at < joined(rest).len() {
                assert(joined(rest)[at] == '#');
            } else if at > joined(rest).len() {
                assert(segments.last()[at - joined(rest).len() - 1] == '#');
                assert(plain_name(segments[segments.len() - 1]));
            }
        }
    } else if segments.len() == 1 {
        assert(plain_name(segments[0]));
    }
}

proof fn lemma_plain_candidate(shape: Shape, i: usize, depth: nat)
    requires
        valid_shape(shape),
        plainly_named(shape),
        i < shape.parent.len(),
        shape.host != Some(i),
        depth > 0,
    ensures
        candidate(shape, i, depth).len() > 0,
        forall|k: int|
            0 <= k < candidate(shape, i, depth).len() ==> plain_name(
                #[trigger] candidate(shape, i, depth)[k],
            ),
        !spelled(shape, i, depth).contains('#'),
{
    lemma_path(shape, i);
    let places = ancestor_places(shape, i);
    lemma_tail_texts(shape.names, places, depth);
    lemma_tail_placed(shape.parent.len(), places, depth);
    let run = candidate(shape, i, depth);
    assert forall|k: int| 0 <= k < run.len() implies plain_name(#[trigger] run[k]) by {
        assert(tail(places, depth)[k] < shape.parent.len());
        assert(run[k] == shape.names[tail(places, depth)[k] as int]);
    }
    lemma_joined_without_number(run);
}

/// Plain names that are spelled alike are alike.
pub proof fn lemma_spelled_alike(shape: Shape, i: usize, a: nat, j: usize, b: nat)
    requires
        valid_shape(shape),
        plainly_named(shape),
        i < shape.parent.len(),
        j < shape.parent.len(),
        shape.host != Some(i),
        shape.host != Some(j),
        a > 0,
        b > 0,
        spelled(shape, i, a) == spelled(shape, j, b),
    ensures
        candidate(shape, i, a) == candidate(shape, j, b),
{
    let left = candidate(shape, i, a);
    let right = candidate(shape, j, b);
    lemma_plain_candidate(shape, i, a);
    lemma_plain_candidate(shape, j, b);
    assert forall|k: int| 0 <= k < left.len() implies plain_segment(#[trigger] left[k]) by {
        assert(plain_name(left[k]));
    }
    assert forall|k: int| 0 <= k < right.len() implies plain_segment(#[trigger] right[k]) by {
        assert(plain_name(right[k]));
    }
    lemma_joined_injective(left, right);
}

/// Whatever was given out before a round was taken by a place in an earlier one.
pub proof fn lemma_taken_by(shape: Shape, depth: nat, name: Seq<char>) -> (taker: (usize, nat))
    requires
        valid_shape(shape),
        1 <= depth <= shape.parent.len() + 1,
        naming_at(shape, depth).taken.contains(name),
    ensures
        taker.1 < depth,
        takes_run(shape, taker.0, taker.1),
        spelled(shape, taker.0, taker.1) == name,
    decreases depth,
{
    if depth <= 1 {
        (0, 0)
    } else {
        let before = (depth - 1) as nat;
        let naming = naming_at(shape, before);
        lemma_naming_at(shape, before);
        lemma_next_naming(shape, naming, before);
        if naming.taken.contains(name) {
            lemma_taken_by(shape, before, name)
        } else {
            let j = choose|j: int|
                0 <= j < naming.unresolved.len() && separates(
                    shape,
                    naming,
                    before,
                    #[trigger] naming.unresolved[j],
                ) && spelled(shape, naming.unresolved[j], before) == name;
            assert(naming.unresolved.contains(naming.unresolved[j]));
            (naming.unresolved[j], before)
        }
    }
}

/// A place that takes its number shares its path.
pub proof fn lemma_number_means_shared(shape: Shape, i: usize, depth: nat) -> (other: usize)
    requires
        valid_shape(shape),
        plainly_named(shape),
        takes_number(shape, i, depth),
    ensures
        same_path(shape, i, other),
{
    let naming = naming_at(shape, depth);
    lemma_naming_at(shape, depth);
    law_numbers_are_the_last_resort(shape, i, depth);
    let place = naming.unresolved.index_of(i);
    assert(naming.unresolved[place] < shape.children.len());
    if !alone(shape, naming.unresolved, i, depth) {
        let k = choose|k: int|
            0 <= k < naming.unresolved.len() && #[trigger] naming.unresolved[k] != i && candidate(
                shape,
                naming.unresolved[k],
                depth,
            ) == candidate(shape, i, depth);
        let other = naming.unresolved[k];
        assert(naming.unresolved[k] < shape.children.len());
        assert(path_of(shape, naming.unresolved[k] as int).len() <= depth);
        other
    } else if !distinctly_spelled(shape, naming.unresolved, i, depth) {
        let k = choose|k: int|
            0 <= k < naming.unresolved.len() && #[trigger] naming.unresolved[k] != i && alone(
                shape,
                naming.unresolved,
                naming.unresolved[k],
                depth,
            ) && spelled(shape, naming.unresolved[k], depth) == spelled(shape, i, depth);
        let other = naming.unresolved[k];
        assert(naming.unresolved[k] < shape.children.len());
        lemma_spelled_alike(shape, other, depth, i, depth);
        other
    } else {
        let (other, round) = lemma_taken_by(shape, depth, spelled(shape, i, depth));
        let earlier = naming_at(shape, round);
        lemma_naming_at(shape, round);
        let at = earlier.unresolved.index_of(other);
        assert(earlier.unresolved[at] < shape.children.len());
        lemma_was_unresolved(shape, i, round, depth);
        lemma_spelled_alike(shape, other, round, i, depth);
        assert(other != i);
        assert(candidate(shape, other, round) == path_of(shape, i as int));
        if path_of(shape, other as int).len() > round {
            assert(candidate(shape, i, round) == path_of(shape, i as int));
            let mine = earlier.unresolved.index_of(i);
            assert(earlier.unresolved[mine] == i);
            assert(candidate(shape, i, round) == candidate(shape, other, round));
        }
        other
    }
}

/// Places that share a path resolve in one round, by their numbers.
pub proof fn lemma_shared_means_number(shape: Shape, i: usize, other: usize) -> (depth: nat)
    requires
        valid_shape(shape),
        i < shape.parent.len(),
        shape.host != Some(i),
        same_path(shape, i, other),
    ensures
        takes_number(shape, i, depth),
{
    let depth = law_every_node_is_named(shape, i);
    law_order_is_complete(shape);
    if takes_run(shape, i, depth) {
        assert(naming_at(shape, 1).unresolved.contains(other));
        let round = lemma_resolved_in(shape, other, 1);
        if round < depth {
            let naming = naming_at(shape, round);
            lemma_was_unresolved(shape, i, round, depth);
            let at = naming.unresolved.index_of(i);
            assert(naming.unresolved[at] == i);
            assert(candidate(shape, i, round) == candidate(shape, other, round));
        } else {
            let naming = naming_at(shape, depth);
            lemma_was_unresolved(shape, other, depth, round);
            let at = naming.unresolved.index_of(other);
            assert(naming.unresolved[at] == other);
            assert(candidate(shape, i, depth) == candidate(shape, other, depth));
        }
    }
    depth
}

/// Where no element's name holds a `/` or a `#`, a node takes its number
/// exactly when another published node has the same full path, and its
/// identity is then that path with the number.
pub proof fn law_numbers_tell_equal_paths_apart(shape: Shape, i: usize)
    requires
        valid_shape(shape),
        plainly_named(shape),
        i < shape.parent.len(),
        shape.host != Some(i),
    ensures
        (exists|depth: nat| takes_number(shape, i, depth)) <==> (exists|j: usize|
            same_path(shape, i, j)),
        (exists|depth: nat| takes_number(shape, i, depth)) ==> identities_of(shape)[i as int]
            == joined(path_of(shape, i as int)) + number_mark(shape, i),
{
    if exists|depth: nat| takes_number(shape, i, depth) {
        let depth = choose|depth: nat| takes_number(shape, i, depth);
        let other = lemma_number_means_shared(shape, i, depth);
        assert(same_path(shape, i, other));
        lemma_takes(shape, i, depth);
        let text = joined(path_of(shape, i as int)) + number_mark(shape, i);
        let runs = runs_until(shape, depth);
        if runs.contains(text) {
            lemma_naming_at(shape, depth);
            lemma_next_naming(shape, naming_at(shape, depth), depth);
            assert(naming_at(shape, depth + 1).taken == runs);
            let (taker, round) = lemma_taken_by(shape, depth + 1, text);
            let unresolved = naming_at(shape, round).unresolved;
            lemma_naming_at(shape, round);
            let at = unresolved.index_of(taker);
            assert(unresolved[at] < shape.children.len());
            lemma_plain_candidate(shape, taker, round);
            assert(text[joined(path_of(shape, i as int)).len() as int] == '#');
        }
    }
    if exists|j: usize| same_path(shape, i, j) {
        let other = choose|j: usize| same_path(shape, i, j);
        let depth = lemma_shared_means_number(shape, i, other);
        assert(takes_number(shape, i, depth));
    }
}

} // verus!
