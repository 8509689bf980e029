//! Which nodes of a frame have a complete ancestry.
//!
//! A frame's nodes are numbered in the order in which they were recorded, and
//! each names a parent. A node stays in the tree only when its parents lead to
//! a root: one whose parent is absent is left out with all that descends from
//! it, and so is a parent cycle.

use vstd::prelude::*;

verus! {

/// What a node's parent is.
#[derive(Clone, Copy, Debug)]
pub enum Parent {
    /// The node has no parent.
    Root,
    /// The node names a parent that is not there.
    Missing,
    /// The parent's number.
    Node(usize),
}

/// Every parent number is the number of a node.
pub open spec fn graph(parents: Seq<Parent>) -> bool {
    forall|i: int|
        0 <= i < parents.len() ==> match #[trigger] parents[i] {
            Parent::Node(p) => p < parents.len(),
            _ => true,
        }
}

/// The graph without the omitted nodes: a parent among them is missing.
pub open spec fn live(parents: Seq<Parent>, omitted: Seq<bool>) -> Seq<Parent> {
    Seq::new(
        parents.len(),
        |i: int|
            match parents[i] {
                Parent::Node(p) => if omitted[p as int] {
                    Parent::Missing
                } else {
                    Parent::Node(p)
                },
                other => other,
            },
    )
}

/// One step up: the parent, where it is a node.
pub open spec fn up(parents: Seq<Parent>, i: usize) -> Option<usize> {
    match parents[i as int] {
        Parent::Node(p) => Some(p),
        _ => None,
    }
}

/// The ancestor `k` steps up.
pub open spec fn climb(parents: Seq<Parent>, i: usize, k: nat) -> Option<usize>
    decreases k,
{
    if k == 0 {
        Some(i)
    } else {
        match climb(parents, i, (k - 1) as nat) {
            Some(j) => up(parents, j),
            None => None,
        }
    }
}

/// The parents of `i` lead to a node of the kind `end` after `k` steps.
pub open spec fn ends_at(parents: Seq<Parent>, i: usize, k: nat, end: Parent) -> bool {
    match climb(parents, i, k) {
        Some(j) => parents[j as int] == end,
        None => false,
    }
}

/// The parents of `i` lead to a root.
pub open spec fn grounded(parents: Seq<Parent>, i: usize) -> bool {
    exists|k: nat| ends_at(parents, i, k, Parent::Root)
}

/// The parents of `i` lead to a missing one.
pub open spec fn lost(parents: Seq<Parent>, i: usize) -> bool {
    exists|k: nat| ends_at(parents, i, k, Parent::Missing)
}

pub open spec fn comes_back(parents: Seq<Parent>, i: usize, k: nat) -> bool {
    k > 0 && climb(parents, i, k) == Some(i)
}

/// `i` is its own ancestor.
pub open spec fn on_cycle(parents: Seq<Parent>, i: usize) -> bool {
    exists|k: nat| comes_back(parents, i, k)
}

pub proof fn lemma_climb_bounded(parents: Seq<Parent>, i: usize, k: nat)
    requires
        graph(parents),
        i < parents.len(),
    ensures
        climb(parents, i, k) matches Some(j) ==> j < parents.len(),
    decreases k,
{
    if k > 0 {
        lemma_climb_bounded(parents, i, (k - 1) as nat);
    }
}

pub proof fn lemma_climb_add(parents: Seq<Parent>, i: usize, a: nat, b: nat)
    ensures
        climb(parents, i, a + b) == match climb(parents, i, a) {
            Some(j) => climb(parents, j, b),
            None => None,
        },
    decreases b,
{
    if b > 0 {
        lemma_climb_add(parents, i, a, (b - 1) as nat);
        assert(a + b - 1 == a + (b - 1) as nat);
    }
}

proof fn lemma_push_contains(s: Seq<usize>, x: usize)
    ensures
        forall|y: usize| #[trigger] s.push(x).contains(y) <==> s.contains(y) || y == x,
{
    assert forall|y: usize| #[trigger] s.push(x).contains(y) <==> s.contains(y) || y == x by {
        if s.contains(y) {
            assert(s.push(x)[s.index_of(y)] == y);
        }
        assert(s.push(x)[s.len() as int] == x);
        if s.push(x).contains(y) && y != x {
            let at = s.push(x).index_of(y);
            assert(s[at] == y);
        }
    }
}

/// Distinct numbers below `n` are at most `n` many.
pub proof fn lemma_distinct_below(s: Seq<usize>, n: nat)
    requires
        s.no_duplicates(),
        forall|i: int| 0 <= i < s.len() ==> #[trigger] s[i] < n,
    ensures
        s.len() <= n,
    decreases n,
{
    if n == 0 {
        if s.len() > 0 {
            assert(s[0] < 0);
        }
    } else {
        let top = (n - 1) as usize;
        if s.contains(top) {
            let at = s.index_of(top);
            let rest = s.remove(at);
            assert forall|i: int| 0 <= i < rest.len() implies #[trigger] rest[i] < n - 1 by {
                let j = if i < at { i } else { i + 1 };
                assert(rest[i] == s[j]);
                assert(s[j] != s[at]);
            }
            assert(rest.no_duplicates()) by {
                assert forall|i: int, j: int| 0 <= i < rest.len() && 0 <= j < rest.len() && i != j implies
                    rest[i] != rest[j] by {
                    let a = if i < at { i } else { i + 1 };
                    let b = if j < at { j } else { j + 1 };
                    assert(rest[i] == s[a] && rest[j] == s[b]);
                }
            }
            lemma_distinct_below(rest, (n - 1) as nat);
        } else {
            assert forall|i: int| 0 <= i < s.len() implies #[trigger] s[i] < n - 1 by {
                assert(s.contains(s[i]));
            }
            lemma_distinct_below(s, (n - 1) as nat);
        }
    }
}

// ---------------------------------------------------------------------------
// Missing parents
// ---------------------------------------------------------------------------
/// The nodes below `n` that are not omitted and whose parent is `parent`, in order.
pub open spec fn with_parent(
    parents: Seq<Parent>,
    omitted: Seq<bool>,
    parent: Parent,
    n: nat,
) -> Seq<usize>
    decreases n,
{
    if n == 0 {
        Seq::empty()
    } else {
        let before = with_parent(parents, omitted, parent, (n - 1) as nat);
        if !omitted[n - 1] && parents[n - 1] == parent {
            before.push((n - 1) as usize)
        } else {
            before
        }
    }
}

/// The nodes that descend directly from those of a wave, in the wave's order.
pub open spec fn next_wave(parents: Seq<Parent>, omitted: Seq<bool>, wave: Seq<usize>) -> Seq<usize>
    decreases wave.len(),
{
    if wave.len() == 0 {
        Seq::empty()
    } else {
        next_wave(parents, omitted, wave.drop_last()) + with_parent(
            parents,
            omitted,
            Parent::Node(wave.last()),
            parents.len(),
        )
    }
}

/// A wave, then its children, then theirs, for `count` waves.
pub open spec fn waves(
    parents: Seq<Parent>,
    omitted: Seq<bool>,
    wave: Seq<usize>,
    count: nat,
) -> Seq<usize>
    decreases count,
{
    if count == 0 {
        Seq::empty()
    } else {
        wave + waves(parents, omitted, next_wave(parents, omitted, wave), (count - 1) as nat)
    }
}

/// The nodes that a missing parent leaves out: first those that name it, then
/// their children, and so on, each wave in recording order of its parents.
pub open spec fn orphans(parents: Seq<Parent>, omitted: Seq<bool>) -> Seq<usize> {
    let rest = live(parents, omitted);
    waves(
        rest,
        omitted,
        with_parent(rest, omitted, Parent::Missing, rest.len()),
        rest.len(),
    )
}

/// `omitted` with the nodes of `more`.
pub open spec fn omitting(omitted: Seq<bool>, more: Seq<usize>) -> Seq<bool> {
    Seq::new(omitted.len(), |i: int| omitted[i] || more.contains(i as usize))
}

pub proof fn lemma_with_parent(parents: Seq<Parent>, omitted: Seq<bool>, parent: Parent, n: nat)
    requires
        n <= parents.len() <= usize::MAX,
        omitted.len() == parents.len(),
    ensures
        with_parent(parents, omitted, parent, n).no_duplicates(),
        forall|i: usize| #[trigger]
            with_parent(parents, omitted, parent, n).contains(i) <==> i < n && !omitted[i as int]
                && parents[i as int] == parent,
    decreases n,
{
    if n > 0 {
        let m = (n - 1) as nat;
        lemma_with_parent(parents, omitted, parent, m);
        let before = with_parent(parents, omitted, parent, m);
        let after = with_parent(parents, omitted, parent, n);
        if !omitted[n - 1] && parents[n - 1] == parent {
            assert forall|i: usize| #[trigger] after.contains(i) <==> i < n && !omitted[i as int]
                && parents[i as int] == parent by {
                if after.contains(i) {
                    let at = after.index_of(i);
                    if at < before.len() {
                        assert(before[at] == i);
                        assert(before.contains(i));
                    }
                }
                if before.contains(i) {
                    let at = before.index_of(i);
                    assert(after[at] == i);
                }
                assert(after[before.len() as int] == n - 1);
            }
            assert(!before.contains((n - 1) as usize));
            assert forall|i: int, j: int| 0 <= i < after.len() && 0 <= j < after.len() && i != j implies
                after[i] != after[j] by {
                if i < before.len() {
                    assert(before.contains(before[i]));
                }
                if j < before.len() {
                    assert(before.contains(before[j]));
                }
            }
        }
    }
}

/// A wave's children: those whose parent is in it, each once.
pub proof fn lemma_next_wave(parents: Seq<Parent>, omitted: Seq<bool>, wave: Seq<usize>)
    requires
        parents.len() <= usize::MAX,
        omitted.len() == parents.len(),
        wave.no_duplicates(),
    ensures
        next_wave(parents, omitted, wave).no_duplicates(),
        forall|i: usize| #[trigger]
            next_wave(parents, omitted, wave).contains(i) <==> i < parents.len()
                && !omitted[i as int] && (parents[i as int] matches Parent::Node(p)
                && wave.contains(p)),
    decreases wave.len(),
{
    if wave.len() > 0 {
        let rest = wave.drop_last();
        let last = wave.last();
        assert(rest.no_duplicates());
        lemma_next_wave(parents, omitted, rest);
        lemma_with_parent(parents, omitted, Parent::Node(last), parents.len());
        let a = next_wave(parents, omitted, rest);
        let b = with_parent(parents, omitted, Parent::Node(last), parents.len());
        assert(!rest.contains(last));
        assert forall|p: usize| wave.contains(p) <==> rest.contains(p) || p == last by {
            if wave.contains(p) {
                let at = wave.index_of(p);
                if at < rest.len() {
                    assert(rest[at] == p);
                }
            }
            if rest.contains(p) {
                let at = rest.index_of(p);
                assert(wave[at] == p);
            }
            assert(wave[wave.len() - 1] == last);
        }
        assert forall|i: usize| #[trigger] (a + b).contains(i) <==> a.contains(i) || b.contains(i) by {
            if a.contains(i) {
                assert((a + b)[a.index_of(i)] == i);
            }
            if b.contains(i) {
                assert((a + b)[a.len() + b.index_of(i)] == i);
            }
        }
        assert forall|i: int, j: int|
            0 <= i < (a + b).len() && 0 <= j < (a + b).len() && i != j implies (a + b)[i] != (a
            + b)[j] by {
            if i < a.len() {
                assert(a.contains(a[i]));
            } else {
                assert(b.contains(b[i - a.len()]));
            }
            if j < a.len() {
                assert(a.contains(a[j]));
            } else {
                assert(b.contains(b[j - a.len()]));
            }
        }
    }
}

/// What is known of the waves while they are being listed.
spec fn listing(
    rest: Seq<Parent>,
    omitted: Seq<bool>,
    listed: Seq<usize>,
    wave: Seq<usize>,
) -> bool {
    &&& (listed + wave).no_duplicates()
    &&& forall|i: usize| #[trigger]
        (listed + wave).contains(i) ==> i < rest.len() && !omitted[i as int] && match rest[i as int] {
            Parent::Missing => true,
            Parent::Node(p) => listed.contains(p),
            Parent::Root => false,
        }
    &&& forall|i: usize| #[trigger] (listed + wave).contains(i) ==> lost(rest, i)
    &&& forall|i: usize|
        i < rest.len() && !omitted[i as int] && rest[i as int] == Parent::Missing ==> #[trigger] (
        listed + wave).contains(i)
    &&& forall|i: usize|
        i < rest.len() && !omitted[i as int] && (rest[i as int] matches Parent::Node(p)
            && listed.contains(p)) ==> #[trigger] (listed + wave).contains(i)
}

proof fn lemma_listing_first(rest: Seq<Parent>, omitted: Seq<bool>)
    requires
        rest.len() <= usize::MAX,
        omitted.len() == rest.len(),
    ensures
        listing(
            rest,
            omitted,
            Seq::empty(),
            with_parent(rest, omitted, Parent::Missing, rest.len()),
        ),
{
    let wave = with_parent(rest, omitted, Parent::Missing, rest.len());
    lemma_with_parent(rest, omitted, Parent::Missing, rest.len());
    assert(Seq::<usize>::empty() + wave =~= wave);
    assert forall|i: usize| #[trigger] wave.contains(i) implies lost(rest, i) by {
        assert(ends_at(rest, i, 0, Parent::Missing));
    }
}

proof fn lemma_listing_next(
    rest: Seq<Parent>,
    omitted: Seq<bool>,
    listed: Seq<usize>,
    wave: Seq<usize>,
)
    requires
        rest.len() <= usize::MAX,
        omitted.len() == rest.len(),
        listing(rest, omitted, listed, wave),
    ensures
        listing(rest, omitted, listed + wave, next_wave(rest, omitted, wave)),
{
    let done = listed + wave;
    assert(wave.no_duplicates()) by {
        assert forall|i: int, j: int| 0 <= i < wave.len() && 0 <= j < wave.len() && i != j implies
            wave[i] != wave[j] by {
            assert(done[listed.len() + i] == wave[i]);
            assert(done[listed.len() + j] == wave[j]);
        }
    }
    lemma_next_wave(rest, omitted, wave);
    let next = next_wave(rest, omitted, wave);
    let all = done + next;
    assert forall|i: usize| #[trigger] all.contains(i) <==> done.contains(i) || next.contains(i) by {
        if done.contains(i) {
            assert(all[done.index_of(i)] == i);
        }
        if next.contains(i) {
            assert(all[done.len() + next.index_of(i)] == i);
        }
    }
    assert forall|i: usize| #[trigger] done.contains(i) <==> listed.contains(i) || wave.contains(i) by {
        if listed.contains(i) {
            assert(done[listed.index_of(i)] == i);
        }
        if wave.contains(i) {
            assert(done[listed.len() + wave.index_of(i)] == i);
        }
    }
    assert forall|i: usize| listed.contains(i) && wave.contains(i) implies false by {
        let a = listed.index_of(i);
        let b = wave.index_of(i);
        assert(done[a] == i && done[listed.len() + b] == i);
    }
    assert forall|i: usize| #[trigger] all.contains(i) implies lost(rest, i) by {
        if next.contains(i) {
            let p = rest[i as int]->Node_0;
            assert(done.contains(p));
            lemma_lost_child(rest, i, p);
        }
    }
    assert forall|i: usize| done.contains(i) && next.contains(i) implies false by {
        assert(rest[i as int] matches Parent::Node(p) && wave.contains(p) && listed.contains(p));
    }
    assert forall|i: int, j: int| 0 <= i < all.len() && 0 <= j < all.len() && i != j implies all[i]
        != all[j] by {
        if i < done.len() {
            assert(done.contains(done[i]));
        } else {
            assert(next.contains(next[i - done.len()]));
        }
        if j < done.len() {
            assert(done.contains(done[j]));
        } else {
            assert(next.contains(next[j - done.len()]));
        }
    }
    assert forall|i: usize|
        i < rest.len() && !omitted[i as int] && (rest[i as int] matches Parent::Node(p)
            && done.contains(p)) implies #[trigger] all.contains(i) by {
        let p = rest[i as int]->Node_0;
        if listed.contains(p) {
            assert(done.contains(i));
        }
    }
}

/// Where the last wave is empty, the list holds just the nodes that lead to a
/// missing parent.
proof fn lemma_listing_done(rest: Seq<Parent>, omitted: Seq<bool>, listed: Seq<usize>)
    requires
        graph(rest),
        rest.len() <= usize::MAX,
        omitted.len() == rest.len(),
        listing(rest, omitted, listed, Seq::empty()),
        forall|i: int|
            0 <= i < rest.len() ==> (#[trigger] rest[i] matches Parent::Node(p)
                ==> !omitted[p as int]),
    ensures
        listed.no_duplicates(),
        forall|i: usize| #[trigger]
            listed.contains(i) <==> i < rest.len() && !omitted[i as int] && lost(rest, i),
{
    assert(listed + Seq::<usize>::empty() =~= listed);
    assert forall|i: usize| i < rest.len() && !omitted[i as int] && lost(rest, i) implies listed.contains(
        i,
    ) by {
        let k = choose|k: nat| ends_at(rest, i, k, Parent::Missing);
        lemma_lost_is_listed(rest, omitted, listed, i, k);
    }
}

proof fn lemma_lost_is_listed(
    rest: Seq<Parent>,
    omitted: Seq<bool>,
    listed: Seq<usize>,
    i: usize,
    k: nat,
)
    requires
        graph(rest),
        omitted.len() == rest.len(),
        listing(rest, omitted, listed, Seq::empty()),
        forall|i: int|
            0 <= i < rest.len() ==> (#[trigger] rest[i] matches Parent::Node(p)
                ==> !omitted[p as int]),
        i < rest.len(),
        !omitted[i as int],
        ends_at(rest, i, k, Parent::Missing),
    ensures
        listed.contains(i),
    decreases k,
{
    assert(listed + Seq::<usize>::empty() =~= listed);
    if k > 0 {
        lemma_climb_add(rest, i, 1, (k - 1) as nat);
        assert(1 + (k - 1) as nat == k);
        assert(climb(rest, i, 0) == Some(i));
        assert(climb(rest, i, 1) == up(rest, i));
        let p = rest[i as int]->Node_0;
        lemma_lost_is_listed(rest, omitted, listed, p, (k - 1) as nat);
    }
}

proof fn lemma_lost_child(parents: Seq<Parent>, i: usize, p: usize)
    requires
        parents[i as int] == Parent::Node(p),
    ensures
        lost(parents, i) == lost(parents, p),
        grounded(parents, i) == grounded(parents, p),
{
    assert(climb(parents, i, 0) == Some(i));
    assert(climb(parents, i, 1) == Some(p));
    assert forall|k: nat, end: Parent| #[trigger] ends_at(parents, p, k, end) implies ends_at(
        parents,
        i,
        k + 1,
        end,
    ) by {
        lemma_climb_add(parents, i, 1, k);
        assert(1 + k == k + 1);
    }
    assert forall|k: nat, end: Parent| #[trigger]
        ends_at(parents, i, k, end) && !(end is Node) implies k > 0 && ends_at(
        parents,
        p,
        (k - 1) as nat,
        end,
    ) by {
        if k > 0 {
            lemma_climb_add(parents, i, 1, (k - 1) as nat);
            assert(1 + (k - 1) as nat == k);
        }
    }
    if lost(parents, p) {
        let k = choose|k: nat| ends_at(parents, p, k, Parent::Missing);
        assert(ends_at(parents, i, k + 1, Parent::Missing));
    }
    if lost(parents, i) {
        let k = choose|k: nat| ends_at(parents, i, k, Parent::Missing);
        assert(ends_at(parents, p, (k - 1) as nat, Parent::Missing));
    }
    if grounded(parents, p) {
        let k = choose|k: nat| ends_at(parents, p, k, Parent::Root);
        assert(ends_at(parents, i, k + 1, Parent::Root));
    }
    if grounded(parents, i) {
        let k = choose|k: nat| ends_at(parents, i, k, Parent::Root);
        assert(ends_at(parents, p, (k - 1) as nat, Parent::Root));
    }
}

/// Omit every node whose parent is absent or omitted, transitively, and list
/// them: all nodes orphaned directly first, then their children, and so on.
pub fn discard_missing_parents(parents: &Vec<Parent>, omitted: &mut Vec<bool>) -> (lost_nodes: Vec<
    usize,
>)
    requires
        graph(parents@),
        old(omitted)@.len() == parents@.len(),
    ensures
        lost_nodes@ == orphans(parents@, old(omitted)@),
        final(omitted)@ == omitting(old(omitted)@, lost_nodes@),
        lost_nodes@.no_duplicates(),
        forall|i: usize| #[trigger]
            lost_nodes@.contains(i) <==> i < parents@.len() && !old(omitted)@[i as int] && lost(
                live(parents@, old(omitted)@),
                i,
            ),
{
    let n = parents.len();
    let ghost before = omitted@;
    let ghost rest = live(parents@, before);
    let mut children: Vec<Vec<usize>> = Vec::new();
    let mut wave: Vec<usize> = Vec::new();
    let mut i: usize = 0;
    while i < n
        invariant
            n == parents@.len(),
            i <= n,
            children@.len() == i,
            forall|j: int| 0 <= j < i ==> (#[trigger] children@[j])@ =~= Seq::<usize>::empty(),
        decreases n - i,
    {
        children.push(Vec::new());
        i += 1;
    }
    i = 0;
    while i < n
        invariant
            n == parents@.len(),
            graph(parents@),
            omitted@ == before,
            before.len() == n,
            rest == live(parents@, before),
            i <= n,
            children@.len() == n,
            wave@ == with_parent(rest, before, Parent::Missing, i as nat),
            forall|j: int|
                0 <= j < n ==> (#[trigger] children@[j])@ == with_parent(
                    rest,
                    before,
                    Parent::Node(j as usize),
                    i as nat,
                ),
        decreases n - i,
    {
        assert(rest[i as int] == match parents@[i as int] {
            Parent::Node(p) => if before[p as int] {
                Parent::Missing
            } else {
                Parent::Node(p)
            },
            other => other,
        });
        if !omitted[i] {
            match parents[i] {
                Parent::Root => {},
                Parent::Missing => {
                    wave.push(i);
                },
                Parent::Node(p) => {
                    if omitted[p] {
                        wave.push(i);
                    } else {
                        children[p].push(i);
                    }
                },
            }
        }
        i += 1;
    }
    let mut listed: Vec<usize> = Vec::new();
    let ghost mut count: nat = rest.len();
    proof {
        assert(graph(rest)) by {
            assert forall|i: int| 0 <= i < rest.len() implies match #[trigger] rest[i] {
                Parent::Node(p) => p < rest.len(),
                _ => true,
            } by {
                assert(parents@[i] matches Parent::Node(p) ==> p < parents@.len());
            }
        }
        lemma_listing_first(rest, before);
        assert(listed@ + waves(rest, before, wave@, count) =~= orphans(parents@, before));
        assert(omitted@ =~= omitting(before, listed@));
    }
    while wave.len() > 0
        invariant
            n == parents@.len(),
            graph(rest),
            rest.len() == n,
            before.len() == n,
            omitted@ == omitting(before, listed@),
            children@.len() == n,
            forall|j: int|
                0 <= j < n ==> (#[trigger] children@[j])@ == with_parent(
                    rest,
                    before,
                    Parent::Node(j as usize),
                    n as nat,
                ),
            listing(rest, before, listed@, wave@),
            listed@ + waves(rest, before, wave@, count) == orphans(parents@, before),
            n <= count + listed@.len(),
        decreases n - listed@.len(),
    {
        let ghost start = listed@;
        proof {
            assert forall|k: int| 0 <= k < (listed@ + wave@).len() implies #[trigger] (listed@
                + wave@)[k] < n by {
                assert((listed@ + wave@).contains((listed@ + wave@)[k]));
            }
            lemma_distinct_below(listed@ + wave@, n as nat);
        }
        let mut next: Vec<usize> = Vec::new();
        let mut k: usize = 0;
        while k < wave.len()
            invariant
                n == parents@.len(),
                rest.len() == n,
                before.len() == n,
                children@.len() == n,
                forall|j: int|
                    0 <= j < n ==> (#[trigger] children@[j])@ == with_parent(
                        rest,
                        before,
                        Parent::Node(j as usize),
                        n as nat,
                    ),
                listing(rest, before, start, wave@),
                k <= wave@.len(),
                listed@ == start + wave@.take(k as int),
                omitted@ == omitting(before, listed@),
                next@ == next_wave(rest, before, wave@.take(k as int)),
            decreases wave@.len() - k,
        {
            let node = wave[k];
            proof {
                assert((start + wave@)[start.len() + k] == node);
                assert((start + wave@).contains(node));
                assert(wave@.take(k + 1).drop_last() =~= wave@.take(k as int));
                assert(wave@.take(k + 1) =~= wave@.take(k as int).push(node));
            }
            let ghost listed_before = listed@;
            let ghost omitted_before = omitted@;
            omitted.set(node, true);
            listed.push(node);
            append_copies(&mut next, &children[node]);
            proof {
                assert(listed@ =~= start + wave@.take(k + 1));
                assert forall|i: int| 0 <= i < n implies omitted@[i] == (before[i]
                    || listed@.contains(i as usize)) by {
                    if listed_before.contains(i as usize) {
                        assert(listed@[listed_before.index_of(i as usize)] == i as usize);
                    }
                    assert(listed@[listed_before.len() as int] == node);
                    if listed@.contains(i as usize) && i != node {
                        assert(listed_before[listed@.index_of(i as usize)] == i as usize);
                    }
                    assert(omitted_before[i] == (before[i] || listed_before.contains(i as usize)));
                }
                assert(omitted@ =~= omitting(before, listed@));
            }
            k += 1;
        }
        proof {
            assert(wave@.take(k as int) =~= wave@);
            lemma_listing_next(rest, before, start, wave@);
            assert(start + waves(rest, before, wave@, count) =~= listed@ + waves(
                rest,
                before,
                next@,
                (count - 1) as nat,
            ));
            count = (count - 1) as nat;
        }
        wave = next;
    }
    proof {
        assert(wave@ =~= Seq::empty());
        lemma_empty_waves(rest, before, count);
        assert(wave@ == Seq::<usize>::empty());
        assert(listed@ + waves(rest, before, wave@, count) =~= listed@);
        lemma_listing_done(rest, before, listed@);
    }
    listed
}

proof fn lemma_empty_waves(parents: Seq<Parent>, omitted: Seq<bool>, count: nat)
    ensures
        waves(parents, omitted, Seq::empty(), count) == Seq::<usize>::empty(),
    decreases count,
{
    if count > 0 {
        lemma_empty_waves(parents, omitted, (count - 1) as nat);
        assert(waves(parents, omitted, Seq::empty(), count) =~= Seq::<usize>::empty());
    }
}

fn append_copies(to: &mut Vec<usize>, from: &Vec<usize>)
    ensures
        final(to)@ == old(to)@ + from@,
{
    let mut i: usize = 0;
    assert(to@ =~= old(to)@ + from@.take(0));
    while i < from.len()
        invariant
            i <= from@.len(),
            to@ == old(to)@ + from@.take(i as int),
        decreases from@.len() - i,
    {
        to.push(from[i]);
        assert(from@.take(i + 1) =~= from@.take(i as int).push(from@[i as int]));
        assert(to@ =~= old(to)@ + from@.take(i + 1));
        i += 1;
    }
    assert(from@.take(i as int) =~= from@);
}

// ---------------------------------------------------------------------------
// Parent cycles
// ---------------------------------------------------------------------------
/// `k` steps above `i` stands a node of a cycle.
pub open spec fn hits(parents: Seq<Parent>, i: usize, k: nat) -> bool {
    match climb(parents, i, k) {
        Some(j) => on_cycle(parents, j),
        None => false,
    }
}

/// The parents of `i` lead into a cycle.
pub open spec fn leads(parents: Seq<Parent>, i: usize) -> bool {
    exists|k: nat| hits(parents, i, k)
}

pub open spec fn first_hit(parents: Seq<Parent>, i: usize, k: nat) -> bool {
    hits(parents, i, k) && forall|j: nat| j < k ==> !hits(parents, i, j)
}

/// The first node of a cycle on the way up from `i`.
pub open spec fn entry(parents: Seq<Parent>, i: usize) -> usize {
    climb(parents, i, choose|k: nat| first_hit(parents, i, k))->0
}

pub open spec fn first_return(parents: Seq<Parent>, i: usize, k: nat) -> bool {
    comes_back(parents, i, k) && forall|j: nat| j < k ==> !comes_back(parents, i, j)
}

/// The nodes of the cycle through `i`, from `i` upwards, each once.
pub open spec fn cycle(parents: Seq<Parent>, i: usize) -> Seq<usize> {
    Seq::new(
        choose|k: nat| first_return(parents, i, k),
        |k: int| climb(parents, i, k as nat)->0,
    )
}

/// The nodes of all cycles that the first `n` nodes lead into: for each node
/// in order, the cycle it leads into, unless an earlier one did, listed upwards
/// from where it is entered.
pub open spec fn cycles(parents: Seq<Parent>, omitted: Seq<bool>, n: nat) -> Seq<usize>
    decreases n,
{
    if n == 0 {
        Seq::empty()
    } else {
        let i = (n - 1) as usize;
        let before = cycles(parents, omitted, (n - 1) as nat);
        if !omitted[n - 1] && leads(parents, i) && !before.contains(entry(parents, i)) {
            before + cycle(parents, entry(parents, i))
        } else {
            before
        }
    }
}

proof fn lemma_climb_prefix(parents: Seq<Parent>, i: usize, a: nat, b: nat)
    requires
        a <= b,
        climb(parents, i, b) is Some,
    ensures
        climb(parents, i, a) is Some,
{
    lemma_climb_add(parents, i, a, (b - a) as nat);
    assert(a + (b - a) as nat == b);
}

/// Climbing from a cycle never ends, stays on cycles, and comes back.
proof fn lemma_cycle_closed(parents: Seq<Parent>, i: usize, k: nat)
    requires
        on_cycle(parents, i),
    ensures
        climb(parents, i, k) is Some,
        on_cycle(parents, climb(parents, i, k)->0),
        exists|m: nat| climb(parents, climb(parents, i, k)->0, m) == Some(i),
    decreases k,
{
    let c = choose|c: nat| comes_back(parents, i, c);
    if k >= c {
        lemma_climb_add(parents, i, c, (k - c) as nat);
        assert(c + (k - c) as nat == k);
        lemma_cycle_closed(parents, i, (k - c) as nat);
    } else {
        lemma_climb_prefix(parents, i, k, c);
        let j = climb(parents, i, k)->0;
        lemma_climb_add(parents, i, k, (c - k) as nat);
        assert(k + (c - k) as nat == c);
        assert(climb(parents, j, (c - k) as nat) == Some(i));
        lemma_climb_add(parents, j, (c - k) as nat, k);
        assert((c - k) as nat + k == c);
        assert(comes_back(parents, j, c));
    }
}

pub proof fn lemma_least_hit(parents: Seq<Parent>, i: usize, k: nat)
    requires
        hits(parents, i, k),
    ensures
        exists|j: nat| first_hit(parents, i, j),
    decreases k,
{
    if exists|j: nat| j < k && hits(parents, i, j) {
        let j = choose|j: nat| j < k && hits(parents, i, j);
        lemma_least_hit(parents, i, j);
    } else {
        assert(first_hit(parents, i, k));
    }
}

pub proof fn lemma_entry(parents: Seq<Parent>, i: usize, k: nat)
    requires
        first_hit(parents, i, k),
    ensures
        leads(parents, i),
        climb(parents, i, k) == Some(entry(parents, i)),
{
    let c = choose|k: nat| first_hit(parents, i, k);
    assert(first_hit(parents, i, c));
    if c < k {
        assert(hits(parents, i, c));
    }
    if k < c {
        assert(hits(parents, i, k));
    }
}

/// A node of a cycle is where it is entered.
pub proof fn lemma_entry_on_cycle(parents: Seq<Parent>, i: usize)
    requires
        on_cycle(parents, i),
    ensures
        leads(parents, i),
        entry(parents, i) == i,
{
    assert(climb(parents, i, 0) == Some(i));
    assert(first_hit(parents, i, 0));
    lemma_entry(parents, i, 0);
}

/// A node off the cycles leads where its parent leads.
proof fn lemma_entry_up(parents: Seq<Parent>, i: usize, p: usize)
    requires
        up(parents, i) == Some(p),
        !on_cycle(parents, i),
    ensures
        leads(parents, i) == leads(parents, p),
        leads(parents, p) ==> entry(parents, i) == entry(parents, p),
{
    assert(climb(parents, i, 0) == Some(i));
    assert(climb(parents, i, 1) == Some(p));
    assert forall|k: nat| #[trigger] climb(parents, p, k) == climb(parents, i, k + 1) by {
        lemma_climb_add(parents, i, 1, k);
        assert(1 + k == k + 1);
    }
    if leads(parents, p) {
        let k = choose|k: nat| hits(parents, p, k);
        lemma_least_hit(parents, p, k);
        let k = choose|k: nat| first_hit(parents, p, k);
        assert(climb(parents, p, k) == climb(parents, i, k + 1));
        assert(first_hit(parents, i, k + 1)) by {
            assert forall|j: nat| j < k + 1 implies !hits(parents, i, j) by {
                if j > 0 {
                    assert(climb(parents, p, (j - 1) as nat) == climb(
                        parents,
                        i,
                        ((j - 1) as nat) + 1,
                    ));
                    assert(!hits(parents, p, (j - 1) as nat));
                }
            }
        }
        lemma_entry(parents, p, k);
        lemma_entry(parents, i, k + 1);
    }
    if leads(parents, i) {
        let k = choose|k: nat| hits(parents, i, k);
        assert(k > 0);
        assert(climb(parents, p, (k - 1) as nat) == climb(parents, i, ((k - 1) as nat) + 1));
        assert(hits(parents, p, (k - 1) as nat));
    }
}

/// Where climbing ends there is no cycle ahead.
proof fn lemma_ending_leads_nowhere(parents: Seq<Parent>, i: usize, k: nat)
    requires
        climb(parents, i, k) is None,
    ensures
        !leads(parents, i),
{
    if leads(parents, i) {
        let m = choose|m: nat| hits(parents, i, m);
        if k <= m {
            lemma_climb_prefix(parents, i, k, m);
        } else {
            let e = climb(parents, i, m)->0;
            lemma_cycle_closed(parents, e, (k - m) as nat);
            lemma_climb_add(parents, i, m, (k - m) as nat);
            assert(m + (k - m) as nat == k);
        }
    }
}

/// `path` is the way up from its first node.
spec fn is_path(parents: Seq<Parent>, path: Seq<usize>) -> bool {
    &&& forall|j: int| 0 <= j < path.len() ==> (#[trigger] path[j]) < parents.len()
    &&& forall|j: int|
        0 < j < path.len() ==> up(parents, path[j - 1]) == Some(#[trigger] path[j])
}

proof fn lemma_path_climb(parents: Seq<Parent>, path: Seq<usize>, j: int, k: nat)
    requires
        is_path(parents, path),
        0 <= j,
        j + k < path.len(),
    ensures
        climb(parents, path[j], k) == Some(path[j + k]),
    decreases k,
{
    if k > 0 {
        lemma_path_climb(parents, path, j, (k - 1) as nat);
        assert(path[j + k] == path[j + k]);
    }
}

/// What `found` must hold for the nodes that need no further walk.
spec fn accounted(parents: Seq<Parent>, found: Seq<usize>, i: usize) -> bool {
    leads(parents, i) ==> found.contains(entry(parents, i))
}

/// Accounting for the node above a path accounts for the whole path.
proof fn lemma_accounted_path(
    parents: Seq<Parent>,
    path: Seq<usize>,
    found: Seq<usize>,
    top: usize,
    j: int,
)
    requires
        is_path(parents, path),
        0 <= j < path.len(),
        up(parents, path.last()) == Some(top),
        accounted(parents, found, top),
        forall|m: int| j <= m < path.len() ==> !on_cycle(parents, #[trigger] path[m]),
    ensures
        accounted(parents, found, path[j]),
    decreases path.len() - j,
{
    if j == path.len() - 1 {
        lemma_entry_up(parents, path[j], top);
    } else {
        lemma_accounted_path(parents, path, found, top, j + 1);
        assert(up(parents, path[j]) == Some(path[j + 1]));
        lemma_entry_up(parents, path[j], path[j + 1]);
    }
}

/// Found nodes are nodes of cycles, and with one of a cycle the next one up.
spec fn found_cycles(parents: Seq<Parent>, omitted: Seq<bool>, found: Seq<usize>) -> bool {
    &&& found.no_duplicates()
    &&& forall|i: usize| #[trigger]
        found.contains(i) ==> i < parents.len() && !omitted[i as int] && on_cycle(parents, i)
    &&& forall|i: usize|
        found.contains(i) ==> (#[trigger] up(parents, i) matches Some(p) ==> found.contains(p))
}

proof fn lemma_found_climb(
    parents: Seq<Parent>,
    omitted: Seq<bool>,
    found: Seq<usize>,
    i: usize,
    k: nat,
)
    requires
        found_cycles(parents, omitted, found),
        found.contains(i),
        climb(parents, i, k) is Some,
    ensures
        found.contains(climb(parents, i, k)->0),
    decreases k,
{
    if k > 0 {
        lemma_climb_prefix(parents, i, (k - 1) as nat, k);
        lemma_found_climb(parents, omitted, found, i, (k - 1) as nat);
    }
}

/// No node of a path below an accounted one is on a cycle.
proof fn lemma_path_off_cycles(
    parents: Seq<Parent>,
    omitted: Seq<bool>,
    path: Seq<usize>,
    found: Seq<usize>,
    top: usize,
    j: int,
)
    requires
        is_path(parents, path),
        0 <= j < path.len(),
        up(parents, path.last()) == Some(top),
        accounted(parents, found, top),
        found_cycles(parents, omitted, found),
        !found.contains(path[j]),
    ensures
        !on_cycle(parents, path[j]),
{
    if on_cycle(parents, path[j]) {
        let k = (path.len() - 1 - j) as nat;
        lemma_path_climb(parents, path, j, k);
        assert(climb(parents, path[j], k + 1) == Some(top));
        lemma_cycle_closed(parents, path[j], k + 1);
        let m = choose|m: nat| climb(parents, top, m) == Some(path[j]);
        lemma_entry_on_cycle(parents, top);
        lemma_found_climb(parents, omitted, found, top, m);
    }
}

/// A path that runs back into itself, at its node `at`.
spec fn is_ring(parents: Seq<Parent>, path: Seq<usize>, at: int) -> bool {
    &&& is_path(parents, path)
    &&& path.no_duplicates()
    &&& 0 <= at < path.len()
    &&& up(parents, path.last()) == Some(path[at])
}

proof fn lemma_ring_stays(parents: Seq<Parent>, path: Seq<usize>, at: int, k: nat)
    requires
        is_ring(parents, path, at),
    ensures
        exists|j: int|
            at <= j < path.len() && climb(parents, path[at], k) == Some(#[trigger] path[j]),
    decreases k,
{
    if k == 0 {
        assert(climb(parents, path[at], 0) == Some(path[at]));
    } else {
        lemma_ring_stays(parents, path, at, (k - 1) as nat);
        let j = choose|j: int|
            at <= j < path.len() && climb(parents, path[at], (k - 1) as nat) == Some(
                #[trigger] path[j],
            );
        if j == path.len() - 1 {
            assert(climb(parents, path[at], k) == Some(path[at]));
        } else {
            assert(climb(parents, path[at], k) == Some(path[j + 1]));
        }
    }
}

/// The ring is the cycle through `path[at]`, and the path enters it there.
proof fn lemma_ring(parents: Seq<Parent>, path: Seq<usize>, at: int)
    requires
        is_ring(parents, path, at),
    ensures
        forall|j: int| at <= j < path.len() ==> on_cycle(parents, #[trigger] path[j]),
        forall|j: int| 0 <= j < at ==> !on_cycle(parents, #[trigger] path[j]),
        cycle(parents, path[at]) == path.subrange(at, path.len() as int),
        leads(parents, path[0]),
        entry(parents, path[0]) == path[at],
{
    let size = (path.len() - at) as nat;
    let first = path[at];
    lemma_path_climb(parents, path, at, (size - 1) as nat);
    assert(climb(parents, first, size) == Some(first));
    assert(comes_back(parents, first, size));
    assert forall|j: int| at <= j < path.len() implies on_cycle(parents, #[trigger] path[j]) by {
        lemma_path_climb(parents, path, at, (j - at) as nat);
        lemma_cycle_closed(parents, first, (j - at) as nat);
    }
    assert forall|j: int| 0 <= j < at implies !on_cycle(parents, #[trigger] path[j]) by {
        if on_cycle(parents, path[j]) {
            lemma_path_climb(parents, path, j, (at - j) as nat);
            lemma_cycle_closed(parents, path[j], (at - j) as nat);
            let m = choose|m: nat| climb(parents, first, m) == Some(path[j]);
            lemma_ring_stays(parents, path, at, m);
            let other = choose|other: int|
                at <= other < path.len() && climb(parents, first, m) == Some(#[trigger] path[other]);
            assert(path[other] == path[j]);
        }
    }
    assert(first_return(parents, first, size)) by {
        assert forall|k: nat| k < size implies !comes_back(parents, first, k) by {
            if k > 0 {
                lemma_path_climb(parents, path, at, k);
                assert(path[at + k] != path[at]);
            }
        }
    }
    let c = choose|k: nat| first_return(parents, first, k);
    assert(first_return(parents, first, c));
    if c < size {
        assert(comes_back(parents, first, c));
    }
    if size < c {
        assert(comes_back(parents, first, size));
    }
    assert(cycle(parents, first) =~= path.subrange(at, path.len() as int)) by {
        assert forall|k: int| 0 <= k < size implies cycle(parents, first)[k] == path.subrange(
            at,
            path.len() as int,
        )[k] by {
            lemma_path_climb(parents, path, at, k as nat);
        }
    }
    lemma_path_climb(parents, path, 0, at as nat);
    assert(first_hit(parents, path[0], at as nat)) by {
        assert forall|k: nat| k < at implies !hits(parents, path[0], k) by {
            lemma_path_climb(parents, path, 0, k);
        }
    }
    lemma_entry(parents, path[0], at as nat);
}

/// A node that no walk has visited, that is on the current walk, that is settled.
const UNVISITED: u8 = 0;

const ON_WALK: u8 = 1;

const SETTLED: u8 = 2;

/// Climb from `start` until a settled or omitted node, the top, or a node of
/// this very walk, whose place in the walk is then returned.
fn walk(
    parents: &Vec<Parent>,
    omitted: &Vec<bool>,
    mark: &mut Vec<u8>,
    start: usize,
    Ghost(first): Ghost<Seq<bool>>,
) -> (walked: (Vec<usize>, Option<usize>))
    requires
        graph(parents@),
        omitted@.len() == parents@.len(),
        old(mark)@.len() == parents@.len(),
        first.len() == parents@.len(),
        start < parents@.len(),
        forall|i: int| 0 <= i < first.len() && #[trigger] first[i] ==> omitted@[i],
        forall|i: int|
            0 <= i < parents@.len() ==> #[trigger] old(mark)@[i] == UNVISITED || old(mark)@[i]
                == SETTLED,
    ensures
        is_path(live(parents@, first), walked.0@),
        walked.0@.no_duplicates(),
        walked.0@.len() > 0 ==> walked.0@[0] == start,
        forall|j: int|
            0 <= j < walked.0@.len() ==> !omitted@[(#[trigger] walked.0@[j]) as int] && old(
                mark,
            )@[walked.0@[j] as int] == UNVISITED,
        final(mark)@.len() == old(mark)@.len(),
        forall|i: int|
            0 <= i < parents@.len() ==> #[trigger] final(mark)@[i] == (if walked.0@.contains(
                i as usize,
            ) {
                ON_WALK
            } else {
                old(mark)@[i]
            }),
        match walked.1 {
            Some(at) => is_ring(live(parents@, first), walked.0@, at as int),
            None => if walked.0@.len() == 0 {
                omitted@[start as int] || old(mark)@[start as int] == SETTLED
            } else {
                up(live(parents@, first), walked.0@.last()) matches Some(top) ==> top
                    < parents@.len() && (omitted@[top as int] || old(mark)@[top as int] == SETTLED)
            },
        },
{
    let ghost rest = live(parents@, first);
    let n = parents.len();
    let mut path: Vec<usize> = Vec::new();
    let mut current: Option<usize> = Some(start);
    loop
        invariant
            n == parents@.len(),
            graph(parents@),
            omitted@.len() == parents@.len(),
            old(mark)@.len() == parents@.len(),
            mark@.len() == parents@.len(),
            first.len() == parents@.len(),
            rest == live(parents@, first),
            start < parents@.len(),
            forall|i: int| 0 <= i < first.len() && #[trigger] first[i] ==> omitted@[i],
            forall|i: int|
                0 <= i < parents@.len() ==> #[trigger] old(mark)@[i] == UNVISITED || old(mark)@[i]
                    == SETTLED,
            is_path(rest, path@),
            path@.no_duplicates(),
            path@.len() > 0 ==> path@[0] == start,
            forall|j: int|
                0 <= j < path@.len() ==> !omitted@[(#[trigger] path@[j]) as int] && old(
                    mark,
                )@[path@[j] as int] == UNVISITED,
            forall|i: int|
                0 <= i < parents@.len() ==> #[trigger] mark@[i] == (if path@.contains(
                    i as usize,
                ) {
                    ON_WALK
                } else {
                    old(mark)@[i]
                }),
            current matches Some(index) ==> index < parents@.len(),
            path@.len() == 0 ==> current == Some(start),
            path@.len() > 0 ==> current == up(parents@, path@.last()),
        decreases parents@.len() - path@.len(),
    {
        proof {
            assert forall|j: int| 0 <= j < path@.len() implies #[trigger] path@[j]
                < parents@.len() by {}
            lemma_distinct_below(path@, parents@.len());
            if path@.len() > 0 {
                let last = path@.last() as int;
                assert(path@[path@.len() - 1] < rest.len());
                assert(rest[last] == match parents@[last] {
                    Parent::Node(p) => if first[p as int] {
                        Parent::Missing
                    } else {
                        Parent::Node(p)
                    },
                    other => other,
                });
            }
        }
        match current {
            None => {
                return (path, None);
            },
            Some(index) => {
                if mark[index] == SETTLED || omitted[index] {
                    assert(mark@[index as int] == SETTLED ==> !path@.contains(index));
                    return (path, None);
                }
                if mark[index] == ON_WALK {
                    assert(path@.contains(index));
                    let at = position(&path, index);
                    return (path, Some(at));
                }
                proof {
                    assert(!path@.contains(index));
                    assert(!first[index as int]);
                }
                let ghost before = path@;
                mark.set(index, ON_WALK);
                path.push(index);
                current = match parents[index] {
                    Parent::Node(parent) => Some(parent),
                    _ => None,
                };
                proof {
                    assert forall|i: int, j: int|
                        0 <= i < path@.len() && 0 <= j < path@.len() && i != j implies path@[i]
                        != path@[j] by {
                        if i < before.len() {
                            assert(before.contains(before[i]));
                        }
                        if j < before.len() {
                            assert(before.contains(before[j]));
                        }
                    }
                    lemma_push_contains(before, index);
                    lemma_distinct_below(path@, parents@.len());
                }
            },
        }
    }
}

fn position(path: &Vec<usize>, node: usize) -> (at: usize)
    requires
        path@.contains(node),
    ensures
        at < path@.len(),
        path@[at as int] == node,
{
    let mut i: usize = 0;
    while i < path.len()
        invariant
            i <= path@.len(),
            forall|j: int| 0 <= j < i ==> path@[j] != node,
        decreases path@.len() - i,
    {
        if path[i] == node {
            return i;
        }
        i += 1;
    }
    assert(path@[path@.index_of(node)] == node);
    i
}

/// Omit the nodes of a walk from its node `at` on, and list them as found.
fn omit_ring(
    path: &Vec<usize>,
    at: usize,
    omitted: &mut Vec<bool>,
    found: &mut Vec<usize>,
    Ghost(first): Ghost<Seq<bool>>,
)
    requires
        at <= path@.len(),
        old(omitted)@ == omitting(first, old(found)@),
        forall|j: int| 0 <= j < path@.len() ==> (#[trigger] path@[j]) < first.len(),
    ensures
        final(found)@ == old(found)@ + path@.subrange(at as int, path@.len() as int),
        final(omitted)@ == omitting(first, final(found)@),
{
    let n = omitted.len();
    let mut k: usize = at;
    assert(found@ =~= old(found)@ + path@.subrange(at as int, k as int));
    while k < path.len()
        invariant
            n == first.len(),
            at <= k <= path@.len(),
            found@ == old(found)@ + path@.subrange(at as int, k as int),
            omitted@ == omitting(first, found@),
            forall|j: int| 0 <= j < path@.len() ==> (#[trigger] path@[j]) < first.len(),
        decreases path@.len() - k,
    {
        let node = path[k];
        proof {
            lemma_push_contains(found@, node);
            assert(omitted@.len() == first.len());
        }
        omitted.set(node, true);
        found.push(node);
        proof {
            assert(found@ =~= old(found)@ + path@.subrange(at as int, k + 1));
            assert(omitted@ =~= omitting(first, found@));
        }
        k += 1;
    }
}

fn settle(path: &Vec<usize>, mark: &mut Vec<u8>)
    requires
        forall|j: int| 0 <= j < path@.len() ==> (#[trigger] path@[j]) < old(mark)@.len(),
    ensures
        final(mark)@.len() == old(mark)@.len(),
        forall|i: int|
            0 <= i < final(mark)@.len() ==> #[trigger] final(mark)@[i] == (if path@.contains(
                i as usize,
            ) {
                SETTLED
            } else {
                old(mark)@[i]
            }),
{
    let n = mark.len();
    let mut k: usize = 0;
    while k < path.len()
        invariant
            n == mark@.len(),
            n == old(mark)@.len(),
            k <= path@.len(),
            forall|j: int| 0 <= j < path@.len() ==> (#[trigger] path@[j]) < n,
            forall|i: int|
                0 <= i < n ==> #[trigger] mark@[i] == (if path@.take(k as int).contains(
                    i as usize,
                ) {
                    SETTLED
                } else {
                    old(mark)@[i]
                }),
        decreases path@.len() - k,
    {
        let node = path[k];
        proof {
            lemma_push_contains(path@.take(k as int), node);
            assert(path@.take(k + 1) =~= path@.take(k as int).push(node));
        }
        mark.set(node, SETTLED);
        k += 1;
    }
    assert(path@.take(k as int) =~= path@);
}

/// What the cycle pass knows when it has walked from the first `start` nodes.
spec fn pass(
    rest: Seq<Parent>,
    first: Seq<bool>,
    found: Seq<usize>,
    mark: Seq<u8>,
    start: usize,
) -> bool {
    &&& first.len() == rest.len()
    &&& mark.len() == rest.len()
    &&& start <= rest.len()
    &&& found == cycles(rest, first, start as nat)
    &&& found_cycles(rest, first, found)
    &&& forall|i: int|
        0 <= i < rest.len() ==> #[trigger] mark[i] == UNVISITED || (mark[i] == SETTLED
            && accounted(rest, found, i as usize))
    &&& forall|i: int| 0 <= i < start ==> #[trigger] first[i] || accounted(rest, found, i as usize)
}

proof fn lemma_round(
    rest: Seq<Parent>,
    first: Seq<bool>,
    found_before: Seq<usize>,
    found: Seq<usize>,
    path: Seq<usize>,
    ring: Option<usize>,
    mark_before: Seq<u8>,
    mark: Seq<u8>,
    omitted_before: Seq<bool>,
    start: usize,
)
    requires
        pass(rest, first, found_before, mark_before, start),
        start < rest.len() <= usize::MAX,
        omitted_before == omitting(first, found_before),
        forall|i: int|
            0 <= i < rest.len() ==> (#[trigger] rest[i] matches Parent::Node(p)
                ==> !first[p as int]),
        is_path(rest, path),
        path.len() > 0 ==> path[0] == start,
        forall|j: int| 0 <= j < path.len() ==> !omitted_before[(#[trigger] path[j]) as int],
        match ring {
            Some(at) => is_ring(rest, path, at as int) && found == found_before + path.subrange(
                at as int,
                path.len() as int,
            ),
            None => found == found_before && if path.len() == 0 {
                omitted_before[start as int] || mark_before[start as int] == SETTLED
            } else {
                up(rest, path.last()) matches Some(top) ==> top < rest.len() && (
                omitted_before[top as int] || mark_before[top as int] == SETTLED)
            },
        },
        mark.len() == rest.len(),
        forall|i: int|
            0 <= i < rest.len() ==> #[trigger] mark[i] == (if path.contains(i as usize) {
                SETTLED
            } else {
                mark_before[i]
            }),
    ensures
        pass(rest, first, found, mark, (start + 1) as usize),
{
    assert forall|j: int| 0 <= j < path.len() implies !found_before.contains(#[trigger] path[j])
        && !first[path[j] as int] by {
        assert(!omitted_before[path[j] as int]);
        assert(omitted_before[path[j] as int] == (first[path[j] as int] || found_before.contains(
            path[j],
        )));
    }
    match ring {
        Some(at) => {
            lemma_ring(rest, path, at as int);
            lemma_found_ring(rest, first, found_before, path, at as int);
        },
        None => {
            lemma_walk_accounted(
                rest,
                first,
                found,
                path,
                omitted_before,
                mark_before,
                start,
            );
        },
    }
    assert(accounted(rest, found, start) || first[start as int]);
    assert(found == cycles(rest, first, (start + 1) as nat)) by {
        assert((start + 1 - 1) as nat == start as nat);
    }
    assert forall|i: usize| #[trigger] accounted(rest, found_before, i) implies accounted(
        rest,
        found,
        i,
    ) by {
        if leads(rest, i) {
            let e = entry(rest, i);
            assert(found[found_before.index_of(e)] == e);
        }
    }
    assert forall|i: int| 0 <= i < rest.len() implies #[trigger] mark[i] == UNVISITED || (mark[i]
        == SETTLED && accounted(rest, found, i as usize)) by {
        assert(mark_before[i] == UNVISITED || accounted(rest, found_before, i as usize));
        if path.contains(i as usize) {
            assert(accounted(rest, found, path[path.index_of(i as usize)]));
        }
    }
    assert forall|i: int| 0 <= i < start + 1 implies #[trigger] first[i] || accounted(
        rest,
        found,
        i as usize,
    ) by {
        if i < start {
            assert(first[i] || accounted(rest, found_before, i as usize));
        }
    }
}

/// Omit every node that sits on a parent cycle, in one linear pass, and list them.
///
/// Each walk stops at the first node an earlier walk already settled, so every
/// node is visited once rather than once per descendant.
pub fn discard_parent_cycles(parents: &Vec<Parent>, omitted: &mut Vec<bool>) -> (found: Vec<usize>)
    requires
        graph(parents@),
        old(omitted)@.len() == parents@.len(),
    ensures
        found@ == cycles(live(parents@, old(omitted)@), old(omitted)@, parents@.len()),
        final(omitted)@ == omitting(old(omitted)@, found@),
        found@.no_duplicates(),
        forall|i: usize| #[trigger]
            found@.contains(i) <==> i < parents@.len() && !old(omitted)@[i as int] && on_cycle(
                live(parents@, old(omitted)@),
                i,
            ),
{
    let n = parents.len();
    let ghost first = omitted@;
    let ghost rest = live(parents@, first);
    let mut mark: Vec<u8> = Vec::new();
    let mut i: usize = 0;
    while i < n
        invariant
            i <= n,
            mark@.len() == i,
            forall|j: int| 0 <= j < i ==> #[trigger] mark@[j] == UNVISITED,
        decreases n - i,
    {
        mark.push(UNVISITED);
        i += 1;
    }
    let mut found: Vec<usize> = Vec::new();
    let mut start: usize = 0;
    assert(omitted@ =~= omitting(first, found@));
    while start < n
        invariant
            n == parents@.len(),
            graph(parents@),
            rest == live(parents@, first),
            rest.len() == n,
            omitted@ == omitting(first, found@),
            pass(rest, first, found@, mark@, start),
        decreases n - start,
    {
        let ghost found_before = found@;
        let ghost mark_before = mark@;
        let ghost omitted_before = omitted@;
        let (path, ring) = walk(parents, omitted, &mut mark, start, Ghost(first));
        if let Some(at) = ring {
            omit_ring(&path, at, omitted, &mut found, Ghost(first));
        }
        settle(&path, &mut mark);
        proof {
            assert forall|i: int|
                0 <= i < rest.len() implies (#[trigger] rest[i] matches Parent::Node(p)
                ==> !first[p as int]) by {
                assert(parents@[i] == parents@[i]);
            }
            lemma_round(
                rest,
                first,
                found_before,
                found@,
                path@,
                ring,
                mark_before,
                mark@,
                omitted_before,
                start,
            );
        }
        start += 1;
    }
    proof {
        assert forall|i: usize|
            i < n && !first[i as int] && on_cycle(rest, i) implies found@.contains(i) by {
            assert(first[i as int] || accounted(rest, found@, i));
            lemma_entry_on_cycle(rest, i);
        }
    }
    found
}

#[verifier::spinoff_prover]
proof fn lemma_found_ring(
    parents: Seq<Parent>,
    omitted: Seq<bool>,
    found: Seq<usize>,
    path: Seq<usize>,
    at: int,
)
    requires
        omitted.len() == parents.len(),
        found_cycles(parents, omitted, found),
        is_ring(parents, path, at),
        forall|j: int|
            0 <= j < path.len() ==> !found.contains(#[trigger] path[j])
                && !omitted[path[j] as int],
    ensures
        found_cycles(parents, omitted, found + path.subrange(at, path.len() as int)),
        forall|j: int|
            0 <= j < path.len() ==> accounted(
                parents,
                found + path.subrange(at, path.len() as int),
                #[trigger] path[j],
            ),
        !found.contains(entry(parents, path[0])),
        path[0] < parents.len(),
{
    lemma_ring(parents, path, at);
    let ring = path.subrange(at, path.len() as int);
    let all = found + ring;
    assert forall|j: int| at <= j < path.len() implies all.contains(#[trigger] path[j]) by {
        assert(all[found.len() + (j - at)] == path[j]);
    }
    assert forall|i: usize| #[trigger] all.contains(i) <==> found.contains(i) || ring.contains(i) by {
        if found.contains(i) {
            assert(all[found.index_of(i)] == i);
        }
        if ring.contains(i) {
            assert(all[found.len() + ring.index_of(i)] == i);
        }
    }
    assert forall|i: usize| #[trigger] ring.contains(i) implies i < parents.len()
        && !omitted[i as int] && on_cycle(parents, i) && !found.contains(i) && (up(parents, i) matches Some(
        p,
    ) ==> ring.contains(p)) by {
        let k = ring.index_of(i);
        assert(path[at + k] == i);
        if at + k == path.len() - 1 {
            assert(ring[0] == path[at]);
        } else {
            assert(up(parents, path[at + k]) == Some(path[at + k + 1]));
            assert(ring[k + 1] == path[at + k + 1]);
        }
    }
    assert forall|i: int, j: int| 0 <= i < all.len() && 0 <= j < all.len() && i != j implies all[i]
        != all[j] by {
        if i < found.len() {
            assert(found.contains(found[i]));
        } else {
            assert(ring.contains(ring[i - found.len()]));
            assert(ring[i - found.len()] == path[at + i - found.len()]);
        }
        if j < found.len() {
            assert(found.contains(found[j]));
        } else {
            assert(ring.contains(ring[j - found.len()]));
            assert(ring[j - found.len()] == path[at + j - found.len()]);
        }
    }
    lemma_ring_accounted(parents, all, path, at);
    assert(path[0] < parents.len());
}

/// With the nodes of its ring found, a whole path is accounted for.
proof fn lemma_ring_accounted(parents: Seq<Parent>, all: Seq<usize>, path: Seq<usize>, at: int)
    requires
        is_ring(parents, path, at),
        forall|j: int| at <= j < path.len() ==> all.contains(#[trigger] path[j]),
    ensures
        forall|j: int| 0 <= j < path.len() ==> accounted(parents, all, #[trigger] path[j]),
{
    lemma_ring(parents, path, at);
    assert forall|j: int| 0 <= j < path.len() implies accounted(
        parents,
        all,
        #[trigger] path[j],
    ) by {
        if j >= at {
            lemma_entry_on_cycle(parents, path[j]);
        } else {
            let below = path.subrange(0, at);
            lemma_entry_on_cycle(parents, path[at]);
            assert(accounted(parents, all, path[at]));
            assert(is_path(parents, below)) by {
                assert forall|k: int| 0 < k < below.len() implies up(parents, below[k - 1])
                    == Some(#[trigger] below[k]) by {
                    assert(path[k] == below[k]);
                }
                assert forall|k: int| 0 <= k < below.len() implies (#[trigger] below[k])
                    < parents.len() by {
                    assert(path[k] == below[k]);
                }
            }
            assert(below.last() == path[at - 1]);
            assert(up(parents, path[at - 1]) == Some(path[at]));
            assert forall|m: int| j <= m < below.len() implies !on_cycle(
                parents,
                #[trigger] below[m],
            ) by {
                assert(path[m] == below[m]);
            }
            lemma_accounted_path(parents, below, all, path[at], j);
            assert(below[j] == path[j]);
        }
    }
}

proof fn lemma_walk_accounted(
    parents: Seq<Parent>,
    omitted: Seq<bool>,
    found: Seq<usize>,
    path: Seq<usize>,
    now_omitted: Seq<bool>,
    mark: Seq<u8>,
    start: usize,
)
    requires
        omitted.len() == parents.len(),
        mark.len() == parents.len(),
        now_omitted == omitting(omitted, found),
        start < parents.len(),
        found_cycles(parents, omitted, found),
        forall|i: int|
            0 <= i < parents.len() ==> (#[trigger] parents[i] matches Parent::Node(p)
                ==> !omitted[p as int]),
        forall|i: int|
            0 <= i < parents.len() ==> #[trigger] mark[i] == UNVISITED || (mark[i] == SETTLED
                && accounted(parents, found, i as usize)),
        is_path(parents, path),
        path.len() > 0 ==> path[0] == start,
        forall|j: int|
            0 <= j < path.len() ==> !found.contains(#[trigger] path[j])
                && !omitted[path[j] as int],
        if path.len() == 0 {
            now_omitted[start as int] || mark[start as int] == SETTLED
        } else {
            up(parents, path.last()) matches Some(top) ==> top < parents.len() && (
            now_omitted[top as int] || mark[top as int] == SETTLED)
        },
    ensures
        omitted[start as int] || accounted(parents, found, start),
        forall|j: int| 0 <= j < path.len() ==> accounted(parents, found, #[trigger] path[j]),
{
    if path.len() == 0 {
        if !omitted[start as int] && mark[start as int] != SETTLED {
            assert(found.contains(start));
            lemma_entry_on_cycle(parents, start);
        }
    } else {
        match up(parents, path.last()) {
            None => {
                assert forall|j: int| 0 <= j < path.len() implies accounted(
                    parents,
                    found,
                    #[trigger] path[j],
                ) by {
                    let k = (path.len() - 1 - j) as nat;
                    lemma_path_climb(parents, path, j, k);
                    assert(climb(parents, path[j], k + 1) is None);
                    lemma_ending_leads_nowhere(parents, path[j], k + 1);
                }
            },
            Some(top) => {
                assert(path[path.len() - 1] < parents.len());
                assert(parents[path.last() as int] == Parent::Node(top));
                assert(!omitted[top as int]);
                assert(accounted(parents, found, top)) by {
                    if mark[top as int] != SETTLED {
                        assert(found.contains(top));
                        lemma_entry_on_cycle(parents, top);
                    }
                }
                assert forall|j: int| 0 <= j < path.len() implies !on_cycle(
                    parents,
                    #[trigger] path[j],
                ) by {
                    lemma_path_off_cycles(parents, omitted, path, found, top, j);
                }
                assert forall|j: int| 0 <= j < path.len() implies accounted(
                    parents,
                    found,
                    #[trigger] path[j],
                ) by {
                    lemma_accounted_path(parents, path, found, top, j);
                }
            },
        }
        assert(accounted(parents, found, path[0]));
    }
}

// ---------------------------------------------------------------------------
// The whole rule
// ---------------------------------------------------------------------------
/// No node omitted.
pub open spec fn none_omitted(n: nat) -> Seq<bool> {
    Seq::new(n, |i: int| false)
}

/// The nodes that name a missing parent, or descend from one that does.
pub open spec fn orphaned_nodes(parents: Seq<Parent>) -> Seq<usize> {
    orphans(parents, none_omitted(parents.len()))
}

pub open spec fn without_orphaned(parents: Seq<Parent>) -> Seq<bool> {
    omitting(none_omitted(parents.len()), orphaned_nodes(parents))
}

/// The nodes of parent cycles.
pub open spec fn cyclic_nodes(parents: Seq<Parent>) -> Seq<usize> {
    cycles(live(parents, without_orphaned(parents)), without_orphaned(parents), parents.len())
}

pub open spec fn without_cyclic(parents: Seq<Parent>) -> Seq<bool> {
    omitting(without_orphaned(parents), cyclic_nodes(parents))
}

/// The nodes that descend from a parent cycle.
pub open spec fn cut_off_nodes(parents: Seq<Parent>) -> Seq<usize> {
    orphans(parents, without_cyclic(parents))
}

/// The nodes that a frame leaves out, by reason and in reporting order.
pub struct Omissions {
    pub omitted: Vec<bool>,
    pub orphaned: Vec<usize>,
    pub cyclic: Vec<usize>,
    pub cut_off: Vec<usize>,
}

pub proof fn lemma_climb_needs_node(parents: Seq<Parent>, i: usize, a: nat, b: nat)
    requires
        a < b,
        climb(parents, i, b) is Some,
    ensures
        climb(parents, i, a) matches Some(j) && up(parents, j) is Some,
{
    lemma_climb_prefix(parents, i, (a + 1) as nat, b);
    lemma_climb_prefix(parents, i, a, b);
}

/// The parents of a node lead to one end only.
pub proof fn lemma_one_end(parents: Seq<Parent>, i: usize)
    ensures
        !(grounded(parents, i) && lost(parents, i)),
        !(leads(parents, i) && (grounded(parents, i) || lost(parents, i))),
{
    if grounded(parents, i) && lost(parents, i) {
        let a = choose|k: nat| ends_at(parents, i, k, Parent::Root);
        let b = choose|k: nat| ends_at(parents, i, k, Parent::Missing);
        if a < b {
            lemma_climb_needs_node(parents, i, a, b);
        }
        if b < a {
            lemma_climb_needs_node(parents, i, b, a);
        }
    }
    if grounded(parents, i) || lost(parents, i) {
        let k = if grounded(parents, i) {
            choose|k: nat| ends_at(parents, i, k, Parent::Root)
        } else {
            choose|k: nat| ends_at(parents, i, k, Parent::Missing)
        };
        assert(climb(parents, i, k + 1) is None);
        lemma_ending_leads_nowhere(parents, i, k + 1);
    }
}

/// Climbing as many steps as there are nodes meets a cycle.
pub proof fn lemma_long_climb(parents: Seq<Parent>, i: usize)
    requires
        graph(parents),
        i < parents.len(),
        climb(parents, i, parents.len()) is Some,
    ensures
        leads(parents, i),
{
    let n = parents.len();
    let path = Seq::new(n + 1, |k: int| climb(parents, i, k as nat)->0);
    assert forall|k: int| 0 <= k < path.len() implies #[trigger] path[k] < n && climb(
        parents,
        i,
        k as nat,
    ) == Some(path[k]) by {
        lemma_climb_prefix(parents, i, k as nat, n);
        lemma_climb_bounded(parents, i, k as nat);
    }
    if path.no_duplicates() {
        lemma_distinct_below(path, n);
    } else {
        let (a, b) = choose|a: int, b: int|
            0 <= a < path.len() && 0 <= b < path.len() && a != b && path[a] == path[b];
        let (a, b) = if a < b {
            (a, b)
        } else {
            (b, a)
        };
        lemma_climb_add(parents, i, a as nat, (b - a) as nat);
        assert(a as nat + (b - a) as nat == b as nat);
        assert(climb(parents, i, a as nat) == Some(path[a]));
        assert(climb(parents, i, b as nat) == Some(path[b]));
        assert(comes_back(parents, path[a], (b - a) as nat));
        assert(hits(parents, i, a as nat));
    }
}

proof fn lemma_some_end(parents: Seq<Parent>, i: usize, k: nat)
    requires
        graph(parents),
        i < parents.len(),
        climb(parents, i, k) is None,
    ensures
        grounded(parents, i) || lost(parents, i),
    decreases k,
{
    if climb(parents, i, (k - 1) as nat) is None {
        lemma_some_end(parents, i, (k - 1) as nat);
    } else {
        let m = (k - 1) as nat;
        let j = climb(parents, i, m)->0;
        assert(ends_at(parents, i, m, parents[j as int]));
    }
}

/// The parents of every node lead to a root, to a missing parent, or into a cycle.
pub proof fn lemma_every_end(parents: Seq<Parent>, i: usize)
    requires
        graph(parents),
        i < parents.len(),
    ensures
        grounded(parents, i) || lost(parents, i) || leads(parents, i),
{
    if climb(parents, i, parents.len()) is Some {
        lemma_long_climb(parents, i);
    } else {
        lemma_some_end(parents, i, parents.len());
    }
}

/// As far as no omitted node is met, the remaining graph climbs alike.
proof fn lemma_live_climb(parents: Seq<Parent>, omitted: Seq<bool>, i: usize, k: nat)
    requires
        graph(parents),
        omitted.len() == parents.len(),
        i < parents.len(),
        forall|j: nat|
            0 < j <= k ==> (#[trigger] climb(parents, i, j) matches Some(x) ==> !omitted[x as int]),
    ensures
        climb(live(parents, omitted), i, k) == climb(parents, i, k),
    decreases k,
{
    if k > 0 {
        lemma_live_climb(parents, omitted, i, (k - 1) as nat);
        match climb(parents, i, (k - 1) as nat) {
            Some(j) => {
                lemma_climb_bounded(parents, i, (k - 1) as nat);
                assert(climb(parents, i, k) == up(parents, j));
            },
            None => {},
        }
    }
}

/// What the remaining graph climbs, the whole graph climbs.
proof fn lemma_live_climb_back(parents: Seq<Parent>, omitted: Seq<bool>, i: usize, k: nat)
    requires
        graph(parents),
        omitted.len() == parents.len(),
        i < parents.len(),
        climb(live(parents, omitted), i, k) is Some,
    ensures
        climb(parents, i, k) == climb(live(parents, omitted), i, k),
        k > 0 ==> !omitted[climb(parents, i, k)->0 as int],
    decreases k,
{
    if k > 0 {
        lemma_climb_prefix(live(parents, omitted), i, (k - 1) as nat, k);
        lemma_live_climb_back(parents, omitted, i, (k - 1) as nat);
        lemma_climb_bounded(parents, i, (k - 1) as nat);
    }
}

proof fn lemma_ancestor_lost(parents: Seq<Parent>, i: usize, k: nat)
    requires
        climb(parents, i, k) is Some,
    ensures
        lost(parents, climb(parents, i, k)->0) == lost(parents, i),
    decreases k,
{
    if k > 0 {
        lemma_climb_prefix(parents, i, (k - 1) as nat, k);
        lemma_ancestor_lost(parents, i, (k - 1) as nat);
        let j = climb(parents, i, (k - 1) as nat)->0;
        let p = climb(parents, i, k)->0;
        lemma_lost_child(parents, j, p);
    }
}

/// Among the nodes that are not lost, cycles are what they were.
proof fn lemma_live_on_cycle(parents: Seq<Parent>, omitted: Seq<bool>, i: usize)
    requires
        graph(parents),
        omitted.len() == parents.len(),
        i < parents.len(),
        forall|j: usize| j < parents.len() ==> #[trigger] omitted[j as int] == lost(parents, j),
        !omitted[i as int],
    ensures
        on_cycle(live(parents, omitted), i) == on_cycle(parents, i),
{
    let rest = live(parents, omitted);
    if on_cycle(rest, i) {
        let k = choose|k: nat| comes_back(rest, i, k);
        lemma_live_climb_back(parents, omitted, i, k);
        assert(comes_back(parents, i, k));
    }
    if on_cycle(parents, i) {
        let k = choose|k: nat| comes_back(parents, i, k);
        assert forall|j: nat| 0 < j <= k implies (#[trigger] climb(parents, i, j) matches Some(x)
            ==> !omitted[x as int]) by {
            if climb(parents, i, j) is Some {
                lemma_ancestor_lost(parents, i, j);
                lemma_climb_bounded(parents, i, j);
            }
        }
        lemma_live_climb(parents, omitted, i, k);
        assert(comes_back(rest, i, k));
    }
}

/// Without the lost nodes and the cycles, a node that led into a cycle names a
/// missing parent at last.
proof fn lemma_live_lost(parents: Seq<Parent>, omitted: Seq<bool>, i: usize)
    requires
        graph(parents),
        omitted.len() == parents.len(),
        i < parents.len(),
        forall|j: usize|
            j < parents.len() ==> #[trigger] omitted[j as int] == (lost(parents, j) || on_cycle(
                parents,
                j,
            )),
        !omitted[i as int],
    ensures
        lost(live(parents, omitted), i) == leads(parents, i),
{
    let rest = live(parents, omitted);
    if lost(rest, i) {
        let k = choose|k: nat| ends_at(rest, i, k, Parent::Missing);
        lemma_live_climb_back(parents, omitted, i, k);
        let j = climb(parents, i, k)->0;
        lemma_climb_bounded(parents, i, k);
        lemma_ancestor_lost(parents, i, k);
        match parents[j as int] {
            Parent::Node(p) => {
                assert(climb(parents, i, k + 1) == Some(p));
                lemma_ancestor_lost(parents, i, k + 1);
                assert(omitted[p as int]);
                assert(hits(parents, i, k + 1));
            },
            Parent::Missing => {
                assert(ends_at(parents, i, k, Parent::Missing));
            },
            Parent::Root => {},
        }
    }
    if leads(parents, i) {
        let some = choose|k: nat| hits(parents, i, k);
        lemma_least_hit(parents, i, some);
        let k = choose|k: nat| first_hit(parents, i, k);
        assert(climb(parents, i, 0) == Some(i));
        assert(k > 0);
        let before = (k - 1) as nat;
        assert forall|j: nat| 0 < j <= before implies (#[trigger] climb(parents, i, j) matches Some(
            x,
        ) ==> !omitted[x as int]) by {
            if climb(parents, i, j) is Some {
                lemma_ancestor_lost(parents, i, j);
                lemma_climb_bounded(parents, i, j);
                assert(!hits(parents, i, j));
            }
        }
        lemma_live_climb(parents, omitted, i, before);
        lemma_climb_prefix(parents, i, before, k);
        lemma_climb_bounded(parents, i, before);
        let j = climb(parents, i, before)->0;
        lemma_climb_bounded(parents, i, k);
        assert(rest[j as int] == Parent::Missing);
        assert(ends_at(rest, i, before, Parent::Missing));
    }
}

pub proof fn lemma_live_none(parents: Seq<Parent>)
    requires
        graph(parents),
    ensures
        live(parents, none_omitted(parents.len())) == parents,
{
    assert(live(parents, none_omitted(parents.len())) =~= parents) by {
        assert forall|i: int| 0 <= i < parents.len() implies live(
            parents,
            none_omitted(parents.len()),
        )[i] == parents[i] by {
            assert(parents[i] matches Parent::Node(p) ==> p < parents.len());
        }
    }
}

/// Omit every node whose parents do not lead to a root.
///
/// The orphaned nodes are found first, then the cycles, then what descends
/// from a cycle. Each omitted node is in exactly one of the three lists.
pub fn discard_invalid_relationships(parents: &Vec<Parent>) -> (omissions: Omissions)
    requires
        graph(parents@),
    ensures
        omissions.orphaned@ == orphaned_nodes(parents@),
        omissions.cyclic@ == cyclic_nodes(parents@),
        omissions.cut_off@ == cut_off_nodes(parents@),
        omissions.omitted@.len() == parents@.len(),
        forall|i: usize|
            i < parents@.len() ==> #[trigger] omissions.omitted@[i as int] == !grounded(parents@, i),
{
    let n = parents.len();
    let mut omitted: Vec<bool> = Vec::new();
    while omitted.len() < n
        invariant
            omitted@.len() <= n,
            omitted@ =~= none_omitted(omitted@.len()),
        decreases n - omitted@.len(),
    {
        omitted.push(false);
    }
    assert(omitted@ == none_omitted(parents@.len()));
    let orphaned = discard_missing_parents(parents, &mut omitted);
    let ghost first = omitted@;
    let cyclic = discard_parent_cycles(parents, &mut omitted);
    let ghost second = omitted@;
    let cut_off = discard_missing_parents(parents, &mut omitted);
    proof {
        lemma_omission_lists(parents@);
        assert forall|i: usize| i < n implies #[trigger] omitted@[i as int] == !grounded(
            parents@,
            i,
        ) by {
            lemma_every_end(parents@, i);
            lemma_one_end(parents@, i);
            if on_cycle(parents@, i) {
                lemma_entry_on_cycle(parents@, i);
            }
            assert(first[i as int] == orphaned@.contains(i));
            assert(second[i as int] == (first[i as int] || cyclic@.contains(i)));
            assert(omitted@[i as int] == (second[i as int] || cut_off@.contains(i)));
        }
    }
    Omissions { omitted, orphaned, cyclic, cut_off }
}

/// Each reason's list holds the nodes that it is about, each once.
pub open spec fn omission_lists(parents: Seq<Parent>) -> bool {
    &&& orphaned_nodes(parents).no_duplicates()
    &&& cyclic_nodes(parents).no_duplicates()
    &&& cut_off_nodes(parents).no_duplicates()
    &&& forall|i: usize| #[trigger]
        orphaned_nodes(parents).contains(i) <==> i < parents.len() && lost(parents, i)
    &&& forall|i: usize| #[trigger]
        cyclic_nodes(parents).contains(i) <==> i < parents.len() && on_cycle(parents, i)
    &&& forall|i: usize| #[trigger]
        cut_off_nodes(parents).contains(i) <==> i < parents.len() && leads(parents, i) && !on_cycle(
            parents,
            i,
        )
}

/// The nodes that a frame leaves out, in reporting order.
pub open spec fn omitted_nodes(parents: Seq<Parent>) -> Seq<usize> {
    orphaned_nodes(parents) + cyclic_nodes(parents) + cut_off_nodes(parents)
}

/// The three lists together hold each node without a complete ancestry once,
/// and no other node.
pub proof fn lemma_omitted_once(parents: Seq<Parent>)
    requires
        graph(parents),
        parents.len() <= usize::MAX,
    ensures
        omitted_nodes(parents).no_duplicates(),
        forall|i: usize| #[trigger]
            omitted_nodes(parents).contains(i) <==> i < parents.len() && !grounded(parents, i),
{
    let a = orphaned_nodes(parents);
    let b = cyclic_nodes(parents);
    let c = cut_off_nodes(parents);
    let all = omitted_nodes(parents);
    lemma_omission_lists(parents);
    assert forall|j: int| 0 <= j < all.len() implies #[trigger] all[j] < parents.len() && {
        &&& j < a.len() <==> lost(parents, all[j])
        &&& a.len() <= j < a.len() + b.len() <==> on_cycle(parents, all[j])
        &&& !grounded(parents, all[j])
    } by {
        let i = all[j];
        lemma_one_end(parents, i);
        if on_cycle(parents, i) {
            lemma_entry_on_cycle(parents, i);
        }
        if j < a.len() {
            assert(a.contains(a[j]));
        } else if j < a.len() + b.len() {
            assert(b.contains(b[j - a.len()]));
            lemma_entry_on_cycle(parents, i);
        } else {
            assert(c.contains(c[j - a.len() - b.len()]));
        }
    }
    assert forall|j: int, k: int| 0 <= j < all.len() && 0 <= k < all.len() && j != k implies all[j]
        != all[k] by {
        if j < a.len() && k < a.len() {
            assert(a[j] != a[k]);
        } else if a.len() <= j < a.len() + b.len() && a.len() <= k < a.len() + b.len() {
            assert(b[j - a.len()] != b[k - a.len()]);
        } else if j >= a.len() + b.len() && k >= a.len() + b.len() {
            assert(c[j - a.len() - b.len()] != c[k - a.len() - b.len()]);
        }
    }
    assert forall|i: usize| #[trigger] all.contains(i) <==> i < parents.len() && !grounded(
        parents,
        i,
    ) by {
        if i < parents.len() && !grounded(parents, i) {
            lemma_every_end(parents, i);
            if lost(parents, i) {
                assert(a.contains(i));
                assert(all[a.index_of(i)] == i);
            } else if on_cycle(parents, i) {
                assert(b.contains(i));
                assert(all[a.len() + b.index_of(i)] == i);
            } else {
                assert(c.contains(i));
                assert(all[a.len() + b.len() + c.index_of(i)] == i);
            }
        }
    }
}

/// Where every node has a complete ancestry, nothing is left out.
pub proof fn lemma_no_omissions(parents: Seq<Parent>)
    requires
        parents.len() <= usize::MAX,
        graph(parents),
        forall|i: usize| i < parents.len() ==> #[trigger] grounded(parents, i),
    ensures
        orphaned_nodes(parents).len() == 0,
        cyclic_nodes(parents).len() == 0,
        cut_off_nodes(parents).len() == 0,
{
    let none = none_omitted(parents.len());
    lemma_live_none(parents);
    lemma_no_orphans(parents);
    assert(orphaned_nodes(parents) =~= Seq::empty());
    assert(without_orphaned(parents) =~= none);
    lemma_no_cycles(parents, none, parents.len());
    assert(cyclic_nodes(parents) =~= Seq::empty());
    assert(without_cyclic(parents) =~= none);
}

proof fn lemma_no_orphans(parents: Seq<Parent>)
    requires
        parents.len() <= usize::MAX,
        graph(parents),
        forall|i: usize| i < parents.len() ==> #[trigger] grounded(parents, i),
    ensures
        orphans(parents, none_omitted(parents.len())).len() == 0,
{
    let none = none_omitted(parents.len());
    lemma_live_none(parents);
    lemma_with_parent(parents, none, Parent::Missing, parents.len());
    let wave = with_parent(parents, none, Parent::Missing, parents.len());
    if wave.len() > 0 {
        let i = wave[0];
        assert(wave.contains(i));
        assert(grounded(parents, i));
        assert(climb(parents, i, 0) == Some(i));
        assert(ends_at(parents, i, 0, Parent::Missing));
        lemma_one_end(parents, i);
    }
    assert(wave =~= Seq::empty());
    lemma_empty_waves(parents, none, parents.len());
}

proof fn lemma_no_cycles(parents: Seq<Parent>, omitted: Seq<bool>, n: nat)
    requires
        n <= parents.len() <= usize::MAX,
        forall|i: usize| i < parents.len() ==> #[trigger] grounded(parents, i),
    ensures
        cycles(parents, omitted, n).len() == 0,
    decreases n,
{
    if n > 0 {
        lemma_no_cycles(parents, omitted, (n - 1) as nat);
        let i = (n - 1) as usize;
        assert(grounded(parents, i));
        lemma_one_end(parents, i);
    }
}

// ---------------------------------------------------------------------------
// The lists
// ---------------------------------------------------------------------------
/// A remaining node whose parents lead to a missing one after `k` steps.
pub open spec fn on_level(rest: Seq<Parent>, omitted: Seq<bool>, k: nat, i: usize) -> bool {
    i < rest.len() && !omitted[i as int] && ends_at(rest, i, k, Parent::Missing)
}

/// A remaining node on one of `count` levels from `k` on.
pub open spec fn on_levels(rest: Seq<Parent>, omitted: Seq<bool>, k: nat, count: nat, i: usize) -> bool {
    exists|j: nat| k <= j < k + count && #[trigger] on_level(rest, omitted, j, i)
}

/// Below a level comes the next.
pub proof fn lemma_next_level(
    rest: Seq<Parent>,
    omitted: Seq<bool>,
    wave: Seq<usize>,
    k: nat,
    i: usize,
)
    requires
        graph(rest),
        omitted.len() == rest.len() <= usize::MAX,
        live(rest, omitted) == rest,
        wave.no_duplicates(),
        forall|j: usize| #[trigger] wave.contains(j) <==> on_level(rest, omitted, k, j),
    ensures
        next_wave(rest, omitted, wave).contains(i) <==> on_level(rest, omitted, k + 1, i),
{
    lemma_next_wave(rest, omitted, wave);
    if i < rest.len() {
        assert(rest[i as int] matches Parent::Node(p) ==> p < rest.len());
        assert(live(rest, omitted)[i as int] == rest[i as int]);
        assert(climb(rest, i, 0) == Some(i));
        assert(climb(rest, i, 1) == up(rest, i));
        lemma_climb_add(rest, i, 1, k);
        assert(1 + k == k + 1);
        if let Parent::Node(p) = rest[i as int] {
            assert(wave.contains(p) <==> on_level(rest, omitted, k, p));
        }
    }
}

/// Waves list the levels, each node once.
pub proof fn lemma_waves(
    rest: Seq<Parent>,
    omitted: Seq<bool>,
    wave: Seq<usize>,
    k: nat,
    count: nat,
)
    requires
        graph(rest),
        omitted.len() == rest.len() <= usize::MAX,
        live(rest, omitted) == rest,
        wave.no_duplicates(),
        forall|j: usize| #[trigger] wave.contains(j) <==> on_level(rest, omitted, k, j),
    ensures
        waves(rest, omitted, wave, count).no_duplicates(),
        forall|i: usize| #[trigger]
            waves(rest, omitted, wave, count).contains(i) <==> on_levels(
                rest,
                omitted,
                k,
                count,
                i,
            ),
    decreases count,
{
    let all = waves(rest, omitted, wave, count);
    if count > 0 {
        let less = (count - 1) as nat;
        let below = next_wave(rest, omitted, wave);
        let others = waves(rest, omitted, below, less);
        lemma_next_wave(rest, omitted, wave);
        assert forall|j: usize| #[trigger] below.contains(j) <==> on_level(
            rest,
            omitted,
            k + 1,
            j,
        ) by {
            lemma_next_level(rest, omitted, wave, k, j);
        }
        lemma_waves(rest, omitted, below, k + 1, less);
        assert forall|i: usize| #[trigger] all.contains(i) <==> on_levels(
            rest,
            omitted,
            k,
            count,
            i,
        ) by {
            if all.contains(i) {
                let at = all.index_of(i);
                if at < wave.len() {
                    assert(wave[at] == i);
                    assert(wave.contains(i));
                    assert(on_level(rest, omitted, k, i));
                } else {
                    assert(others[at - wave.len()] == i);
                    assert(others.contains(i));
                    let j = choose|j: nat|
                        k + 1 <= j < k + 1 + less && #[trigger] on_level(rest, omitted, j, i);
                    assert(on_level(rest, omitted, j, i));
                }
            }
            if on_levels(rest, omitted, k, count, i) {
                let j = choose|j: nat| k <= j < k + count && #[trigger] on_level(rest, omitted, j, i);
                if j == k {
                    assert(wave.contains(i));
                    assert(all[wave.index_of(i)] == i);
                } else {
                    assert(on_levels(rest, omitted, k + 1, less, i));
                    assert(others.contains(i));
                    assert(all[wave.len() + others.index_of(i)] == i);
                }
            }
        }
        assert forall|i: usize| wave.contains(i) implies !#[trigger] others.contains(i) by {
            if others.contains(i) {
                let j = choose|j: nat|
                    k + 1 <= j < k + 1 + less && #[trigger] on_level(rest, omitted, j, i);
                assert(on_level(rest, omitted, k, i));
                lemma_climb_needs_node(rest, i, k, j);
            }
        }
        lemma_joined_once(wave, others);
    } else {
        assert forall|i: usize| #[trigger] all.contains(i) <==> on_levels(
            rest,
            omitted,
            k,
            count,
            i,
        ) by {}
    }
}

/// Two lists that share nothing hold each number once together.
pub proof fn lemma_joined_once(a: Seq<usize>, b: Seq<usize>)
    requires
        a.no_duplicates(),
        b.no_duplicates(),
        forall|i: usize| a.contains(i) ==> !#[trigger] b.contains(i),
    ensures
        (a + b).no_duplicates(),
{
    let all = a + b;
    assert forall|i: int, j: int| 0 <= i < all.len() && 0 <= j < all.len() && i != j implies all[i]
        != all[j] by {
        if i < a.len() && j >= a.len() {
            assert(a.contains(all[i]));
            assert(b[j - a.len()] == all[j]);
            assert(b.contains(all[j]));
        }
        if j < a.len() && i >= a.len() {
            assert(a.contains(all[j]));
            assert(b[i - a.len()] == all[i]);
            assert(b.contains(all[i]));
        }
    }
}

/// The orphans are the remaining nodes that are lost, each once.
proof fn lemma_orphans(parents: Seq<Parent>, omitted: Seq<bool>)
    requires
        graph(parents),
        omitted.len() == parents.len() <= usize::MAX,
    ensures
        orphans(parents, omitted).no_duplicates(),
        forall|i: usize| #[trigger]
            orphans(parents, omitted).contains(i) <==> i < parents.len() && !omitted[i as int]
                && lost(live(parents, omitted), i),
{
    let rest = live(parents, omitted);
    let n = rest.len();
    let wave = with_parent(rest, omitted, Parent::Missing, n);
    let all = orphans(parents, omitted);
    assert forall|i: int| 0 <= i < rest.len() implies match #[trigger] rest[i] {
        Parent::Node(p) => p < rest.len(),
        _ => true,
    } by {
        assert(parents[i] matches Parent::Node(p) ==> p < parents.len());
    }
    assert(live(rest, omitted) =~= rest);
    lemma_with_parent(rest, omitted, Parent::Missing, n);
    assert forall|i: usize| #[trigger] wave.contains(i) <==> on_level(rest, omitted, 0, i) by {
        assert(climb(rest, i, 0) == Some(i));
    }
    lemma_waves(rest, omitted, wave, 0, n);
    assert forall|i: usize| #[trigger] all.contains(i) <==> i < parents.len() && !omitted[i as int]
        && lost(rest, i) by {
        if all.contains(i) {
            let j = choose|j: nat| 0 <= j < n && #[trigger] on_level(rest, omitted, j, i);
            assert(ends_at(rest, i, j, Parent::Missing));
        }
        if i < parents.len() && !omitted[i as int] && lost(rest, i) {
            let j = choose|j: nat| ends_at(rest, i, j, Parent::Missing);
            if j >= n {
                lemma_climb_prefix(rest, i, n, j);
                lemma_long_climb(rest, i);
                lemma_one_end(rest, i);
            }
            assert(on_level(rest, omitted, j, i));
            assert(on_levels(rest, omitted, 0, n, i));
        }
    }
}

pub proof fn lemma_least_return(parents: Seq<Parent>, i: usize, k: nat)
    requires
        comes_back(parents, i, k),
    ensures
        exists|j: nat| first_return(parents, i, j),
    decreases k,
{
    if exists|j: nat| j < k && comes_back(parents, i, j) {
        let j = choose|j: nat| j < k && comes_back(parents, i, j);
        lemma_least_return(parents, i, j);
    } else {
        assert(first_return(parents, i, k));
    }
}

/// Every ancestor of a node of a cycle is in the cycle.
proof fn lemma_cycle_holds(parents: Seq<Parent>, i: usize, k: nat)
    requires
        on_cycle(parents, i),
    ensures
        climb(parents, i, k) is Some,
        cycle(parents, i).contains(climb(parents, i, k)->0),
    decreases k,
{
    let some = choose|c: nat| comes_back(parents, i, c);
    lemma_least_return(parents, i, some);
    let c = choose|c: nat| first_return(parents, i, c);
    lemma_cycle_closed(parents, i, k);
    if k < c {
        assert(cycle(parents, i)[k as int] == climb(parents, i, k)->0);
    } else {
        lemma_cycle_holds(parents, i, (k - c) as nat);
        lemma_climb_add(parents, i, c, (k - c) as nat);
        assert(c + (k - c) as nat == k);
    }
}

/// A cycle holds ancestors only, each once.
pub proof fn lemma_cycle_once(parents: Seq<Parent>, i: usize)
    requires
        on_cycle(parents, i),
    ensures
        cycle(parents, i).no_duplicates(),
        forall|k: int|
            0 <= k < cycle(parents, i).len() ==> climb(parents, i, k as nat) == Some(
                #[trigger] cycle(parents, i)[k],
            ),
{
    let some = choose|c: nat| comes_back(parents, i, c);
    lemma_least_return(parents, i, some);
    let c = choose|c: nat| first_return(parents, i, c);
    let ring = cycle(parents, i);
    assert forall|k: int| 0 <= k < ring.len() implies climb(parents, i, k as nat) == Some(
        #[trigger] ring[k],
    ) by {
        lemma_cycle_closed(parents, i, k as nat);
    }
    assert forall|a: int, b: int| 0 <= a < b < ring.len() implies ring[a] != ring[b] by {
        if ring[a] == ring[b] {
            let rest = (c - b) as nat;
            assert(climb(parents, i, a as nat) == Some(ring[a]));
            assert(climb(parents, i, b as nat) == Some(ring[b]));
            lemma_climb_add(parents, i, b as nat, rest);
            lemma_climb_add(parents, i, a as nat, rest);
            assert(b as nat + rest == c);
            assert(comes_back(parents, i, a as nat + rest));
        }
    }
}

/// A list of nodes holds the whole cycle of each.
pub open spec fn holds_cycles(parents: Seq<Parent>, list: Seq<usize>) -> bool {
    forall|i: usize, k: nat|
        list.contains(i) ==> (#[trigger] climb(parents, i, k) matches Some(j) ==> list.contains(j))
}

pub proof fn lemma_cycles(parents: Seq<Parent>, omitted: Seq<bool>, n: nat)
    requires
        graph(parents),
        omitted.len() == parents.len() <= usize::MAX,
        n <= parents.len(),
    ensures
        cycles(parents, omitted, n).no_duplicates(),
        holds_cycles(parents, cycles(parents, omitted, n)),
        forall|i: usize| #[trigger]
            cycles(parents, omitted, n).contains(i) ==> i < parents.len() && on_cycle(parents, i),
        forall|i: usize|
            i < n && !omitted[i as int] && on_cycle(parents, i) ==> #[trigger] cycles(
                parents,
                omitted,
                n,
            ).contains(i),
    decreases n,
{
    if n > 0 {
        let last = (n - 1) as usize;
        let before = cycles(parents, omitted, (n - 1) as nat);
        let all = cycles(parents, omitted, n);
        lemma_cycles(parents, omitted, (n - 1) as nat);
        if !omitted[n - 1] && leads(parents, last) && !before.contains(entry(parents, last)) {
            let first = entry(parents, last);
            let ring = cycle(parents, first);
            let some = choose|k: nat| hits(parents, last, k);
            lemma_least_hit(parents, last, some);
            let k = choose|k: nat| first_hit(parents, last, k);
            lemma_entry(parents, last, k);
            lemma_climb_bounded(parents, last, k);
            assert(on_cycle(parents, first));
            lemma_cycle_once(parents, first);
            assert forall|i: usize| before.contains(i) implies !#[trigger] ring.contains(i) by {
                if ring.contains(i) {
                    let at = ring.index_of(i);
                    assert(climb(parents, first, at as nat) == Some(ring[at]));
                    lemma_cycle_closed(parents, first, at as nat);
                    let m = choose|m: nat| climb(parents, i, m) == Some(first);
                    assert(climb(parents, i, m) == Some(first));
                }
            }
            lemma_joined_once(before, ring);
            assert forall|i: usize| #[trigger] all.contains(i) <==> before.contains(i)
                || ring.contains(i) by {
                if before.contains(i) {
                    assert(all[before.index_of(i)] == i);
                }
                if ring.contains(i) {
                    assert(all[before.len() + ring.index_of(i)] == i);
                }
                if all.contains(i) {
                    let at = all.index_of(i);
                    if at < before.len() {
                        assert(before[at] == i);
                    } else {
                        assert(ring[at - before.len()] == i);
                    }
                }
            }
            assert forall|i: usize| #[trigger] all.contains(i) implies i < parents.len()
                && on_cycle(parents, i) by {
                if ring.contains(i) {
                    let at = ring.index_of(i);
                    assert(climb(parents, first, at as nat) == Some(ring[at]));
                    lemma_cycle_closed(parents, first, at as nat);
                    lemma_climb_bounded(parents, first, at as nat);
                }
            }
            assert forall|i: usize, k: nat| all.contains(i) implies (#[trigger] climb(
                parents,
                i,
                k,
            ) matches Some(j) ==> all.contains(j)) by {
                if ring.contains(i) {
                    let at = ring.index_of(i);
                    assert(climb(parents, first, at as nat) == Some(ring[at]));
                    lemma_climb_add(parents, first, at as nat, k);
                    lemma_cycle_holds(parents, first, at as nat + k);
                }
            }
            assert forall|i: usize|
                i < n && !omitted[i as int] && on_cycle(parents, i) implies #[trigger] all.contains(
                i,
            ) by {
                if i == last {
                    lemma_entry_on_cycle(parents, last);
                    assert(climb(parents, last, 0) == Some(last));
                    lemma_cycle_holds(parents, last, 0);
                } else {
                    assert(before.contains(i));
                }
            }
        } else {
            assert forall|i: usize|
                i < n && !omitted[i as int] && on_cycle(parents, i) implies #[trigger] all.contains(
                i,
            ) by {
                if i == last {
                    lemma_entry_on_cycle(parents, last);
                } else {
                    assert(before.contains(i));
                }
            }
        }
    }
}

/// The three lists hold each node for one reason, once.
pub proof fn lemma_omission_lists(parents: Seq<Parent>)
    requires
        graph(parents),
        parents.len() <= usize::MAX,
    ensures
        omission_lists(parents),
{
    let n = parents.len();
    let none = none_omitted(n);
    let first = without_orphaned(parents);
    let second = without_cyclic(parents);
    let rest = live(parents, first);
    lemma_live_none(parents);
    lemma_orphans(parents, none);
    assert forall|i: usize| i < n implies #[trigger] first[i as int] == lost(parents, i) by {
        assert(orphaned_nodes(parents).contains(i) <==> lost(parents, i));
    }
    assert forall|i: int| 0 <= i < rest.len() implies match #[trigger] rest[i] {
        Parent::Node(p) => p < rest.len(),
        _ => true,
    } by {
        assert(parents[i] matches Parent::Node(p) ==> p < parents.len());
    }
    lemma_cycles(rest, first, n);
    assert forall|i: usize| #[trigger] cyclic_nodes(parents).contains(i) <==> i < n && on_cycle(
        parents,
        i,
    ) by {
        if i < n && on_cycle(parents, i) {
            lemma_entry_on_cycle(parents, i);
            lemma_one_end(parents, i);
            lemma_live_on_cycle(parents, first, i);
        }
        if cyclic_nodes(parents).contains(i) {
            let k = choose|k: nat| comes_back(rest, i, k);
            lemma_live_climb_back(parents, first, i, k);
            lemma_live_on_cycle(parents, first, i);
        }
    }
    assert forall|i: usize| i < n implies #[trigger] second[i as int] == (lost(parents, i)
        || on_cycle(parents, i)) by {
        assert(first[i as int] == lost(parents, i));
        assert(cyclic_nodes(parents).contains(i) <==> on_cycle(parents, i));
    }
    lemma_orphans(parents, second);
    assert forall|i: usize| #[trigger] cut_off_nodes(parents).contains(i) <==> i < n && leads(
        parents,
        i,
    ) && !on_cycle(parents, i) by {
        if i < n {
            assert(second[i as int] == (lost(parents, i) || on_cycle(parents, i)));
            lemma_one_end(parents, i);
            if !second[i as int] {
                lemma_live_lost(parents, second, i);
            }
        }
    }
}

} // verus!
