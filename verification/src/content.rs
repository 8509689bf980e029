//! What a node's descendants say, and whether its ancestors hide it.

use vstd::prelude::*;

#[allow(unused_imports)]
use crate::access::{redacted, textual};
use crate::access::{is_redacted, is_text_role};
#[allow(unused_imports)]
use crate::ancestry::{
    climb, graph, grounded, lemma_climb_add, lemma_long_climb, lemma_one_end, Parent,
};
#[allow(unused_imports)]
use crate::identity::{acyclic, lemma_lineage_graph, lemma_up_once, lineage};
use crate::text::push_words;
#[allow(unused_imports)]
use crate::text::{with_word, with_words, words};
use crate::tree::{is_host, FrameTree};
#[allow(unused_imports)]
use crate::tree::{
    all_placed, law_order_is_complete, lemma_valid_placed, order_of, placed, RawNode, Shape,
};

verus! {

// ---------------------------------------------------------------------------
// Content
// ---------------------------------------------------------------------------
/// The words that a child adds to the content of its parent: those of its own
/// text and of its content; none where its value is secret.
pub open spec fn child_words(child: RawNode, content: Option<Seq<char>>) -> Seq<Seq<char>> {
    if redacted(child.node.role) {
        Seq::empty()
    } else {
        let own = match child.node.value {
            Some(value) if textual(child.node.role) => words(value@),
            _ => Seq::empty(),
        };
        let below = match content {
            Some(text) => words(text),
            None => Seq::empty(),
        };
        own + below
    }
}

/// The words that these children add, in order.
pub open spec fn children_words(
    nodes: Seq<RawNode>,
    children: Seq<usize>,
    contents: Seq<Option<Seq<char>>>,
) -> Seq<Seq<char>>
    decreases children.len(),
{
    if children.len() == 0 {
        Seq::empty()
    } else {
        let last = children.last() as int;
        children_words(nodes, children.drop_last(), contents) + child_words(
            nodes[last],
            contents[last],
        )
    }
}

/// Words as one text, single-space separated; nothing where there is no word.
pub open spec fn text_of_words(words: Seq<Seq<char>>) -> Option<Seq<char>> {
    let text = with_words(Seq::empty(), words);
    if text.len() > 0 {
        Some(text)
    } else {
        None
    }
}

/// Nothing is listed more than `k` levels below a place; what the host lists
/// does not count.
pub open spec fn settles(
    children: Seq<Seq<usize>>,
    host: Option<usize>,
    place: usize,
    k: nat,
) -> bool
    decreases k,
{
    host == Some(place) || (k > 0 && forall|i: int|
        0 <= i < children[place as int].len() ==> settles(
            children,
            host,
            #[trigger] children[place as int][i],
            (k - 1) as nat,
        ))
}

/// Nothing that is listed below a place, at any level, is listed below itself.
pub open spec fn settled(children: Seq<Seq<usize>>, host: Option<usize>, place: usize) -> bool {
    settles(children, host, place, children.len())
}

/// The content of every place, as far as `k` levels below it say; the host has
/// none.
pub open spec fn contents_within(
    nodes: Seq<RawNode>,
    children: Seq<Seq<usize>>,
    host: Option<usize>,
    k: nat,
) -> Seq<Option<Seq<char>>>
    decreases k,
{
    if k == 0 {
        Seq::new(nodes.len(), |i: int| None)
    } else {
        let below = contents_within(nodes, children, host, (k - 1) as nat);
        Seq::new(
            nodes.len(),
            |i: int|
                if host == Some(i as usize) {
                    None
                } else {
                    text_of_words(children_words(nodes, children[i], below))
                },
        )
    }
}

/// The content of every settled place.
pub open spec fn settled_contents(
    nodes: Seq<RawNode>,
    children: Seq<Seq<usize>>,
    host: Option<usize>,
) -> Seq<Option<Seq<char>>> {
    Seq::new(
        nodes.len(),
        |i: int|
            if settled(children, host, i as usize) {
                contents_within(nodes, children, host, children.len())[i]
            } else {
                None
            },
    )
}

/// The content of every settled place, and of those in `order` that are not,
/// from the last to the first: each draws on the settled ones and on those
/// behind it.
pub open spec fn contents_along(
    nodes: Seq<RawNode>,
    children: Seq<Seq<usize>>,
    host: Option<usize>,
    order: Seq<usize>,
) -> Seq<Option<Seq<char>>>
    decreases order.len(),
{
    if order.len() == 0 {
        settled_contents(nodes, children, host)
    } else {
        let behind = contents_along(nodes, children, host, order.drop_first());
        let place = order[0];
        if settled(children, host, place) {
            behind
        } else {
            behind.update(
                place as int,
                text_of_words(children_words(nodes, children[place as int], behind)),
            )
        }
    }
}

/// The content of every place. The order of publishing matters only where a
/// place is listed below itself.
pub open spec fn contents_of(nodes: Seq<RawNode>, shape: Shape) -> Seq<Option<Seq<char>>> {
    contents_along(nodes, shape.children, shape.host, order_of(shape))
}

/// Words depend on the contents of the listed places alone.
pub proof fn lemma_words_by_child(
    nodes: Seq<RawNode>,
    children: Seq<usize>,
    first: Seq<Option<Seq<char>>>,
    second: Seq<Option<Seq<char>>>,
)
    requires
        forall|i: int|
            0 <= i < children.len() ==> first[#[trigger] children[i] as int]
                == second[children[i] as int],
    ensures
        children_words(nodes, children, first) == children_words(nodes, children, second),
    decreases children.len(),
{
    if children.len() > 0 {
        assert(first[children[children.len() - 1] as int] == second[children[children.len()
            - 1] as int]);
        assert forall|i: int| 0 <= i < children.drop_last().len() implies first[
            #[trigger] children.drop_last()[i] as int
        ] == second[children.drop_last()[i] as int] by {
            assert(children.drop_last()[i] == children[i]);
        }
        lemma_words_by_child(nodes, children.drop_last(), first, second);
    }
}

pub proof fn lemma_settles_longer(
    children: Seq<Seq<usize>>,
    host: Option<usize>,
    place: usize,
    k: nat,
    m: nat,
)
    requires
        settles(children, host, place, k),
        k <= m,
    ensures
        settles(children, host, place, m),
    decreases k,
{
    if host != Some(place) {
        assert forall|i: int| 0 <= i < children[place as int].len() implies settles(
            children,
            host,
            #[trigger] children[place as int][i],
            (m - 1) as nat,
        ) by {
            assert(settles(children, host, children[place as int][i], (k - 1) as nat));
            lemma_settles_longer(
                children,
                host,
                children[place as int][i],
                (k - 1) as nat,
                (m - 1) as nat,
            );
        }
    }
}

/// Once a place settles, more levels add nothing.
proof fn lemma_settled_within(
    nodes: Seq<RawNode>,
    children: Seq<Seq<usize>>,
    host: Option<usize>,
    place: usize,
    k: nat,
    m: nat,
)
    requires
        children.len() == nodes.len(),
        all_placed(children),
        place < nodes.len(),
        settles(children, host, place, k),
        k <= m,
    ensures
        contents_within(nodes, children, host, m)[place as int] == contents_within(
            nodes,
            children,
            host,
            k,
        )[place as int],
    decreases k,
{
    let list = children[place as int];
    if host != Some(place) {
        let short = contents_within(nodes, children, host, (k - 1) as nat);
        let long = contents_within(nodes, children, host, (m - 1) as nat);
        assert(placed(children.len(), children[place as int]));
        assert forall|i: int| 0 <= i < list.len() implies long[#[trigger] list[i] as int]
            == short[list[i] as int] by {
            assert(list[i] < children.len());
            assert(settles(children, host, children[place as int][i], (k - 1) as nat));
            lemma_settled_within(nodes, children, host, list[i], (k - 1) as nat, (m - 1) as nat);
        }
        lemma_words_by_child(nodes, list, long, short);
    }
}

/// What a settled place says is made of what its children say.
pub proof fn lemma_settled_content(
    nodes: Seq<RawNode>,
    children: Seq<Seq<usize>>,
    host: Option<usize>,
    place: usize,
    contents: Seq<Option<Seq<char>>>,
)
    requires
        children.len() == nodes.len() <= usize::MAX,
        all_placed(children),
        place < nodes.len(),
        host != Some(place),
        settled(children, host, place),
        forall|i: usize|
            i < nodes.len() && settled(children, host, i) ==> #[trigger] contents[i as int]
                == settled_contents(nodes, children, host)[i as int],
    ensures
        settled_contents(nodes, children, host)[place as int] == text_of_words(
            children_words(nodes, children[place as int], contents),
        ),
        forall|i: int|
            0 <= i < children[place as int].len() ==> settled(
                children,
                host,
                #[trigger] children[place as int][i],
            ),
{
    let n = children.len();
    let list = children[place as int];
    let below = contents_within(nodes, children, host, (n - 1) as nat);
    assert(placed(children.len(), children[place as int]));
    assert forall|i: int| 0 <= i < list.len() implies settled(
        children,
        host,
        #[trigger] children[place as int][i],
    ) && below[list[i] as int] == contents[list[i] as int] by {
        let child = children[place as int][i];
        assert(list[i] < children.len());
        assert(settles(children, host, children[place as int][i], (n - 1) as nat));
        lemma_settles_longer(children, host, child, (n - 1) as nat, n);
        lemma_settled_within(nodes, children, host, child, (n - 1) as nat, n);
        assert(contents[child as int] == settled_contents(nodes, children, host)[child as int]);
    }
    lemma_words_by_child(nodes, list, below, contents);
}

/// Along any order the settled places keep their contents.
pub proof fn lemma_contents_along(
    nodes: Seq<RawNode>,
    children: Seq<Seq<usize>>,
    host: Option<usize>,
    order: Seq<usize>,
)
    requires
        children.len() == nodes.len() <= usize::MAX,
        placed(nodes.len(), order),
    ensures
        contents_along(nodes, children, host, order).len() == nodes.len(),
        forall|i: usize|
            i < nodes.len() && settled(children, host, i) ==> #[trigger] contents_along(
                nodes,
                children,
                host,
                order,
            )[i as int] == settled_contents(nodes, children, host)[i as int],
    decreases order.len(),
{
    if order.len() > 0 {
        let rest = order.drop_first();
        assert(placed(nodes.len(), rest)) by {
            assert forall|i: int| 0 <= i < rest.len() implies #[trigger] rest[i] < nodes.len() by {
                assert(rest[i] == order[i + 1]);
            }
        }
        assert(order[0] < nodes.len());
        lemma_contents_along(nodes, children, host, rest);
    }
}

proof fn lemma_with_words_add(start: Seq<char>, first: Seq<Seq<char>>, second: Seq<Seq<char>>)
    ensures
        with_words(with_words(start, first), second) == with_words(start, first + second),
    decreases first.len(),
{
    if first.len() == 0 {
        assert(first + second =~= second);
    } else {
        assert((first + second).drop_first() =~= first.drop_first() + second);
        lemma_with_words_add(with_word(start, first[0]), first.drop_first(), second);
    }
}

pub open spec fn option_views(texts: Seq<Option<String>>) -> Seq<Option<Seq<char>>> {
    Seq::new(texts.len(), |i: int| texts[i].deep_view())
}

/// How many places are not ready.
pub open spec fn left(ready: Seq<bool>) -> nat
    decreases ready.len(),
{
    if ready.len() == 0 {
        0
    } else {
        left(ready.drop_last()) + if ready.last() {
            0nat
        } else {
            1nat
        }
    }
}

proof fn lemma_left(ready: Seq<bool>, i: int)
    requires
        0 <= i < ready.len(),
        !ready[i],
    ensures
        left(ready) == left(ready.update(i, true)) + 1,
    decreases ready.len(),
{
    let after = ready.update(i, true);
    if i < ready.len() - 1 {
        assert(after.drop_last() =~= ready.drop_last().update(i, true));
        lemma_left(ready.drop_last(), i);
    } else {
        assert(after.drop_last() =~= ready.drop_last());
    }
}

proof fn lemma_left_most(ready: Seq<bool>)
    ensures
        left(ready) <= ready.len(),
    decreases ready.len(),
{
    if ready.len() > 0 {
        lemma_left_most(ready.drop_last());
    }
}

impl FrameTree {
    /// The ready places settle and hold their contents; the others hold none.
    spec fn settling(&self, ready: Seq<bool>, memo: Seq<Option<String>>) -> bool {
        let shape = self.shape();
        &&& ready.len() == self.nodes@.len()
        &&& memo.len() == self.nodes@.len()
        &&& forall|i: usize|
            i < ready.len() && shape.host == Some(i) ==> #[trigger] ready[i as int]
        &&& forall|i: usize|
            i < ready.len() && #[trigger] ready[i as int] ==> settles(
                shape.children,
                shape.host,
                i,
                (ready.len() - left(ready)) as nat,
            )
        &&& forall|i: usize|
            i < ready.len() ==> (#[trigger] memo[i as int]).deep_view() == (if ready[i as int] {
                settled_contents(self.nodes@, shape.children, shape.host)[i as int]
            } else {
                None
            })
    }

    /// A place lists one that is not ready.
    spec fn blocked(&self, place: usize, ready: Seq<bool>) -> bool {
        exists|i: int|
            0 <= i < self.shape().children[place as int].len()
                && !ready[#[trigger] self.shape().children[place as int][i] as int]
    }

    proof fn lemma_nothing_settled(&self, ready: Seq<bool>, memo: Seq<Option<String>>)
        requires
            self.wf(),
            ready.len() == self.nodes@.len(),
            memo.len() == self.nodes@.len(),
            forall|i: int|
                0 <= i < memo.len() ==> #[trigger] memo[i] == None::<String> && ready[i] == (
                self.host == Some(i as usize)),
        ensures
            self.settling(ready, memo),
    {
        let shape = self.shape();
        let n = ready.len();
        lemma_left_most(ready);
        assert forall|i: usize| i < ready.len() && shape.host == Some(i) implies
            #[trigger] ready[i as int] by {
            assert(memo[i as int] == None::<String>);
        }
        assert forall|i: usize| i < ready.len() && #[trigger] ready[i as int] implies settles(
            shape.children,
            shape.host,
            i,
            (ready.len() - left(ready)) as nat,
        ) by {
            assert(memo[i as int] == None::<String>);
        }
        assert forall|i: usize| i < ready.len() implies (#[trigger] memo[i as int]).deep_view()
            == (if ready[i as int] {
            settled_contents(self.nodes@, shape.children, shape.host)[i as int]
        } else {
            None
        }) by {
            assert(memo[i as int] == None::<String>);
            assert(ready[i as int] == (self.host == Some(i)));
            if ready[i as int] {
                assert(contents_within(self.nodes@, shape.children, shape.host, n)[i as int]
                    is None);
            }
        }
    }

    proof fn lemma_settle(
        &self,
        ready: Seq<bool>,
        memo: Seq<Option<String>>,
        index: usize,
        content: Option<String>,
    )
        requires
            self.wf(),
            self.settling(ready, memo),
            index < ready.len(),
            !ready[index as int],
            forall|i: int|
                0 <= i < self.shape().children[index as int].len()
                    ==> ready[#[trigger] self.shape().children[index as int][i] as int],
            content.deep_view() == text_of_words(
                children_words(
                    self.nodes@,
                    self.shape().children[index as int],
                    option_views(memo),
                ),
            ),
        ensures
            self.settling(ready.update(index as int, true), memo.update(index as int, content)),
    {
        let shape = self.shape();
        let n = ready.len();
        let after = ready.update(index as int, true);
        let filled = memo.update(index as int, content);
        let before = (n - left(ready)) as nat;
        let now = (n - left(after)) as nat;
        lemma_left(ready, index as int);
        lemma_left_most(ready);
        lemma_left_most(after);
        lemma_valid_placed(shape);
        assert(now == before + 1);
        assert(settles(shape.children, shape.host, index, now)) by {
            assert forall|i: int| 0 <= i < shape.children[index as int].len() implies settles(
                shape.children,
                shape.host,
                #[trigger] shape.children[index as int][i],
                before,
            ) by {
                let child = shape.children[index as int][i];
                assert(ready[child as int]);
                assert(shape.children[index as int][i] < shape.ids.len());
            }
        }
        lemma_settles_longer(shape.children, shape.host, index, now, n);
        assert forall|i: usize| i < n && #[trigger] after[i as int] implies settles(
            shape.children,
            shape.host,
            i,
            now,
        ) by {
            if i != index {
                assert(ready[i as int]);
                lemma_settles_longer(shape.children, shape.host, i, before, now);
            }
        }
        let list = shape.children[index as int];
        let contents = settled_contents(self.nodes@, shape.children, shape.host);
        lemma_settled_content(self.nodes@, shape.children, shape.host, index, contents);
        assert(placed(shape.children.len(), shape.children[index as int]));
        assert forall|i: int| 0 <= i < list.len() implies option_views(memo)[
            #[trigger] list[i] as int
        ] == contents[list[i] as int] by {
            assert(list[i] < n);
            assert(ready[shape.children[index as int][i] as int]);
            assert(memo[list[i] as int].deep_view() == contents[list[i] as int]);
        }
        lemma_words_by_child(self.nodes@, list, option_views(memo), contents);
        assert forall|i: usize| i < n implies (#[trigger] filled[i as int]).deep_view() == (
        if after[i as int] {
            contents[i as int]
        } else {
            None
        }) by {
            if i != index {
                assert(filled[i as int] == memo[i as int]);
            }
        }
        assert forall|i: usize| i < n && shape.host == Some(i) implies #[trigger] after[i as int] by {
            assert(ready[i as int]);
        }
    }

    /// A place that lists none but ready ones is ready, so all that settle are.
    proof fn lemma_settles_ready(&self, ready: Seq<bool>, place: usize, k: nat)
        requires
            self.wf(),
            ready.len() == self.nodes@.len(),
            forall|i: usize|
                i < ready.len() && self.shape().host == Some(i) ==> #[trigger] ready[i as int],
            forall|i: usize|
                i < ready.len() && !#[trigger] ready[i as int] ==> self.blocked(i, ready),
            place < ready.len(),
            settles(self.shape().children, self.shape().host, place, k),
        ensures
            ready[place as int],
        decreases k,
    {
        let shape = self.shape();
        if !ready[place as int] {
            assert(self.blocked(place, ready));
            let i = choose|i: int|
                0 <= i < shape.children[place as int].len()
                    && !ready[#[trigger] shape.children[place as int][i] as int];
            assert(shape.children[place as int][i] < shape.ids.len());
            assert(settles(
                shape.children,
                shape.host,
                shape.children[place as int][i],
                (k - 1) as nat,
            ));
            self.lemma_settles_ready(ready, shape.children[place as int][i], (k - 1) as nat);
        }
    }

    proof fn lemma_all_settled(&self, ready: Seq<bool>, memo: Seq<Option<String>>)
        requires
            self.wf(),
            self.settling(ready, memo),
            forall|k: int|
                0 <= k < order_of(self.shape()).len() && !ready[#[trigger] order_of(
                    self.shape(),
                )[k] as int] ==> self.blocked(order_of(self.shape())[k], ready),
        ensures
            forall|i: usize|
                i < ready.len() ==> #[trigger] ready[i as int] == settled(
                    self.shape().children,
                    self.shape().host,
                    i,
                ),
            option_views(memo) == contents_along(
                self.nodes@,
                self.shape().children,
                self.shape().host,
                Seq::empty(),
            ),
    {
        let shape = self.shape();
        let order = order_of(shape);
        let n = ready.len();
        law_order_is_complete(shape);
        lemma_left_most(ready);
        assert forall|i: usize| i < ready.len() && !#[trigger] ready[i as int] implies self.blocked(
            i,
            ready,
        ) by {
            assert(shape.host != Some(i));
            assert(order.contains(i));
            let k = order.index_of(i);
            assert(order[k] == i);
        }
        assert forall|i: usize| i < ready.len() implies #[trigger] ready[i as int] == settled(
            shape.children,
            shape.host,
            i,
        ) by {
            if ready[i as int] {
                lemma_settles_longer(
                    shape.children,
                    shape.host,
                    i,
                    (n - left(ready)) as nat,
                    n,
                );
            } else if settled(shape.children, shape.host, i) {
                self.lemma_settles_ready(ready, i, n);
            }
        }
        assert forall|i: int| 0 <= i < n implies option_views(memo)[i] == settled_contents(
            self.nodes@,
            shape.children,
            shape.host,
        )[i] by {
            let place = i as usize;
            assert(memo[place as int].deep_view() == option_views(memo)[i]);
            assert(ready[place as int] == settled(shape.children, shape.host, place));
        }
        assert(option_views(memo) =~= settled_contents(self.nodes@, shape.children, shape.host));
    }
}

impl FrameTree {
    /// What the children of `index` say, given their own contents.
    fn collect_content(&self, index: usize, memo: &Vec<Option<String>>) -> (content: Option<String>)
        requires
            self.wf(),
            index < self.nodes@.len(),
            memo@.len() == self.nodes@.len(),
        ensures
            content.deep_view() == text_of_words(
                children_words(
                    self.nodes@,
                    self.shape().children[index as int],
                    option_views(memo@),
                ),
            ),
    {
        let ghost contents = option_views(memo@);
        let ghost list = self.shape().children[index as int];
        let children = &self.children[index];
        let mut joined = String::new();
        let mut k: usize = 0;
        assert(list.take(0) =~= Seq::empty());
        assert(joined@ =~= Seq::empty());
        while k < children.len()
            invariant
                self.wf(),
                index < self.nodes@.len(),
                memo@.len() == self.nodes@.len(),
                contents == option_views(memo@),
                list == self.shape().children[index as int],
                children@ == list,
                k <= list.len(),
                joined@ == with_words(
                    Seq::empty(),
                    children_words(self.nodes@, list.take(k as int), contents),
                ),
            decreases list.len() - k,
        {
            let child = children[k];
            assert(self.shape().children[index as int][k as int] < self.nodes@.len());
            let ghost before = children_words(self.nodes@, list.take(k as int), contents);
            let ghost added = child_words(self.nodes@[child as int], contents[child as int]);
            proof {
                assert(list.take(k + 1).drop_last() =~= list.take(k as int));
                assert(list.take(k + 1).last() == child);
                lemma_with_words_add(Seq::empty(), before, added);
            }
            let node = &self.nodes[child].node;
            if !is_redacted(node.role) {
                let ghost start = joined@;
                if is_text_role(node.role) {
                    if let Some(value) = &node.value {
                        push_words(&mut joined, value.as_str());
                    }
                }
                let ghost own = match self.nodes@[child as int].node.value {
                    Some(value) if textual(node.role) => words(value@),
                    _ => Seq::empty(),
                };
                assert(joined@ == with_words(start, own));
                let ghost below = match contents[child as int] {
                    Some(text) => words(text),
                    None => Seq::empty(),
                };
                if let Some(text) = &memo[child] {
                    push_words(&mut joined, text.as_str());
                }
                proof {
                    lemma_with_words_add(start, own, below);
                    assert(added == own + below);
                }
            } else {
                assert(before + added =~= before);
            }
            k += 1;
        }
        assert(list.take(k as int) =~= list);
        if joined.as_str().is_empty() {
            None
        } else {
            Some(joined)
        }
    }

    fn children_ready(&self, index: usize, ready: &Vec<bool>) -> (answer: bool)
        requires
            self.wf(),
            index < self.nodes@.len(),
            ready@.len() == self.nodes@.len(),
        ensures
            answer == forall|i: int|
                0 <= i < self.shape().children[index as int].len()
                    ==> ready@[#[trigger] self.shape().children[index as int][i] as int],
    {
        let ghost list = self.shape().children[index as int];
        let children = &self.children[index];
        let mut k: usize = 0;
        while k < children.len()
            invariant
                self.wf(),
                index < self.nodes@.len(),
                ready@.len() == self.nodes@.len(),
                list == self.shape().children[index as int],
                children@ == list,
                k <= list.len(),
                forall|i: int| 0 <= i < k ==> ready@[#[trigger] list[i] as int],
            decreases list.len() - k,
        {
            assert(self.shape().children[index as int][k as int] < self.nodes@.len());
            if !ready[children[k]] {
                assert(!ready@[self.shape().children[index as int][k as int] as int]);
                return false;
            }
            k += 1;
        }
        true
    }

    /// Settle what the places in `order` can say, from the last to the first.
    /// Returns whether any place was settled.
    fn settle_contents(
        &self,
        order: &Vec<usize>,
        ready: &mut Vec<bool>,
        memo: &mut Vec<Option<String>>,
    ) -> (progress: bool)
        requires
            self.wf(),
            placed(self.nodes@.len(), order@),
            self.settling(old(ready)@, old(memo)@),
        ensures
            self.settling(final(ready)@, final(memo)@),
            forall|i: int|
                0 <= i < self.nodes@.len() && old(ready)@[i] ==> #[trigger] final(ready)@[i],
            progress ==> left(final(ready)@) < left(old(ready)@),
            !progress ==> final(ready)@ == old(ready)@ && forall|k: int|
                0 <= k < order@.len() && !final(ready)@[#[trigger] order@[k] as int]
                    ==> self.blocked(order@[k], final(ready)@),
    {
        let ghost before = ready@;
        let mut progress = false;
        let mut k: usize = order.len();
        while k > 0
            invariant
                self.wf(),
                placed(self.nodes@.len(), order@),
                k <= order@.len(),
                self.settling(ready@, memo@),
                before.len() == self.nodes@.len(),
                forall|i: int| 0 <= i < self.nodes@.len() && before[i] ==> #[trigger] ready@[i],
                progress ==> left(ready@) < left(before),
                !progress ==> ready@ == before && forall|j: int|
                    k <= j < order@.len() && !ready@[#[trigger] order@[j] as int]
                        ==> self.blocked(order@[j], ready@),
            decreases k,
        {
            k -= 1;
            let index = order[k];
            assert(order@[k as int] < self.nodes@.len());
            if !ready[index] {
                if self.children_ready(index, ready) {
                    let content = self.collect_content(index, memo);
                    let ghost known = ready@;
                    proof {
                        self.lemma_settle(known, memo@, index, content);
                    }
                    memo.set(index, content);
                    ready.set(index, true);
                    proof {
                        lemma_left(known, index as int);
                    }
                    progress = true;
                } else {
                    assert(self.blocked(order@[k as int], ready@));
                }
            }
        }
        progress
    }

    /// Normalized descendant text of every node in `order`: each text-role
    /// child's value and each descendant's own collected text, in tree order.
    pub fn content_texts(&self, order: &Vec<usize>) -> (contents: Vec<Option<String>>)
        requires
            self.wf(),
            order@ == order_of(self.shape()),
        ensures
            option_views(contents@) == contents_of(self.nodes@, self.shape()),
            contents@.len() == self.nodes@.len(),
    {
        let ghost shape = self.shape();
        let n = self.nodes.len();
        let mut memo: Vec<Option<String>> = Vec::new();
        let mut ready: Vec<bool> = Vec::new();
        while memo.len() < n
            invariant
                self.wf(),
                n == self.nodes@.len(),
                memo@.len() == ready@.len() <= n,
                forall|i: int|
                    0 <= i < memo@.len() ==> #[trigger] memo@[i] == None::<String> && ready@[i]
                        == (self.host == Some(i as usize)),
            decreases n - memo@.len(),
        {
            ready.push(is_host(self.host, memo.len()));
            memo.push(None);
        }
        proof {
            law_order_is_complete(shape);
            lemma_valid_placed(shape);
            assert(placed(n as nat, order@)) by {
                assert forall|k: int| 0 <= k < order@.len() implies #[trigger] order@[k] < n by {
                    assert(order@[k] < shape.children.len());
                }
            }
            self.lemma_nothing_settled(ready@, memo@);
        }
        loop
            invariant
                self.wf(),
                placed(self.nodes@.len(), order@),
                self.settling(ready@, memo@),
            ensures
                forall|k: int|
                    0 <= k < order@.len() && !ready@[#[trigger] order@[k] as int] ==> self.blocked(
                        order@[k],
                        ready@,
                    ),
            decreases left(ready@),
        {
            if !self.settle_contents(order, &mut ready, &mut memo) {
                break ;
            }
        }
        let mut k: usize = order.len();
        proof {
            assert(order@.skip(k as int) =~= Seq::empty());
            self.lemma_all_settled(ready@, memo@);
        }
        while k > 0
            invariant
                self.wf(),
                shape == self.shape(),
                n == self.nodes@.len(),
                placed(n as nat, order@),
                k <= order@.len(),
                memo@.len() == n,
                ready@.len() == n,
                forall|i: usize|
                    i < n ==> #[trigger] ready@[i as int] == settled(
                        shape.children,
                        shape.host,
                        i,
                    ),
                option_views(memo@) == contents_along(
                    self.nodes@,
                    shape.children,
                    shape.host,
                    order@.skip(k as int),
                ),
            decreases k,
        {
            k -= 1;
            let index = order[k];
            assert(order@[k as int] < n);
            assert(order@.skip(k as int).drop_first() =~= order@.skip(k + 1));
            assert(ready@[index as int] == settled(shape.children, shape.host, index));
            if !ready[index] {
                let ghost before = option_views(memo@);
                let content = self.collect_content(index, &memo);
                let ghost added = content.deep_view();
                memo.set(index, content);
                assert(option_views(memo@) =~= before.update(index as int, added));
            }
        }
        assert(order@.skip(0) =~= order@);
        memo
    }
}

// ---------------------------------------------------------------------------
// Hidden nodes
// ---------------------------------------------------------------------------
/// The ancestor `k` steps up is hidden.
pub open spec fn hidden_at(nodes: Seq<RawNode>, shape: Shape, i: usize, k: nat) -> bool {
    match climb(lineage(shape), i, k) {
        Some(above) => nodes[above as int].node.hidden,
        None => false,
    }
}

/// The element or one of its ancestors below the host is hidden.
pub open spec fn hidden_above(nodes: Seq<RawNode>, shape: Shape, i: usize) -> bool {
    exists|k: nat| hidden_at(nodes, shape, i, k)
}

/// An element is hidden by itself or by its parent.
pub proof fn lemma_hidden_above(nodes: Seq<RawNode>, shape: Shape, i: usize)
    ensures
        hidden_above(nodes, shape, i) <==> nodes[i as int].node.hidden || (match lineage(
            shape,
        )[i as int] {
            Parent::Node(above) => hidden_above(nodes, shape, above),
            _ => false,
        }),
{
    let parents = lineage(shape);
    assert(climb(parents, i, 0) == Some(i));
    if nodes[i as int].node.hidden {
        assert(hidden_at(nodes, shape, i, 0));
    }
    if let Parent::Node(above) = parents[i as int] {
        assert(climb(parents, i, 1) == Some(above)) by {
            assert(climb(parents, i, 0) == Some(i));
        }
        if hidden_above(nodes, shape, above) {
            let k = choose|k: nat| hidden_at(nodes, shape, above, k);
            lemma_climb_add(parents, i, 1, k);
            assert(hidden_at(nodes, shape, i, 1 + k));
        }
        if hidden_above(nodes, shape, i) && !nodes[i as int].node.hidden {
            let k = choose|k: nat| hidden_at(nodes, shape, i, k);
            assert(k > 0);
            lemma_climb_add(parents, i, 1, (k - 1) as nat);
            assert(1 + (k - 1) as nat == k);
            assert(hidden_at(nodes, shape, above, (k - 1) as nat));
        }
    } else if hidden_above(nodes, shape, i) && !nodes[i as int].node.hidden {
        let k = choose|k: nat| hidden_at(nodes, shape, i, k);
        assert(k > 0);
        assert(climb(parents, i, 1) is None) by {
            assert(climb(parents, i, 0) == Some(i));
        }
        lemma_climb_add(parents, i, 1, (k - 1) as nat);
        assert(1 + (k - 1) as nat == k);
    }
}

impl FrameTree {
    /// Whether the node or one of its ancestors is hidden.
    fn is_hidden(&self, index: usize) -> (hidden: bool)
        requires
            self.wf(),
            acyclic(self.shape()),
            index < self.nodes@.len(),
        ensures
            hidden == hidden_above(self.nodes@, self.shape(), index),
    {
        let ghost shape = self.shape();
        let ghost parents = lineage(shape);
        let mut node: usize = index;
        let ghost mut left: nat = shape.parent.len();
        proof {
            lemma_lineage_graph(shape);
            assert(grounded(parents, index));
            if climb(parents, index, left) is Some {
                lemma_long_climb(parents, index);
                lemma_one_end(parents, index);
            }
        }
        loop
            invariant
                self.wf(),
                shape == self.shape(),
                parents == lineage(shape),
                graph(parents),
                node < parents.len(),
                climb(parents, node, left) is None,
                hidden_above(self.nodes@, shape, index) == hidden_above(self.nodes@, shape, node),
            decreases left,
        {
            proof {
                assert(climb(parents, node, 0) == Some(node));
                lemma_hidden_above(self.nodes@, shape, node);
                assert(match parents[node as int] {
                    Parent::Node(p) => p < parents.len(),
                    _ => true,
                });
            }
            if self.nodes[node].node.hidden {
                return true;
            }
            if is_host(self.host, node) {
                return false;
            }
            match self.parent[node] {
                Some(above) => {
                    if is_host(self.host, above) {
                        return false;
                    }
                    proof {
                        lemma_up_once(parents, node, above, left);
                        left = (left - 1) as nat;
                    }
                    node = above;
                },
                None => {
                    return false;
                },
            }
        }
    }

    /// Whether each node is hidden, by itself or by an ancestor.
    pub fn hidden_nodes(&self) -> (hidden: Vec<bool>)
        requires
            self.wf(),
            acyclic(self.shape()),
        ensures
            hidden@.len() == self.nodes@.len(),
            forall|i: usize|
                i < self.nodes@.len() ==> #[trigger] hidden@[i as int] == hidden_above(
                    self.nodes@,
                    self.shape(),
                    i,
                ),
    {
        let mut hidden: Vec<bool> = Vec::new();
        while hidden.len() < self.nodes.len()
            invariant
                self.wf(),
                acyclic(self.shape()),
                hidden@.len() <= self.nodes@.len(),
                forall|i: usize|
                    i < hidden@.len() ==> #[trigger] hidden@[i as int] == hidden_above(
                        self.nodes@,
                        self.shape(),
                        i,
                    ),
            decreases self.nodes@.len() - hidden@.len(),
        {
            let flag = self.is_hidden(hidden.len());
            hidden.push(flag);
        }
        hidden
    }
}

} // verus!
