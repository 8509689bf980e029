//! A map from texts to values that keeps its keys in order.

use vstd::prelude::*;

use crate::model::Modelled;
use crate::text::{order, text_before, Order};
#[allow(unused_imports)]
use crate::text::{
    lemma_text_before_irreflexive, lemma_text_before_total, lemma_text_before_transitive,
};

verus! {

/// A map with text keys, held as a list of entries in strictly ascending key
/// order. Its deep view is the map of its keys' characters to its values' deep
/// views.
#[derive(Debug, PartialEq)]
pub struct StringMap<V> {
    entries: Vec<(String, V)>,
}

/// Every key sorts before every later one, so no key occurs twice.
spec fn ascending<V>(entries: Seq<(String, V)>) -> bool {
    forall|i: int, j: int|
        0 <= i < j < entries.len() ==> text_before(#[trigger] entries[i].0@, #[trigger] entries[j].0@)
}

spec fn as_map<V: DeepView>(entries: Seq<(String, V)>) -> Map<Seq<char>, V::V>
    decreases entries.len(),
{
    if entries.len() == 0 {
        Map::empty()
    } else {
        as_map(entries.drop_last()).insert(entries.last().0@, entries.last().1.deep_view())
    }
}

/// Texts in strictly ascending order.
pub open spec fn ascending_texts(texts: Seq<Seq<char>>) -> bool {
    forall|i: int, j: int|
        0 <= i < j < texts.len() ==> text_before(#[trigger] texts[i], #[trigger] texts[j])
}

proof fn lemma_as_map<V: DeepView>(entries: Seq<(String, V)>)
    requires
        ascending(entries),
    ensures
        as_map(entries).dom().finite(),
        as_map(entries).len() == entries.len(),
        forall|i: int|
            0 <= i < entries.len() ==> as_map(entries).contains_key((#[trigger] entries[i]).0@)
                && as_map(entries)[entries[i].0@] == entries[i].1.deep_view(),
        forall|k: Seq<char>| #[trigger]
            as_map(entries).contains_key(k) ==> exists|i: int|
                0 <= i < entries.len() && (#[trigger] entries[i]).0@ == k,
    decreases entries.len(),
{
    if entries.len() > 0 {
        let rest = entries.drop_last();
        assert(ascending(rest)) by {
            assert forall|i: int, j: int| 0 <= i < j < rest.len() implies text_before(
                #[trigger] rest[i].0@,
                #[trigger] rest[j].0@,
            ) by {
                assert(entries[i] == rest[i] && entries[j] == rest[j]);
            }
        }
        lemma_as_map(rest);
        let last = entries.last().0@;
        assert(!as_map(rest).contains_key(last)) by {
            if as_map(rest).contains_key(last) {
                let i = choose|i: int| 0 <= i < rest.len() && (#[trigger] rest[i]).0@ == last;
                assert(entries[i] == rest[i]);
                lemma_text_before_irreflexive(last);
            }
        }
        assert forall|i: int| 0 <= i < entries.len() implies as_map(entries).contains_key(
            (#[trigger] entries[i]).0@,
        ) && as_map(entries)[entries[i].0@] == entries[i].1.deep_view() by {
            if i < rest.len() {
                assert(entries[i] == rest[i]);
            }
        }
        assert forall|k: Seq<char>| #[trigger] as_map(entries).contains_key(k) implies exists|i: int|
            0 <= i < entries.len() && (#[trigger] entries[i]).0@ == k by {
            if k == last {
                assert(entries[entries.len() - 1].0@ == k);
            } else {
                let i = choose|i: int| 0 <= i < rest.len() && (#[trigger] rest[i]).0@ == k;
                assert(entries[i] == rest[i]);
            }
        }
    }
}

/// Two ascending lists of entries with the same map have the same keys and values.
proof fn lemma_same_map<V: DeepView>(left: Seq<(String, V)>, right: Seq<(String, V)>, n: int)
    requires
        ascending(left),
        ascending(right),
        as_map(left) == as_map(right),
        0 <= n <= left.len(),
    ensures
        left.len() == right.len(),
        forall|i: int|
            0 <= i < n ==> (#[trigger] left[i]).0@ == right[i].0@ && left[i].1.deep_view()
                == right[i].1.deep_view(),
    decreases n,
{
    lemma_as_map(left);
    lemma_as_map(right);
    if n > 0 {
        lemma_same_map(left, right, n - 1);
        let m = n - 1;
        let a = left[m].0@;
        let b = right[m].0@;
        assert(as_map(right).contains_key(a));
        let i = choose|i: int| 0 <= i < right.len() && (#[trigger] right[i]).0@ == a;
        assert(as_map(left).contains_key(b));
        let j = choose|j: int| 0 <= j < left.len() && (#[trigger] left[j]).0@ == b;
        lemma_text_before_irreflexive(a);
        lemma_text_before_irreflexive(b);
        lemma_text_before_total(a, b);
        if i < m {
            assert(left[i].0@ == right[i].0@);
        }
        if j < m {
            assert(left[j].0@ == right[j].0@);
        }
        assert(i >= m && j >= m);
        assert(a == b);
    }
}

impl<V> StringMap<V> {
    #[verifier::type_invariant]
    spec fn entries_ascend(self) -> bool {
        ascending(self.entries@)
    }
}

impl<V: DeepView> DeepView for StringMap<V> {
    type V = Map<Seq<char>, V::V>;

    closed spec fn deep_view(&self) -> Map<Seq<char>, V::V> {
        as_map(self.entries@)
    }
}

impl<V: DeepView> StringMap<V> {
    pub fn new() -> (map: Self)
        ensures
            map.deep_view() == Map::<Seq<char>, V::V>::empty(),
    {
        StringMap { entries: Vec::new() }
    }

    pub fn len(&self) -> (len: usize)
        ensures
            len == self.deep_view().len(),
            self.deep_view().dom().finite(),
    {
        proof {
            use_type_invariant(self);
            lemma_as_map(self.entries@);
        }
        self.entries.len()
    }

    pub fn is_empty(&self) -> (empty: bool)
        ensures
            empty == (self.deep_view() == Map::<Seq<char>, V::V>::empty()),
    {
        proof {
            use_type_invariant(self);
            lemma_as_map(self.entries@);
            if self.entries@.len() > 0 {
                assert(self.deep_view().contains_key(self.entries@[0].0@));
            } else {
                assert(self.deep_view() =~= Map::<Seq<char>, V::V>::empty());
            }
        }
        self.entries.len() == 0
    }

    /// Where `key` stands, or where it would have to be inserted.
    fn find(&self, key: &str) -> (found: (bool, usize))
        ensures
            found.1 <= self.entries@.len(),
            forall|i: int| 0 <= i < found.1 ==> text_before((#[trigger] self.entries@[i]).0@, key@),
            found.0 ==> found.1 < self.entries@.len() && self.entries@[found.1 as int].0@ == key@,
            !found.0 ==> forall|i: int|
                found.1 <= i < self.entries@.len() ==> text_before(
                    key@,
                    (#[trigger] self.entries@[i]).0@,
                ),
    {
        proof {
            use_type_invariant(self);
        }
        let mut low: usize = 0;
        let mut high: usize = self.entries.len();
        while low < high
            invariant
                ascending(self.entries@),
                low <= high <= self.entries@.len(),
                forall|i: int| 0 <= i < low ==> text_before((#[trigger] self.entries@[i]).0@, key@),
                forall|i: int|
                    high <= i < self.entries@.len() ==> text_before(
                        key@,
                        (#[trigger] self.entries@[i]).0@,
                    ),
            decreases high - low,
        {
            let middle: usize = low + (high - low) / 2;
            let ghost at = self.entries@[middle as int].0@;
            match order(self.entries[middle].0.as_str(), key) {
                Order::Same => {
                    return (true, middle);
                },
                Order::Before => {
                    proof {
                        assert forall|i: int| 0 <= i < middle implies text_before(
                            (#[trigger] self.entries@[i]).0@,
                            key@,
                        ) by {
                            lemma_text_before_transitive(self.entries@[i].0@, at, key@);
                        }
                    }
                    low = middle + 1;
                },
                Order::After => {
                    proof {
                        assert forall|i: int| middle < i < self.entries@.len() implies text_before(
                            key@,
                            (#[trigger] self.entries@[i]).0@,
                        ) by {
                            lemma_text_before_transitive(key@, at, self.entries@[i].0@);
                        }
                    }
                    high = middle;
                },
            }
        }
        (false, low)
    }

    proof fn lemma_absent(&self, key: Seq<char>, at: int)
        requires
            ascending(self.entries@),
            0 <= at <= self.entries@.len(),
            forall|i: int| 0 <= i < at ==> text_before((#[trigger] self.entries@[i]).0@, key),
            forall|i: int|
                at <= i < self.entries@.len() ==> text_before(key, (#[trigger] self.entries@[i]).0@),
        ensures
            !self.deep_view().contains_key(key),
    {
        lemma_as_map(self.entries@);
        lemma_text_before_irreflexive(key);
    }

    pub fn get(&self, key: &str) -> (value: Option<&V>)
        ensures
            match value {
                Some(found) => self.deep_view().contains_key(key@) && found.deep_view()
                    == self.deep_view()[key@],
                None => !self.deep_view().contains_key(key@),
            },
    {
        proof {
            use_type_invariant(self);
            lemma_as_map(self.entries@);
        }
        let (found, at) = self.find(key);
        if found {
            Some(&self.entries[at].1)
        } else {
            proof {
                self.lemma_absent(key@, at as int);
            }
            None
        }
    }

    pub fn contains_key(&self, key: &str) -> (found: bool)
        ensures
            found == self.deep_view().contains_key(key@),
    {
        match self.get(key) {
            Some(_) => true,
            None => false,
        }
    }

    /// Set the value of `key`, in place of the one it had.
    pub fn insert(&mut self, key: String, value: V)
        ensures
            final(self).deep_view() == old(self).deep_view().insert(key@, value.deep_view()),
    {
        proof {
            use_type_invariant(&*self);
            lemma_as_map(self.entries@);
        }
        let (found, at) = self.find(key.as_str());
        let ghost before = self.entries@;
        let mut entries: Vec<(String, V)> = Vec::new();
        std::mem::swap(&mut entries, &mut self.entries);
        let ghost new_key = key@;
        let ghost new_value = value.deep_view();
        if found {
            entries.set(at, (key, value));
            proof {
                assert forall|i: int, j: int| 0 <= i < j < entries@.len() implies text_before(
                    #[trigger] entries@[i].0@,
                    #[trigger] entries@[j].0@,
                ) by {
                    assert(entries@[i].0@ == before[i].0@);
                    assert(entries@[j].0@ == before[j].0@);
                }
            }
        } else {
            entries.insert(at, (key, value));
            proof {
                assert forall|i: int, j: int| 0 <= i < j < entries@.len() implies text_before(
                    #[trigger] entries@[i].0@,
                    #[trigger] entries@[j].0@,
                ) by {
                    let a = if i > at { i - 1 } else { i };
                    let b = if j > at { j - 1 } else { j };
                    if i != at {
                        assert(entries@[i] == before[a]);
                    }
                    if j != at {
                        assert(entries@[j] == before[b]);
                    }
                }
            }
        }
        proof {
            let after = entries@;
            lemma_as_map(after);
            assert(as_map(after) =~= as_map(before).insert(new_key, new_value)) by {
                assert(after[at as int].0@ == new_key);
                assert forall|k: Seq<char>| as_map(after).contains_key(k) <==> as_map(
                    before,
                ).insert(new_key, new_value).contains_key(k) by {
                    if as_map(after).contains_key(k) {
                        let i = choose|i: int| 0 <= i < after.len() && (#[trigger] after[i]).0@ == k;
                        let a = if !found && i > at { i - 1 } else { i };
                        if i != at {
                            assert(after[i] == before[a]);
                        }
                    }
                    if as_map(before).contains_key(k) {
                        let i = choose|i: int|
                            0 <= i < before.len() && (#[trigger] before[i]).0@ == k;
                        let a = if !found && i >= at { i + 1 } else { i };
                        if !(found && i == at) {
                            assert(after[a] == before[i]);
                        }
                    }
                }
                assert forall|k: Seq<char>| as_map(after).contains_key(k) implies as_map(after)[k]
                    == as_map(before).insert(new_key, new_value)[k] by {
                    let i = choose|i: int| 0 <= i < after.len() && (#[trigger] after[i]).0@ == k;
                    let a = if !found && i > at { i - 1 } else { i };
                    if i != at {
                        assert(after[i] == before[a]);
                        if k == new_key {
                            lemma_text_before_irreflexive(k);
                            assert(text_before(after[i].0@, after[at as int].0@) || text_before(
                                after[at as int].0@,
                                after[i].0@,
                            ));
                        }
                    }
                }
            }
        }
        self.entries = entries;
    }

    /// The keys in ascending order.
    pub fn keys(&self) -> (keys: Vec<String>)
        ensures
            ascending_texts(keys.deep_view()),
            keys@.len() == self.deep_view().len(),
            forall|i: int|
                0 <= i < keys@.len() ==> self.deep_view().contains_key((#[trigger] keys@[i])@),
            forall|k: Seq<char>| #[trigger]
                self.deep_view().contains_key(k) ==> keys.deep_view().contains(k),
    {
        proof {
            use_type_invariant(self);
            lemma_as_map(self.entries@);
        }
        let mut keys: Vec<String> = Vec::new();
        let mut i: usize = 0;
        while i < self.entries.len()
            invariant
                i <= self.entries@.len(),
                keys@.len() == i,
                forall|j: int| 0 <= j < i ==> (#[trigger] keys@[j])@ == self.entries@[j].0@,
            decreases self.entries@.len() - i,
        {
            keys.push(self.entries[i].0.clone());
            i += 1;
        }
        proof {
            assert forall|k: Seq<char>| #[trigger]
                self.deep_view().contains_key(k) implies keys.deep_view().contains(k) by {
                let i = choose|i: int|
                    0 <= i < self.entries@.len() && (#[trigger] self.entries@[i]).0@ == k;
                assert(keys.deep_view()[i] == k);
            }
            assert forall|i: int| 0 <= i < keys@.len() implies self.deep_view().contains_key(
                (#[trigger] keys@[i])@,
            ) by {
                assert(self.entries@[i].0@ == keys@[i]@);
            }
        }
        keys
    }
}

/// Every key sorts before every earlier one.
spec fn descending<V>(entries: Seq<(String, V)>) -> bool {
    forall|i: int, j: int|
        0 <= i < j < entries.len() ==> text_before(#[trigger] entries[j].0@, #[trigger] entries[i].0@)
}

/// Every key of `low` sorts before every key of `high`.
spec fn below<V>(low: Seq<(String, V)>, high: Seq<(String, V)>) -> bool {
    forall|i: int, j: int|
        0 <= i < low.len() && 0 <= j < high.len() ==> text_before(
            #[trigger] low[i].0@,
            #[trigger] high[j].0@,
        )
}

proof fn lemma_as_map_keys<V: DeepView>(entries: Seq<(String, V)>, key: Seq<char>)
    ensures
        as_map(entries).contains_key(key) ==> exists|i: int|
            0 <= i < entries.len() && (#[trigger] entries[i]).0@ == key,
    decreases entries.len(),
{
    if entries.len() > 0 && as_map(entries).contains_key(key) {
        let rest = entries.drop_last();
        if entries.last().0@ == key {
            assert(entries[entries.len() - 1].0@ == key);
        } else {
            lemma_as_map_keys(rest, key);
            let i = choose|i: int| 0 <= i < rest.len() && (#[trigger] rest[i]).0@ == key;
            assert(entries[i].0@ == key);
        }
    }
}

/// A key above all others is not among them.
proof fn lemma_above_absent<V: DeepView>(entries: Seq<(String, V)>, key: Seq<char>)
    requires
        forall|i: int|
            0 <= i < entries.len() ==> text_before((#[trigger] entries[i]).0@, key) || text_before(
                key,
                entries[i].0@,
            ),
    ensures
        !as_map(entries).contains_key(key),
{
    lemma_as_map_keys(entries, key);
    lemma_text_before_irreflexive(key);
}

proof fn lemma_pop_ascending<V>(entries: Seq<(String, V)>)
    requires
        ascending(entries),
        entries.len() > 0,
    ensures
        ascending(entries.drop_last()),
        forall|i: int|
            0 <= i < entries.len() - 1 ==> text_before(
                (#[trigger] entries[i]).0@,
                entries.last().0@,
            ),
{
    let rest = entries.drop_last();
    assert forall|i: int, j: int| 0 <= i < j < rest.len() implies text_before(
        #[trigger] rest[i].0@,
        #[trigger] rest[j].0@,
    ) by {
        assert(rest[i] == entries[i] && rest[j] == entries[j]);
    }
    assert forall|i: int| 0 <= i < entries.len() - 1 implies text_before(
        (#[trigger] entries[i]).0@,
        entries.last().0@,
    ) by {
        assert(entries.last() == entries[entries.len() - 1]);
    }
}

/// Entries in ascending order, from those in descending order.
fn ascending_entries<V: DeepView>(backwards: Vec<(String, V)>) -> (entries: Vec<(String, V)>)
    requires
        descending(backwards@),
    ensures
        ascending(entries@),
        as_map(entries@) == as_map(backwards@),
{
    let ghost given = backwards@;
    let mut backwards = backwards;
    let mut entries: Vec<(String, V)> = Vec::new();
    assert(as_map(given).union_prefer_right(as_map(entries@)) =~= as_map(given));
    while backwards.len() > 0
        invariant
            descending(backwards@),
            ascending(entries@),
            below(entries@, backwards@),
            as_map(backwards@).union_prefer_right(as_map(entries@)) == as_map(given),
        decreases backwards@.len(),
    {
        let ghost rest = backwards@.drop_last();
        let ghost last = backwards@.last();
        let ghost before = entries@;
        proof {
            assert(last == backwards@[backwards@.len() - 1]);
            assert forall|i: int| 0 <= i < before.len() implies text_before(
                (#[trigger] before[i]).0@,
                last.0@,
            ) || text_before(last.0@, before[i].0@) by {
                assert(text_before(before[i].0@, backwards@[backwards@.len() - 1].0@));
            }
            lemma_above_absent(before, last.0@);
            assert(as_map(backwards@) == as_map(rest).insert(last.0@, last.1.deep_view()));
        }
        if let Some(entry) = backwards.pop() {
            entries.push(entry);
            proof {
                assert(entries@.drop_last() =~= before);
                assert(as_map(entries@) == as_map(before).insert(last.0@, last.1.deep_view()));
                assert(as_map(rest).union_prefer_right(as_map(entries@)) =~= as_map(
                    rest,
                ).insert(last.0@, last.1.deep_view()).union_prefer_right(as_map(before)));
                assert forall|i: int, j: int| 0 <= i < j < entries@.len() implies text_before(
                    #[trigger] entries@[i].0@,
                    #[trigger] entries@[j].0@,
                ) by {
                    assert(entries@[i] == before[i]);
                    if j < before.len() {
                        assert(entries@[j] == before[j]);
                    } else {
                        assert(text_before(before[i].0@, last.0@) || text_before(
                            last.0@,
                            before[i].0@,
                        ));
                        lemma_text_before_total(before[i].0@, last.0@);
                    }
                }
                assert forall|i: int, j: int|
                    0 <= i < entries@.len() && 0 <= j < rest.len() implies text_before(
                    #[trigger] entries@[i].0@,
                    #[trigger] rest[j].0@,
                ) by {
                    assert(text_before(last.0@, rest[j].0@));
                    if i < before.len() {
                        assert(entries@[i] == before[i]);
                    }
                }
            }
        }
    }
    assert(as_map(backwards@).union_prefer_right(as_map(entries@)) =~= as_map(entries@));
    entries
}

/// What the loop of a merge keeps.
spec fn merging<V: DeepView>(
    left: Seq<(String, V)>,
    right: Seq<(String, V)>,
    above: Seq<(String, V)>,
    goal: Map<Seq<char>, V::V>,
) -> bool {
    &&& ascending(left)
    &&& ascending(right)
    &&& descending(above)
    &&& below(left, above)
    &&& below(right, above)
    &&& as_map(left).union_prefer_right(as_map(right)).union_prefer_right(as_map(above)) == goal
}

/// The last entry of one side, above all of the other, goes on top.
proof fn lemma_merge_take<V: DeepView>(
    taken: Seq<(String, V)>,
    other: Seq<(String, V)>,
    above: Seq<(String, V)>,
)
    requires
        ascending(taken),
        taken.len() > 0,
        descending(above),
        below(taken, above),
        below(other, above),
        forall|i: int|
            0 <= i < other.len() ==> text_before((#[trigger] other[i]).0@, taken.last().0@),
    ensures
        ascending(taken.drop_last()),
        descending(above.push(taken.last())),
        below(taken.drop_last(), above.push(taken.last())),
        below(other, above.push(taken.last())),
        !as_map(other).contains_key(taken.last().0@),
        !as_map(above).contains_key(taken.last().0@),
        as_map(taken) == as_map(taken.drop_last()).insert(
            taken.last().0@,
            taken.last().1.deep_view(),
        ),
        as_map(above.push(taken.last())) == as_map(above).insert(
            taken.last().0@,
            taken.last().1.deep_view(),
        ),
{
    let last = taken.last();
    let rest = taken.drop_last();
    let higher = above.push(last);
    lemma_pop_ascending(taken);
    assert(last == taken[taken.len() - 1]);
    assert(higher.drop_last() =~= above);
    assert forall|i: int, j: int| 0 <= i < j < higher.len() implies text_before(
        #[trigger] higher[j].0@,
        #[trigger] higher[i].0@,
    ) by {
        assert(higher[i] == above[i]);
        if j < above.len() {
            assert(higher[j] == above[j]);
        } else {
            assert(text_before(taken[taken.len() - 1].0@, above[i].0@));
        }
    }
    assert forall|i: int, j: int| 0 <= i < rest.len() && 0 <= j < higher.len() implies text_before(
        #[trigger] rest[i].0@,
        #[trigger] higher[j].0@,
    ) by {
        assert(rest[i] == taken[i]);
        if j < above.len() {
            assert(higher[j] == above[j]);
        }
    }
    assert forall|i: int, j: int| 0 <= i < other.len() && 0 <= j < higher.len() implies text_before(
        #[trigger] other[i].0@,
        #[trigger] higher[j].0@,
    ) by {
        if j < above.len() {
            assert(higher[j] == above[j]);
        }
    }
    lemma_above_absent(other, last.0@);
    assert forall|i: int| 0 <= i < above.len() implies text_before(
        (#[trigger] above[i]).0@,
        last.0@,
    ) || text_before(last.0@, above[i].0@) by {
        assert(text_before(taken[taken.len() - 1].0@, above[i].0@));
    }
    lemma_above_absent(above, last.0@);
}

impl<V: DeepView> StringMap<V> {
    /// Both maps in one; where a key is in both, the right value stays.
    pub fn merged(left: Self, right: Self) -> (map: Self)
        ensures
            map.deep_view() == left.deep_view().union_prefer_right(right.deep_view()),
    {
        proof {
            use_type_invariant(&left);
            use_type_invariant(&right);
        }
        let ghost goal = left.deep_view().union_prefer_right(right.deep_view());
        let mut a = left.entries;
        let mut b = right.entries;
        let mut above: Vec<(String, V)> = Vec::new();
        assert(goal.union_prefer_right(as_map(above@)) =~= goal);
        while a.len() > 0 || b.len() > 0
            invariant
                merging(a@, b@, above@, goal),
            decreases a@.len() + b@.len(),
        {
            let from_left = if b.len() == 0 {
                Order::After
            } else if a.len() == 0 {
                Order::Before
            } else {
                order(a[a.len() - 1].0.as_str(), b[b.len() - 1].0.as_str())
            };
            let ghost top = above@;
            let ghost before_a = a@;
            let ghost before_b = b@;
            proof {
                if a@.len() > 0 {
                    lemma_pop_ascending(a@);
                }
                if b@.len() > 0 {
                    lemma_pop_ascending(b@);
                }
            }
            match from_left {
                Order::After => {
                    proof {
                        assert forall|i: int| 0 <= i < b@.len() implies text_before(
                            (#[trigger] b@[i]).0@,
                            a@.last().0@,
                        ) by {
                            if i < b@.len() - 1 {
                                lemma_text_before_transitive(b@[i].0@, b@.last().0@, a@.last().0@);
                            }
                        }
                        lemma_merge_take(a@, b@, above@);
                    }
                    if let Some(entry) = a.pop() {
                        above.push(entry);
                    }
                    assert(as_map(a@).union_prefer_right(as_map(b@)).union_prefer_right(
                        as_map(above@),
                    ) =~= as_map(before_a).union_prefer_right(as_map(b@)).union_prefer_right(
                        as_map(top),
                    ));
                },
                Order::Before => {
                    proof {
                        assert forall|i: int| 0 <= i < a@.len() implies text_before(
                            (#[trigger] a@[i]).0@,
                            b@.last().0@,
                        ) by {
                            if i < a@.len() - 1 {
                                lemma_text_before_transitive(a@[i].0@, a@.last().0@, b@.last().0@);
                            }
                        }
                        lemma_merge_take(b@, a@, above@);
                    }
                    if let Some(entry) = b.pop() {
                        above.push(entry);
                    }
                    assert(as_map(a@).union_prefer_right(as_map(b@)).union_prefer_right(
                        as_map(above@),
                    ) =~= as_map(a@).union_prefer_right(as_map(before_b)).union_prefer_right(
                        as_map(top),
                    ));
                },
                Order::Same => {
                    proof {
                        let key = a@.last().0@;
                        assert(as_map(b@).contains_key(key));
                        assert(as_map(a@) == as_map(a@.drop_last()).insert(
                            key,
                            a@.last().1.deep_view(),
                        ));
                        assert(as_map(a@.drop_last()).union_prefer_right(
                            as_map(b@),
                        ).union_prefer_right(as_map(above@)) =~= as_map(a@).union_prefer_right(
                            as_map(b@),
                        ).union_prefer_right(as_map(above@)));
                        assert(below(a@.drop_last(), above@)) by {
                            assert forall|i: int, j: int|
                                0 <= i < a@.drop_last().len() && 0 <= j
                                    < above@.len() implies text_before(
                                #[trigger] a@.drop_last()[i].0@,
                                #[trigger] above@[j].0@,
                            ) by {
                                assert(a@.drop_last()[i] == a@[i]);
                            }
                        }
                    }
                    let _ = a.pop();
                },
            }
        }
        assert(as_map(a@).union_prefer_right(as_map(b@)).union_prefer_right(as_map(above@))
            =~= as_map(above@));
        StringMap { entries: ascending_entries(above) }
    }
}

impl<V: Modelled> Modelled for StringMap<V> {
    fn same(&self, other: &Self) -> (same: bool) {
        proof {
            use_type_invariant(self);
            use_type_invariant(other);
            lemma_as_map(self.entries@);
            lemma_as_map(other.entries@);
        }
        if self.entries.len() != other.entries.len() {
            return false;
        }
        let mut i: usize = 0;
        while i < self.entries.len()
            invariant
                ascending(self.entries@),
                ascending(other.entries@),
                self.entries@.len() == other.entries@.len(),
                i <= self.entries@.len(),
                forall|j: int|
                    0 <= j < i ==> (#[trigger] self.entries@[j]).0@ == other.entries@[j].0@
                        && self.entries@[j].1.deep_view() == other.entries@[j].1.deep_view(),
            decreases self.entries@.len() - i,
        {
            let mine = &self.entries[i];
            let theirs = &other.entries[i];
            if mine.0 != theirs.0 || !mine.1.same(&theirs.1) {
                proof {
                    if self.deep_view() == other.deep_view() {
                        lemma_same_map(self.entries@, other.entries@, i + 1);
                        assert(self.entries@[i as int].0@ == other.entries@[i as int].0@);
                    }
                }
                return false;
            }
            i += 1;
        }
        proof {
            lemma_equal_entries(self.entries@, other.entries@);
        }
        true
    }

    fn duplicate(&self) -> (copy: Self) {
        proof {
            use_type_invariant(self);
        }
        let mut entries: Vec<(String, V)> = Vec::new();
        let mut i: usize = 0;
        while i < self.entries.len()
            invariant
                i <= self.entries@.len(),
                entries@.len() == i,
                forall|j: int|
                    0 <= j < i ==> (#[trigger] entries@[j]).0@ == self.entries@[j].0@
                        && entries@[j].1.deep_view() == self.entries@[j].1.deep_view(),
            decreases self.entries@.len() - i,
        {
            let entry = &self.entries[i];
            entries.push((entry.0.clone(), entry.1.duplicate()));
            i += 1;
        }
        proof {
            lemma_equal_entries(entries@, self.entries@);
            assert forall|i: int, j: int| 0 <= i < j < entries@.len() implies text_before(
                #[trigger] entries@[i].0@,
                #[trigger] entries@[j].0@,
            ) by {
                assert(entries@[i].0@ == self.entries@[i].0@);
                assert(entries@[j].0@ == self.entries@[j].0@);
            }
        }
        StringMap { entries }
    }
}

impl<V: Modelled> Clone for StringMap<V> {
    fn clone(&self) -> (copy: Self)
        ensures
            copy.deep_view() == self.deep_view(),
    {
        self.duplicate()
    }
}

proof fn lemma_equal_entries<V: DeepView>(left: Seq<(String, V)>, right: Seq<(String, V)>)
    requires
        left.len() == right.len(),
        forall|i: int|
            0 <= i < left.len() ==> (#[trigger] left[i]).0@ == right[i].0@ && left[i].1.deep_view()
                == right[i].1.deep_view(),
    ensures
        as_map(left) == as_map(right),
    decreases left.len(),
{
    if left.len() > 0 {
        assert(left.last() == left[left.len() - 1]);
        assert forall|i: int| 0 <= i < left.drop_last().len() implies (
        #[trigger] left.drop_last()[i]).0@ == right.drop_last()[i].0@
            && left.drop_last()[i].1.deep_view() == right.drop_last()[i].1.deep_view() by {
            assert(left[i] == left.drop_last()[i]);
        }
        lemma_equal_entries(left.drop_last(), right.drop_last());
    }
}

} // verus!
