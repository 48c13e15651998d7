//! An ordered map from names to values, kept as a vector sorted by name. The
//! index of device names is one, with the handle of a node as the value; a
//! sorted set of names is another, with nothing as the value.

use crate::text::lemma_name_lt_irreflexive;
use crate::text::lemma_name_lt_total;
use crate::text::lemma_name_lt_transitive;
use crate::text::name_lt;
use crate::text::name_order;
use crate::text::texts_view;
use crate::text::NameOrder;
use vstd::prelude::*;

verus! {

/// One entry of the index, as the contracts see it.
pub type Pair<V> = (Seq<char>, V);

/// The names come in strictly rising order.
pub open spec fn sorted<V>(pairs: Seq<Pair<V>>) -> bool {
    forall|i: int, j: int| 0 <= i < j < pairs.len() ==> name_lt(pairs[i].0, pairs[j].0)
}

/// The entry at `i` bears the name `name`.
pub open spec fn named_at<V>(pairs: Seq<Pair<V>>, name: Seq<char>, i: int) -> bool {
    0 <= i < pairs.len() && pairs[i].0 == name
}

/// The map that a sequence of entries stands for.
pub open spec fn map_of<V>(pairs: Seq<Pair<V>>) -> Map<Seq<char>, V> {
    Map::new(
        |name: Seq<char>| exists|i: int| named_at(pairs, name, i),
        |name: Seq<char>| pairs[choose|i: int| named_at(pairs, name, i)].1,
    )
}

/// In a sorted sequence each name stands once, so each entry is what the
/// map holds under its name.
pub proof fn lemma_map_of_entry<V>(pairs: Seq<Pair<V>>, i: int)
    requires
        sorted(pairs),
        0 <= i < pairs.len(),
    ensures
        map_of(pairs).contains_key(pairs[i].0),
        map_of(pairs)[pairs[i].0] == pairs[i].1,
{
    let name = pairs[i].0;
    assert(named_at(pairs, name, i));
    let j = choose|j: int| named_at(pairs, name, j);
    lemma_name_lt_irreflexive(name);
    assert(i == j);
}

/// A name that the map holds stands at some place of the sequence.
pub proof fn lemma_map_of_key<V>(pairs: Seq<Pair<V>>, name: Seq<char>) -> (i: int)
    requires
        sorted(pairs),
        map_of(pairs).contains_key(name),
    ensures
        named_at(pairs, name, i),
        map_of(pairs)[name] == pairs[i].1,
{
    let i = choose|i: int| named_at(pairs, name, i);
    lemma_map_of_entry(pairs, i);
    i
}

/// The map of a sequence is finite.
pub proof fn lemma_map_of_finite<V>(pairs: Seq<Pair<V>>)
    ensures
        map_of(pairs).dom().finite(),
    decreases pairs.len(),
{
    if pairs.len() == 0 {
        assert(map_of(pairs).dom() =~= Set::<Seq<char>>::empty());
    } else {
        let front = pairs.drop_last();
        lemma_map_of_finite(front);
        assert forall|name: Seq<char>| #[trigger]
            map_of(pairs).dom().contains(name) <==> map_of(front).dom().insert(
                pairs.last().0,
            ).contains(name) by {
            if map_of(pairs).dom().contains(name) {
                let i = choose|i: int| named_at(pairs, name, i);
                if i < front.len() {
                    assert(named_at(front, name, i));
                }
            }
            if map_of(front).dom().contains(name) {
                let i = choose|i: int| named_at(front, name, i);
                assert(named_at(pairs, name, i));
            }
            if name == pairs.last().0 {
                assert(named_at(pairs, name, pairs.len() - 1));
            }
        }
        assert(map_of(pairs).dom() =~= map_of(front).dom().insert(pairs.last().0));
    }
}

/// A sorted sequence has as many entries as its map has names.
pub proof fn lemma_map_of_len<V>(pairs: Seq<Pair<V>>)
    requires
        sorted(pairs),
    ensures
        map_of(pairs).dom().finite(),
        map_of(pairs).dom().len() == pairs.len(),
    decreases pairs.len(),
{
    lemma_map_of_finite(pairs);
    if pairs.len() == 0 {
        assert(map_of(pairs).dom() =~= Set::<Seq<char>>::empty());
    } else {
        let front = pairs.drop_last();
        lemma_map_of_len(front);
        let last = pairs.last().0;
        assert forall|name: Seq<char>| #[trigger]
            map_of(pairs).dom().contains(name) <==> map_of(front).dom().insert(last).contains(
                name,
            ) by {
            if map_of(pairs).dom().contains(name) {
                let i = choose|i: int| named_at(pairs, name, i);
                if i < front.len() {
                    assert(named_at(front, name, i));
                }
            }
            if map_of(front).dom().contains(name) {
                let i = choose|i: int| named_at(front, name, i);
                assert(named_at(pairs, name, i));
            }
            if name == last {
                assert(named_at(pairs, name, pairs.len() - 1));
            }
        }
        assert(map_of(pairs).dom() =~= map_of(front).dom().insert(last));
        if map_of(front).dom().contains(last) {
            let i = choose|i: int| named_at(front, last, i);
            lemma_name_lt_irreflexive(last);
            assert(name_lt(pairs[i].0, pairs[pairs.len() - 1].0));
        }
    }
}

/// The names come in strictly rising order.
pub open spec fn rising(names: Seq<Seq<char>>) -> bool {
    forall|i: int, j: int| 0 <= i < j < names.len() ==> name_lt(names[i], names[j])
}

/// A rising list is fixed by what it holds: two rising lists with the same
/// names are one list.
pub proof fn lemma_rising_unique(a: Seq<Seq<char>>, b: Seq<Seq<char>>)
    requires
        rising(a),
        rising(b),
        forall|name: Seq<char>| a.contains(name) <==> b.contains(name),
    ensures
        a == b,
    decreases a.len(),
{
    if a.len() == 0 {
        if b.len() > 0 {
            assert(b.contains(b[0]));
        }
        assert(a =~= b);
    } else {
        assert(a.contains(a[0]));
        let j = choose|j: int| 0 <= j < b.len() && b[j] == a[0];
        assert(b.contains(b[0]));
        let i = choose|i: int| 0 <= i < a.len() && a[i] == b[0];
        lemma_name_lt_total(a[0], b[0]);
        if i > 0 && j > 0 {
            lemma_name_lt_transitive(a[0], a[i], b[j]);
            lemma_name_lt_irreflexive(a[0]);
        }
        assert(a[0] == b[0]);
        let x = a.drop_first();
        let y = b.drop_first();
        assert forall|name: Seq<char>| x.contains(name) <==> y.contains(name) by {
            if x.contains(name) {
                let k = choose|k: int| 0 <= k < x.len() && x[k] == name;
                assert(a[k + 1] == name);
                assert(a.contains(name));
                let m = choose|m: int| 0 <= m < b.len() && b[m] == name;
                lemma_name_lt_irreflexive(name);
                assert(name_lt(a[0], a[k + 1]));
                assert(m > 0);
                assert(y[m - 1] == name);
            }
            if y.contains(name) {
                let k = choose|k: int| 0 <= k < y.len() && y[k] == name;
                assert(b[k + 1] == name);
                assert(b.contains(name));
                let m = choose|m: int| 0 <= m < a.len() && a[m] == name;
                lemma_name_lt_irreflexive(name);
                assert(name_lt(b[0], b[k + 1]));
                assert(m > 0);
                assert(x[m - 1] == name);
            }
        }
        assert forall|p: int, q: int| 0 <= p < q < x.len() implies name_lt(x[p], x[q]) by {
            assert(name_lt(a[p + 1], a[q + 1]));
        }
        assert forall|p: int, q: int| 0 <= p < q < y.len() implies name_lt(y[p], y[q]) by {
            assert(name_lt(b[p + 1], b[q + 1]));
        }
        lemma_rising_unique(x, y);
        assert(a =~= seq![a[0]] + x);
        assert(b =~= seq![b[0]] + y);
    }
}

/// A map from names to values, in the order of the names.
pub struct NameIndex<V> {
    entries: Vec<(String, V)>,
}

impl<V: Copy> NameIndex<V> {
    /// The entries, in the order of their names.
    pub closed spec fn pairs(&self) -> Seq<Pair<V>> {
        Seq::new(self.entries@.len(), |i: int| (self.entries@[i].0@, self.entries@[i].1))
    }

    /// The entries are sorted by name, each name standing once.
    pub open spec fn wf(&self) -> bool {
        sorted(self.pairs())
    }

    /// An index without entries.
    pub fn new() -> (r: Self)
        ensures
            r.wf(),
            r.pairs() == Seq::<Pair<V>>::empty(),
            r@ == Map::<Seq<char>, V>::empty(),
    {
        let r = NameIndex { entries: Vec::new() };
        assert(r.pairs() =~= Seq::<Pair<V>>::empty());
        assert(r@ =~= Map::<Seq<char>, V>::empty());
        r
    }

    /// The number of entries.
    pub fn len(&self) -> (n: usize)
        ensures
            n == self.pairs().len(),
    {
        self.entries.len()
    }

    /// The name of the entry at `i`.
    pub fn name_at(&self, i: usize) -> (name: &String)
        requires
            i < self.pairs().len(),
        ensures
            name@ == self.pairs()[i as int].0,
    {
        &self.entries[i].0
    }

    /// The value of the entry at `i`.
    pub fn block_at(&self, i: usize) -> (dev: V)
        requires
            i < self.pairs().len(),
        ensures
            dev == self.pairs()[i as int].1,
    {
        self.entries[i].1
    }

    /// Where `name` stands, or where it would: all names below the place
    /// come before `name`, and those from it on come after, but for the
    /// entry at the place itself where `name` was found.
    fn find(&self, name: &str) -> (r: (bool, usize))
        requires
            self.wf(),
        ensures
            r.1 <= self.pairs().len(),
            forall|i: int| 0 <= i < r.1 ==> name_lt(self.pairs()[i].0, name@),
            r.0 ==> named_at(self.pairs(), name@, r.1 as int),
            forall|i: int|
                r.1 + (if r.0 { 1int } else { 0int }) <= i < self.pairs().len() ==> name_lt(
                    name@,
                    self.pairs()[i].0,
                ),
    {
        let mut lo: usize = 0;
        let mut hi: usize = self.entries.len();
        while lo < hi
            invariant
                self.wf(),
                lo <= hi <= self.pairs().len(),
                self.pairs().len() == self.entries@.len(),
                forall|i: int| 0 <= i < lo ==> name_lt(self.pairs()[i].0, name@),
                forall|i: int| hi <= i < self.pairs().len() ==> name_lt(name@, self.pairs()[i].0),
            decreases hi - lo,
        {
            let mid: usize = lo + (hi - lo) / 2;
            let ghost here = self.pairs()[mid as int].0;
            match name_order(self.entries[mid].0.as_str(), name) {
                NameOrder::Before => {
                    assert forall|i: int| 0 <= i < mid + 1 implies name_lt(
                        self.pairs()[i].0,
                        name@,
                    ) by {
                        if i < mid {
                            lemma_name_lt_transitive(self.pairs()[i].0, here, name@);
                        }
                    }
                    lo = mid + 1;
                },
                NameOrder::After => {
                    assert forall|i: int| mid <= i < self.pairs().len() implies name_lt(
                        name@,
                        self.pairs()[i].0,
                    ) by {
                        if mid < i {
                            lemma_name_lt_transitive(name@, here, self.pairs()[i].0);
                        }
                    }
                    hi = mid;
                },
                NameOrder::Same => {
                    return (true, mid);
                },
            }
        }
        (false, lo)
    }

    /// The value that stands under `name`.
    pub fn get(&self, name: &str) -> (r: Option<V>)
        requires
            self.wf(),
        ensures
            r == (if self@.contains_key(name@) {
                Some(self@[name@])
            } else {
                None
            }),
    {
        let (found, at) = self.find(name);
        if found {
            proof {
                lemma_map_of_entry(self.pairs(), at as int);
            }
            Some(self.entries[at].1)
        } else {
            proof {
                if self@.contains_key(name@) {
                    let i = lemma_map_of_key(self.pairs(), name@);
                    lemma_name_lt_irreflexive(name@);
                }
            }
            None
        }
    }

    /// Puts `dev` under `name`, in place of what stood there.
    pub fn insert(&mut self, name: String, dev: V)
        requires
            old(self).wf(),
        ensures
            final(self).wf(),
            final(self)@ == old(self)@.insert(name@, dev),
    {
        let (found, at) = self.find(name.as_str());
        let ghost before = self.pairs();
        let ghost key = name@;
        if found {
            self.entries[at] = (name, dev);
            let ghost after = self.pairs();
            proof {
                assert(after =~= before.update(at as int, (key, dev)));
                assert forall|k: Seq<char>| #[trigger]
                    map_of(after).contains_key(k) <==> map_of(before).insert(
                        key,
                        dev,
                    ).contains_key(k) by {
                    if map_of(after).contains_key(k) {
                        let i = choose|i: int| named_at(after, k, i);
                        assert(named_at(before, k, i));
                    }
                    if map_of(before).contains_key(k) {
                        let i = choose|i: int| named_at(before, k, i);
                        assert(named_at(after, k, i));
                    }
                    if k == key {
                        assert(named_at(after, k, at as int));
                    }
                }
                assert forall|k: Seq<char>| #[trigger]
                    map_of(after).contains_key(k) implies map_of(after)[k] == map_of(
                    before,
                ).insert(key, dev)[k] by {
                    let i = lemma_map_of_key(after, k);
                    if i != at {
                        lemma_map_of_entry(before, i);
                    }
                }
                assert(map_of(after) =~= map_of(before).insert(key, dev));
            }
        } else {
            self.entries.insert(at, (name, dev));
            let ghost after = self.pairs();
            proof {
                assert(after =~= before.insert(at as int, (key, dev)));
                assert forall|i: int, j: int| 0 <= i < j < after.len() implies name_lt(
                    after[i].0,
                    after[j].0,
                ) by {
                    if j < at {
                    } else if j == at {
                    } else if i < at {
                        lemma_name_lt_transitive(after[i].0, key, after[j].0);
                    } else if i == at {
                    } else {
                    }
                }
                assert forall|k: Seq<char>| #[trigger]
                    map_of(after).contains_key(k) <==> map_of(before).insert(
                        key,
                        dev,
                    ).contains_key(k) by {
                    if map_of(after).contains_key(k) {
                        let i = choose|i: int| named_at(after, k, i);
                        if i < at {
                            assert(named_at(before, k, i));
                        } else if i > at {
                            assert(named_at(before, k, i - 1));
                        }
                    }
                    if map_of(before).contains_key(k) {
                        let i = choose|i: int| named_at(before, k, i);
                        if i < at {
                            assert(named_at(after, k, i));
                        } else {
                            assert(named_at(after, k, i + 1));
                        }
                    }
                    if k == key {
                        assert(named_at(after, k, at as int));
                    }
                }
                assert forall|k: Seq<char>| #[trigger]
                    map_of(after).contains_key(k) implies map_of(after)[k] == map_of(
                    before,
                ).insert(key, dev)[k] by {
                    let i = lemma_map_of_key(after, k);
                    if i < at {
                        lemma_map_of_entry(before, i);
                    } else if i > at {
                        lemma_map_of_entry(before, i - 1);
                    }
                }
                assert(map_of(after) =~= map_of(before).insert(key, dev));
            }
        }
    }

    /// The names, in their order.
    pub closed spec fn names(&self) -> Seq<Seq<char>> {
        Seq::new(self.pairs().len(), |i: int| self.pairs()[i].0)
    }

    /// The names rise strictly, each is a name of the map with the value
    /// of its entry, and the map holds no other name.
    pub proof fn lemma_names(&self)
        requires
            self.wf(),
        ensures
            self.names().len() == self.pairs().len(),
            rising(self.names()),
            forall|i: int|
                0 <= i < self.names().len() ==> self@.contains_key(#[trigger] self.names()[i])
                    && self@[self.names()[i]] == self.pairs()[i].1 && self.names()[i]
                    == self.pairs()[i].0,
            forall|name: Seq<char>| self@.contains_key(name) ==> self.names().contains(name),
    {
        assert forall|i: int| 0 <= i < self.names().len() implies self@.contains_key(
            #[trigger] self.names()[i],
        ) && self@[self.names()[i]] == self.pairs()[i].1 && self.names()[i]
            == self.pairs()[i].0 by {
            lemma_map_of_entry(self.pairs(), i);
        }
        assert forall|name: Seq<char>| self@.contains_key(name) implies self.names().contains(
            name,
        ) by {
            let k = choose|k: int| named_at(self.pairs(), name, k);
            assert(self.names()[k] == name);
        }
    }

    /// The names, in their order: they rise strictly, and they are the
    /// names that the map holds.
    pub fn to_names(&self) -> (r: Vec<String>)
        requires
            self.wf(),
        ensures
            texts_view(r@) == self.names(),
            rising(self.names()),
            forall|name: Seq<char>| self.names().contains(name) <==> self@.contains_key(name),
    {
        let mut r: Vec<String> = Vec::new();
        let mut i: usize = 0;
        while i < self.entries.len()
            invariant
                i <= self.entries@.len(),
                self.entries@.len() == self.pairs().len(),
                texts_view(r@) == self.names().take(i as int),
            decreases self.entries@.len() - i,
        {
            let ghost before = texts_view(r@);
            r.push(self.entries[i].0.clone());
            assert(texts_view(r@) =~= before.push(self.pairs()[i as int].0));
            assert(self.names().take(i + 1) =~= self.names().take(i as int).push(
                self.pairs()[i as int].0,
            ));
            i += 1;
        }
        proof {
            assert(self.names().take(i as int) =~= self.names());
            assert forall|name: Seq<char>| self.names().contains(name) <==> self@.contains_key(
                name,
            ) by {
                if self.names().contains(name) {
                    let k = choose|k: int| 0 <= k < self.names().len() && self.names()[k] == name;
                    assert(named_at(self.pairs(), name, k));
                }
                if self@.contains_key(name) {
                    let k = choose|k: int| named_at(self.pairs(), name, k);
                    assert(self.names()[k] == name);
                }
            }
        }
        r
    }

    /// Takes every entry out.
    pub fn clear(&mut self)
        ensures
            final(self).wf(),
            final(self)@ == Map::<Seq<char>, V>::empty(),
            final(self).pairs() == Seq::<Pair<V>>::empty(),
    {
        self.entries.clear();
        assert(self.pairs() =~= Seq::<Pair<V>>::empty());
        assert(self@ =~= Map::<Seq<char>, V>::empty());
    }
}

impl<V: Copy> View for NameIndex<V> {
    type V = Map<Seq<char>, V>;

    open spec fn view(&self) -> Map<Seq<char>, V> {
        map_of(self.pairs())
    }
}

} // verus!
