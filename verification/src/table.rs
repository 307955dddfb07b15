//! Values under texts, in the order in which the texts were first entered.
use vstd::prelude::*;

verus! {

/// The values under the texts of a list of pairs. Of two pairs with the same text the later counts.
pub open spec fn pairs_map<V>(pairs: Seq<(String, V)>) -> Map<Seq<char>, V>
    decreases pairs.len(),
{
    if pairs.len() == 0 {
        Map::empty()
    } else {
        pairs_map(pairs.drop_last()).insert(pairs.last().0@, pairs.last().1)
    }
}

/// Whether no text occurs twice.
pub open spec fn distinct<V>(pairs: Seq<(String, V)>) -> bool {
    forall|i: int, j: int| 0 <= i < j < pairs.len() ==> pairs[i].0@ != pairs[j].0@
}

/// What is in the map of a list of pairs.
proof fn lemma_pairs_map<V>(pairs: Seq<(String, V)>)
    requires
        distinct(pairs),
    ensures
        forall|i: int|
            0 <= i < pairs.len() ==> pairs_map(pairs).contains_key((#[trigger] pairs[i]).0@)
                && pairs_map(pairs)[pairs[i].0@] == pairs[i].1,
        forall|k: Seq<char>| #[trigger]
            pairs_map(pairs).contains_key(k) ==> exists|i: int|
                0 <= i < pairs.len() && (#[trigger] pairs[i]).0@ == k,
        pairs_map(pairs).dom().finite(),
        pairs_map(pairs).len() == pairs.len(),
    decreases pairs.len(),
{
    if pairs.len() > 0 {
        let init = pairs.drop_last();
        assert(distinct(init)) by {
            assert forall|i: int, j: int| 0 <= i < j < init.len() implies init[i].0@ != init[j].0@ by {
                assert(init[i] == pairs[i] && init[j] == pairs[j]);
            }
        }
        lemma_pairs_map(init);
        let last = pairs.last().0@;
        assert(!pairs_map(init).contains_key(last)) by {
            if pairs_map(init).contains_key(last) {
                let i = choose|i: int| 0 <= i < init.len() && (#[trigger] init[i]).0@ == last;
                assert(pairs[i].0@ != pairs[pairs.len() - 1].0@);
            }
        }
        assert forall|i: int| 0 <= i < pairs.len() implies pairs_map(pairs).contains_key(
            (#[trigger] pairs[i]).0@,
        ) && pairs_map(pairs)[pairs[i].0@] == pairs[i].1 by {
            if i < init.len() {
                assert(init[i] == pairs[i]);
                assert(pairs[i].0@ != pairs[pairs.len() - 1].0@);
            }
        }
        assert forall|k: Seq<char>| #[trigger] pairs_map(pairs).contains_key(k) implies exists|i: int|
            0 <= i < pairs.len() && (#[trigger] pairs[i]).0@ == k by {
            if k == last {
                assert(pairs[pairs.len() - 1].0@ == k);
            } else {
                let i = choose|i: int| 0 <= i < init.len() && (#[trigger] init[i]).0@ == k;
                assert(pairs[i].0@ == k);
            }
        }
        assert(pairs_map(pairs).dom() =~= pairs_map(init).dom().insert(last));
    }
}

/// Two maps made of distinct pairs are equal where each pair of one is in the other.
proof fn lemma_same_pairs<V>(pairs: Seq<(String, V)>, map: Map<Seq<char>, V>)
    requires
        distinct(pairs),
        forall|i: int|
            0 <= i < pairs.len() ==> map.contains_key((#[trigger] pairs[i]).0@) && map[pairs[i].0@]
                == pairs[i].1,
        forall|k: Seq<char>| #[trigger]
            map.contains_key(k) ==> exists|i: int|
                0 <= i < pairs.len() && (#[trigger] pairs[i]).0@ == k,
    ensures
        pairs_map(pairs) == map,
{
    lemma_pairs_map(pairs);
    assert(pairs_map(pairs) =~= map) by {
        assert forall|k: Seq<char>| #[trigger] map.contains_key(k) implies pairs_map(
            pairs,
        ).contains_key(k) && pairs_map(pairs)[k] == map[k] by {
            let i = choose|i: int| 0 <= i < pairs.len() && (#[trigger] pairs[i]).0@ == k;
            assert(pairs[i].0@ == k);
        }
        assert forall|k: Seq<char>| #[trigger] pairs_map(pairs).contains_key(k) implies map.contains_key(
            k,
        ) by {
            let i = choose|i: int| 0 <= i < pairs.len() && (#[trigger] pairs[i]).0@ == k;
            assert(map.contains_key(pairs[i].0@));
        }
    }
}

/// A table of values under texts.
#[derive(Debug)]
pub struct Table<V> {
    entries: Vec<(String, V)>,
}

impl<V> View for Table<V> {
    type V = Map<Seq<char>, V>;

    closed spec fn view(&self) -> Map<Seq<char>, V> {
        pairs_map(self.entries@)
    }
}

impl<V> Table<V> {
    /// No text is entered twice.
    #[verifier::type_invariant]
    spec fn consistent(&self) -> bool {
        distinct(self.entries@)
    }

    /// An empty table.
    pub fn new() -> (r: Table<V>)
        ensures
            r@ == Map::<Seq<char>, V>::empty(),
    {
        Table { entries: Vec::new() }
    }

    /// The index of the entry under a text, or the number of entries where there is none.
    fn find(&self, key: &String) -> (r: usize)
        ensures
            r <= self.entries@.len(),
            r < self.entries@.len() ==> self.entries@[r as int].0@ == key@,
            forall|i: int| 0 <= i < r ==> (#[trigger] self.entries@[i]).0@ != key@,
            self@.contains_key(key@) <==> r < self.entries@.len(),
            r < self.entries@.len() ==> self@[key@] == self.entries@[r as int].1,
    {
        proof {
            use_type_invariant(self);
            lemma_pairs_map(self.entries@);
        }
        let mut i: usize = 0;
        while i < self.entries.len()
            invariant
                i <= self.entries@.len(),
                forall|j: int| 0 <= j < i ==> (#[trigger] self.entries@[j]).0@ != key@,
                forall|j: int|
                    0 <= j < self.entries@.len() ==> self@.contains_key(
                        (#[trigger] self.entries@[j]).0@,
                    ) && self@[self.entries@[j].0@] == self.entries@[j].1,
            decreases self.entries@.len() - i,
        {
            if self.entries[i].0 == *key {
                return i;
            }
            i = i + 1;
        }
        i
    }

    /// The number of entries.
    pub fn len(&self) -> (r: usize)
        ensures
            r == self@.len(),
            self@.dom().finite(),
    {
        proof {
            use_type_invariant(self);
            lemma_pairs_map(self.entries@);
        }
        self.entries.len()
    }

    /// The value under a text.
    pub fn get(&self, key: &str) -> (r: Option<&V>)
        ensures
            match r {
                Some(v) => self@.contains_key(key@) && *v == self@[key@],
                None => !self@.contains_key(key@),
            },
    {
        let i = self.find(&key.to_string());
        if i < self.entries.len() {
            Some(&self.entries[i].1)
        } else {
            None
        }
    }

    /// Enters a value under a text, in place of the one that was there.
    pub fn insert(&mut self, key: String, value: V)
        ensures
            final(self)@ == old(self)@.insert(key@, value),
            old(self)@.dom().finite(),
    {
        let i = self.find(&key);
        proof {
            use_type_invariant(&*self);
            lemma_pairs_map(self.entries@);
        }
        let ghost before = self.entries@;
        let ghost map = self@.insert(key@, value);
        let mut entries: Vec<(String, V)> = Vec::new();
        std::mem::swap(&mut entries, &mut self.entries);
        let ghost pair = (key, value);
        if i < entries.len() {
            entries.set(i, (key, value));
        } else {
            entries.push((key, value));
        }
        proof {
            let now = entries@;
            assert(i < before.len() ==> now =~= before.update(i as int, pair));
            assert(i >= before.len() ==> now =~= before.push(pair));
            assert forall|a: int, b: int| 0 <= a < b < now.len() implies now[a].0@ != now[b].0@ by {
                if b < before.len() {
                    assert(before[a].0@ != before[b].0@);
                }
            }
            assert forall|a: int| 0 <= a < now.len() implies map.contains_key((#[trigger] now[a]).0@)
                && map[now[a].0@] == now[a].1 by {
                if a != i {
                    assert(now[a] == before[a]);
                    if a < i {
                        assert(before[a].0@ != pair.0@);
                    } else {
                        assert(before[i as int].0@ != before[a].0@);
                    }
                }
            }
            assert forall|k: Seq<char>| #[trigger] map.contains_key(k) implies exists|a: int|
                0 <= a < now.len() && (#[trigger] now[a]).0@ == k by {
                if k == pair.0@ {
                    assert(now[i as int].0@ == k);
                } else {
                    let a = choose|a: int| 0 <= a < before.len() && (#[trigger] before[a]).0@ == k;
                    assert(now[a].0@ == k);
                }
            }
            lemma_same_pairs(now, map);
        }
        self.entries = entries;
    }

    /// Removes the entry at an index.
    fn remove_at(&mut self, i: usize)
        requires
            i < old(self).entries@.len(),
        ensures
            final(self)@ == old(self)@.remove(old(self).entries@[i as int].0@),
    {
        proof {
            use_type_invariant(&*self);
            lemma_pairs_map(self.entries@);
        }
        let ghost before = self.entries@;
        let ghost key = before[i as int].0@;
        let ghost map = self@.remove(key);
        let mut entries: Vec<(String, V)> = Vec::new();
        std::mem::swap(&mut entries, &mut self.entries);
        let _removed = entries.remove(i);
        proof {
            let now = entries@;
            assert(now =~= before.remove(i as int));
            assert forall|a: int, b: int| 0 <= a < b < now.len() implies now[a].0@ != now[b].0@ by {
                let x = if a < i { a } else { a + 1 };
                let y = if b < i { b } else { b + 1 };
                assert(before[x].0@ != before[y].0@);
            }
            assert forall|a: int| 0 <= a < now.len() implies map.contains_key((#[trigger] now[a]).0@)
                && map[now[a].0@] == now[a].1 by {
                let x = if a < i { a } else { a + 1 };
                assert(now[a] == before[x]);
                if x < i {
                    assert(before[x].0@ != before[i as int].0@);
                } else {
                    assert(before[i as int].0@ != before[x].0@);
                }
            }
            assert forall|k: Seq<char>| #[trigger] map.contains_key(k) implies exists|a: int|
                0 <= a < now.len() && (#[trigger] now[a]).0@ == k by {
                let x = choose|x: int| 0 <= x < before.len() && (#[trigger] before[x]).0@ == k;
                let a = if x < i { x } else { x - 1 };
                assert(now[a] == before[x]);
            }
            lemma_same_pairs(now, map);
        }
        self.entries = entries;
    }

    /// Removes the value under a text, where there is one.
    pub fn remove(&mut self, key: &str)
        ensures
            final(self)@ == old(self)@.remove(key@),
            old(self)@.dom().finite(),
    {
        let i = self.find(&key.to_string());
        proof {
            use_type_invariant(&*self);
            lemma_pairs_map(self.entries@);
        }
        if i < self.entries.len() {
            self.remove_at(i);
        } else {
            assert(self@ =~= old(self)@.remove(key@));
        }
    }

    /// Removes the oldest entry that is not under `keep`.
    pub fn remove_other(&mut self, keep: &str)
        requires
            exists|k: Seq<char>| k != keep@ && #[trigger] old(self)@.contains_key(k),
        ensures
            exists|k: Seq<char>|
                k != keep@ && #[trigger] old(self)@.contains_key(k) && final(self)@ == old(
                    self,
                )@.remove(k),
    {
        proof {
            use_type_invariant(&*self);
            lemma_pairs_map(self.entries@);
        }
        let kept = keep.to_string();
        let mut i: usize = 0;
        while i < self.entries.len() && self.entries[i].0 == kept
            invariant
                i <= self.entries@.len(),
                kept@ == keep@,
                *self == *old(self),
                forall|j: int| 0 <= j < i ==> (#[trigger] self.entries@[j]).0@ == keep@,
            decreases self.entries@.len() - i,
        {
            i = i + 1;
        }
        proof {
            let k = choose|k: Seq<char>| k != keep@ && #[trigger] old(self)@.contains_key(k);
            let j = choose|j: int|
                0 <= j < self.entries@.len() && (#[trigger] self.entries@[j]).0@ == k;
            assert(self.entries@[j].0@ != keep@);
        }
        let ghost gone = self.entries@[i as int].0@;
        assert(self@.contains_key(gone));
        self.remove_at(i);
    }

    /// The texts of the table, each once, the oldest first.
    pub fn keys(&self) -> (r: Vec<String>)
        ensures
            forall|i: int| 0 <= i < r@.len() ==> self@.contains_key((#[trigger] r@[i])@),
            forall|i: int, j: int| 0 <= i < j < r@.len() ==> r@[i]@ != r@[j]@,
            forall|k: Seq<char>| #[trigger]
                self@.contains_key(k) ==> exists|i: int| 0 <= i < r@.len() && (#[trigger] r@[i])@ == k,
    {
        proof {
            use_type_invariant(self);
            lemma_pairs_map(self.entries@);
        }
        let mut out: Vec<String> = Vec::new();
        let mut i: usize = 0;
        while i < self.entries.len()
            invariant
                i <= self.entries@.len(),
                out@.len() == i,
                forall|j: int| 0 <= j < i ==> (#[trigger] out@[j])@ == self.entries@[j].0@,
            decreases self.entries@.len() - i,
        {
            out.push(self.entries[i].0.clone());
            i = i + 1;
        }
        proof {
            assert forall|j: int| 0 <= j < out@.len() implies self@.contains_key((#[trigger] out@[j])@) by {
                assert(self.entries@[j].0@ == out@[j]@);
            }
            assert forall|k: Seq<char>| #[trigger] self@.contains_key(k) implies exists|j: int|
                0 <= j < out@.len() && (#[trigger] out@[j])@ == k by {
                let j = choose|j: int|
                    0 <= j < self.entries@.len() && (#[trigger] self.entries@[j]).0@ == k;
                assert(out@[j]@ == k);
            }
        }
        out
    }
}

/// The pairs of a list are entered one by one: the last under its text, with all others as they were.
pub proof fn pairs_are_entered_one_by_one<V>(pairs: Seq<(String, V)>, last: (String, V))
    ensures
        pairs_map(Seq::<(String, V)>::empty()) == Map::<Seq<char>, V>::empty(),
        pairs_map(pairs.push(last)) == pairs_map(pairs).insert(last.0@, last.1),
{
    assert(pairs.push(last).drop_last() =~= pairs);
}

} // verus!
