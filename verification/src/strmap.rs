//! A small map from strings to strings, kept as a list of pairs with
//! pairwise distinct keys, in the order in which the keys came in.

use vstd::prelude::*;
use crate::text::str_eq;

verus! {

/// The map that a list of pairs stands for; of two pairs with one key the
/// later one counts.
pub open spec fn pairs_map<V>(pairs: Seq<(Seq<char>, V)>) -> Map<Seq<char>, V>
    decreases pairs.len(),
{
    if pairs.len() == 0 {
        Map::empty()
    } else {
        pairs_map(pairs.drop_last()).insert(pairs.last().0, pairs.last().1)
    }
}

/// No key occurs twice in the list.
pub open spec fn distinct_keys<V>(pairs: Seq<(Seq<char>, V)>) -> bool {
    forall|i: int, j: int| 0 <= i < j < pairs.len() ==> pairs[i].0 != pairs[j].0
}

/// The place of the first pair with the given key, or the length of the
/// list where there is none.
pub open spec fn key_position<V>(pairs: Seq<(Seq<char>, V)>, key: Seq<char>) -> int
    decreases pairs.len(),
{
    if pairs.len() == 0 {
        0
    } else if pairs[0].0 == key {
        0
    } else {
        1 + key_position(pairs.drop_first(), key)
    }
}

/// Whether some pair of the list has the key.
pub open spec fn has_key<V>(pairs: Seq<(Seq<char>, V)>, key: Seq<char>) -> bool {
    exists|i: int| 0 <= i < pairs.len() && (#[trigger] pairs[i]).0 == key
}

/// The list after a key got a value: the pair of the key is replaced where
/// it stands, and a new key comes last.
pub open spec fn put<V>(pairs: Seq<(Seq<char>, V)>, key: Seq<char>, value: V) -> Seq<(Seq<char>, V)> {
    if has_key(pairs, key) {
        pairs.update(key_position(pairs, key), (key, value))
    } else {
        pairs.push((key, value))
    }
}

/// The list that is left when the pairs are put into an empty list one
/// after the other: no key occurs twice in it.
pub open spec fn put_all<V>(pairs: Seq<(Seq<char>, V)>) -> Seq<(Seq<char>, V)>
    decreases pairs.len(),
{
    if pairs.len() == 0 {
        pairs
    } else {
        put(put_all(pairs.drop_last()), pairs.last().0, pairs.last().1)
    }
}

/// The views of a list of owned pairs.
pub open spec fn pair_views(entries: Seq<(String, String)>) -> Seq<(Seq<char>, Seq<char>)> {
    entries.map_values(|e: (String, String)| (e.0@, e.1@))
}

/// A key is in the map of a list exactly if some pair has it.
pub proof fn lemma_pairs_map_dom<V>(pairs: Seq<(Seq<char>, V)>, key: Seq<char>)
    ensures
        pairs_map(pairs).contains_key(key) <==> exists|i: int|
            0 <= i < pairs.len() && (#[trigger] pairs[i]).0 == key,
    decreases pairs.len(),
{
    if pairs.len() > 0 {
        lemma_pairs_map_dom(pairs.drop_last(), key);
        if pairs_map(pairs).contains_key(key) {
            if pairs.last().0 == key {
                assert(pairs[pairs.len() - 1].0 == key);
            } else {
                let i = choose|i: int|
                    0 <= i < pairs.drop_last().len() && (#[trigger] pairs.drop_last()[i]).0 == key;
                assert(pairs[i].0 == key);
            }
        }
        if exists|i: int| 0 <= i < pairs.len() && (#[trigger] pairs[i]).0 == key {
            let i = choose|i: int| 0 <= i < pairs.len() && (#[trigger] pairs[i]).0 == key;
            if i < pairs.len() - 1 {
                assert(pairs.drop_last()[i].0 == key);
            }
        }
    }
}

/// In a list without a repeated key, each pair gives the value of its key.
pub proof fn lemma_pairs_map_value<V>(pairs: Seq<(Seq<char>, V)>, i: int)
    requires
        distinct_keys(pairs),
        0 <= i < pairs.len(),
    ensures
        pairs_map(pairs).contains_key(pairs[i].0),
        pairs_map(pairs)[pairs[i].0] == pairs[i].1,
    decreases pairs.len(),
{
    if i < pairs.len() - 1 {
        assert(distinct_keys(pairs.drop_last())) by {
            assert forall|a: int, b: int| 0 <= a < b < pairs.drop_last().len() implies pairs.drop_last()[a].0
                != pairs.drop_last()[b].0 by {
                assert(pairs[a].0 != pairs[b].0);
            }
        }
        lemma_pairs_map_value(pairs.drop_last(), i);
        assert(pairs.drop_last()[i] == pairs[i]);
        assert(pairs[i].0 != pairs[pairs.len() - 1].0);
    }
}

/// A list without a repeated key has as many pairs as its map has keys.
pub proof fn lemma_pairs_map_len<V>(pairs: Seq<(Seq<char>, V)>)
    requires
        distinct_keys(pairs),
    ensures
        pairs_map(pairs).dom().finite(),
        pairs_map(pairs).dom().len() == pairs.len(),
    decreases pairs.len(),
{
    if pairs.len() > 0 {
        let front = pairs.drop_last();
        assert(distinct_keys(front)) by {
            assert forall|a: int, b: int| 0 <= a < b < front.len() implies front[a].0
                != front[b].0 by {
                assert(pairs[a].0 != pairs[b].0);
            }
        }
        lemma_pairs_map_len(front);
        lemma_pairs_map_dom(front, pairs.last().0);
        if pairs_map(front).contains_key(pairs.last().0) {
            let i = choose|i: int| 0 <= i < front.len() && (#[trigger] front[i]).0 == pairs.last().0;
            assert(pairs[i].0 == pairs[pairs.len() - 1].0);
        }
        assert(pairs_map(pairs).dom() =~= pairs_map(front).dom().insert(pairs.last().0));
    } else {
        assert(pairs_map(pairs).dom() =~= Set::<Seq<char>>::empty());
    }
}

/// A map from strings to strings.
#[derive(Debug)]
pub struct StringMap {
    entries: Vec<(String, String)>,
}

impl View for StringMap {
    type V = Map<Seq<char>, Seq<char>>;

    open spec fn view(&self) -> Map<Seq<char>, Seq<char>> {
        pairs_map(self.pairs())
    }
}

impl StringMap {
    /// The pairs of the map, in the order in which their keys came in.
    pub closed spec fn pairs(&self) -> Seq<(Seq<char>, Seq<char>)> {
        pair_views(self.entries@)
    }

    #[verifier::type_invariant]
    pub closed spec fn wf(&self) -> bool {
        distinct_keys(self.pairs())
    }

    /// The map without a key.
    pub fn new() -> (r: StringMap)
        ensures
            r.pairs() == Seq::<(Seq<char>, Seq<char>)>::empty(),
            r@ == Map::<Seq<char>, Seq<char>>::empty(),
            r.wf(),
    {
        let r = StringMap { entries: Vec::new() };
        assert(r.pairs() =~= Seq::<(Seq<char>, Seq<char>)>::empty());
        r
    }

    /// The place of a key in the list of pairs, if it has one.
    fn position(&self, key: &str) -> (r: Option<usize>)
        ensures
            self.wf(),
            match r {
                Some(i) => i < self.pairs().len() && self.pairs()[i as int].0 == key@,
                None => forall|i: int| 0 <= i < self.pairs().len() ==> self.pairs()[i].0 != key@,
            },
    {
        proof {
            use_type_invariant(self);
        }
        let mut i: usize = 0;
        while i < self.entries.len()
            invariant
                i <= self.entries@.len(),
                self.wf(),
                forall|j: int| 0 <= j < i ==> self.pairs()[j].0 != key@,
            decreases self.entries@.len() - i,
        {
            if str_eq(self.entries[i].0.as_str(), key) {
                return Some(i);
            }
            i += 1;
        }
        None
    }

    /// The number of keys.
    pub fn len(&self) -> (r: usize)
        ensures
            self.wf(),
            r == self.pairs().len(),
            r == self@.dom().len(),
            self@.dom().finite(),
    {
        proof {
            use_type_invariant(self);
            lemma_pairs_map_len(self.pairs());
        }
        self.entries.len()
    }

    /// Whether the map has the key.
    pub fn contains_key(&self, key: &str) -> (r: bool)
        ensures
            r == self@.contains_key(key@),
    {
        proof {
            lemma_pairs_map_dom(self.pairs(), key@);
        }
        self.position(key).is_some()
    }

    /// The value of a key, if the map has the key.
    pub fn get(&self, key: &str) -> (r: Option<&String>)
        ensures
            match r {
                Some(v) => self@.contains_key(key@) && v@ == self@[key@],
                None => !self@.contains_key(key@),
            },
    {
        proof {
            lemma_pairs_map_dom(self.pairs(), key@);
        }
        match self.position(key) {
            Some(i) => {
                proof {
                    lemma_pairs_map_value(self.pairs(), i as int);
                }
                Some(&self.entries[i].1)
            },
            None => None,
        }
    }

    /// Gives a key a value, and returns the value that the key had.
    pub fn insert(&mut self, key: String, value: String) -> (r: Option<String>)
        ensures
            final(self).wf(),
            final(self)@ == old(self)@.insert(key@, value@),
            final(self).pairs() == put(old(self).pairs(), key@, value@),
            match r {
                Some(v) => old(self)@.contains_key(key@) && v@ == old(self)@[key@],
                None => !old(self)@.contains_key(key@),
            },
    {
        proof {
            use_type_invariant(&*self);
            lemma_pairs_map_dom(self.pairs(), key@);
            lemma_put(self.pairs(), key@, value@);
        }
        let found = self.position(key.as_str());
        let mut entries: Vec<(String, String)> = Vec::new();
        std::mem::swap(&mut entries, &mut self.entries);
        let ghost before = pair_views(entries@);
        let r = match found {
            Some(i) => {
                proof {
                    lemma_key_position(before, key@, i as int);
                    lemma_pairs_map_value(before, i as int);
                }
                let mut held = value;
                std::mem::swap(&mut held, &mut entries[i].1);
                assert(pair_views(entries@) =~= before.update(i as int, (key@, value@)));
                Some(held)
            },
            None => {
                entries.push((key, value));
                assert(pair_views(entries@) =~= before.push((key@, value@)));
                None
            },
        };
        self.entries = entries;
        r
    }

    /// The map of a list of pairs; of two pairs with one key the later one
    /// counts, at the place of the earlier one.
    pub fn from_pairs(pairs: &Vec<(String, String)>) -> (r: StringMap)
        ensures
            r.wf(),
            r.pairs() == put_all(pair_views(pairs@)),
            r@ == pairs_map(pair_views(pairs@)),
    {
        let mut r = StringMap::new();
        let mut i: usize = 0;
        while i < pairs.len()
            invariant
                i <= pairs@.len(),
                r.wf(),
                r.pairs() == put_all(pair_views(pairs@).take(i as int)),
                r@ == pairs_map(pair_views(pairs@).take(i as int)),
            decreases pairs@.len() - i,
        {
            let key = pairs[i].0.clone();
            let value = pairs[i].1.clone();
            r.insert(key, value);
            proof {
                let all = pair_views(pairs@);
                assert(all.take(i + 1).drop_last() =~= all.take(i as int));
                assert(all.take(i + 1).last() == (pairs@[i as int].0@, pairs@[i as int].1@));
            }
            i += 1;
        }
        assert(pair_views(pairs@).take(i as int) =~= pair_views(pairs@));
        r
    }

    /// The map of a list of pairs in which no key occurs twice, with its
    /// pairs in the order of the list; `None` where a key occurs twice.
    pub fn try_from_pairs(pairs: &Vec<(String, String)>) -> (r: Option<StringMap>)
        ensures
            r is Some <==> distinct_keys(pair_views(pairs@)),
            r matches Some(m) ==> m.pairs() == pair_views(pairs@) && m.wf(),
    {
        let ghost all = pair_views(pairs@);
        let mut r = StringMap::new();
        let mut i: usize = 0;
        while i < pairs.len()
            invariant
                i <= pairs@.len(),
                all == pair_views(pairs@),
                r.wf(),
                r.pairs() == all.take(i as int),
            decreases pairs@.len() - i,
        {
            proof {
                lemma_pairs_map_dom(r.pairs(), all[i as int].0);
            }
            if r.contains_key(pairs[i].0.as_str()) {
                proof {
                    let j = choose|j: int|
                        0 <= j < r.pairs().len() && (#[trigger] r.pairs()[j]).0 == all[i as int].0;
                    assert(all[j].0 == all[i as int].0);
                }
                return None;
            }
            let key = pairs[i].0.clone();
            let value = pairs[i].1.clone();
            r.insert(key, value);
            proof {
                assert(all.take(i + 1) =~= all.take(i as int).push(all[i as int]));
            }
            i += 1;
        }
        proof {
            assert(all.take(i as int) =~= all);
        }
        Some(r)
    }

    /// The pairs of the map, in the order in which their keys came in.
    pub fn to_pairs(&self) -> (r: Vec<(String, String)>)
        ensures
            pair_views(r@) == self.pairs(),
            distinct_keys(pair_views(r@)),
    {
        proof {
            use_type_invariant(self);
        }
        let mut r: Vec<(String, String)> = Vec::new();
        let mut i: usize = 0;
        while i < self.entries.len()
            invariant
                i <= self.entries@.len(),
                pair_views(r@) == self.pairs().take(i as int),
            decreases self.entries@.len() - i,
        {
            let key = self.entries[i].0.clone();
            let value = self.entries[i].1.clone();
            let ghost held = pair_views(r@);
            r.push((key, value));
            assert(pair_views(r@) =~= held.push((key@, value@)));
            assert(self.pairs().take(i + 1) =~= self.pairs().take(i as int).push(self.pairs()[i as int]));
            i += 1;
        }
        assert(self.pairs().take(i as int) =~= self.pairs());
        r
    }

    /// Whether each key of this map has the same value in `other`.
    pub fn is_submap_of(&self, other: &StringMap) -> (r: bool)
        ensures
            r == self@.submap_of(other@),
    {
        proof {
            use_type_invariant(self);
        }
        let mut i: usize = 0;
        while i < self.entries.len()
            invariant
                i <= self.entries@.len(),
                self.wf(),
                forall|j: int|
                    #![trigger self.pairs()[j]]
                    0 <= j < i ==> other@.contains_key(self.pairs()[j].0) && other@[self.pairs()[j].0]
                        == self.pairs()[j].1,
            decreases self.entries@.len() - i,
        {
            proof {
                lemma_pairs_map_value(self.pairs(), i as int);
            }
            match other.get(self.entries[i].0.as_str()) {
                Some(v) => {
                    if !(*v == self.entries[i].1) {
                        return false;
                    }
                },
                None => {
                    return false;
                },
            }
            i += 1;
        }
        proof {
            assert forall|k: Seq<char>| #[trigger] self@.dom().contains(k) implies other@.dom().contains(k)
                && self@[k] == other@[k] by {
                lemma_pairs_map_dom(self.pairs(), k);
                let j = choose|j: int| 0 <= j < self.pairs().len() && (#[trigger] self.pairs()[j]).0 == k;
                lemma_pairs_map_value(self.pairs(), j);
            }
        }
        true
    }
}

impl Clone for StringMap {
    fn clone(&self) -> (r: StringMap)
        ensures
            r.pairs() == self.pairs(),
            r@ == self@,
    {
        let entries = self.to_pairs();
        StringMap { entries }
    }
}

/// The place of a key is the place of the one pair that has it.
pub proof fn lemma_key_position<V>(pairs: Seq<(Seq<char>, V)>, key: Seq<char>, i: int)
    requires
        0 <= i < pairs.len(),
        pairs[i].0 == key,
        distinct_keys(pairs),
    ensures
        key_position(pairs, key) == i,
    decreases pairs.len(),
{
    if i > 0 {
        assert(pairs[0].0 != pairs[i].0);
        let rest = pairs.drop_first();
        assert(distinct_keys(rest)) by {
            assert forall|a: int, b: int| 0 <= a < b < rest.len() implies rest[a].0 != rest[b].0 by {
                assert(pairs[a + 1].0 != pairs[b + 1].0);
            }
        }
        lemma_key_position(rest, key, i - 1);
    }
}

/// Putting a pair into a list without a repeated key leaves no key
/// repeated, and gives the key its value in the map of the list.
pub proof fn lemma_put<V>(pairs: Seq<(Seq<char>, V)>, key: Seq<char>, value: V)
    requires
        distinct_keys(pairs),
    ensures
        distinct_keys(put(pairs, key, value)),
        pairs_map(put(pairs, key, value)) == pairs_map(pairs).insert(key, value),
{
    let after = put(pairs, key, value);
    if has_key(pairs, key) {
        let i = choose|i: int| 0 <= i < pairs.len() && (#[trigger] pairs[i]).0 == key;
        lemma_key_position(pairs, key, i);
        assert forall|a: int, b: int| 0 <= a < b < after.len() implies after[a].0 != after[b].0 by {
            assert(pairs[a].0 != pairs[b].0);
        }
        assert forall|k: Seq<char>| #[trigger]
            pairs_map(after).dom().contains(k) == pairs_map(pairs).insert(key, value).dom().contains(
                k,
            ) by {
            lemma_pairs_map_dom(after, k);
            lemma_pairs_map_dom(pairs, k);
            if has_key(after, k) {
                let j = choose|j: int| 0 <= j < after.len() && (#[trigger] after[j]).0 == k;
                assert(pairs[j].0 == k);
            }
            if has_key(pairs, k) {
                let j = choose|j: int| 0 <= j < pairs.len() && (#[trigger] pairs[j]).0 == k;
                assert(after[j].0 == k);
            }
        }
        assert forall|k: Seq<char>| pairs_map(after).dom().contains(k) implies #[trigger] pairs_map(
            after,
        )[k] == pairs_map(pairs).insert(key, value)[k] by {
            lemma_pairs_map_dom(after, k);
            let j = choose|j: int| 0 <= j < after.len() && (#[trigger] after[j]).0 == k;
            lemma_pairs_map_value(after, j);
            if j != i {
                assert(pairs[j].0 == k);
                lemma_pairs_map_value(pairs, j);
            }
        }
        assert(pairs_map(after) =~= pairs_map(pairs).insert(key, value));
    } else {
        assert forall|a: int, b: int| 0 <= a < b < after.len() implies after[a].0 != after[b].0 by {
            if b < pairs.len() {
                assert(pairs[a].0 != pairs[b].0);
            } else {
                assert(pairs[a].0 != key);
            }
        }
        assert(after.drop_last() =~= pairs);
    }
}

/// A list without a repeated key is left as it is when its pairs are put
/// into an empty list one after the other.
pub proof fn lemma_put_all_distinct<V>(pairs: Seq<(Seq<char>, V)>)
    requires
        distinct_keys(pairs),
    ensures
        put_all(pairs) == pairs,
    decreases pairs.len(),
{
    if pairs.len() > 0 {
        let front = pairs.drop_last();
        assert(distinct_keys(front)) by {
            assert forall|a: int, b: int| 0 <= a < b < front.len() implies front[a].0
                != front[b].0 by {
                assert(pairs[a].0 != pairs[b].0);
            }
        }
        lemma_put_all_distinct(front);
        if has_key(front, pairs.last().0) {
            let i = choose|i: int| 0 <= i < front.len() && (#[trigger] front[i]).0 == pairs.last().0;
            assert(pairs[i].0 == pairs[pairs.len() - 1].0);
        }
        assert(front.push(pairs.last()) =~= pairs);
    }
}

/// Taking a pair out of a list without a repeated key leaves no key
/// repeated, and takes the key of the pair out of the map of the list.
pub proof fn lemma_remove_pair<V>(pairs: Seq<(Seq<char>, V)>, i: int)
    requires
        distinct_keys(pairs),
        0 <= i < pairs.len(),
    ensures
        distinct_keys(pairs.remove(i)),
        !has_key(pairs.remove(i), pairs[i].0),
        pairs_map(pairs.remove(i)) == pairs_map(pairs).remove(pairs[i].0),
{
    let after = pairs.remove(i);
    assert forall|a: int, b: int| 0 <= a < b < after.len() implies after[a].0 != after[b].0 by {
        let a0 = if a < i { a } else { a + 1 };
        let b0 = if b < i { b } else { b + 1 };
        assert(pairs[a0].0 != pairs[b0].0);
    }
    assert forall|a: int| 0 <= a < after.len() implies (#[trigger] after[a]).0 != pairs[i].0 by {
        let a0 = if a < i { a } else { a + 1 };
        if a0 < i {
            assert(pairs[a0].0 != pairs[i].0);
        } else {
            assert(pairs[i].0 != pairs[a0].0);
        }
    }
    assert forall|k: Seq<char>| #[trigger]
        pairs_map(after).dom().contains(k) == pairs_map(pairs).remove(pairs[i].0).dom().contains(
            k,
        ) by {
        lemma_pairs_map_dom(after, k);
        lemma_pairs_map_dom(pairs, k);
        if has_key(after, k) {
            let j = choose|j: int| 0 <= j < after.len() && (#[trigger] after[j]).0 == k;
            let j0 = if j < i { j } else { j + 1 };
            assert(pairs[j0].0 == k);
        }
        if has_key(pairs, k) && k != pairs[i].0 {
            let j = choose|j: int| 0 <= j < pairs.len() && (#[trigger] pairs[j]).0 == k;
            let j1 = if j < i { j } else { j - 1 };
            assert(after[j1].0 == k);
        }
    }
    assert forall|k: Seq<char>| pairs_map(after).dom().contains(k) implies #[trigger] pairs_map(
        after,
    )[k] == pairs_map(pairs).remove(pairs[i].0)[k] by {
        lemma_pairs_map_dom(after, k);
        let j = choose|j: int| 0 <= j < after.len() && (#[trigger] after[j]).0 == k;
        let j0 = if j < i { j } else { j + 1 };
        lemma_pairs_map_value(after, j);
        lemma_pairs_map_value(pairs, j0);
    }
    assert(pairs_map(after) =~= pairs_map(pairs).remove(pairs[i].0));
}

/// The first place at which a key stands is its position.
pub proof fn lemma_first_key<V>(pairs: Seq<(Seq<char>, V)>, key: Seq<char>, i: int)
    requires
        0 <= i < pairs.len(),
        pairs[i].0 == key,
        forall|j: int| 0 <= j < i ==> (#[trigger] pairs[j]).0 != key,
    ensures
        key_position(pairs, key) == i,
    decreases pairs.len(),
{
    if i > 0 {
        assert(pairs[0].0 != key);
        let rest = pairs.drop_first();
        assert forall|j: int| 0 <= j < i - 1 implies (#[trigger] rest[j]).0 != key by {
            assert(pairs[j + 1].0 != key);
        }
        lemma_first_key(rest, key, i - 1);
    }
}

/// A key that no pair has gets the length of the list as its position.
pub proof fn lemma_no_key<V>(pairs: Seq<(Seq<char>, V)>, key: Seq<char>)
    requires
        forall|j: int| 0 <= j < pairs.len() ==> (#[trigger] pairs[j]).0 != key,
    ensures
        key_position(pairs, key) == pairs.len(),
    decreases pairs.len(),
{
    if pairs.len() > 0 {
        assert(pairs[0].0 != key);
        let rest = pairs.drop_first();
        assert forall|j: int| 0 <= j < rest.len() implies (#[trigger] rest[j]).0 != key by {
            assert(pairs[j + 1].0 != key);
        }
        lemma_no_key(rest, key);
    }
}

} // verus!
