//! A map from texts to values, kept in the order of the texts.

use crate::text::{same_text, text_before};
use crate::text;
use vstd::prelude::*;

verus! {

/// A map whose keys are strings and whose entries stand in key order.
#[derive(Debug, Clone, PartialEq, Eq)]
pub struct StrMap<V> {
    entries: Vec<(String, V)>,
}

impl<V> View for StrMap<V> {
    type V = Map<Seq<char>, V>;

    closed spec fn view(&self) -> Map<Seq<char>, V> {
        Map::new(
            |k: Seq<char>| self.key_seq().contains(k),
            |k: Seq<char>| self.value_seq()[self.key_seq().index_of(k)],
        )
    }
}

/// A sorted list of texts holds none of them twice.
pub proof fn lemma_sorted_texts_distinct(keys: Seq<Seq<char>>)
    requires
        text::sorted_texts(keys),
    ensures
        keys.no_duplicates(),
{
    assert forall|i: int, j: int| 0 <= i < j < keys.len() implies keys[i] != keys[j] by {
        if keys[i] == keys[j] {
            text::lemma_text_less_irreflexive(keys[i]);
        }
    }
}

/// A sorted list of texts is fixed by the set of its members.
pub proof fn lemma_sorted_texts_unique(a: Seq<Seq<char>>, b: Seq<Seq<char>>)
    requires
        text::sorted_texts(a),
        text::sorted_texts(b),
        a.to_set() == b.to_set(),
    ensures
        a == b,
    decreases a.len(),
{
    lemma_sorted_texts_distinct(a);
    lemma_sorted_texts_distinct(b);
    a.unique_seq_to_set();
    b.unique_seq_to_set();
    if a.len() == 0 {
        assert(a =~= b);
    } else {
        let x = a.last();
        let y = b.last();
        assert(a.to_set().contains(x));
        assert(b.to_set().contains(y));
        assert(b.contains(x));
        assert(a.contains(y));
        let i = choose|i: int| 0 <= i < b.len() && b[i] == x;
        let j = choose|j: int| 0 <= j < a.len() && a[j] == y;
        if x != y {
            assert(text::text_less(b[i], b[b.len() - 1]));
            assert(text::text_less(a[j], a[a.len() - 1]));
            text::lemma_text_less_transitive(x, y, x);
            text::lemma_text_less_irreflexive(x);
        }
        assert forall|k: Seq<char>| a.drop_last().to_set().contains(k) == b.drop_last().to_set().contains(
            k,
        ) by {
            lemma_last_removed(a, k);
            lemma_last_removed(b, k);
        }
        assert(a.drop_last().to_set() =~= b.drop_last().to_set());
        lemma_sorted_texts_unique(a.drop_last(), b.drop_last());
        assert(a =~= a.drop_last().push(x));
        assert(b =~= b.drop_last().push(y));
    }
}

proof fn lemma_last_removed(a: Seq<Seq<char>>, k: Seq<char>)
    requires
        a.len() > 0,
        a.no_duplicates(),
    ensures
        a.drop_last().to_set().contains(k) == (a.to_set().contains(k) && k != a.last()),
{
    if a.drop_last().contains(k) {
        let i = choose|i: int| 0 <= i < a.len() - 1 && a.drop_last()[i] == k;
        assert(a[i] == k);
        assert(a.contains(k));
    }
    if a.contains(k) && k != a.last() {
        let i = choose|i: int| 0 <= i < a.len() && a[i] == k;
        assert(a.drop_last()[i] == k);
        assert(a.drop_last().contains(k));
    }
}

/// A sorted list of texts with one more text in its place.
spec fn with_text(keys: Seq<Seq<char>>, v: Seq<char>) -> Seq<Seq<char>>
    decreases keys.len(),
{
    if keys.len() == 0 {
        seq![v]
    } else if keys[0] == v {
        keys
    } else if text::text_less(v, keys[0]) {
        seq![v] + keys
    } else {
        seq![keys[0]] + with_text(keys.drop_first(), v)
    }
}

proof fn lemma_with_text(keys: Seq<Seq<char>>, v: Seq<char>)
    requires
        text::sorted_texts(keys),
    ensures
        text::sorted_texts(with_text(keys, v)),
        forall|k: Seq<char>| #[trigger] with_text(keys, v).contains(k) <==> k == v || keys.contains(k),
    decreases keys.len(),
{
    let after = with_text(keys, v);
    if keys.len() == 0 {
        assert(after[0] == v);
    } else if keys[0] == v {
    } else if text::text_less(v, keys[0]) {
        assert forall|i: int, j: int| #![trigger after[i], after[j]] 0 <= i < j < after.len() implies text::text_less(
            after[i],
            after[j],
        ) by {
            if i == 0 {
                if j > 1 {
                    text::lemma_text_less_transitive(v, keys[0], keys[j - 1]);
                }
            } else {
                assert(text::text_less(keys[i - 1], keys[j - 1]));
            }
        }
        assert forall|k: Seq<char>| #[trigger] after.contains(k) <==> k == v || keys.contains(k) by {
            assert(after[0] == v);
            if keys.contains(k) {
                let i = choose|i: int| 0 <= i < keys.len() && keys[i] == k;
                assert(after[i + 1] == k);
            }
            if after.contains(k) && k != v {
                let i = choose|i: int| 0 <= i < after.len() && after[i] == k;
                assert(keys[i - 1] == k);
            }
        }
    } else {
        let rest = keys.drop_first();
        lemma_with_text(rest, v);
        text::lemma_text_less_total(v, keys[0]);
        let tail = with_text(rest, v);
        assert forall|k: Seq<char>| tail.contains(k) implies text::text_less(keys[0], k) by {
            if k != v {
                let i = choose|i: int| 0 <= i < rest.len() && rest[i] == k;
                assert(keys[i + 1] == k);
            }
        }
        assert forall|i: int, j: int| #![trigger after[i], after[j]] 0 <= i < j < after.len() implies text::text_less(
            after[i],
            after[j],
        ) by {
            assert(after[j] == tail[j - 1]);
            assert(tail.contains(tail[j - 1]));
            if i > 0 {
                assert(after[i] == tail[i - 1]);
            }
        }
        assert forall|k: Seq<char>| #[trigger] after.contains(k) <==> k == v || keys.contains(k) by {
            if keys.contains(k) {
                let i = choose|i: int| 0 <= i < keys.len() && keys[i] == k;
                if i == 0 {
                    assert(after[0] == k);
                } else {
                    assert(rest[i - 1] == k);
                    assert(tail.contains(k));
                }
            }
            if k == v || tail.contains(k) {
                assert(tail.contains(k));
                let j = choose|j: int| 0 <= j < tail.len() && tail[j] == k;
                assert(after[j + 1] == k);
            }
            if after.contains(k) {
                let i = choose|i: int| 0 <= i < after.len() && after[i] == k;
                if i == 0 {
                    assert(keys[0] == k);
                } else {
                    assert(tail[i - 1] == k);
                    assert(tail.contains(k));
                    if k != v {
                        let j = choose|j: int| 0 <= j < rest.len() && rest[j] == k;
                        assert(keys[j + 1] == k);
                    }
                }
            }
        }
    }
}

/// The members of a list of texts, each once, in ascending order.
pub open spec fn is_sorted_list_of(keys: Seq<Seq<char>>, list: Seq<Seq<char>>) -> bool {
    &&& text::sorted_texts(keys)
    &&& forall|k: Seq<char>| #[trigger] keys.contains(k) <==> list.contains(k)
}

/// The members of a list of texts, each once, in ascending order.
pub open spec fn sorted_list(list: Seq<Seq<char>>) -> Seq<Seq<char>> {
    choose|keys: Seq<Seq<char>>| is_sorted_list_of(keys, list)
}

/// The sorted list of the members of a list is unique.
pub proof fn lemma_sorted_list(list: Seq<Seq<char>>)
    ensures
        is_sorted_list_of(sorted_list(list), list),
        forall|keys: Seq<Seq<char>>| #[trigger] is_sorted_list_of(keys, list) ==> keys == sorted_list(list),
{
    let found = lemma_sorted_list_exists(list);
    assert(is_sorted_list_of(found, list));
    let chosen = sorted_list(list);
    assert forall|keys: Seq<Seq<char>>| #[trigger] is_sorted_list_of(keys, list) implies keys == chosen by {
        assert forall|k: Seq<char>| keys.to_set().contains(k) == chosen.to_set().contains(k) by {
            assert(keys.contains(k) <==> list.contains(k));
            assert(chosen.contains(k) <==> list.contains(k));
        }
        assert(keys.to_set() =~= chosen.to_set());
        lemma_sorted_texts_unique(keys, chosen);
    }
}

/// Every list of texts can be sorted.
pub proof fn lemma_sorted_list_exists(list: Seq<Seq<char>>) -> (keys: Seq<Seq<char>>)
    ensures
        is_sorted_list_of(keys, list),
    decreases list.len(),
{
    if list.len() == 0 {
        list
    } else {
        let rest = list.drop_last();
        let shorter = lemma_sorted_list_exists(rest);
        lemma_with_text(shorter, list.last());
        let keys = with_text(shorter, list.last());
        assert forall|k: Seq<char>| #[trigger] keys.contains(k) <==> list.contains(k) by {
            if list.contains(k) && k != list.last() {
                let i = choose|i: int| 0 <= i < list.len() && list[i] == k;
                assert(rest[i] == k);
            }
            if rest.contains(k) {
                let i = choose|i: int| 0 <= i < rest.len() && rest[i] == k;
                assert(list[i] == k);
            }
            assert(list[list.len() - 1] == list.last());
        }
        keys
    }
}

impl<V> StrMap<V> {
    /// The keys in ascending order.
    pub closed spec fn key_seq(&self) -> Seq<Seq<char>> {
        Seq::new(self.entries@.len(), |i: int| self.entries@[i].0@)
    }

    /// The values in the order of their keys.
    pub closed spec fn value_seq(&self) -> Seq<V> {
        Seq::new(self.entries@.len(), |i: int| self.entries@[i].1)
    }

    /// The keys stand in strictly ascending order.
    pub open spec fn wf(&self) -> bool {
        text::sorted_texts(self.key_seq())
    }

    /// What the keys, the values and the view of a map have in common.
    pub proof fn lemma_entries(&self)
        requires
            self.wf(),
        ensures
            self.key_seq().no_duplicates(),
            self.value_seq().len() == self.key_seq().len(),
            self@.dom() =~= self.key_seq().to_set(),
            self@.dom().finite(),
            self@.dom().len() == self.key_seq().len(),
            forall|i: int| #![trigger self.key_seq()[i]]
                0 <= i < self.key_seq().len() ==> self@.contains_key(self.key_seq()[i])
                    && self@[self.key_seq()[i]] == self.value_seq()[i],
            forall|k: Seq<char>| #[trigger] self@.contains_key(k) ==> self.key_seq().contains(k),
    {
        let keys = self.key_seq();
        lemma_sorted_texts_distinct(keys);
        assert forall|i: int| 0 <= i < keys.len() implies self@.contains_key(#[trigger] keys[i])
            && self@[keys[i]] == self.value_seq()[i] by {
            assert(keys.contains(keys[i]));
            assert(keys.index_of(keys[i]) == i);
        }
        assert(self@.dom() =~= keys.to_set());
        keys.unique_seq_to_set();
        vstd::seq_lib::seq_to_set_is_finite(keys);
    }

    /// Two maps with the same view list the same keys.
    pub proof fn lemma_keys_fixed<W>(&self, other: &StrMap<W>)
        requires
            self.wf(),
            other.wf(),
            self@.dom() == other@.dom(),
        ensures
            self.key_seq() == other.key_seq(),
    {
        self.lemma_entries();
        other.lemma_entries();
        lemma_sorted_texts_unique(self.key_seq(), other.key_seq());
    }

    /// The empty map.
    pub fn new() -> (map: Self)
        ensures
            map.wf(),
            map@ == Map::<Seq<char>, V>::empty(),
            map.key_seq() == Seq::<Seq<char>>::empty(),
    {
        let map: StrMap<V> = StrMap { entries: Vec::new() };
        assert(map.key_seq() =~= Seq::<Seq<char>>::empty());
        assert(map@ =~= Map::<Seq<char>, V>::empty());
        map
    }

    /// The number of entries.
    pub fn len(&self) -> (n: usize)
        ensures
            n == self.key_seq().len(),
            self.wf() ==> n == self@.dom().len(),
    {
        proof {
            if self.wf() {
                self.lemma_entries();
            }
        }
        self.entries.len()
    }

    /// Whether there is no entry.
    pub fn is_empty(&self) -> (empty: bool)
        ensures
            empty == (self.key_seq().len() == 0),
    {
        self.entries.len() == 0
    }

    /// The key at a position of the key order.
    pub fn key_at(&self, i: usize) -> (key: &String)
        requires
            i < self.key_seq().len(),
        ensures
            key@ == self.key_seq()[i as int],
    {
        &self.entries[i].0
    }

    /// The value at a position of the key order.
    pub fn value_at(&self, i: usize) -> (value: &V)
        requires
            i < self.key_seq().len(),
        ensures
            *value == self.value_seq()[i as int],
    {
        &self.entries[i].1
    }

    /// The position of a key, or of the first key after it.
    fn position(&self, key: &str) -> (found: (usize, bool))
        requires
            self.wf(),
        ensures
            found.0 <= self.key_seq().len(),
            found.1 ==> found.0 < self.key_seq().len() && self.key_seq()[found.0 as int] == key@,
            !found.1 ==> !self.key_seq().contains(key@),
            forall|j: int| 0 <= j < found.0 ==> text::text_less(#[trigger] self.key_seq()[j], key@),
            !found.1 ==> forall|j: int|
                found.0 <= j < self.key_seq().len() ==> text::text_less(key@, #[trigger] self.key_seq()[j]),
    {
        let ghost keys = self.key_seq();
        let mut low: usize = 0;
        let mut high: usize = self.entries.len();
        while low < high
            invariant
                low <= high <= self.entries@.len(),
                keys == self.key_seq(),
                keys.len() == self.entries@.len(),
                text::sorted_texts(keys),
                forall|j: int| 0 <= j < low ==> text::text_less(#[trigger] keys[j], key@),
                forall|j: int| high <= j < keys.len() ==> !text::text_less(#[trigger] keys[j], key@),
            decreases high - low,
        {
            let mid: usize = low + (high - low) / 2;
            assert(keys[mid as int] == self.entries@[mid as int].0@);
            if text_before(self.entries[mid].0.as_str(), key) {
                proof {
                    assert forall|j: int| 0 <= j < mid + 1 implies text::text_less(#[trigger] keys[j], key@) by {
                        if j < mid {
                            text::lemma_text_less_transitive(keys[j], keys[mid as int], key@);
                        }
                    }
                }
                low = mid + 1;
            } else {
                proof {
                    assert forall|j: int| mid <= j < keys.len() implies !text::text_less(
                        #[trigger] keys[j],
                        key@,
                    ) by {
                        if j > mid && text::text_less(keys[j], key@) {
                            text::lemma_text_less_transitive(keys[mid as int], keys[j], key@);
                        }
                    }
                }
                high = mid;
            }
        }
        if low < self.entries.len() && same_text(self.entries[low].0.as_str(), key) {
            assert(keys[low as int] == self.entries@[low as int].0@);
            (low, true)
        } else {
            proof {
                assert forall|j: int| low <= j < keys.len() implies text::text_less(key@, #[trigger] keys[j]) by {
                    text::lemma_text_less_total(key@, keys[low as int]);
                    assert(keys[low as int] == self.entries@[low as int].0@);
                    if j > low {
                        text::lemma_text_less_transitive(key@, keys[low as int], keys[j]);
                    }
                }
                if keys.contains(key@) {
                    let j = choose|j: int| 0 <= j < keys.len() && keys[j] == key@;
                    text::lemma_text_less_irreflexive(key@);
                }
            }
            (low, false)
        }
    }

    /// The value of a key.
    pub fn get(&self, key: &str) -> (value: Option<&V>)
        requires
            self.wf(),
        ensures
            value matches Some(v) ==> self@.contains_key(key@) && *v == self@[key@],
            value is None ==> !self@.contains_key(key@),
    {
        proof {
            self.lemma_entries();
        }
        let (i, found): (usize, bool) = self.position(key);
        if found {
            assert(self@.contains_key(self.key_seq()[i as int]));
            assert(self.value_seq()[i as int] == self.entries@[i as int].1);
            Some(&self.entries[i].1)
        } else {
            None
        }
    }

    /// Whether a key has a value.
    pub fn contains_key(&self, key: &str) -> (found: bool)
        requires
            self.wf(),
        ensures
            found == self@.contains_key(key@),
    {
        proof {
            self.lemma_entries();
        }
        let (i, found): (usize, bool) = self.position(key);
        assert(found ==> self@.contains_key(self.key_seq()[i as int]));
        found
    }

    /// Gives a key a value, in place of the one that it had.
    pub fn insert(&mut self, key: String, value: V)
        requires
            old(self).wf(),
        ensures
            final(self).wf(),
            final(self)@ == old(self)@.insert(key@, value),
    {
        proof {
            self.lemma_entries();
        }
        let ghost before = *self;
        let ghost name = key@;
        let (i, found): (usize, bool) = self.position(key.as_str());
        if found {
            self.entries.set(i, (key, value));
            proof {
                assert(self.key_seq() =~= before.key_seq());
                self.lemma_entries();
                assert forall|k: Seq<char>| self@.contains_key(k) implies self@[k] == before@.insert(
                    name,
                    value,
                )[k] by {
                    let j = choose|j: int| 0 <= j < self.key_seq().len() && self.key_seq()[j] == k;
                    assert(self@[self.key_seq()[j]] == self.value_seq()[j]);
                    assert(before@[before.key_seq()[j]] == before.value_seq()[j]);
                }
                assert(before@.contains_key(before.key_seq()[i as int]));
                assert(self@ =~= before@.insert(name, value));
            }
        } else {
            self.entries.insert(i, (key, value));
            proof {
                assert(self.key_seq() =~= before.key_seq().insert(i as int, name));
                assert(text::sorted_texts(self.key_seq()));
                self.lemma_entries();
                let after = self.key_seq();
                assert forall|k: Seq<char>| after.contains(k) == (k == name || before.key_seq().contains(k)) by {
                    if after.contains(k) {
                        let j = choose|j: int| 0 <= j < after.len() && after[j] == k;
                        if j < i {
                            assert(before.key_seq()[j] == k);
                        } else if j > i {
                            assert(before.key_seq()[j - 1] == k);
                        }
                    }
                    if before.key_seq().contains(k) {
                        let j = choose|j: int| 0 <= j < before.key_seq().len() && before.key_seq()[j] == k;
                        if j < i {
                            assert(after[j] == k);
                        } else {
                            assert(after[j + 1] == k);
                        }
                    }
                    assert(after[i as int] == name);
                }
                assert forall|k: Seq<char>| self@.contains_key(k) implies self@[k] == before@.insert(
                    name,
                    value,
                )[k] by {
                    let j = choose|j: int| 0 <= j < after.len() && after[j] == k;
                    assert(self@[after[j]] == self.value_seq()[j]);
                    if j < i {
                        assert(before@[before.key_seq()[j]] == before.value_seq()[j]);
                    } else if j > i {
                        assert(before@[before.key_seq()[j - 1]] == before.value_seq()[j - 1]);
                    }
                }
                assert(self@ =~= before@.insert(name, value));
            }
        }
    }
}

/// The texts that a map gives its keys.
pub open spec fn text_values(map: Map<Seq<char>, String>) -> Map<Seq<char>, Seq<char>> {
    map.map_values(|value: String| value@)
}

/// A copy of a map of strings.
pub fn copy_texts(map: &StrMap<String>) -> (copy: StrMap<String>)
    requires
        map.wf(),
    ensures
        copy.wf(),
        copy.key_seq() == map.key_seq(),
        text_values(copy@) == text_values(map@),
{
    let mut copy: StrMap<String> = StrMap::new();
    let mut i: usize = 0;
    proof {
        map.lemma_entries();
    }
    while i < map.len()
        invariant
            i <= map.key_seq().len(),
            map.wf(),
            map.key_seq().no_duplicates(),
            copy.wf(),
            forall|k: Seq<char>| #[trigger] copy@.contains_key(k) <==> map.key_seq().take(i as int).contains(k),
            forall|k: Seq<char>| #[trigger] copy@.contains_key(k) ==> map@.contains_key(k) && copy@[k]@ == map@[k]@,
        decreases map.key_seq().len() - i,
    {
        let ghost before = copy@;
        copy.insert(map.key_at(i).clone(), map.value_at(i).clone());
        proof {
            map.lemma_entries();
            let key = map.key_seq()[i as int];
            assert forall|k: Seq<char>| #[trigger] copy@.contains_key(k) <==> map.key_seq().take(i + 1).contains(
                k,
            ) by {
                crate::seqs::lemma_take_contains(map.key_seq(), i as int, k);
            }
            assert forall|k: Seq<char>| #[trigger] copy@.contains_key(k) implies map@.contains_key(k)
                && copy@[k]@ == map@[k]@ by {
                if k != key {
                    assert(before.contains_key(k));
                }
            }
        }
        i += 1;
    }
    proof {
        map.lemma_entries();
        assert(map.key_seq().take(i as int) =~= map.key_seq());
        assert forall|k: Seq<char>| copy@.dom().contains(k) == map@.dom().contains(k) by {
            assert(copy@.contains_key(k) <==> map.key_seq().contains(k));
        }
        assert(copy@.dom() =~= map@.dom());
        copy.lemma_keys_fixed(map);
        assert forall|k: Seq<char>| text_values(copy@).contains_key(k) implies #[trigger] text_values(copy@)[k]
            == text_values(map@)[k] by {
            assert(copy@.contains_key(k));
        }
        assert(text_values(copy@) =~= text_values(map@));
    }
    copy
}

} // verus!
