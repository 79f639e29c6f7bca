//! Maps whose keys are places on the board, listed by columns and then by rows.

use std::collections::BTreeMap;
use vstd::prelude::*;

verus! {

broadcast use vstd::laws_cmp::group_laws_cmp;

/// A place on the board: its column and its row.
pub type Place = (int, int);

/// A place, as numbers without bound.
pub open spec fn place_of(place: (i32, i32)) -> Place {
    (place.0 as int, place.1 as int)
}

/// One place comes before another.
pub open spec fn place_less(a: Place, b: Place) -> bool {
    a.0 < b.0 || (a.0 == b.0 && a.1 < b.1)
}

/// A map whose keys are places.
#[derive(Debug, Clone, PartialEq, Eq)]
pub struct PlaceMap<V> {
    map: BTreeMap<(i32, i32), V>,
}

impl<V> View for PlaceMap<V> {
    type V = Map<Place, V>;

    closed spec fn view(&self) -> Map<Place, V> {
        Map::new(
            |p: Place|
                i32::MIN <= p.0 <= i32::MAX && i32::MIN <= p.1 <= i32::MAX && self.map@.contains_key(
                    (p.0 as i32, p.1 as i32),
                ),
            |p: Place| self.map@[(p.0 as i32, p.1 as i32)],
        )
    }
}

/// The entries stand in the order of their places.
pub open spec fn sorted_places<V>(entries: Seq<((i32, i32), V)>) -> bool {
    forall|i: int, j: int| #![trigger entries[i], entries[j]]
        0 <= i < j < entries.len() ==> place_less(place_of(entries[i].0), place_of(entries[j].0))
}

/// The entries of a map, in the order of their places.
pub open spec fn lists_map<V>(entries: Seq<((i32, i32), V)>, map: Map<Place, V>) -> bool {
    &&& sorted_places(entries)
    &&& forall|i: int|
        0 <= i < entries.len() ==> map.contains_key(place_of((#[trigger] entries[i]).0)) && map[place_of(
            entries[i].0,
        )] == entries[i].1
    &&& forall|p: Place| #[trigger]
        map.contains_key(p) ==> exists|i: int|
            0 <= i < entries.len() && place_of((#[trigger] entries[i]).0) == p
}

/// The places stand in ascending order.
pub open spec fn ascending(order: Seq<Place>) -> bool {
    forall|i: int, j: int| #![trigger order[i], order[j]]
        0 <= i < j < order.len() ==> place_less(order[i], order[j])
}

/// The places of a set, in ascending order.
pub open spec fn lists_set(order: Seq<Place>, set: Set<Place>) -> bool {
    &&& ascending(order)
    &&& forall|p: Place| #[trigger] order.contains(p) == set.contains(p)
}

/// The places of a set, in ascending order.
pub open spec fn ordered(set: Set<Place>) -> Seq<Place> {
    choose|order: Seq<Place>| lists_set(order, set)
}

proof fn lemma_ascending_prefix(a: Seq<Place>, b: Seq<Place>, set: Set<Place>, k: int)
    requires
        lists_set(a, set),
        lists_set(b, set),
        0 <= k < a.len(),
    ensures
        k < b.len(),
        a[k] == b[k],
    decreases k,
{
    if k > 0 {
        lemma_ascending_prefix(a, b, set, k - 1);
    }
    assert(a.contains(a[k]));
    assert(b.contains(a[k]));
    let m = choose|m: int| 0 <= m < b.len() && b[m] == a[k];
    if m < k {
        lemma_ascending_prefix(a, b, set, m);
        assert(place_less(a[m], a[k]));
        assert(false);
    }
    assert(b.contains(b[k]));
    assert(a.contains(b[k]));
    let n = choose|n: int| 0 <= n < a.len() && a[n] == b[k];
    if n < k {
        lemma_ascending_prefix(a, b, set, n);
        assert(place_less(b[n], b[k]));
        assert(false);
    }
    if m > k {
        assert(place_less(b[k], b[m]));
        if n > k {
            assert(place_less(a[k], a[n]));
        }
        assert(false);
    }
}

/// The places of a set have one ascending order.
pub proof fn lemma_ordered(order: Seq<Place>, set: Set<Place>)
    requires
        lists_set(order, set),
    ensures
        order == ordered(set),
{
    let other = ordered(set);
    assert(lists_set(other, set));
    if order.len() > 0 {
        lemma_ascending_prefix(order, other, set, order.len() - 1);
    }
    if other.len() > 0 {
        lemma_ascending_prefix(other, order, set, other.len() - 1);
    }
    assert forall|k: int| 0 <= k < order.len() implies order[k] == other[k] by {
        lemma_ascending_prefix(order, other, set, k);
    }
    assert(order =~= other);
}

/// The places of entries.
pub open spec fn entry_places<V>(entries: Seq<((i32, i32), V)>) -> Seq<Place> {
    Seq::new(entries.len(), |i: int| place_of(entries[i].0))
}

/// The entries of a map list its places in order.
pub proof fn lemma_entries_ordered<V>(entries: Seq<((i32, i32), V)>, map: Map<Place, V>)
    requires
        lists_map(entries, map),
    ensures
        entry_places(entries) == ordered(map.dom()),
{
    let order = entry_places(entries);
    assert forall|p: Place| #[trigger] order.contains(p) == map.dom().contains(p) by {
        if order.contains(p) {
            let i = choose|i: int| 0 <= i < order.len() && order[i] == p;
            assert(map.contains_key(place_of(entries[i].0)));
        }
        if map.contains_key(p) {
            let i = choose|i: int| 0 <= i < entries.len() && place_of((#[trigger] entries[i]).0) == p;
            assert(order[i] == p);
        }
    }
    assert forall|i: int, j: int| #![trigger order[i], order[j]] 0 <= i < j < order.len() implies place_less(
        order[i],
        order[j],
    ) by {
        assert(place_less(place_of(entries[i].0), place_of(entries[j].0)));
    }
    lemma_ordered(order, map.dom());
}

proof fn lemma_increasing(keys: Seq<&(i32, i32)>, i: int, j: int)
    requires
        vstd::std_specs::btree::increasing_seq(keys),
        0 <= i < j < keys.len(),
    ensures
        place_less(place_of(*keys[i]), place_of(*keys[j])),
{
    assert(vstd::laws_cmp::obeys_cmp::<(i32, i32)>());
    assert(vstd::laws_cmp::obeys_cmp::<&(i32, i32)>());
    let a = *keys[i];
    let b = *keys[j];
    assert(vstd::std_specs::cmp::OrdSpec::cmp_spec(&keys[i], &keys[j]) is Less);
    assert(vstd::std_specs::cmp::OrdSpec::cmp_spec(&a, &b) is Less);
    assert(vstd::std_specs::cmp::OrdSpec::cmp_spec(&a.0, &b.0) is Less || (a.0 == b.0
        && vstd::std_specs::cmp::OrdSpec::cmp_spec(&a.1, &b.1) is Less));
}

impl<V: Copy> PlaceMap<V> {
    /// The keys of the map are places of the board.
    pub proof fn lemma_keys(&self)
        ensures
            forall|p: Place| #[trigger]
                self@.contains_key(p) ==> i32::MIN <= p.0 <= i32::MAX && i32::MIN <= p.1 <= i32::MAX,
    {
    }

    /// The empty map.
    pub fn new() -> (map: Self)
        ensures
            map@ == Map::<Place, V>::empty(),
    {
        let map: PlaceMap<V> = PlaceMap { map: BTreeMap::new() };
        assert(map@ =~= Map::<Place, V>::empty());
        map
    }

    /// The value at a place.
    pub fn get(&self, place: (i32, i32)) -> (value: Option<V>)
        ensures
            match value {
                Some(v) => self@.contains_key(place_of(place)) && self@[place_of(place)] == v,
                None => !self@.contains_key(place_of(place)),
            },
    {
        match self.map.get(&place) {
            Some(value) => Some(*value),
            None => None,
        }
    }

    /// Gives a place a value, instead of the one that it had.
    pub fn insert(&mut self, place: (i32, i32), value: V)
        ensures
            final(self)@ == old(self)@.insert(place_of(place), value),
    {
        let ghost before = self@;
        let previous: Option<V> = self.map.insert(place, value);
        assert(self@ =~= before.insert(place_of(place), value));
    }

    /// The entries, in the order of their places.
    pub fn entries(&self) -> (list: Vec<((i32, i32), V)>)
        ensures
            lists_map(list@, self@),
    {
        let mut list: Vec<((i32, i32), V)> = Vec::new();
        let ghost map = self.map@;
        let ghost keys = vstd::std_specs::iter::IteratorSpec::remaining(
            &vstd::std_specs::btree::spec_keys_iter(&self.map),
        );
        for key in it: self.map.keys()
            invariant
                map == self.map@,
                it.seq() == keys,
                keys.unref().to_set() == map.dom(),
                list@.len() == it.index(),
                forall|i: int|
                    0 <= i < it.index() ==> (#[trigger] list@[i]).0 == *keys[i] && map.contains_key(list@[i].0)
                        && list@[i].1 == map[list@[i].0],
        {
            assert(keys.unref()[it.index() as int] == *key);
            assert(keys.unref().to_set().contains(*key));
            if let Some(value) = self.map.get(key) {
                list.push((*key, *value));
            }
        }
        proof {
            assert(list@.len() == keys.len());
            assert forall|i: int, j: int| #![trigger list@[i], list@[j]] 0 <= i < j < list@.len() implies place_less(
                place_of(list@[i].0),
                place_of(list@[j].0),
            ) by {
                assert(list@[i].0 == *keys[i]);
                assert(list@[j].0 == *keys[j]);
                lemma_increasing(keys, i, j);
            }
            assert forall|p: Place| #[trigger] self@.contains_key(p) implies exists|i: int|
                0 <= i < list@.len() && place_of((#[trigger] list@[i]).0) == p by {
                let key = (p.0 as i32, p.1 as i32);
                assert(map.dom().contains(key));
                assert(keys.unref().contains(key));
                let i = choose|i: int| 0 <= i < keys.unref().len() && keys.unref()[i] == key;
                assert(list@[i].0 == key);
            }
        }
        list
    }
}

} // verus!
