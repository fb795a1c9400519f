//! Peripherals by name, in the order in which their names first occur, and
//! the derivation of one peripheral from another.
//!
//! The names are held in an `IndexMap` of the indexmap crate. What that map
//! does is taken on trust from its documentation; what is built on it is
//! proved.
use crate::model::PeripheralDef;
use indexmap::IndexMap;
use std::collections::hash_map::RandomState;
use vstd::prelude::*;

verus! {

/// `IndexMap` of the indexmap crate, as a value that is only handed on.
#[verifier::external_type_specification]
#[verifier::external_body]
#[verifier::reject_recursive_types(K)]
#[verifier::reject_recursive_types(V)]
#[verifier::reject_recursive_types(S)]
pub struct ExIndexMap<K, V, S>(IndexMap<K, V, S>);

/// The entries of the map, each a key with its value, in the map's order.
pub uninterp spec fn map_entries(m: IndexMap<String, usize, RandomState>) -> Seq<
    (Seq<char>, usize),
>;

/// Where `key` stands among `entries`: the first place, if it has any.
pub open spec fn entry_position(entries: Seq<(Seq<char>, usize)>, key: Seq<char>) -> Option<int>
    decreases entries.len(),
{
    if entries.len() == 0 {
        None
    } else {
        match entry_position(entries.drop_last(), key) {
            Some(i) => Some(i),
            None => if entries.last().0 == key {
                Some(entries.len() - 1)
            } else {
                None
            },
        }
    }
}

/// The value that stands with `key`.
pub open spec fn entry_value(entries: Seq<(Seq<char>, usize)>, key: Seq<char>) -> Option<usize> {
    match entry_position(entries, key) {
        Some(i) => Some(entries[i].1),
        None => None,
    }
}

/// `entries` after `value` was entered under `key`: in the place where `key`
/// stood, or else at the end.
pub open spec fn with_entry(entries: Seq<(Seq<char>, usize)>, key: Seq<char>, value: usize) -> Seq<
    (Seq<char>, usize),
> {
    match entry_position(entries, key) {
        Some(i) => entries.update(i, (key, value)),
        None => entries.push((key, value)),
    }
}

/// `IndexMap::new` of indexmap: a map without entries.
#[verifier::external_body]
fn map_new() -> (m: IndexMap<String, usize, RandomState>)
    ensures
        map_entries(m) == Seq::<(Seq<char>, usize)>::empty(),
{
    IndexMap::new()
}

/// `IndexMap::insert` of indexmap. Where the key is in the map, it keeps its
/// place in the order, its value becomes `value`, and the value it had is
/// returned. Where it is not, the pair becomes the last entry and `None` is
/// returned.
#[verifier::external_body]
fn map_insert(m: &mut IndexMap<String, usize, RandomState>, key: String, value: usize) -> (had:
    Option<usize>)
    ensures
        map_entries(*final(m)) == with_entry(map_entries(*old(m)), key@, value),
        had == entry_value(map_entries(*old(m)), key@),
{
    m.insert(key, value)
}

/// `IndexMap::get` of indexmap: the value stored for the key, if the key is
/// in the map.
#[verifier::external_body]
fn map_get(m: &IndexMap<String, usize, RandomState>, key: &str) -> (value: Option<usize>)
    ensures
        value == entry_value(map_entries(*m), key@),
{
    m.get(key).copied()
}

/// `IndexMap::len` of indexmap: the number of entries.
#[verifier::external_body]
fn map_len(m: &IndexMap<String, usize, RandomState>) -> (n: usize)
    ensures
        n == map_entries(*m).len(),
{
    m.len()
}

/// `IndexMap::get_index` of indexmap: the entry at a place of the order, of
/// which the value is handed on; `None` beyond the last entry.
#[verifier::external_body]
fn map_value_at(m: &IndexMap<String, usize, RandomState>, place: usize) -> (value: Option<usize>)
    ensures
        value == if place < map_entries(*m).len() {
            Some(map_entries(*m)[place as int].1)
        } else {
            None
        },
{
    m.get_index(place).map(|entry| *entry.1)
}

/// The names of the peripherals, in their order.
pub open spec fn peripheral_names(peripherals: Seq<PeripheralDef>) -> Seq<Seq<char>> {
    peripherals.map_values(|p: PeripheralDef| p.name@)
}

/// Each name of `names` once, in the order in which the names first occur,
/// with the last position at which it stands.
pub open spec fn indexed(names: Seq<Seq<char>>) -> Seq<(Seq<char>, usize)>
    decreases names.len(),
{
    if names.len() == 0 {
        Seq::empty()
    } else {
        with_entry(indexed(names.drop_last()), names.last(), (names.len() - 1) as usize)
    }
}

/// The position of the definition whose content the peripheral at position
/// `own` takes: the peripheral called `derived_from`, or where there is none
/// of that name, or no `derived_from`, the peripheral itself.
pub open spec fn derivation_base(
    entries: Seq<(Seq<char>, usize)>,
    derived_from: Option<String>,
    own: usize,
) -> usize {
    match derived_from {
        Some(name) => match entry_value(entries, name@) {
            Some(base) => base,
            None => own,
        },
        None => own,
    }
}

/// The peripherals of a device by name.
pub struct NameIndex {
    map: IndexMap<String, usize, RandomState>,
}

impl NameIndex {
    /// The names with the positions of their peripherals, in order.
    pub closed spec fn entries(&self) -> Seq<(Seq<char>, usize)> {
        map_entries(self.map)
    }

    /// Enters the peripherals one after the other. Of two peripherals of one
    /// name the later one is entered in the place of the earlier.
    pub fn build(peripherals: &Vec<PeripheralDef>) -> (r: NameIndex)
        ensures
            r.entries() == indexed(peripheral_names(peripherals@)),
    {
        let mut map = map_new();
        let mut i: usize = 0;
        let ghost names = peripheral_names(peripherals@);
        assert(names.take(0) =~= Seq::<Seq<char>>::empty());
        while i < peripherals.len()
            invariant
                i <= peripherals@.len(),
                names == peripheral_names(peripherals@),
                map_entries(map) == indexed(names.take(i as int)),
            decreases peripherals@.len() - i,
        {
            let ghost next = names.take(i + 1);
            assert(next.drop_last() =~= names.take(i as int));
            assert(next.last() == peripherals@[i as int].name@);
            map_insert(&mut map, peripherals[i].name.clone(), i);
            i = i + 1;
        }
        assert(names.take(i as int) =~= names);
        NameIndex { map }
    }

    /// The number of different names.
    pub fn len(&self) -> (n: usize)
        ensures
            n == self.entries().len(),
    {
        map_len(&self.map)
    }

    /// The position of the peripheral whose name is the `place`-th in order.
    pub fn peripheral_at(&self, place: usize) -> (position: Option<usize>)
        ensures
            position == if place < self.entries().len() {
                Some(self.entries()[place as int].1)
            } else {
                None
            },
    {
        map_value_at(&self.map, place)
    }

    /// The position of the peripheral called `name`.
    pub fn find(&self, name: &str) -> (position: Option<usize>)
        ensures
            position == entry_value(self.entries(), name@),
    {
        map_get(&self.map, name)
    }

    /// The derivation resolver: the position of the definition whose content
    /// the peripheral at `own` takes. A name that no peripheral has is no
    /// error: the peripheral then keeps its own content.
    pub fn resolve_base(&self, derived_from: &Option<String>, own: usize) -> (base: usize)
        ensures
            base == derivation_base(self.entries(), *derived_from, own),
    {
        match derived_from {
            Some(name) => match self.find(name.as_str()) {
                Some(base) => base,
                None => own,
            },
            None => own,
        }
    }
}

/// An entry that is found stands at a place of the sequence, under its key.
pub proof fn lemma_entry_position(entries: Seq<(Seq<char>, usize)>, key: Seq<char>)
    ensures
        match entry_position(entries, key) {
            Some(i) => 0 <= i < entries.len() && entries[i].0 == key && forall|j: int|
                0 <= j < i ==> (#[trigger] entries[j]).0 != key,
            None => forall|j: int| 0 <= j < entries.len() ==> (#[trigger] entries[j]).0 != key,
        },
    decreases entries.len(),
{
    if entries.len() > 0 {
        lemma_entry_position(entries.drop_last(), key);
        assert(forall|j: int|
            0 <= j < entries.len() - 1 ==> entries.drop_last()[j] == #[trigger] entries[j]);
    }
}

/// Whether no two entries have the same key.
pub open spec fn keys_distinct(entries: Seq<(Seq<char>, usize)>) -> bool {
    forall|i: int, j: int|
        0 <= i < j < entries.len() ==> (#[trigger] entries[i]).0 != (#[trigger] entries[j]).0
}

/// What holds of the index of any list of names that a vector can hold: no
/// name stands twice, and every entry is a name of the list with a position
/// at which it stands.
pub proof fn lemma_indexed(names: Seq<Seq<char>>)
    requires
        names.len() <= usize::MAX,
    ensures
        keys_distinct(indexed(names)),
        indexed(names).len() <= names.len(),
        forall|i: int|
            0 <= i < indexed(names).len() ==> {
                &&& 0 <= (#[trigger] indexed(names)[i]).1 < names.len()
                &&& names[indexed(names)[i].1 as int] == indexed(names)[i].0
            },
        forall|k: int|
            0 <= k < names.len() ==> entry_position(indexed(names), #[trigger] names[k]) is Some,
    decreases names.len(),
{
    if names.len() > 0 {
        let shorter = names.drop_last();
        let before = indexed(shorter);
        let key = names.last();
        let value = (names.len() - 1) as usize;
        lemma_indexed(shorter);
        lemma_entry_position(before, key);
        let after = indexed(names);
        assert(after == with_entry(before, key, value));
        assert forall|i: int| 0 <= i < after.len() implies {
            &&& 0 <= (#[trigger] after[i]).1 < names.len()
            &&& names[after[i].1 as int] == after[i].0
        } by {
            if i < before.len() && after[i] == before[i] {
                assert(0 <= before[i].1 < shorter.len());
                assert(shorter[before[i].1 as int] == names[before[i].1 as int]);
            } else {
                assert(after[i] == (key, value));
            }
        }
        assert forall|i: int, j: int| 0 <= i < j < after.len() implies (#[trigger] after[i]).0 != (
        #[trigger] after[j]).0 by {
            if i < before.len() {
                assert(after[i].0 == before[i].0);
            }
            if j < before.len() {
                assert(after[j].0 == before[j].0);
            }
        }
        assert forall|k: int| 0 <= k < names.len() implies entry_position(
            after,
            #[trigger] names[k],
        ) is Some by {
            lemma_entry_position(after, names[k]);
            if k < names.len() - 1 {
                assert(shorter[k] == names[k]);
                lemma_entry_position(before, names[k]);
                let at = entry_position(before, names[k])->Some_0;
                assert(after[at].0 == names[k]);
            } else {
                match entry_position(before, key) {
                    Some(i) => {
                        assert(after[i].0 == key);
                    },
                    None => {
                        assert(after[after.len() - 1].0 == key);
                    },
                }
            }
        }
    }
}

/// A peripheral that names no other, or names one that does not exist, is
/// its own base: it keeps its own content.
pub proof fn lemma_unknown_base_is_self(
    peripherals: Vec<PeripheralDef>,
    derived_from: Option<String>,
    own: usize,
)
    requires
        derived_from matches Some(name) ==> forall|k: int|
            0 <= k < peripherals@.len() ==> (#[trigger] peripherals@[k]).name@ != name@,
    ensures
        derivation_base(indexed(peripheral_names(peripherals@)), derived_from, own) == own,
{
    let names = peripheral_names(peripherals@);
    match derived_from {
        Some(name) => {
            assert(peripherals.len() == peripherals@.len());
            lemma_indexed(names);
            lemma_entry_position(indexed(names), name@);
            if entry_position(indexed(names), name@) is Some {
                let i = entry_position(indexed(names), name@)->Some_0;
                let k = indexed(names)[i].1 as int;
                assert(names[k] == peripherals@[k].name@);
            }
        },
        None => {},
    }
}

} // verus!
