//! Side tables: values kept per address.

use std::collections::HashMap;
use std::collections::HashSet;
use vstd::prelude::*;
use vstd::std_specs::iter::IteratorSpec;

verus! {

broadcast use vstd::std_specs::hash::group_hash_axioms;

/// The value that `map` holds for `key`, or `default` where it holds none.
pub open spec fn lookup<V>(map: Map<usize, V>, key: usize, default: V) -> V {
    if map.contains_key(key) {
        map[key]
    } else {
        default
    }
}

/// A table of values keyed by address.
pub struct AddressTable<V> {
    entries: HashMap<usize, V>,
}

impl<V> View for AddressTable<V> {
    type V = Map<usize, V>;

    closed spec fn view(&self) -> Map<usize, V> {
        self.entries@
    }
}

impl<V> AddressTable<V> {
    /// The empty table.
    pub fn new() -> (table: Self)
        ensures
            table@ == Map::<usize, V>::empty(),
    {
        AddressTable { entries: HashMap::new() }
    }

    /// The entry at `key`.
    pub fn get(&self, key: usize) -> (entry: Option<&V>)
        ensures
            entry == (if self@.contains_key(key) {
                Some(&self@[key])
            } else {
                None
            }),
    {
        self.entries.get(&key)
    }

    /// Whether there is an entry at `key`.
    pub fn contains(&self, key: usize) -> (found: bool)
        ensures
            found == self@.contains_key(key),
    {
        self.entries.contains_key(&key)
    }

    /// Puts `value` at `key`, in place of what was there.
    pub fn set(&mut self, key: usize, value: V)
        ensures
            final(self)@ == old(self)@.insert(key, value),
    {
        self.entries.insert(key, value);
    }

    /// The keys of the table, in any order.
    pub fn keys(&self) -> (keys: Vec<usize>)
        ensures
            forall|key: usize| #[trigger] keys@.contains(key) == self@.contains_key(key),
    {
        let mut keys: Vec<usize> = Vec::new();
        for key in iter: self.entries.keys()
            invariant
                keys@.len() == iter.index(),
                forall|i: int| 0 <= i < keys@.len() ==> keys@[i] == *iter.seq()[i],
        {
            keys.push(*key);
        }
        proof {
            let all = self.entries.keys().remaining().unref();
            assert(keys@ =~= all);
            assert forall|key: usize| #[trigger]
                keys@.contains(key) == self@.contains_key(key) by {
                assert(all.to_set().contains(key) == all.contains(key));
            }
        }
        keys
    }

    /// A table holds finitely many entries.
    pub proof fn finite(&self)
        ensures
            self@.dom().finite(),
    {
    }
}

impl<V: Copy> AddressTable<V> {
    /// The value at `key`, or `default`.
    pub fn get_or(&self, key: usize, default: V) -> (value: V)
        ensures
            value == lookup(self@, key, default),
    {
        match self.entries.get(&key) {
            Some(value) => *value,
            None => default,
        }
    }
}

/// A set of addresses.
pub struct AddressSet {
    members: HashSet<usize>,
}

impl View for AddressSet {
    type V = Set<usize>;

    closed spec fn view(&self) -> Set<usize> {
        self.members@
    }
}

impl AddressSet {
    /// The empty set.
    pub fn new() -> (set: Self)
        ensures
            set@ == Set::<usize>::empty(),
    {
        AddressSet { members: HashSet::new() }
    }

    /// Whether `address` is in the set.
    pub fn contains(&self, address: usize) -> (found: bool)
        ensures
            found == self@.contains(address),
    {
        self.members.contains(&address)
    }

    /// Adds `address`.
    pub fn insert(&mut self, address: usize)
        ensures
            final(self)@ == old(self)@.insert(address),
    {
        self.members.insert(address);
    }
}

} // verus!
