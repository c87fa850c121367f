//! Identities and the hashed collections that are keyed by them.
//!
//! The collections are `bevy::utils::HashSet` and `bevy::utils::HashMap`. Their
//! contents are named by `ids_of` and `entries_of`; the contracts of the methods
//! below are taken on trust from the collections' documentation.
use itertools::Itertools;
use vstd::prelude::*;

verus! {

/// An opaque, stable identity. It never changes for the lifetime of a world.
pub type Entity = usize;

/// An unordered set of identities.
#[verifier::external_body]
pub struct IdSet {
    inner: bevy::utils::HashSet<usize>,
}

/// The identities that a set holds.
pub uninterp spec fn ids_of(set: IdSet) -> Set<Entity>;

impl View for IdSet {
    type V = Set<Entity>;

    open spec fn view(&self) -> Set<Entity> {
        ids_of(*self)
    }
}

impl IdSet {
    /// Trusted: `HashSet::default` gives a set that holds nothing.
    #[verifier::external_body]
    pub(crate) fn new() -> (empty: IdSet)
        ensures
            ids_of(empty) == Set::<Entity>::empty(),
    {
        IdSet { inner: bevy::utils::HashSet::default() }
    }

    /// Trusted: `HashSet::insert` adds the value and answers whether it was absent before.
    #[verifier::external_body]
    pub(crate) fn insert(&mut self, id: Entity) -> (fresh: bool)
        ensures
            ids_of(*final(self)) == ids_of(*old(self)).insert(id),
            fresh == !ids_of(*old(self)).contains(id),
    {
        self.inner.insert(id)
    }

    /// Trusted: `HashSet::len` is the number of values held.
    #[verifier::external_body]
    pub(crate) fn len(&self) -> (n: usize)
        ensures
            n == ids_of(*self).len(),
    {
        self.inner.len()
    }

    /// Trusted: `HashSet::iter` visits every value exactly once, in an order that
    /// is not specified, and `Itertools::collect_vec` collects the values as they
    /// come.
    #[verifier::external_body]
    pub(crate) fn to_vec(&self) -> (ids: Vec<Entity>)
        ensures
            ids@.no_duplicates(),
            ids@.to_set() == ids_of(*self),
    {
        self.inner.iter().cloned().collect_vec()
    }
}

/// A map from an identity to a number.
#[verifier::external_body]
pub struct IdMap {
    inner: bevy::utils::HashMap<usize, u64>,
}

/// The entries that a map holds.
pub uninterp spec fn entries_of(map: IdMap) -> Map<Entity, u64>;

impl View for IdMap {
    type V = Map<Entity, u64>;

    open spec fn view(&self) -> Map<Entity, u64> {
        entries_of(*self)
    }
}

impl IdMap {
    /// Trusted: `HashMap::default` gives a map that holds nothing.
    #[verifier::external_body]
    pub(crate) fn new() -> (empty: IdMap)
        ensures
            entries_of(empty) =~= Map::empty(),
    {
        IdMap { inner: bevy::utils::HashMap::default() }
    }

    /// Trusted: `HashMap::get` gives the value stored under the key, if there is one.
    #[verifier::external_body]
    pub(crate) fn get(&self, id: Entity) -> (value: Option<u64>)
        ensures
            value == (if entries_of(*self).contains_key(id) {
                Some(entries_of(*self)[id])
            } else {
                None
            }),
    {
        self.inner.get(&id).copied()
    }

    /// Trusted: `HashMap::insert` stores the value under the key, replacing any
    /// earlier one, and leaves the other entries alone.
    #[verifier::external_body]
    pub(crate) fn insert(&mut self, id: Entity, value: u64)
        ensures
            entries_of(*final(self)) == entries_of(*old(self)).insert(id, value),
    {
        self.inner.insert(id, value);
    }

    /// Trusted: `HashMap::iter` visits every entry exactly once, in an order that
    /// is not specified; the entries are collected as they come.
    #[verifier::external_body]
    pub(crate) fn to_vec(&self) -> (entries: Vec<(Entity, u64)>)
        ensures
            forall|i: int, j: int|
                0 <= i < j < entries@.len() ==> entries@[i].0 != entries@[j].0,
            forall|i: int|
                0 <= i < entries@.len() ==> entries_of(*self).contains_pair(
                    (#[trigger] entries@[i]).0,
                    entries@[i].1,
                ),
            forall|id: Entity| #[trigger]
                entries_of(*self).contains_key(id) ==> exists|i: int|
                    0 <= i < entries@.len() && (#[trigger] entries@[i]).0 == id,
    {
        self.inner.iter().map(|(id, value)| (*id, *value)).collect()
    }
}

/// The number that a map holds for `id`, or none where it holds nothing.
pub open spec fn count_in(sizes: Map<Entity, u64>, id: Entity) -> nat {
    if sizes.contains_key(id) {
        sizes[id] as nat
    } else {
        0
    }
}

/// Identities below `n` that are all different are at most `n`.
pub proof fn distinct_ids_are_few(order: Seq<Entity>, n: nat)
    requires
        order.no_duplicates(),
        forall|k: int| 0 <= k < order.len() ==> #[trigger] order[k] < n,
    ensures
        order.len() <= n,
{
    let ids = Seq::new(order.len(), |i: int| order[i] as int);
    assert(ids.no_duplicates());
    ids.unique_seq_to_set();
    vstd::set_lib::lemma_int_range(0, n as int);
    assert(ids.to_set().subset_of(vstd::set_lib::set_int_range(0, n as int))) by {
        assert forall|v: int| ids.to_set().contains(v) implies vstd::set_lib::set_int_range(
            0,
            n as int,
        ).contains(v) by {
            let i = choose|i: int| 0 <= i < ids.len() && ids[i] == v;
            assert(order[i] < n);
        }
    }
    vstd::set_lib::lemma_len_subset(ids.to_set(), vstd::set_lib::set_int_range(0, n as int));
}

/// The items of `items` whose ordering key is `key`, in the order in which they stand.
pub open spec fn keyed(items: Seq<(Entity, usize)>, key: usize) -> Seq<(Entity, usize)> {
    items.filter(|item: (Entity, usize)| item.1 == key)
}

/// Whether the ordering keys never fall from one item to the next.
pub open spec fn ascending(items: Seq<(Entity, usize)>) -> bool {
    forall|i: int, j: int| 0 <= i <= j < items.len() ==> items[i].1 <= items[j].1
}

/// Trusted: `Itertools::sorted_by_key` returns the same items in ascending order
/// of the key, here the second component, and keeps items of equal key in the
/// order in which they came.
#[verifier::external_body]
pub(crate) fn sorted_by_index(items: Vec<(Entity, usize)>) -> (sorted: Vec<(Entity, usize)>)
    ensures
        sorted@.to_multiset() == items@.to_multiset(),
        ascending(sorted@),
        forall|key: usize| #[trigger] keyed(sorted@, key) == keyed(items@, key),
{
    items.into_iter().sorted_by_key(|item| item.1).collect()
}

} // verus!
