//! Hash tables keyed by point identity.

use crate::order::ExtendedPointId;
use vstd::prelude::*;

verus! {

/// The hasher state of `ahash`; nothing is known of a value of it.
#[verifier::external_type_specification]
#[verifier::external_body]
pub struct ExRandomState(ahash::RandomState);

/// The hash map of `ahash`; `slots_of` names what one holds.
#[verifier::external_type_specification]
#[verifier::external_body]
#[verifier::reject_recursive_types(K)]
#[verifier::reject_recursive_types(V)]
#[verifier::reject_recursive_types(S)]
pub struct ExAHashMap<K, V, S>(ahash::AHashMap<K, V, S>);

/// The hash set of `ahash`; `members_of` names what one holds.
#[verifier::external_type_specification]
#[verifier::external_body]
#[verifier::reject_recursive_types(T)]
#[verifier::reject_recursive_types(S)]
pub struct ExAHashSet<T, S>(ahash::AHashSet<T, S>);

/// What a hash map holds: the slot of every key.
pub uninterp spec fn slots_of(map: ahash::AHashMap<(u8, u128), usize>) -> Map<(u8, u128), usize>;

/// What a hash set holds: its members.
pub uninterp spec fn members_of(set: ahash::AHashSet<(u8, u128)>) -> Set<(u8, u128)>;

/// `ahash::AHashMap::new` makes a map that holds nothing.
#[verifier::external_body]
fn map_new() -> (map: ahash::AHashMap<(u8, u128), usize>)
    ensures
        slots_of(map).dom() == Set::<(u8, u128)>::empty(),
{
    ahash::AHashMap::new()
}

/// `ahash::AHashMap::get` returns the value of a key, where the map holds the key.
#[verifier::external_body]
fn map_get(map: &ahash::AHashMap<(u8, u128), usize>, key: (u8, u128)) -> (slot: Option<usize>)
    ensures
        slot == (if slots_of(*map).dom().contains(key) {
            Some(slots_of(*map)[key])
        } else {
            None
        }),
{
    map.get(&key).copied()
}

/// `ahash::AHashMap::insert` gives a key a value in place of the one it had.
#[verifier::external_body]
fn map_insert(map: &mut ahash::AHashMap<(u8, u128), usize>, key: (u8, u128), slot: usize)
    ensures
        slots_of(*final(map)) == slots_of(*old(map)).insert(key, slot),
{
    map.insert(key, slot);
}

/// `ahash::AHashSet::new` makes a set without members.
#[verifier::external_body]
fn set_new() -> (set: ahash::AHashSet<(u8, u128)>)
    ensures
        members_of(set) == Set::<(u8, u128)>::empty(),
{
    ahash::AHashSet::new()
}

/// `insert` of the set inside an `ahash::AHashSet` adds a member and returns
/// whether it was new.
#[verifier::external_body]
fn set_insert(set: &mut ahash::AHashSet<(u8, u128)>, key: (u8, u128)) -> (added: bool)
    ensures
        members_of(*final(set)) == members_of(*old(set)).insert(key),
        added == !members_of(*old(set)).contains(key),
{
    set.insert(key)
}

/// `contains` of the set inside an `ahash::AHashSet` returns whether a key is a
/// member.
#[verifier::external_body]
fn set_contains(set: &ahash::AHashSet<(u8, u128)>, key: (u8, u128)) -> (found: bool)
    ensures
        found == members_of(*set).contains(key),
{
    set.contains(&key)
}

/// The hashed form of an identity: its kind and its value.
pub open spec fn id_key(id: ExtendedPointId) -> (u8, u128) {
    match id {
        ExtendedPointId::NumId(number) => (0u8, number as u128),
        ExtendedPointId::Uuid(uuid) => (1u8, uuid),
    }
}

/// The hashed form of an identity: its kind and its value.
fn key_of(id: ExtendedPointId) -> (key: (u8, u128))
    ensures
        key == id_key(id),
{
    match id {
        ExtendedPointId::NumId(number) => (0u8, number as u128),
        ExtendedPointId::Uuid(uuid) => (1u8, uuid),
    }
}

/// A map from identities to slots of a table.
pub struct IdIndex {
    slots: ahash::AHashMap<(u8, u128), usize>,
}

impl View for IdIndex {
    type V = Map<ExtendedPointId, usize>;

    closed spec fn view(&self) -> Map<ExtendedPointId, usize> {
        Map::new(
            |id: ExtendedPointId| slots_of(self.slots).dom().contains(id_key(id)),
            |id: ExtendedPointId| slots_of(self.slots)[id_key(id)],
        )
    }
}

impl IdIndex {
    /// An index without identities.
    pub fn new() -> (index: IdIndex)
        ensures
            index@ == Map::<ExtendedPointId, usize>::empty(),
    {
        let index = IdIndex { slots: map_new() };
        assert(index@ =~= Map::<ExtendedPointId, usize>::empty());
        index
    }

    /// The slot of an identity.
    pub fn get(&self, id: ExtendedPointId) -> (slot: Option<usize>)
        ensures
            slot == (if self@.dom().contains(id) {
                Some(self@[id])
            } else {
                None
            }),
    {
        map_get(&self.slots, key_of(id))
    }

    /// Gives an identity a slot.
    pub fn insert(&mut self, id: ExtendedPointId, slot: usize)
        ensures
            final(self)@ == old(self)@.insert(id, slot),
    {
        map_insert(&mut self.slots, key_of(id), slot);
        assert(self@ =~= old(self)@.insert(id, slot));
    }
}

/// A set of identities.
pub struct IdSet {
    members: ahash::AHashSet<(u8, u128)>,
}

impl View for IdSet {
    type V = Set<ExtendedPointId>;

    closed spec fn view(&self) -> Set<ExtendedPointId> {
        Set::new(|id: ExtendedPointId| members_of(self.members).contains(id_key(id)))
    }
}

impl IdSet {
    /// A set without identities.
    pub fn new() -> (set: IdSet)
        ensures
            set@ == Set::<ExtendedPointId>::empty(),
    {
        let set = IdSet { members: set_new() };
        assert(set@ =~= Set::<ExtendedPointId>::empty());
        set
    }

    /// Whether an identity is a member.
    pub fn contains(&self, id: ExtendedPointId) -> (found: bool)
        ensures
            found == self@.contains(id),
    {
        set_contains(&self.members, key_of(id))
    }

    /// Adds an identity and returns whether it was new.
    pub fn insert(&mut self, id: ExtendedPointId) -> (added: bool)
        ensures
            final(self)@ == old(self)@.insert(id),
            added == !old(self)@.contains(id),
    {
        let added = set_insert(&mut self.members, key_of(id));
        assert(self@ =~= old(self)@.insert(id));
        added
    }
}

} // verus!
