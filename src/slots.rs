//! Keyed collections of bodies and constraints. Keys stay valid while other
//! entries come and go, and a removed entry's key never finds another one.
use crate::constraint::Constraint;
use crate::soft_body::SoftBody;
use slotmap::{DefaultKey, HopSlotMap, Key, KeyData};
use vstd::prelude::*;

verus! {

/// Whether `id` has the shape of a slot-map key: an odd version in the
/// upper half.
pub open spec fn is_key_id(id: u64) -> bool {
    (id >> 32u64) & 1u64 == 1u64
}

/// Identifies a body of a simulation.
#[derive(Clone, Copy, Debug, PartialEq, Eq, Hash, Structural)]
pub struct SoftBodyKey {
    id: u64,
}

/// Identifies a constraint of a simulation.
#[derive(Clone, Copy, Debug, PartialEq, Eq, Hash, Structural)]
pub struct ConstraintKey {
    id: u64,
}

impl SoftBodyKey {
    #[verifier::type_invariant]
    pub closed spec fn inv(self) -> bool {
        is_key_id(self.id)
    }

    pub closed spec fn spec_id(self) -> u64 {
        self.id
    }

    /// The key as a plain integer, distinct for distinct keys.
    pub fn id(&self) -> (r: u64)
        ensures
            r == self.spec_id(),
    {
        self.id
    }
}

impl ConstraintKey {
    #[verifier::type_invariant]
    pub closed spec fn inv(self) -> bool {
        is_key_id(self.id)
    }

    pub closed spec fn spec_id(self) -> u64 {
        self.id
    }

    /// The key as a plain integer, distinct for distinct keys.
    pub fn id(&self) -> (r: u64)
        ensures
            r == self.spec_id(),
    {
        self.id
    }
}

/// The bodies of a simulation, each under its own key.
#[verifier::external_body]
pub struct SoftBodies {
    map: HopSlotMap<DefaultKey, SoftBody>,
}

/// The constraints of a simulation, each under its own key.
#[verifier::external_body]
pub struct Constraints {
    map: HopSlotMap<DefaultKey, Constraint>,
}

/// What a body collection holds, by key.
pub uninterp spec fn soft_bodies_of(m: SoftBodies) -> Map<SoftBodyKey, SoftBody>;

/// What a constraint collection holds, by key.
pub uninterp spec fn constraints_of(m: Constraints) -> Map<ConstraintKey, Constraint>;

/// The largest number of entries a collection may hold.
pub const MAX_ENTRIES: usize = 0xFFFF_FFFD;

/// Relies on HopSlotMap::new: a map with no entries.
#[verifier::external_body]
fn soft_bodies_new() -> (r: SoftBodies)
    ensures
        soft_bodies_of(r).is_empty(),
{
    SoftBodies { map: HopSlotMap::new() }
}

/// Relies on HopSlotMap::len: the number of entries.
#[verifier::external_body]
fn soft_bodies_len(m: &SoftBodies) -> (r: usize)
    ensures
        r == soft_bodies_of(*m).len(),
{
    m.map.len()
}

/// Relies on HopSlotMap::insert: the value goes in under a key that no
/// entry had; it panics only when the map is full.
#[verifier::external_body]
fn soft_bodies_insert(m: &mut SoftBodies, value: SoftBody) -> (r: SoftBodyKey)
    requires
        soft_bodies_of(*old(m)).len() <= MAX_ENTRIES,
    ensures
        !soft_bodies_of(*old(m)).contains_key(r),
        soft_bodies_of(*final(m)) == soft_bodies_of(*old(m)).insert(r, value),
{
    SoftBodyKey { id: m.map.insert(value).data().as_ffi() }
}

/// Relies on HopSlotMap::remove: takes out the entry of the key, if any.
#[verifier::external_body]
fn soft_bodies_remove(m: &mut SoftBodies, key: SoftBodyKey) -> (r: Option<SoftBody>)
    requires
        key.inv(),
    ensures
        r == (if soft_bodies_of(*old(m)).contains_key(key) {
            Some(soft_bodies_of(*old(m))[key])
        } else {
            None
        }),
        soft_bodies_of(*final(m)) == soft_bodies_of(*old(m)).remove(key),
{
    m.map.remove(DefaultKey::from(KeyData::from_ffi(key.id)))
}

/// Relies on HopSlotMap::get: the entry of the key, if any.
#[verifier::external_body]
fn soft_bodies_get(m: &SoftBodies, key: SoftBodyKey) -> (r: Option<&SoftBody>)
    requires
        key.inv(),
    ensures
        r.is_some() == soft_bodies_of(*m).contains_key(key),
        r.is_some() ==> *r.unwrap() == soft_bodies_of(*m)[key],
{
    m.map.get(DefaultKey::from(KeyData::from_ffi(key.id)))
}

/// Relies on HopSlotMap's IndexMut: the entry of a key that the map holds.
#[verifier::external_body]
fn soft_bodies_index_mut(m: &mut SoftBodies, key: SoftBodyKey) -> (r: &mut SoftBody)
    requires
        key.inv(),
        soft_bodies_of(*old(m)).contains_key(key),
    ensures
        *r == soft_bodies_of(*old(m))[key],
        soft_bodies_of(*final(m)) == soft_bodies_of(*old(m)).insert(key, *final(r)),
{
    &mut m.map[DefaultKey::from(KeyData::from_ffi(key.id))]
}

/// Relies on HopSlotMap::keys: every key of the map, once each.
#[verifier::external_body]
fn soft_bodies_keys(m: &SoftBodies) -> (r: Vec<SoftBodyKey>)
    ensures
        r@.no_duplicates() && r@.to_set() == soft_bodies_of(*m).dom(),
{
    m.map.keys().map(|k| SoftBodyKey { id: k.data().as_ffi() }).collect()
}

/// Relies on HopSlotMap::new: a map with no entries.
#[verifier::external_body]
fn constraints_new() -> (r: Constraints)
    ensures
        constraints_of(r).is_empty(),
{
    Constraints { map: HopSlotMap::new() }
}

/// Relies on HopSlotMap::len: the number of entries.
#[verifier::external_body]
fn constraints_len(m: &Constraints) -> (r: usize)
    ensures
        r == constraints_of(*m).len(),
{
    m.map.len()
}

/// Relies on HopSlotMap::insert: the value goes in under a key that no
/// entry had; it panics only when the map is full.
#[verifier::external_body]
fn constraints_insert(m: &mut Constraints, value: Constraint) -> (r: ConstraintKey)
    requires
        constraints_of(*old(m)).len() <= MAX_ENTRIES,
    ensures
        !constraints_of(*old(m)).contains_key(r),
        constraints_of(*final(m)) == constraints_of(*old(m)).insert(r, value),
{
    ConstraintKey { id: m.map.insert(value).data().as_ffi() }
}

/// Relies on HopSlotMap::remove: takes out the entry of the key, if any.
#[verifier::external_body]
fn constraints_remove(m: &mut Constraints, key: ConstraintKey) -> (r: Option<Constraint>)
    requires
        key.inv(),
    ensures
        r == (if constraints_of(*old(m)).contains_key(key) {
            Some(constraints_of(*old(m))[key])
        } else {
            None
        }),
        constraints_of(*final(m)) == constraints_of(*old(m)).remove(key),
{
    m.map.remove(DefaultKey::from(KeyData::from_ffi(key.id)))
}

/// Relies on HopSlotMap::get: the entry of the key, if any.
#[verifier::external_body]
fn constraints_get(m: &Constraints, key: ConstraintKey) -> (r: Option<&Constraint>)
    requires
        key.inv(),
    ensures
        r.is_some() == constraints_of(*m).contains_key(key),
        r.is_some() ==> *r.unwrap() == constraints_of(*m)[key],
{
    m.map.get(DefaultKey::from(KeyData::from_ffi(key.id)))
}

/// Relies on HopSlotMap's IndexMut: the entry of a key that the map holds.
#[verifier::external_body]
fn constraints_index_mut(m: &mut Constraints, key: ConstraintKey) -> (r: &mut Constraint)
    requires
        key.inv(),
        constraints_of(*old(m)).contains_key(key),
    ensures
        *r == constraints_of(*old(m))[key],
        constraints_of(*final(m)) == constraints_of(*old(m)).insert(key, *final(r)),
{
    &mut m.map[DefaultKey::from(KeyData::from_ffi(key.id))]
}

/// Relies on HopSlotMap::keys: every key of the map, once each.
#[verifier::external_body]
fn constraints_keys(m: &Constraints) -> (r: Vec<ConstraintKey>)
    ensures
        r@.no_duplicates() && r@.to_set() == constraints_of(*m).dom(),
{
    m.map.keys().map(|k| ConstraintKey { id: k.data().as_ffi() }).collect()
}

impl View for SoftBodies {
    type V = Map<SoftBodyKey, SoftBody>;

    open spec fn view(&self) -> Map<SoftBodyKey, SoftBody> {
        soft_bodies_of(*self)
    }
}

impl View for Constraints {
    type V = Map<ConstraintKey, Constraint>;

    open spec fn view(&self) -> Map<ConstraintKey, Constraint> {
        constraints_of(*self)
    }
}

impl SoftBodies {
    pub fn new() -> (r: SoftBodies)
        ensures
            r@ == Map::<SoftBodyKey, SoftBody>::empty(),
    {
        let r = soft_bodies_new();
        assert(r@ =~= Map::<SoftBodyKey, SoftBody>::empty());
        r
    }

    pub fn len(&self) -> (r: usize)
        ensures
            r == self@.len(),
    {
        soft_bodies_len(self)
    }

    /// Adds a body under a fresh key.
    pub fn insert(&mut self, value: SoftBody) -> (r: SoftBodyKey)
        requires
            old(self)@.len() <= MAX_ENTRIES,
        ensures
            !old(self)@.contains_key(r),
            final(self)@ == old(self)@.insert(r, value),
    {
        soft_bodies_insert(self, value)
    }

    pub fn remove(&mut self, key: SoftBodyKey) -> (r: Option<SoftBody>)
        ensures
            r == (if old(self)@.contains_key(key) {
                Some(old(self)@[key])
            } else {
                None
            }),
            final(self)@ == old(self)@.remove(key),
    {
        proof {
            use_type_invariant(&key);
        }
        soft_bodies_remove(self, key)
    }

    pub fn get(&self, key: SoftBodyKey) -> (r: Option<&SoftBody>)
        ensures
            r.is_some() == self@.contains_key(key),
            r.is_some() ==> *r.unwrap() == self@[key],
    {
        proof {
            use_type_invariant(&key);
        }
        soft_bodies_get(self, key)
    }

    pub fn contains_key(&self, key: SoftBodyKey) -> (r: bool)
        ensures
            r == self@.contains_key(key),
    {
        self.get(key).is_some()
    }

    pub fn index_mut(&mut self, key: SoftBodyKey) -> (r: &mut SoftBody)
        requires
            old(self)@.contains_key(key),
        ensures
            *r == old(self)@[key],
            final(self)@ == old(self)@.insert(key, *final(r)),
    {
        proof {
            use_type_invariant(&key);
        }
        soft_bodies_index_mut(self, key)
    }

    pub fn keys(&self) -> (r: Vec<SoftBodyKey>)
        ensures
            r@.no_duplicates(),
            r@.to_set() == self@.dom(),
    {
        soft_bodies_keys(self)
    }
}

impl Constraints {
    pub fn new() -> (r: Constraints)
        ensures
            r@ == Map::<ConstraintKey, Constraint>::empty(),
    {
        let r = constraints_new();
        assert(r@ =~= Map::<ConstraintKey, Constraint>::empty());
        r
    }

    pub fn len(&self) -> (r: usize)
        ensures
            r == self@.len(),
    {
        constraints_len(self)
    }

    /// Adds a constraint under a fresh key.
    pub fn insert(&mut self, value: Constraint) -> (r: ConstraintKey)
        requires
            old(self)@.len() <= MAX_ENTRIES,
        ensures
            !old(self)@.contains_key(r),
            final(self)@ == old(self)@.insert(r, value),
    {
        constraints_insert(self, value)
    }

    pub fn remove(&mut self, key: ConstraintKey) -> (r: Option<Constraint>)
        ensures
            r == (if old(self)@.contains_key(key) {
                Some(old(self)@[key])
            } else {
                None
            }),
            final(self)@ == old(self)@.remove(key),
    {
        proof {
            use_type_invariant(&key);
        }
        constraints_remove(self, key)
    }

    pub fn get(&self, key: ConstraintKey) -> (r: Option<&Constraint>)
        ensures
            r.is_some() == self@.contains_key(key),
            r.is_some() ==> *r.unwrap() == self@[key],
    {
        proof {
            use_type_invariant(&key);
        }
        constraints_get(self, key)
    }

    pub fn index_mut(&mut self, key: ConstraintKey) -> (r: &mut Constraint)
        requires
            old(self)@.contains_key(key),
        ensures
            *r == old(self)@[key],
            final(self)@ == old(self)@.insert(key, *final(r)),
    {
        proof {
            use_type_invariant(&key);
        }
        constraints_index_mut(self, key)
    }

    pub fn keys(&self) -> (r: Vec<ConstraintKey>)
        ensures
            r@.no_duplicates(),
            r@.to_set() == self@.dom(),
    {
        constraints_keys(self)
    }
}

} // verus!
