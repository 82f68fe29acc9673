//! The two hash maps of the store, as far as the verifier is concerned.
//!
//! Both are `hashbrown::HashMap`s. Nothing in this file is proved: each
//! function states what the map's own documentation promises of the call it
//! makes, over the map's entries taken as a mathematical `Map`.

use vstd::prelude::*;

verus! {

/// A hash map from an operand list to the handle of the pool slot that
/// holds it.
#[verifier::external_body]
pub struct OperandIndex {
    map: hashbrown::HashMap<Vec<u32>, u32>,
}

/// The entries of an `OperandIndex`: each operand list that has an entry,
/// with the handle stored under it.
pub uninterp spec fn operand_entries(index: OperandIndex) -> Map<Seq<u32>, u32>;

impl OperandIndex {
    /// `hashbrown::HashMap::new`: a map without entries.
    #[verifier::external_body]
    pub(crate) fn new() -> (index: OperandIndex)
        ensures
            operand_entries(index) == (Map::<Seq<u32>, u32>::empty()),
    {
        OperandIndex { map: hashbrown::HashMap::new() }
    }

    /// `hashbrown::HashMap::get`: the handle stored under `key`, `None`
    /// where `key` has no entry.
    #[verifier::external_body]
    pub(crate) fn get(&self, key: &Vec<u32>) -> (found: Option<u32>)
        ensures
            found == (if operand_entries(*self).contains_key(key@) {
                Some(operand_entries(*self)[key@])
            } else {
                None
            }),
    {
        self.map.get(key).copied()
    }

    /// `hashbrown::HashMap::insert`: afterwards `key` maps to `handle` and
    /// every other entry is as before; the handle that `key` had is
    /// returned.
    #[verifier::external_body]
    pub(crate) fn insert(&mut self, key: Vec<u32>, handle: u32) -> (previous: Option<u32>)
        ensures
            operand_entries(*final(self)) == operand_entries(*old(self)).insert(key@, handle),
            previous == (if operand_entries(*old(self)).contains_key(key@) {
                Some(operand_entries(*old(self))[key@])
            } else {
                None
            }),
    {
        self.map.insert(key, handle)
    }

    /// `hashbrown::HashMap::remove`: afterwards `key` has no entry and
    /// every other entry is as before; the handle that `key` had is
    /// returned.
    #[verifier::external_body]
    pub(crate) fn remove(&mut self, key: &Vec<u32>) -> (previous: Option<u32>)
        ensures
            operand_entries(*final(self)) == operand_entries(*old(self)).remove(key@),
            previous == (if operand_entries(*old(self)).contains_key(key@) {
                Some(operand_entries(*old(self))[key@])
            } else {
                None
            }),
    {
        self.map.remove(key)
    }

    /// `Clone::clone` of `hashbrown::HashMap`: a map with the same entries.
    #[verifier::external_body]
    pub(crate) fn duplicate(&self) -> (copy: OperandIndex)
        ensures
            operand_entries(copy) == operand_entries(*self),
    {
        OperandIndex { map: self.map.clone() }
    }
}

/// A hash map from the identity token of a resource to the position at
/// which the resource is registered.
#[verifier::external_body]
pub struct IdentityIndex {
    map: hashbrown::HashMap<u64, u32>,
}

/// The entries of an `IdentityIndex`: each identity token that has an
/// entry, with the position stored under it.
pub uninterp spec fn identity_entries(index: IdentityIndex) -> Map<u64, u32>;

impl IdentityIndex {
    /// `hashbrown::HashMap::new`: a map without entries.
    #[verifier::external_body]
    pub(crate) fn new() -> (index: IdentityIndex)
        ensures
            identity_entries(index) == (Map::<u64, u32>::empty()),
    {
        IdentityIndex { map: hashbrown::HashMap::new() }
    }

    /// `hashbrown::HashMap::get`: the position stored under `id`, `None`
    /// where `id` has no entry.
    #[verifier::external_body]
    pub(crate) fn get(&self, id: u64) -> (found: Option<u32>)
        ensures
            found == (if identity_entries(*self).contains_key(id) {
                Some(identity_entries(*self)[id])
            } else {
                None
            }),
    {
        self.map.get(&id).copied()
    }

    /// `hashbrown::HashMap::insert`: afterwards `id` maps to `position` and
    /// every other entry is as before; the position that `id` had is
    /// returned.
    #[verifier::external_body]
    pub(crate) fn insert(&mut self, id: u64, position: u32) -> (previous: Option<u32>)
        ensures
            identity_entries(*final(self)) == identity_entries(*old(self)).insert(id, position),
            previous == (if identity_entries(*old(self)).contains_key(id) {
                Some(identity_entries(*old(self))[id])
            } else {
                None
            }),
    {
        self.map.insert(id, position)
    }

    /// `Clone::clone` of `hashbrown::HashMap`: a map with the same entries.
    #[verifier::external_body]
    pub(crate) fn duplicate(&self) -> (copy: IdentityIndex)
        ensures
            identity_entries(copy) == identity_entries(*self),
    {
        IdentityIndex { map: self.map.clone() }
    }
}

} // verus!
