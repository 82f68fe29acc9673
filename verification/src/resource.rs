//! Resources and the table that gives each registered resource its index.

use crate::error::CircuitError;
use crate::hash_index::{identity_entries, IdentityIndex};
use crate::intern_context::BitType;
use vstd::prelude::*;

verus! {

/// A resource, such as a qubit or a classical bit, as far as the store
/// looks at it: the token of its identity and its written representation.
#[derive(Debug)]
pub struct Resource {
    pub id: u64,
    pub repr: String,
}

impl Clone for Resource {
    /// A resource with the same identity and representation.
    fn clone(&self) -> (copy: Resource)
        ensures
            copy == *self,
    {
        Resource { id: self.id, repr: self.repr.clone() }
    }
}

/// Whether `a` and `b` are the same resource: they have one identity, or
/// else they are written alike.
pub open spec fn same_resource(a: Resource, b: Resource) -> bool {
    a.id == b.id || a.repr@ == b.repr@
}

impl Resource {
    /// Whether `other` is the same resource: it has this one's identity, or
    /// else it is written alike.
    pub fn is_same(&self, other: &Resource) -> (same: bool)
        ensures
            same == same_resource(*self, *other),
    {
        self.id == other.id || self.repr == other.repr
    }
}

/// Whether `a` and `b` are equal element for element.
pub open spec fn same_resources(a: Seq<Resource>, b: Seq<Resource>) -> bool {
    &&& a.len() == b.len()
    &&& forall|k: int| 0 <= k < a.len() ==> same_resource(#[trigger] a[k], b[k])
}

/// Whether `resource` is the same as one of `table`.
pub open spec fn is_registered(table: Seq<Resource>, resource: Resource) -> bool {
    exists|i: int| 0 <= i < table.len() && same_resource(#[trigger] table[i], resource)
}

/// Whether position `i` of `table` is where `resource` is found: the
/// resource there has its identity, or no resource of the table has it and
/// the one there is written alike.
pub open spec fn found_at(table: Seq<Resource>, resource: Resource, i: int) -> bool {
    &&& 0 <= i < table.len()
    &&& same_resource(table[i], resource)
    &&& table[i].id == resource.id || forall|j: int|
        0 <= j < table.len() ==> (#[trigger] table[j]).id != resource.id
}

/// The position at which `resource` is found in `table`.
pub open spec fn position_of(table: Seq<Resource>, resource: Resource) -> int
    recommends
        is_registered(table, resource),
{
    choose|i: int| found_at(table, resource, i)
}

/// The invariant of a table: every position is an index, and no two of its
/// resources are the same.
pub open spec fn table_wf(table: Seq<Resource>) -> bool {
    &&& table.len() <= u32::MAX
    &&& forall|i: int, j: int|
        0 <= i < table.len() && 0 <= j < table.len() && i != j ==> !same_resource(
            #[trigger] table[i],
            #[trigger] table[j],
        )
}

/// The indices of `resources` in `table`, in order.
pub open spec fn positions_of(table: Seq<Resource>, resources: Seq<Resource>) -> Seq<BitType> {
    Seq::new(resources.len(), |k: int| position_of(table, resources[k]) as BitType)
}

/// Whether each of `resources` is registered in `table`.
pub open spec fn all_registered(table: Seq<Resource>, resources: Seq<Resource>) -> bool {
    forall|k: int| 0 <= k < resources.len() ==> is_registered(table, #[trigger] resources[k])
}

/// In a table that keeps its invariant a registered resource is found at
/// one position only.
pub proof fn lemma_found_at_unique(table: Seq<Resource>, resource: Resource, i: int)
    requires
        table_wf(table),
        found_at(table, resource, i),
    ensures
        is_registered(table, resource),
        position_of(table, resource) == i,
{
    let chosen = position_of(table, resource);
    assert(found_at(table, resource, chosen));
    if chosen != i {
        if table[i].id == resource.id {
            assert(table[chosen].id == resource.id);
        } else {
            assert(table[chosen].id != resource.id);
        }
        assert(same_resource(table[i], table[chosen]));
    }
}

/// A registered resource is found somewhere.
pub proof fn lemma_registered_is_found(table: Seq<Resource>, resource: Resource)
    requires
        is_registered(table, resource),
    ensures
        found_at(table, resource, position_of(table, resource)),
{
    let i = choose|i: int| 0 <= i < table.len() && same_resource(#[trigger] table[i], resource);
    if exists|j: int| 0 <= j < table.len() && (#[trigger] table[j]).id == resource.id {
        let j = choose|j: int| 0 <= j < table.len() && (#[trigger] table[j]).id == resource.id;
        assert(found_at(table, resource, j));
    } else {
        assert(found_at(table, resource, i));
    }
}

/// Each resource of a table that keeps its invariant is found at its own
/// position.
pub proof fn lemma_position_of_entry(table: Seq<Resource>, i: int)
    requires
        table_wf(table),
        0 <= i < table.len(),
    ensures
        is_registered(table, table[i]),
        position_of(table, table[i]) == i,
{
    assert(found_at(table, table[i], i));
    lemma_found_at_unique(table, table[i], i);
}

/// An index is never given away again: when a further resource has been
/// registered, the new one is found at the end and every resource of the
/// table at the position it had.
pub proof fn lemma_registration_keeps_indices(table: Seq<Resource>, resource: Resource, i: int)
    requires
        table_wf(table),
        table_wf(table.push(resource)),
        0 <= i < table.len(),
    ensures
        position_of(table.push(resource), resource) == table.len(),
        position_of(table.push(resource), table[i]) == position_of(table, table[i]),
{
    let longer = table.push(resource);
    lemma_position_of_entry(table, i);
    assert(longer[i] == table[i]);
    lemma_position_of_entry(longer, i);
    assert(longer[table.len() as int] == resource);
    lemma_position_of_entry(longer, table.len() as int);
}

/// The registry of one domain: its resources in the order of their
/// registration, the index of each being its position.
pub struct ResourceTable {
    resources: Vec<Resource>,
    indices: IdentityIndex,
}

impl View for ResourceTable {
    type V = Seq<Resource>;

    /// The registered resources, each at the position of its index.
    closed spec fn view(&self) -> Seq<Resource> {
        self.resources@
    }
}

impl ResourceTable {
    /// Whether the identity map finds exactly the registered resources,
    /// each at its position.
    pub closed spec fn index_agrees(&self) -> bool {
        let entries = identity_entries(self.indices);
        &&& forall|id: u64| #[trigger]
            entries.contains_key(id) ==> entries[id] < self@.len() && self@[entries[id] as int].id
                == id
        &&& forall|i: int|
            0 <= i < self@.len() ==> entries.contains_key((#[trigger] self@[i]).id)
                && entries[self@[i].id] == i
    }

    /// The invariant of the table.
    pub open spec fn wf(&self) -> bool {
        table_wf(self@) && self.index_agrees()
    }

    /// A table without resources.
    pub fn new() -> (table: ResourceTable)
        ensures
            table.wf(),
            table@ == Seq::<Resource>::empty(),
    {
        ResourceTable { resources: Vec::new(), indices: IdentityIndex::new() }
    }

    /// A table of `resources`, registered in their order;
    /// `DuplicateResource` where two of them are the same.
    pub fn from_resources(resources: Vec<Resource>) -> (table: Result<ResourceTable, CircuitError>)
        requires
            resources@.len() <= u32::MAX,
        ensures
            match table {
                Ok(t) => t.wf() && t@ == resources@,
                Err(e) => !table_wf(resources@) && e == CircuitError::DuplicateResource,
            },
    {
        let mut table = ResourceTable::new();
        let ghost given = resources@;
        for resource in it: resources
            invariant
                it.seq() == given,
                given.len() <= u32::MAX,
                table.wf(),
                table@ == given.take(it.index() as int),
        {
            let ghost k = it.index() as int;
            match table.register(resource) {
                Ok(_) => {
                    proof {
                        assert(given.take(k + 1) =~= given.take(k).push(given[k]));
                    }
                },
                Err(e) => {
                    proof {
                        let i = choose|i: int|
                            0 <= i < given.take(k).len() && same_resource(
                                #[trigger] given.take(k)[i],
                                given[k],
                            );
                        assert(same_resource(given[i], given[k]));
                    }
                    return Err(e);
                },
            }
        }
        proof {
            assert(given.take(given.len() as int) =~= given);
        }
        Ok(table)
    }

    /// The number of registered resources.
    pub fn len(&self) -> (n: usize)
        ensures
            n == self@.len(),
    {
        self.resources.len()
    }

    /// The resource registered under `index`, if there is one.
    pub fn get(&self, index: BitType) -> (resource: Option<&Resource>)
        ensures
            match resource {
                Some(r) => index < self@.len() && *r == self@[index as int],
                None => index >= self@.len(),
            },
    {
        if (index as usize) < self.resources.len() {
            Some(&self.resources[index as usize])
        } else {
            None
        }
    }

    /// The first position at which a resource is written as `repr` is, if
    /// there is one.
    fn find_repr(&self, repr: &String) -> (found: Option<usize>)
        ensures
            match found {
                Some(i) => i < self@.len() && self@[i as int].repr@ == repr@,
                None => forall|j: int|
                    0 <= j < self@.len() ==> (#[trigger] self@[j]).repr@ != repr@,
            },
    {
        let mut i: usize = 0;
        while i < self.resources.len()
            invariant
                i <= self.resources.len(),
                forall|j: int| 0 <= j < i ==> (#[trigger] self@[j]).repr@ != repr@,
            decreases self.resources.len() - i,
        {
            if self.resources[i].repr == *repr {
                return Some(i);
            }
            i += 1;
        }
        None
    }

    /// The index of `resource`: that of the registered resource with its
    /// identity, else that of the one written alike; `UnknownResource`
    /// where neither is there.
    pub fn index_of(&self, resource: &Resource) -> (index: Result<BitType, CircuitError>)
        requires
            self.wf(),
        ensures
            match index {
                Ok(i) => is_registered(self@, *resource) && i == position_of(self@, *resource),
                Err(e) => !is_registered(self@, *resource) && e == CircuitError::UnknownResource,
            },
    {
        match self.indices.get(resource.id) {
            Some(i) => {
                proof {
                    assert(found_at(self@, *resource, i as int));
                    lemma_found_at_unique(self@, *resource, i as int);
                }
                Ok(i)
            },
            None => {
                match self.find_repr(&resource.repr) {
                    Some(i) => {
                        proof {
                            assert(found_at(self@, *resource, i as int));
                            lemma_found_at_unique(self@, *resource, i as int);
                        }
                        Ok(i as BitType)
                    },
                    None => Err(CircuitError::UnknownResource),
                }
            },
        }
    }

    /// Registers `resource` under the next index and returns that index;
    /// `DuplicateResource`, and no change, where the table has the same
    /// resource already.
    pub fn register(&mut self, resource: Resource) -> (index: Result<BitType, CircuitError>)
        requires
            old(self).wf(),
            old(self)@.len() < u32::MAX,
        ensures
            final(self).wf(),
            match index {
                Ok(i) => !is_registered(old(self)@, resource) && i == old(self)@.len()
                    && final(self)@ == old(self)@.push(resource),
                Err(e) => is_registered(old(self)@, resource) && e
                    == CircuitError::DuplicateResource && final(self)@ == old(self)@,
            },
    {
        if self.indices.get(resource.id).is_some() {
            proof {
                let i = identity_entries(self.indices)[resource.id];
                assert(same_resource(self@[i as int], resource));
            }
            return Err(CircuitError::DuplicateResource);
        }
        if self.find_repr(&resource.repr).is_some() {
            return Err(CircuitError::DuplicateResource);
        }
        let index = self.resources.len() as BitType;
        self.indices.insert(resource.id, index);
        self.resources.push(resource);
        Ok(index)
    }
}

impl Clone for ResourceTable {
    /// A table of its own with the same resources at the same positions.
    fn clone(&self) -> (copy: ResourceTable)
        ensures
            copy@ == self@,
            self.wf() ==> copy.wf(),
    {
        let mut resources: Vec<Resource> = Vec::with_capacity(self.resources.len());
        let mut i: usize = 0;
        while i < self.resources.len()
            invariant
                i <= self.resources.len(),
                resources@.len() == i,
                forall|j: int| 0 <= j < i ==> #[trigger] resources@[j] == self.resources@[j],
            decreases self.resources.len() - i,
        {
            resources.push(self.resources[i].clone());
            i += 1;
        }
        assert(resources@ =~= self.resources@);
        ResourceTable { resources, indices: self.indices.duplicate() }
    }
}

} // verus!
