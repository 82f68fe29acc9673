//! Equality of sequences of instructions: by what they show, not by the
//! handles behind them.

use crate::circuit_data::CircuitData;
use crate::instruction::{
    entries_of, entry_fits, entry_of, is_known, key_pairs, keys_of, refusal_of, resources_at,
    shows, CircuitInstruction, Entry,
};
use crate::intern_context::BitType;
use crate::resource::{
    all_registered, is_registered, lemma_position_of_entry, position_of, positions_of,
    same_resource, same_resources, table_wf, Resource, ResourceTable,
};
use crate::slice::{slice_len, slice_positions};
use vstd::prelude::*;
use vstd::std_specs::cmp::PartialEqSpec;

verus! {

/// Whether two entries show equal instructions, each with the tables of its
/// own sequence: the operations are equal as their type has it, and the
/// resources of each domain are equal element for element.
pub open spec fn entries_alike<Op: PartialEq>(
    a: Entry<Op>,
    a_qubits: Seq<Resource>,
    a_clbits: Seq<Resource>,
    b: Entry<Op>,
    b_qubits: Seq<Resource>,
    b_clbits: Seq<Resource>,
) -> bool {
    &&& a.op.eq_spec(&b.op)
    &&& same_resources(resources_at(a_qubits, a.qubits), resources_at(b_qubits, b.qubits))
    &&& same_resources(resources_at(a_clbits, a.clbits), resources_at(b_clbits, b.clbits))
}

/// Whether two sequences of entries have one length and show equal
/// instructions position by position.
pub open spec fn views_alike<Op: PartialEq>(
    a: Seq<Entry<Op>>,
    a_qubits: Seq<Resource>,
    a_clbits: Seq<Resource>,
    b: Seq<Entry<Op>>,
    b_qubits: Seq<Resource>,
    b_clbits: Seq<Resource>,
) -> bool {
    &&& a.len() == b.len()
    &&& forall|i: int|
        0 <= i < a.len() ==> entries_alike(
            #[trigger] a[i],
            a_qubits,
            a_clbits,
            b[i],
            b_qubits,
            b_clbits,
        )
}

/// Whether the resources at `a_indices` in `a` equal those at `b_indices`
/// in `b`, element for element.
fn resources_alike(
    a: &ResourceTable,
    a_indices: &Vec<BitType>,
    b: &ResourceTable,
    b_indices: &Vec<BitType>,
) -> (alike: bool)
    requires
        forall|k: int| 0 <= k < a_indices@.len() ==> #[trigger] a_indices@[k] < a@.len(),
        forall|k: int| 0 <= k < b_indices@.len() ==> #[trigger] b_indices@[k] < b@.len(),
    ensures
        alike == same_resources(resources_at(a@, a_indices@), resources_at(b@, b_indices@)),
{
    if a_indices.len() != b_indices.len() {
        return false;
    }
    let ghost left = resources_at(a@, a_indices@);
    let ghost right = resources_at(b@, b_indices@);
    let mut k: usize = 0;
    while k < a_indices.len()
        invariant
            k <= a_indices.len(),
            a_indices@.len() == b_indices@.len(),
            left == resources_at(a@, a_indices@),
            right == resources_at(b@, b_indices@),
            forall|j: int| 0 <= j < a_indices@.len() ==> #[trigger] a_indices@[j] < a@.len(),
            forall|j: int| 0 <= j < b_indices@.len() ==> #[trigger] b_indices@[j] < b@.len(),
            forall|j: int| 0 <= j < k ==> same_resource(#[trigger] left[j], right[j]),
        decreases a_indices.len() - k,
    {
        let ours = a.get(a_indices[k]).unwrap();
        let theirs = b.get(b_indices[k]).unwrap();
        if !ours.is_same(theirs) {
            proof {
                assert(!same_resource(left[k as int], right[k as int]));
            }
            return false;
        }
        k += 1;
    }
    true
}

impl<Op: PartialEq> CircuitData<Op> {
    /// Whether this sequence and `other` have one length and show equal
    /// instructions position by position.
    pub open spec fn alike(&self, other: &CircuitData<Op>) -> bool {
        views_alike(
            self@,
            self.qubit_table(),
            self.clbit_table(),
            other@,
            other.qubit_table(),
            other.clbit_table(),
        )
    }

    /// Whether this sequence equals `other`: they have one length, and at
    /// each position the operations are equal and the resources of each
    /// domain are equal element for element. Which handles stand behind the
    /// instructions plays no part.
    pub fn equals(&self, other: &CircuitData<Op>) -> (equal: bool)
        requires
            self.wf(),
            other.wf(),
        ensures
            Op::obeys_eq_spec() ==> equal == self.alike(other),
    {
        if self.len() != other.len() {
            return false;
        }
        let total = self.len();
        let mut i: usize = 0;
        while i < total
            invariant
                self.wf(),
                other.wf(),
                total == self@.len(),
                total == other@.len(),
                i <= total,
                Op::obeys_eq_spec() ==> forall|j: int|
                    0 <= j < i ==> entries_alike(
                        #[trigger] self@[j],
                        self.qubit_table(),
                        self.clbit_table(),
                        other@[j],
                        other.qubit_table(),
                        other.clbit_table(),
                    ),
            decreases total - i,
        {
            proof {
                assert(entry_fits(
                    self@[i as int],
                    self.qubit_table().len(),
                    self.clbit_table().len(),
                ));
                assert(entry_fits(
                    other@[i as int],
                    other.qubit_table().len(),
                    other.clbit_table().len(),
                ));
            }
            let same_operation = *self.operation_at(i) == *other.operation_at(i);
            let ours = self.operands_at(i);
            let theirs = other.operands_at(i);
            let same_qubits = resources_alike(self.qubits(), ours.0, other.qubits(), theirs.0);
            let same_clbits = resources_alike(self.clbits(), ours.1, other.clbits(), theirs.1);
            if !(same_operation && same_qubits && same_clbits) {
                proof {
                    if Op::obeys_eq_spec() {
                        assert(!entries_alike(
                            self@[i as int],
                            self.qubit_table(),
                            self.clbit_table(),
                            other@[i as int],
                            other.qubit_table(),
                            other.clbit_table(),
                        ));
                    }
                }
                return false;
            }
            i += 1;
        }
        true
    }
}

/// The resources at some positions of a table are registered in it, and
/// their indices in it are those positions.
pub proof fn lemma_resources_found_again(table: Seq<Resource>, indices: Seq<BitType>)
    requires
        table_wf(table),
        forall|k: int| 0 <= k < indices.len() ==> #[trigger] indices[k] < table.len(),
    ensures
        all_registered(table, resources_at(table, indices)),
        positions_of(table, resources_at(table, indices)) == indices,
{
    let resources = resources_at(table, indices);
    assert forall|k: int| 0 <= k < resources.len() implies is_registered(
        table,
        #[trigger] resources[k],
    ) && position_of(table, resources[k]) == indices[k] by {
        lemma_position_of_entry(table, indices[k] as int);
    }
    assert(positions_of(table, resources) =~= indices);
}

/// What a sequence shows can be stored again: a sequence without
/// instructions that has the tables of `source` takes the instructions
/// `shown`, which the slice of the whole of `source` gives, one after the
/// other, and then equals `source`. The operations of `shown` are clones, so this rests on
/// each of them being equal to what it was cloned from.
pub proof fn lemma_round_trip<Op: PartialEq + Clone>(
    source: CircuitData<Op>,
    shown: Seq<CircuitInstruction<Op>>,
    target: CircuitData<Op>,
)
    requires
        source.wf(),
        target.wf(),
        target@.len() == 0,
        target.same_tables(&source),
        shown.len() == slice_len(0, source@.len() as int, 1),
        forall|k: int|
            0 <= k < shown.len() ==> shows(
                #[trigger] shown[k],
                source@[slice_positions(0, source@.len() as int, 1, source@.len() as int)[k]],
                source.qubit_table(),
                source.clbit_table(),
            ),
        forall|k: int|
            0 <= k < shown.len() ==> (#[trigger] shown[k]).operation.eq_spec(
                &source@[slice_positions(0, source@.len() as int, 1, source@.len() as int)[k]].op,
            ),
    ensures
        target.takes_first(shown, shown.len() as int),
        views_alike(
            target@ + target.entries_for(shown),
            target.qubit_table(),
            target.clbit_table(),
            source@,
            source.qubit_table(),
            source.clbit_table(),
        ),
{
    let qubits = source.qubit_table();
    let clbits = source.clbit_table();
    let entries = target.entries_for(shown);
    let total = source@.len() as int;
    assert(shown.len() == total);
    assert forall|k: int| 0 <= k < total implies slice_positions(0, total, 1, total)[k] == k by {
        assert(k * 1 == k) by (nonlinear_arith);
    }
    assert forall|k: int| 0 <= k < total implies is_known(
        #[trigger] shown[k],
        qubits,
        clbits,
    ) && entries[k].qubits == source@[k].qubits && entries[k].clbits == source@[k].clbits by {
        assert(slice_positions(0, total, 1, total)[k] == k);
        assert(shows(shown[k], source@[k], qubits, clbits));
        assert(entry_fits(source@[k], qubits.len(), clbits.len()));
        lemma_resources_found_again(qubits, source@[k].qubits);
        lemma_resources_found_again(clbits, source@[k].clbits);
    }
    source.lemma_pool_holds_distinct_lists();
    assert(target@ + entries =~= entries);
    assert forall|j: int| 0 <= j < total implies refusal_of(
        target@ + entries_of(shown.take(j), qubits, clbits),
        seq![#[trigger] shown[j]],
        qubits,
        clbits,
    ) is None by {
        let stored = target@ + entries_of(shown.take(j), qubits, clbits);
        let next = entries_of(seq![shown[j]], qubits, clbits);
        assert(seq![shown[j]][0] == shown[j]);
        assert forall|key: Seq<BitType>| (keys_of(stored) + keys_of(next)).contains(
            key,
        ) implies keys_of(source@).contains(key) by {
            if keys_of(stored).contains(key) {
                let i = choose|i: int|
                    0 <= i < key_pairs(stored).len() && ((#[trigger] key_pairs(stored)[i]).0
                        == key || key_pairs(stored)[i].1 == key);
                assert(stored[i] == entry_of(shown[i], qubits, clbits));
                assert(entries[i] == entry_of(shown[i], qubits, clbits));
                assert(key_pairs(source@)[i] == (source@[i].qubits, source@[i].clbits));
            } else {
                let i = choose|i: int|
                    0 <= i < key_pairs(next).len() && ((#[trigger] key_pairs(next)[i]).0 == key
                        || key_pairs(next)[i].1 == key);
                assert(next[0] == entries[j]);
                assert(key_pairs(source@)[j] == (source@[j].qubits, source@[j].clbits));
            }
        }
        vstd::set_lib::lemma_len_subset(keys_of(stored) + keys_of(next), keys_of(source@));
    }
    assert forall|i: int| 0 <= i < entries.len() implies entries_alike(
        #[trigger] entries[i],
        qubits,
        clbits,
        source@[i],
        qubits,
        clbits,
    ) by {
        assert(slice_positions(0, total, 1, total)[i] == i);
        assert(shown[i].operation.eq_spec(&source@[i].op));
        assert(entries[i].op == shown[i].operation);
    }
}

} // verus!
