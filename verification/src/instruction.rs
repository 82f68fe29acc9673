//! Instructions: as callers hand them over and get them back, and as the
//! sequence keeps them.

use crate::error::CircuitError;
use crate::handles::{keys_in, lemma_keys_in_count, pool_limit, KeyPair};
use crate::intern_context::BitType;
use crate::resource::{
    all_registered, is_registered, lemma_registered_is_found, position_of, positions_of, table_wf,
    Resource,
};
use vstd::prelude::*;

verus! {

/// An instruction as callers see it: the operation, and the resources it
/// acts on in each of the two domains.
#[derive(Debug)]
pub struct CircuitInstruction<Op> {
    pub operation: Op,
    pub qubits: Vec<Resource>,
    pub clbits: Vec<Resource>,
}

/// An instruction as the sequence keeps it, as a mathematical value: the
/// operation, and for each domain the indices of its resources.
pub struct Entry<Op> {
    pub op: Op,
    pub qubits: Seq<BitType>,
    pub clbits: Seq<BitType>,
}

/// Whether every resource of `instruction` is registered in the table of
/// its domain.
pub open spec fn is_known<Op>(
    instruction: CircuitInstruction<Op>,
    qubits: Seq<Resource>,
    clbits: Seq<Resource>,
) -> bool {
    all_registered(qubits, instruction.qubits@) && all_registered(clbits, instruction.clbits@)
}

/// The entry that stands for `instruction`: its resources replaced by their
/// indices.
pub open spec fn entry_of<Op>(
    instruction: CircuitInstruction<Op>,
    qubits: Seq<Resource>,
    clbits: Seq<Resource>,
) -> Entry<Op> {
    Entry {
        op: instruction.operation,
        qubits: positions_of(qubits, instruction.qubits@),
        clbits: positions_of(clbits, instruction.clbits@),
    }
}

/// The resources that stand at `indices` in `table`, in order.
pub open spec fn resources_at(table: Seq<Resource>, indices: Seq<BitType>) -> Seq<Resource> {
    Seq::new(indices.len(), |k: int| table[indices[k] as int])
}

/// Whether `instruction` shows `entry`: its operation is the entry's or a
/// clone of it, and its resources are those that the entry's indices name.
pub open spec fn shows<Op: Clone>(
    instruction: CircuitInstruction<Op>,
    entry: Entry<Op>,
    qubits: Seq<Resource>,
    clbits: Seq<Resource>,
) -> bool {
    &&& cloned(entry.op, instruction.operation)
    &&& instruction.qubits@ == resources_at(qubits, entry.qubits)
    &&& instruction.clbits@ == resources_at(clbits, entry.clbits)
}

/// Whether every index of every entry names a resource, in a table of
/// `qubits` resources and one of `clbits`.
pub open spec fn entries_fit<Op>(entries: Seq<Entry<Op>>, qubits: nat, clbits: nat) -> bool {
    forall|i: int|
        0 <= i < entries.len() ==> entry_fits(#[trigger] entries[i], qubits, clbits)
}

/// Whether every index of `entry` names a resource.
pub open spec fn entry_fits<Op>(entry: Entry<Op>, qubits: nat, clbits: nat) -> bool {
    &&& forall|k: int| 0 <= k < entry.qubits.len() ==> #[trigger] entry.qubits[k] < qubits
    &&& forall|k: int| 0 <= k < entry.clbits.len() ==> #[trigger] entry.clbits[k] < clbits
}

/// The operand lists of each entry, as pairs.
pub open spec fn key_pairs<Op>(entries: Seq<Entry<Op>>) -> Seq<KeyPair> {
    Seq::new(entries.len(), |i: int| (entries[i].qubits, entries[i].clbits))
}

/// The operand lists that occur in `entries`.
pub open spec fn keys_of<Op>(entries: Seq<Entry<Op>>) -> Set<Seq<BitType>> {
    keys_in(key_pairs(entries))
}

/// How often `key` is an operand list of `entry`: twice where it is the
/// list of both domains.
pub open spec fn mentions<Op>(entry: Entry<Op>, key: Seq<BitType>) -> nat {
    (if entry.qubits == key {
        1nat
    } else {
        0nat
    }) + (if entry.clbits == key {
        1nat
    } else {
        0nat
    })
}

/// How often `key` occurs in `entries` as an operand list.
pub open spec fn occurrences<Op>(entries: Seq<Entry<Op>>, key: Seq<BitType>) -> nat
    decreases entries.len(),
{
    if entries.len() == 0 {
        0
    } else {
        occurrences(entries.drop_last(), key) + mentions(entries.last(), key)
    }
}

/// An entry that is put into a sequence adds the occurrences of its lists.
pub proof fn lemma_occurrences_insert<Op>(
    entries: Seq<Entry<Op>>,
    i: int,
    entry: Entry<Op>,
    key: Seq<BitType>,
)
    requires
        0 <= i <= entries.len(),
    ensures
        occurrences(entries.insert(i, entry), key) == occurrences(entries, key) + mentions(
            entry,
            key,
        ),
    decreases entries.len(),
{
    if i == entries.len() {
        assert(entries.insert(i, entry).drop_last() =~= entries);
    } else {
        lemma_occurrences_insert(entries.drop_last(), i, entry, key);
        assert(entries.insert(i, entry).drop_last() =~= entries.drop_last().insert(i, entry));
        assert(entries.insert(i, entry).last() == entries.last());
    }
}

/// An entry that is taken out of a sequence takes the occurrences of its
/// lists with it.
pub proof fn lemma_occurrences_remove<Op>(entries: Seq<Entry<Op>>, i: int, key: Seq<BitType>)
    requires
        0 <= i < entries.len(),
    ensures
        occurrences(entries.remove(i), key) + mentions(entries[i], key) == occurrences(
            entries,
            key,
        ),
    decreases entries.len(),
{
    if i == entries.len() - 1 {
        assert(entries.remove(i) =~= entries.drop_last());
    } else {
        lemma_occurrences_remove(entries.drop_last(), i, key);
        assert(entries.remove(i).drop_last() =~= entries.drop_last().remove(i));
        assert(entries.remove(i).last() == entries.last());
    }
}

/// An entry that takes the place of another brings the occurrences of its
/// lists in place of the other's.
pub proof fn lemma_occurrences_update<Op>(
    entries: Seq<Entry<Op>>,
    i: int,
    entry: Entry<Op>,
    key: Seq<BitType>,
)
    requires
        0 <= i < entries.len(),
    ensures
        occurrences(entries.update(i, entry), key) + mentions(entries[i], key) == occurrences(
            entries,
            key,
        ) + mentions(entry, key),
    decreases entries.len(),
{
    if i == entries.len() - 1 {
        assert(entries.update(i, entry).drop_last() =~= entries.drop_last());
    } else {
        lemma_occurrences_update(entries.drop_last(), i, entry, key);
        assert(entries.update(i, entry).drop_last() =~= entries.drop_last().update(i, entry));
        assert(entries.update(i, entry).last() == entries.last());
    }
}

/// A list occurs in a sequence exactly if it is an operand list of one of
/// its entries.
pub proof fn lemma_occurrences_some<Op>(entries: Seq<Entry<Op>>, key: Seq<BitType>)
    ensures
        occurrences(entries, key) >= 1 <==> keys_of(entries).contains(key),
    decreases entries.len(),
{
    if entries.len() > 0 {
        let front = entries.drop_last();
        lemma_occurrences_some(front, key);
        assert(key_pairs(entries)[entries.len() - 1] == (
            entries.last().qubits,
            entries.last().clbits,
        ));
        if keys_of(front).contains(key) {
            let i = choose|i: int|
                0 <= i < key_pairs(front).len() && ((#[trigger] key_pairs(front)[i]).0 == key
                    || key_pairs(front)[i].1 == key);
            assert(key_pairs(entries)[i] == key_pairs(front)[i]);
        }
        if keys_of(entries).contains(key) && mentions(entries.last(), key) == 0 {
            let i = choose|i: int|
                0 <= i < key_pairs(entries).len() && ((#[trigger] key_pairs(entries)[i]).0
                    == key || key_pairs(entries)[i].1 == key);
            assert(i < front.len());
            assert(key_pairs(front)[i] == key_pairs(entries)[i]);
        }
    }
}

/// A list that is no operand list of any entry occurs zero times.
pub proof fn lemma_occurrences_none<Op>(entries: Seq<Entry<Op>>, key: Seq<BitType>)
    requires
        !keys_of(entries).contains(key),
    ensures
        occurrences(entries, key) == 0,
    decreases entries.len(),
{
    if entries.len() > 0 {
        let front = entries.drop_last();
        assert(key_pairs(entries)[entries.len() - 1] == (
            entries.last().qubits,
            entries.last().clbits,
        ));
        if keys_of(front).contains(key) {
            let i = choose|i: int|
                0 <= i < key_pairs(front).len() && ((#[trigger] key_pairs(front)[i]).0 == key
                    || key_pairs(front)[i].1 == key);
            assert(key_pairs(entries)[i] == key_pairs(front)[i]);
        }
        lemma_occurrences_none(front, key);
    }
}

/// Whether a pool that holds the lists `keys`, and has to hold those that
/// occur in `incoming` as well, has too few handles.
pub open spec fn lacks_room<Op>(keys: Set<Seq<BitType>>, incoming: Seq<Entry<Op>>) -> bool {
    (keys + keys_of(incoming)).len() > pool_limit()
}

/// Lists that are few enough find room: where the lists held and two for
/// each entry to come are no more than the pool has handles, the pool has
/// handles for all of them.
pub proof fn lemma_few_lists_find_room<Op>(keys: Set<Seq<BitType>>, incoming: Seq<Entry<Op>>)
    requires
        keys.finite(),
        keys.len() + 2 * incoming.len() <= pool_limit(),
    ensures
        !lacks_room(keys, incoming),
{
    lemma_keys_in_count(key_pairs(incoming));
    vstd::set_lib::lemma_len_union(keys, keys_of(incoming));
}

/// No entries hold no lists.
pub proof fn lemma_no_entries_no_keys<Op>(entries: Seq<Entry<Op>>)
    requires
        entries.len() == 0,
    ensures
        keys_of(entries) == Set::<Seq<BitType>>::empty(),
{
    assert(keys_of(entries) =~= Set::<Seq<BitType>>::empty());
}

/// The entries that stand for `instructions`.
pub open spec fn entries_of<Op>(
    instructions: Seq<CircuitInstruction<Op>>,
    qubits: Seq<Resource>,
    clbits: Seq<Resource>,
) -> Seq<Entry<Op>> {
    Seq::new(instructions.len(), |i: int| entry_of(instructions[i], qubits, clbits))
}

/// Whether every resource of every instruction is registered.
pub open spec fn all_known<Op>(
    instructions: Seq<CircuitInstruction<Op>>,
    qubits: Seq<Resource>,
    clbits: Seq<Resource>,
) -> bool {
    forall|i: int|
        0 <= i < instructions.len() ==> is_known(#[trigger] instructions[i], qubits, clbits)
}

/// Why a sequence that holds `entries` does not take `incoming`, or `None`
/// where it does: `UnknownResource` where one of the instructions names a
/// resource that is not registered; else `PoolExhausted` where the pool
/// cannot hold their operand lists beside those of `entries`.
pub open spec fn refusal_of<Op>(
    entries: Seq<Entry<Op>>,
    incoming: Seq<CircuitInstruction<Op>>,
    qubits: Seq<Resource>,
    clbits: Seq<Resource>,
) -> Option<CircuitError> {
    if !all_known(incoming, qubits, clbits) {
        Some(CircuitError::UnknownResource)
    } else if lacks_room(keys_of(entries), entries_of(incoming, qubits, clbits)) {
        Some(CircuitError::PoolExhausted)
    } else {
        None
    }
}

/// Whether a sequence that holds `entries` takes the first `count` of
/// `incoming` when they are handed to it one after the other: none of them
/// is refused by the sequence as it is when its turn comes.
pub open spec fn takes_first<Op>(
    entries: Seq<Entry<Op>>,
    incoming: Seq<CircuitInstruction<Op>>,
    count: int,
    qubits: Seq<Resource>,
    clbits: Seq<Resource>,
) -> bool {
    forall|j: int|
        0 <= j < count ==> refusal_of(
            entries + entries_of(incoming.take(j), qubits, clbits),
            seq![#[trigger] incoming[j]],
            qubits,
            clbits,
        ) is None
}

/// Whether a sequence that holds `entries`, handed `incoming` one after the
/// other, stops at position `k` with `error`: it takes those before and
/// refuses that one.
pub open spec fn stops_at<Op>(
    entries: Seq<Entry<Op>>,
    incoming: Seq<CircuitInstruction<Op>>,
    k: int,
    error: CircuitError,
    qubits: Seq<Resource>,
    clbits: Seq<Resource>,
) -> bool {
    &&& 0 <= k < incoming.len()
    &&& takes_first(entries, incoming, k, qubits, clbits)
    &&& refusal_of(
        entries + entries_of(incoming.take(k), qubits, clbits),
        seq![incoming[k]],
        qubits,
        clbits,
    ) == Some(error)
}

/// Whether `instruction` is `entry` taken out of the sequence: it has the
/// entry's operation and the resources that the entry's indices name.
pub open spec fn unpacks<Op>(
    instruction: CircuitInstruction<Op>,
    entry: Entry<Op>,
    qubits: Seq<Resource>,
    clbits: Seq<Resource>,
) -> bool {
    &&& instruction.operation == entry.op
    &&& instruction.qubits@ == resources_at(qubits, entry.qubits)
    &&& instruction.clbits@ == resources_at(clbits, entry.clbits)
}

/// The indices of registered resources are indices of the table.
pub proof fn lemma_positions_fit(table: Seq<Resource>, resources: Seq<Resource>)
    requires
        table_wf(table),
        all_registered(table, resources),
    ensures
        forall|k: int|
            0 <= k < resources.len() ==> (#[trigger] positions_of(table, resources)[k])
                < table.len() && positions_of(table, resources)[k] == position_of(
                table,
                resources[k],
            ),
{
    assert forall|k: int| 0 <= k < resources.len() implies (#[trigger] positions_of(
        table,
        resources,
    )[k]) < table.len() && positions_of(table, resources)[k] == position_of(
        table,
        resources[k],
    ) by {
        assert(is_registered(table, resources[k]));
        lemma_registered_is_found(table, resources[k]);
    }
}

/// What a single index or a slice selects.
#[derive(Debug)]
pub enum Item<Op> {
    One(CircuitInstruction<Op>),
    Many(Vec<CircuitInstruction<Op>>),
}

} // verus!
