//! The sequence of instructions, each stored as its operation with two
//! handles into the pool of operand lists.

use crate::error::CircuitError;
use crate::handles::{
    grown_by, intern_all, intern_pair, key_views, lemma_grown_by_grows, lemma_in_use_is_occupied,
    lemma_ref_count_bound, lemma_ref_count_insert, lemma_ref_count_one, lemma_ref_count_positive,
    lemma_ref_count_remove, lemma_ref_count_update, lemma_same_uses_keeps, pool_limit, ref_count,
    release_pair, weight, HandlePair,
};
use crate::instruction::{
    all_known, entries_fit, entries_of, entry_fits, entry_of, is_known, key_pairs, keys_of,
    lemma_occurrences_none, lemma_positions_fit, occurrences, refusal_of, resources_at, shows,
    stops_at, takes_first, unpacks, CircuitInstruction, Entry, Item,
};
use crate::intern_context::{BitType, IndexType, InternContext, Pool};
use crate::resource::{
    all_registered, is_registered, position_of, positions_of, table_wf, Resource, ResourceTable,
};
use crate::slice::{
    clamp_index, clamped_index, index_in_range, lemma_overwritten_len, lemma_positions_in_range,
    lemma_without_nothing, normalize_index, overwritten, slice_assigned, slice_deleted,
    slice_in_range, slice_indices, slice_len, slice_length, slice_positions, slice_to_positions,
    without, wrap_index, SliceOrInt,
};
use vstd::prelude::*;

verus! {

/// The sequence that `list` holds, or the empty one where there is none.
pub open spec fn or_empty<T>(list: Option<Vec<T>>) -> Seq<T> {
    match list {
        Some(v) => v@,
        None => Seq::empty(),
    }
}

/// The index that `pop` goes by: the one given, else that of the last
/// instruction.
pub open spec fn pop_index(index: Option<isize>) -> int {
    match index {
        Some(i) => i as int,
        None => -1,
    }
}

/// An instruction as it is stored: the operation, and the handles of its
/// two operand lists.
struct InternedInstruction<Op> {
    op: Op,
    qubits_id: IndexType,
    clbits_id: IndexType,
}

/// The handle pairs of the stored instructions.
spec fn handles_of<Op>(data: Seq<InternedInstruction<Op>>) -> Seq<HandlePair> {
    Seq::new(data.len(), |i: int| (data[i].qubits_id, data[i].clbits_id))
}

/// The entries that the stored instructions stand for, with the pool that
/// gives their handles a meaning.
spec fn entries_in<Op>(data: Seq<InternedInstruction<Op>>, pool: Pool) -> Seq<Entry<Op>> {
    Seq::new(
        data.len(),
        |i: int|
            Entry {
                op: data[i].op,
                qubits: pool.operands(data[i].qubits_id),
                clbits: pool.operands(data[i].clbits_id),
            },
    )
}

/// The entry that `record` stands for, with the pool that gives its handles
/// a meaning.
spec fn entry_in<Op>(record: InternedInstruction<Op>, pool: Pool) -> Entry<Op> {
    Entry {
        op: record.op,
        qubits: pool.operands(record.qubits_id),
        clbits: pool.operands(record.clbits_id),
    }
}

/// Whether the pool counts for each handle the uses that `stored` and
/// `pending` make of it.
spec fn counts_agree(pool: Pool, stored: Seq<HandlePair>, pending: Seq<HandlePair>) -> bool {
    forall|h: IndexType| #[trigger]
        pool.use_count(h) == ref_count(stored, h) + ref_count(pending, h)
}

/// The handles that stored instructions name are occupied.
proof fn lemma_stored_occupied<Op>(
    data: Seq<InternedInstruction<Op>>,
    pool: Pool,
    pending: Seq<HandlePair>,
    i: int,
)
    requires
        pool.wf(),
        counts_agree(pool, handles_of(data), pending),
        0 <= i < data.len(),
    ensures
        pool.occupied(data[i].qubits_id),
        pool.occupied(data[i].clbits_id),
{
    let pairs = handles_of(data);
    lemma_ref_count_positive(pairs, data[i].qubits_id);
    lemma_ref_count_positive(pairs, data[i].clbits_id);
    assert(weight(pairs[i], data[i].qubits_id) >= 1);
    assert(weight(pairs[i], data[i].clbits_id) >= 1);
    assert(pool.use_count(data[i].qubits_id) == ref_count(pairs, data[i].qubits_id) + ref_count(
        pending,
        data[i].qubits_id,
    ));
    assert(pool.use_count(data[i].clbits_id) == ref_count(pairs, data[i].clbits_id) + ref_count(
        pending,
        data[i].clbits_id,
    ));
}

/// The stored instructions stand for the same entries in a pool that has
/// kept the lists of the occupied handles.
proof fn lemma_entries_kept<Op>(
    data: Seq<InternedInstruction<Op>>,
    before: Pool,
    after: Pool,
    pending: Seq<HandlePair>,
)
    requires
        before.wf(),
        counts_agree(before, handles_of(data), pending),
        forall|h: IndexType| #[trigger]
            before.occupied(h) ==> after.operands(h) == before.operands(h),
    ensures
        entries_in(data, after) == entries_in(data, before),
{
    assert forall|i: int| 0 <= i < data.len() implies entries_in(data, after)[i] == entries_in(
        data,
        before,
    )[i] by {
        lemma_stored_occupied(data, before, pending, i);
    }
    assert(entries_in(data, after) =~= entries_in(data, before));
}

/// The pool holds the lists of the stored instructions and no others.
proof fn lemma_keys_agree<Op>(data: Seq<InternedInstruction<Op>>, pool: Pool)
    requires
        pool.wf(),
        counts_agree(pool, handles_of(data), Seq::empty()),
    ensures
        pool.keys() == keys_of(entries_in(data, pool)),
{
    let entries = entries_in(data, pool);
    let pairs = handles_of(data);
    let lists = key_pairs(entries);
    assert forall|key: Seq<BitType>| pool.keys().contains(key) implies keys_of(entries).contains(
        key,
    ) by {
        let h = pool.handle_of(key);
        assert(pool.occupied(h) && pool.operands(h) == key);
        assert(pool.use_count(h) == ref_count(pairs, h) + ref_count(Seq::<HandlePair>::empty(), h));
        lemma_ref_count_positive(pairs, h);
        let i = choose|i: int| 0 <= i < pairs.len() && weight(#[trigger] pairs[i], h) >= 1;
        assert(lists[i].0 == key || lists[i].1 == key);
    }
    assert forall|key: Seq<BitType>| keys_of(entries).contains(key) implies pool.keys().contains(
        key,
    ) by {
        let i = choose|i: int|
            0 <= i < lists.len() && ((#[trigger] lists[i]).0 == key || lists[i].1 == key);
        lemma_stored_occupied(data, pool, Seq::empty(), i);
    }
    assert(pool.keys() =~= keys_of(entries));
}

/// The stored instructions name a handle as often as the list in its slot
/// occurs in their entries.
proof fn lemma_counts_by_key<Op>(data: Seq<InternedInstruction<Op>>, pool: Pool, h: IndexType)
    requires
        pool.wf(),
        pool.occupied(h),
        forall|i: int|
            0 <= i < data.len() ==> pool.occupied((#[trigger] data[i]).qubits_id) && pool.occupied(
                data[i].clbits_id,
            ),
    ensures
        ref_count(handles_of(data), h) == occurrences(entries_in(data, pool), pool.operands(h)),
    decreases data.len(),
{
    if data.len() > 0 {
        let front = data.drop_last();
        assert forall|i: int| 0 <= i < front.len() implies pool.occupied(
            (#[trigger] front[i]).qubits_id,
        ) && pool.occupied(front[i].clbits_id) by {
            assert(front[i] == data[i]);
        }
        lemma_counts_by_key(front, pool, h);
        assert(handles_of(data).drop_last() =~= handles_of(front));
        assert(entries_in(data, pool).drop_last() =~= entries_in(front, pool));
        let last = data[data.len() - 1];
        assert(pool.occupied(last.qubits_id) && pool.occupied(last.clbits_id));
        assert(handles_of(data).last() == (last.qubits_id, last.clbits_id));
        assert(entries_in(data, pool).last() == entry_in(last, pool));
    }
}

/// As long as there are no more than `isize::MAX` pairs, old and new
/// together, no handle is named `usize::MAX` times.
proof fn lemma_counts_bounded(pairs: Seq<HandlePair>, more: int, h: IndexType)
    requires
        0 <= more,
        pairs.len() + more <= isize::MAX,
    ensures
        ref_count(pairs, h) + 2 * more <= usize::MAX,
{
    lemma_ref_count_bound(pairs, h);
}

/// The sequence of instructions, with the pool of their operand lists and
/// the resource table of each domain.
pub struct CircuitData<Op> {
    data: Vec<InternedInstruction<Op>>,
    intern_context: InternContext,
    qubits: ResourceTable,
    clbits: ResourceTable,
}

impl<Op> View for CircuitData<Op> {
    type V = Seq<Entry<Op>>;

    /// The instructions of the sequence, in order: each with its operation
    /// and the two lists of indices that stand behind its handles.
    closed spec fn view(&self) -> Seq<Entry<Op>> {
        entries_in(self.data@, self.intern_context@)
    }
}

impl<Op> CircuitData<Op> {
    /// The registered resources of the first domain, by index.
    pub closed spec fn qubit_table(&self) -> Seq<Resource> {
        self.qubits@
    }

    /// The registered resources of the second domain, by index.
    pub closed spec fn clbit_table(&self) -> Seq<Resource> {
        self.clbits@
    }

    /// The pool of operand lists.
    pub closed spec fn pool(&self) -> Pool {
        self.intern_context@
    }

    /// What holds of the parts that callers do not see: the pool and the
    /// tables keep their invariants, and each handle is in use as often as
    /// the stored instructions name it.
    pub closed spec fn inv(&self) -> bool {
        &&& self.intern_context.wf()
        &&& self.qubits.wf()
        &&& self.clbits.wf()
        &&& counts_agree(self.intern_context@, handles_of(self.data@), Seq::empty())
    }

    /// The invariant of the sequence.
    pub open spec fn wf(&self) -> bool {
        &&& self.inv()
        &&& self@.len() < isize::MAX
        &&& table_wf(self.qubit_table())
        &&& table_wf(self.clbit_table())
        &&& entries_fit(self@, self.qubit_table().len(), self.clbit_table().len())
    }

    /// The entry that stands for `instruction` in this sequence.
    pub open spec fn entry_for(&self, instruction: CircuitInstruction<Op>) -> Entry<Op> {
        entry_of(instruction, self.qubit_table(), self.clbit_table())
    }

    /// The entries that stand for `instructions` in this sequence.
    pub open spec fn entries_for(&self, instructions: Seq<CircuitInstruction<Op>>) -> Seq<
        Entry<Op>,
    > {
        entries_of(instructions, self.qubit_table(), self.clbit_table())
    }

    /// Why this sequence does not take `incoming`, or `None` where it does.
    pub open spec fn refusal(&self, incoming: Seq<CircuitInstruction<Op>>) -> Option<CircuitError> {
        refusal_of(self@, incoming, self.qubit_table(), self.clbit_table())
    }

    /// Whether this sequence takes the first `count` of `incoming`, handed
    /// to it one after the other.
    pub open spec fn takes_first(&self, incoming: Seq<CircuitInstruction<Op>>, count: int) -> bool {
        takes_first(self@, incoming, count, self.qubit_table(), self.clbit_table())
    }

    /// Whether this sequence, handed `incoming` one after the other, stops
    /// at position `k` with `error`.
    pub open spec fn stops_at(
        &self,
        incoming: Seq<CircuitInstruction<Op>>,
        k: int,
        error: CircuitError,
    ) -> bool {
        stops_at(self@, incoming, k, error, self.qubit_table(), self.clbit_table())
    }

    /// Why this sequence does not take the assignment of `incoming` to the
    /// slice, or `None` where it does: `LengthMismatch` where the slice is
    /// an extended one and selects another number of positions than there
    /// are values; else `IndexOutOfRange` where one of its indices names no
    /// instruction; else what refuses the values themselves.
    pub open spec fn slice_refusal(
        &self,
        start: int,
        stop: int,
        step: int,
        incoming: Seq<CircuitInstruction<Op>>,
    ) -> Option<CircuitError> {
        if step != 1 && slice_len(start, stop, step) != incoming.len() {
            Some(CircuitError::LengthMismatch)
        } else if !slice_in_range(start, stop, step, self@.len() as int) {
            Some(CircuitError::IndexOutOfRange)
        } else {
            self.refusal(incoming)
        }
    }

    /// Why this sequence does not take `value` in the place of the
    /// instruction that `index` names, or `None` where it does:
    /// `IndexOutOfRange` where the index names no instruction; else what
    /// refuses the value itself.
    pub open spec fn set_refusal(&self, index: int, value: CircuitInstruction<Op>) -> Option<
        CircuitError,
    > {
        if !index_in_range(index, self@.len() as int) {
            Some(CircuitError::IndexOutOfRange)
        } else {
            self.refusal(seq![value])
        }
    }

    /// Whether this sequence has the tables of `other`.
    pub open spec fn same_tables(&self, other: &CircuitData<Op>) -> bool {
        self.qubit_table() == other.qubit_table() && self.clbit_table() == other.clbit_table()
    }

    /// What holds while the handles `pending` have been interned for
    /// instructions that are not stored yet.
    spec fn inv_with(&self, pending: Seq<HandlePair>) -> bool {
        &&& self.intern_context.wf()
        &&& self.qubits.wf()
        &&& self.clbits.wf()
        &&& counts_agree(self.intern_context@, handles_of(self.data@), pending)
    }

    /// A sequence with the resources `qubits` and `clbits`, registered in
    /// their order, and the instructions `data`, stored one after the
    /// other; `reserve` is the number of instructions to make room for.
    /// `DuplicateResource` where two resources of one domain are the same;
    /// else the error of the first instruction that is refused.
    pub fn new(
        qubits: Option<Vec<Resource>>,
        clbits: Option<Vec<Resource>>,
        data: Option<Vec<CircuitInstruction<Op>>>,
        reserve: usize,
    ) -> (circuit: Result<CircuitData<Op>, CircuitError>)
        requires
            or_empty(qubits).len() <= u32::MAX,
            or_empty(clbits).len() <= u32::MAX,
            or_empty(data).len() < isize::MAX,
        ensures
            match circuit {
                Ok(c) => c.wf() && c.qubit_table() == or_empty(qubits) && c.clbit_table()
                    == or_empty(clbits) && takes_first(
                    Seq::empty(),
                    or_empty(data),
                    or_empty(data).len() as int,
                    or_empty(qubits),
                    or_empty(clbits),
                ) && c@ == entries_of(or_empty(data), or_empty(qubits), or_empty(clbits)),
                Err(e) => if !table_wf(or_empty(qubits)) || !table_wf(or_empty(clbits)) {
                    e == CircuitError::DuplicateResource
                } else {
                    exists|k: int| #[trigger]
                        stops_at(
                            Seq::empty(),
                            or_empty(data),
                            k,
                            e,
                            or_empty(qubits),
                            or_empty(clbits),
                        )
                },
            },
    {
        let qubits = match qubits {
            Some(resources) => resources,
            None => Vec::new(),
        };
        let clbits = match clbits {
            Some(resources) => resources,
            None => Vec::new(),
        };
        let data = match data {
            Some(instructions) => instructions,
            None => Vec::new(),
        };
        let qubits = match ResourceTable::from_resources(qubits) {
            Ok(table) => table,
            Err(e) => {
                return Err(e);
            },
        };
        let clbits = match ResourceTable::from_resources(clbits) {
            Ok(table) => table,
            Err(e) => {
                return Err(e);
            },
        };
        let mut circuit = CircuitData {
            data: Vec::new(),
            intern_context: InternContext::new(),
            qubits,
            clbits,
        };
        proof {
            assert(circuit@ =~= Seq::<Entry<Op>>::empty());
            assert(handles_of(circuit.data@) =~= Seq::<HandlePair>::empty());
        }
        circuit.reserve(reserve);
        let ghost entries = circuit.entries_for(data@);
        match circuit.extend(data) {
            Ok(_) => {
                proof {
                    assert(Seq::<Entry<Op>>::empty() + entries =~= entries);
                }
                Ok(circuit)
            },
            Err(e) => Err(e),
        }
    }

    /// The number of instructions.
    pub fn len(&self) -> (n: usize)
        ensures
            n == self@.len(),
    {
        self.data.len()
    }

    /// The resource table of the first domain.
    pub fn qubits(&self) -> (table: &ResourceTable)
        ensures
            table@ == self.qubit_table(),
            self.wf() ==> table.wf(),
    {
        &self.qubits
    }

    /// The resource table of the second domain.
    pub fn clbits(&self) -> (table: &ResourceTable)
        ensures
            table@ == self.clbit_table(),
            self.wf() ==> table.wf(),
    {
        &self.clbits
    }

    /// The pool of operand lists.
    pub fn intern_context(&self) -> (context: &InternContext)
        ensures
            context@ == self.pool(),
            self.wf() ==> context.wf(),
    {
        &self.intern_context
    }

    /// The operation of the instruction at `position`, as it is stored, if
    /// there is such an instruction.
    pub fn operation(&self, position: usize) -> (operation: Option<&Op>)
        ensures
            match operation {
                Some(op) => position < self@.len() && *op == self@[position as int].op,
                None => position >= self@.len(),
            },
    {
        if position < self.data.len() {
            Some(&self.data[position].op)
        } else {
            None
        }
    }

    /// Registers `bit` as the next resource of the first domain;
    /// `DuplicateResource`, and no change, where it is registered already.
    pub fn add_qubit(&mut self, bit: Resource) -> (done: Result<(), CircuitError>)
        requires
            old(self).wf(),
            old(self).qubit_table().len() < u32::MAX,
        ensures
            final(self).wf(),
            final(self)@ == old(self)@,
            final(self).pool() == old(self).pool(),
            final(self).clbit_table() == old(self).clbit_table(),
            match done {
                Ok(_) => !is_registered(old(self).qubit_table(), bit) && final(self).qubit_table()
                    == old(self).qubit_table().push(bit),
                Err(e) => is_registered(old(self).qubit_table(), bit) && e
                    == CircuitError::DuplicateResource && final(self).qubit_table()
                    == old(self).qubit_table(),
            },
    {
        match self.qubits.register(bit) {
            Ok(_) => Ok(()),
            Err(e) => Err(e),
        }
    }

    /// Registers `bit` as the next resource of the second domain;
    /// `DuplicateResource`, and no change, where it is registered already.
    pub fn add_clbit(&mut self, bit: Resource) -> (done: Result<(), CircuitError>)
        requires
            old(self).wf(),
            old(self).clbit_table().len() < u32::MAX,
        ensures
            final(self).wf(),
            final(self)@ == old(self)@,
            final(self).pool() == old(self).pool(),
            final(self).qubit_table() == old(self).qubit_table(),
            match done {
                Ok(_) => !is_registered(old(self).clbit_table(), bit) && final(self).clbit_table()
                    == old(self).clbit_table().push(bit),
                Err(e) => is_registered(old(self).clbit_table(), bit) && e
                    == CircuitError::DuplicateResource && final(self).clbit_table()
                    == old(self).clbit_table(),
            },
    {
        match self.clbits.register(bit) {
            Ok(_) => Ok(()),
            Err(e) => Err(e),
        }
    }

    /// Makes room for `additional` further instructions, as far as memory
    /// allows. The instructions, the pool and the tables are as before.
    pub fn reserve(&mut self, additional: usize)
        ensures
            final(self)@ == old(self)@,
            final(self).pool() == old(self).pool(),
            final(self).same_tables(old(self)),
            old(self).wf() ==> final(self).wf(),
    {
        let _ = self.data.try_reserve(additional);
    }

    /// Removes every instruction. The resources stay registered.
    pub fn clear(&mut self)
        requires
            old(self).wf(),
        ensures
            final(self).wf(),
            final(self)@ == Seq::<Entry<Op>>::empty(),
            final(self).pool() == Pool::empty(),
            final(self).same_tables(old(self)),
    {
        self.data = Vec::new();
        self.intern_context = InternContext::new();
        proof {
            assert(self@ =~= Seq::<Entry<Op>>::empty());
            assert(handles_of(self.data@) =~= Seq::<HandlePair>::empty());
        }
    }

    /// Stores `value` behind the last instruction. Where it is refused the
    /// sequence is as before.
    pub fn append(&mut self, value: CircuitInstruction<Op>) -> (done: Result<(), CircuitError>)
        requires
            old(self).wf(),
            old(self)@.len() + 1 < isize::MAX,
        ensures
            final(self).wf(),
            final(self).same_tables(old(self)),
            old(self).pool().grows_into(final(self).pool()),
            done is Err ==> old(self).pool().shrinks_into(final(self).pool()),
            match done {
                Ok(_) => old(self).refusal(seq![value]) is None && final(self)@ == old(self)@.push(
                    old(self).entry_for(value),
                ),
                Err(e) => old(self).refusal(seq![value]) == Some(e) && final(self)@ == old(self)@,
            },
    {
        let index = self.data.len();
        self.insert_at(index, value)
    }

    /// Stores `value` before the position that `index` names, a negative
    /// one counting from the end; an index before the first instruction
    /// stands for the front, one behind the last for the end.
    pub fn insert(&mut self, index: isize, value: CircuitInstruction<Op>) -> (done: Result<
        (),
        CircuitError,
    >)
        requires
            old(self).wf(),
            old(self)@.len() + 1 < isize::MAX,
        ensures
            final(self).wf(),
            final(self).same_tables(old(self)),
            old(self).pool().grows_into(final(self).pool()),
            done is Err ==> old(self).pool().shrinks_into(final(self).pool()),
            match done {
                Ok(_) => old(self).refusal(seq![value]) is None && final(self)@
                    == old(self)@.insert(
                    clamp_index(index as int, old(self)@.len() as int),
                    old(self).entry_for(value),
                ),
                Err(e) => old(self).refusal(seq![value]) == Some(e) && final(self)@ == old(self)@,
            },
    {
        let position = clamped_index(index, self.data.len());
        self.insert_at(position, value)
    }

    /// Puts `value` in the place of the instruction that `index` names:
    /// `IndexOutOfRange` where it names none; else the value may be
    /// refused. On an error the sequence is as before.
    pub fn set(&mut self, index: isize, value: CircuitInstruction<Op>) -> (done: Result<
        (),
        CircuitError,
    >)
        requires
            old(self).wf(),
        ensures
            final(self).wf(),
            final(self).same_tables(old(self)),
            old(self).pool().agrees_with(final(self).pool()),
            done is Err ==> old(self).pool().grows_into(final(self).pool())
                && old(self).pool().shrinks_into(final(self).pool()),
            match done {
                Ok(_) => old(self).set_refusal(index as int, value) is None && final(self)@
                    == old(self)@.update(
                    wrap_index(index as int, old(self)@.len() as int),
                    old(self).entry_for(value),
                ),
                Err(e) => old(self).set_refusal(index as int, value) == Some(e) && final(self)@
                    == old(self)@,
            },
    {
        let position = match normalize_index(index, self.data.len()) {
            Ok(position) => position,
            Err(e) => {
                return Err(e);
            },
        };
        let ghost entry = self.entry_for(value);
        let ghost before = self.pool();
        let record = match self.intern_instruction(value) {
            Ok(record) => record,
            Err(e) => {
                return Err(e);
            },
        };
        let ghost middle = self.pool();
        proof {
            let pair = (record.qubits_id, record.clbits_id);
            assert(seq![pair] =~= Seq::<HandlePair>::empty().insert(0, pair));
            assert(seq![pair][0] == pair);
            assert(entry_in(record, self.pool()) == entry);
        }
        self.store_over(position, record, Ghost(Seq::empty()));
        proof {
            before.lemma_grows_then_shrinks(middle, self.pool());
        }
        Ok(())
    }

    /// Removes the instruction that `index` names, or reports
    /// `IndexOutOfRange` and changes nothing where it names none.
    pub fn delete(&mut self, index: isize) -> (done: Result<(), CircuitError>)
        requires
            old(self).wf(),
        ensures
            final(self).wf(),
            final(self).same_tables(old(self)),
            old(self).pool().shrinks_into(final(self).pool()),
            done is Err ==> final(self).pool() == old(self).pool(),
            match done {
                Ok(_) => index_in_range(index as int, old(self)@.len() as int) && final(self)@
                    == old(self)@.remove(wrap_index(index as int, old(self)@.len() as int)),
                Err(e) => !index_in_range(index as int, old(self)@.len() as int) && e
                    == CircuitError::IndexOutOfRange && final(self)@ == old(self)@,
            },
    {
        match normalize_index(index, self.data.len()) {
            Ok(position) => {
                let _ = self.remove_at(position);
                Ok(())
            },
            Err(e) => Err(e),
        }
    }

    /// Takes out the instruction that `index` names, the last one where no
    /// index is given, and returns it; `IndexOutOfRange`, and no change,
    /// where there is no such instruction.
    pub fn pop(&mut self, index: Option<isize>) -> (taken: Result<
        CircuitInstruction<Op>,
        CircuitError,
    >)
        requires
            old(self).wf(),
        ensures
            final(self).wf(),
            final(self).same_tables(old(self)),
            old(self).pool().shrinks_into(final(self).pool()),
            taken is Err ==> final(self).pool() == old(self).pool(),
            match taken {
                Ok(instruction) => index_in_range(pop_index(index), old(self)@.len() as int)
                    && final(self)@ == old(self)@.remove(
                    wrap_index(pop_index(index), old(self)@.len() as int),
                ) && unpacks(
                    instruction,
                    old(self)@[wrap_index(pop_index(index), old(self)@.len() as int)],
                    old(self).qubit_table(),
                    old(self).clbit_table(),
                ),
                Err(e) => !index_in_range(pop_index(index), old(self)@.len() as int) && e
                    == CircuitError::IndexOutOfRange && final(self)@ == old(self)@,
            },
    {
        let index = match index {
            Some(index) => index,
            None => -1,
        };
        match normalize_index(index, self.data.len()) {
            Ok(position) => {
                let (qubits, clbits) = self.resources_of(position);
                let record = self.remove_at(position);
                Ok(CircuitInstruction { operation: record.op, qubits, clbits })
            },
            Err(e) => Err(e),
        }
    }

    /// Stores `values` behind the last instruction, one after the other in
    /// their order. It stops at the first that is refused: those before it
    /// are stored, that one and those behind it are not.
    pub fn extend(&mut self, values: Vec<CircuitInstruction<Op>>) -> (done: Result<
        (),
        CircuitError,
    >)
        requires
            old(self).wf(),
            old(self)@.len() + values@.len() < isize::MAX,
        ensures
            final(self).wf(),
            final(self).same_tables(old(self)),
            old(self).pool().grows_into(final(self).pool()),
            match done {
                Ok(_) => old(self).takes_first(values@, values@.len() as int) && final(self)@
                    == old(self)@ + old(self).entries_for(values@),
                Err(e) => exists|k: int|
                    #[trigger] old(self).stops_at(values@, k, e) && final(self)@ == old(self)@
                        + old(self).entries_for(values@.take(k)),
            },
    {
        let ghost start = self@;
        let ghost given = values@;
        let ghost qubits = self.qubit_table();
        let ghost clbits = self.clbit_table();
        let ghost first = self.pool();
        proof {
            assert(entries_of(given.take(0), qubits, clbits) =~= Seq::<Entry<Op>>::empty());
            assert(start + entries_of(given.take(0), qubits, clbits) =~= start);
        }
        for value in it: values
            invariant
                it.seq() == given,
                given == values@,
                start == old(self)@,
                qubits == old(self).qubit_table(),
                clbits == old(self).clbit_table(),
                first == old(self).pool(),
                start.len() + given.len() < isize::MAX,
                self.wf(),
                self.qubit_table() == qubits,
                self.clbit_table() == clbits,
                first.grows_into(self.pool()),
                takes_first(start, given, it.index() as int, qubits, clbits),
                self@ == start + entries_of(given.take(it.index() as int), qubits, clbits),
        {
            let ghost k = it.index() as int;
            let ghost middle = self.pool();
            let ghost held = self@;
            match self.append(value) {
                Ok(_) => {
                    proof {
                        first.lemma_grows_on(middle, self.pool());
                        assert(entries_of(given.take(k + 1), qubits, clbits) =~= entries_of(
                            given.take(k),
                            qubits,
                            clbits,
                        ).push(entry_of(given[k], qubits, clbits)));
                        assert(self@ =~= start + entries_of(given.take(k + 1), qubits, clbits));
                        assert forall|j: int| 0 <= j < k + 1 implies refusal_of(
                            start + entries_of(given.take(j), qubits, clbits),
                            seq![#[trigger] given[j]],
                            qubits,
                            clbits,
                        ) is None by {
                            if j == k {
                                assert(refusal_of(held, seq![value], qubits, clbits) is None);
                            }
                        }
                    }
                },
                Err(e) => {
                    proof {
                        first.lemma_grows_on(middle, self.pool());
                        assert(refusal_of(held, seq![given[k]], qubits, clbits) == Some(e));
                        assert(stops_at(start, given, k, e, qubits, clbits));
                        assert(old(self).stops_at(values@, k, e));
                    }
                    return Err(e);
                },
            }
        }
        proof {
            assert(given.take(given.len() as int) =~= given);
        }
        Ok(())
    }

    /// Removes the instructions that the slice selects, or reports
    /// `IndexOutOfRange` and changes nothing where one of its indices names
    /// no instruction.
    pub fn delete_slice(&mut self, start: isize, stop: isize, step: isize) -> (done: Result<
        (),
        CircuitError,
    >)
        requires
            old(self).wf(),
        ensures
            final(self).wf(),
            final(self).same_tables(old(self)),
            old(self).pool().shrinks_into(final(self).pool()),
            done is Err ==> final(self).pool() == old(self).pool(),
            match done {
                Ok(_) => slice_in_range(
                    start as int,
                    stop as int,
                    step as int,
                    old(self)@.len() as int,
                ) && final(self)@ == slice_deleted(
                    old(self)@,
                    start as int,
                    stop as int,
                    step as int,
                ),
                Err(e) => !slice_in_range(
                    start as int,
                    stop as int,
                    step as int,
                    old(self)@.len() as int,
                ) && e == CircuitError::IndexOutOfRange && final(self)@ == old(self)@,
            },
    {
        let positions = match slice_to_positions(start, stop, step, self.data.len()) {
            Ok(positions) => positions,
            Err(e) => {
                return Err(e);
            },
        };
        let ghost wanted = slice_positions(
            start as int,
            stop as int,
            step as int,
            self@.len() as int,
        );
        proof {
            lemma_positions_in_range(start as int, stop as int, step as int, self@.len() as int);
        }
        let marks = mark_positions(&positions, 0, self.data.len(), Ghost(wanted));
        proof {
            assert(wanted.skip(0) =~= wanted);
        }
        self.remove_marked(&marks, Ghost(wanted.to_set()));
        Ok(())
    }

    /// Assigns `values` to the slice. An extended slice, one whose step is
    /// not 1, takes exactly as many values as it selects positions:
    /// `LengthMismatch` otherwise. `IndexOutOfRange` where one of the
    /// indices of the slice names no instruction. Else the values may be
    /// refused. On an error the sequence is as before.
    pub fn set_slice(
        &mut self,
        start: isize,
        stop: isize,
        step: isize,
        values: Vec<CircuitInstruction<Op>>,
    ) -> (done: Result<(), CircuitError>)
        requires
            old(self).wf(),
            old(self)@.len() + values@.len() < isize::MAX,
        ensures
            final(self).wf(),
            final(self).same_tables(old(self)),
            old(self).pool().agrees_with(final(self).pool()),
            done is Err ==> old(self).pool().grows_into(final(self).pool())
                && old(self).pool().shrinks_into(final(self).pool()),
            match done {
                Ok(_) => old(self).slice_refusal(start as int, stop as int, step as int, values@)
                    is None && final(self)@ == slice_assigned(
                    old(self)@,
                    start as int,
                    stop as int,
                    step as int,
                    old(self).entries_for(values@),
                ),
                Err(e) => old(self).slice_refusal(start as int, stop as int, step as int, values@)
                    == Some(e) && final(self)@ == old(self)@,
            },
    {
        let selected = slice_length(start, stop, step);
        let given = values.len();
        if step != 1 && selected != given {
            return Err(CircuitError::LengthMismatch);
        }
        let length = self.data.len();
        let positions = match slice_to_positions(start, stop, step, length) {
            Ok(positions) => positions,
            Err(e) => {
                return Err(e);
            },
        };
        let at = clamped_index(stop, length);
        let ghost first = self@;
        let ghost entries = self.entries_for(values@);
        let ghost qubits = self.qubit_table();
        let ghost clbits = self.clbit_table();
        let ghost wanted = slice_positions(start as int, stop as int, step as int, length as int);
        let ghost before = self.pool();
        let records = match self.intern_instructions(values) {
            Ok(records) => records,
            Err(e) => {
                return Err(e);
            },
        };
        let ghost grown = self.pool();
        let ghost all = records@;
        let ghost handles = handles_of(records@);
        let ghost written = overwritten(first, wanted, entries);
        let overlap = if selected < given {
            selected
        } else {
            given
        };
        proof {
            lemma_positions_in_range(start as int, stop as int, step as int, length as int);
            lemma_overwritten_len(first, wanted, entries);
            assert(handles.skip(0) =~= handles);
            assert(wanted.take(0) =~= Seq::<int>::empty());
            assert forall|j: int| 0 <= j < entries.len() implies entry_fits(
                #[trigger] entries[j],
                qubits.len(),
                clbits.len(),
            ) by {
                assert(entry_in(all[j], self.pool()) == entries[j]);
            }
        }
        let mut k: usize = 0;
        for record in it: records
            invariant
                it.seq() == all,
                k == it.index(),
                handles == handles_of(all),
                entries.len() == all.len(),
                all.len() == given,
                first.len() == length,
                length + given < isize::MAX,
                wanted.len() == selected,
                positions@.len() == selected,
                overlap <= selected,
                overlap <= given,
                overlap == selected || overlap == given,
                at <= length,
                written == overwritten(first, wanted, entries),
                written.len() == length,
                forall|j: int| 0 <= j < wanted.len() ==> #[trigger] positions@[j] == wanted[j],
                forall|j: int| 0 <= j < wanted.len() ==> 0 <= #[trigger] wanted[j] < length,
                self.inv_with(handles.skip(k as int)),
                self.qubit_table() == qubits,
                self.clbit_table() == clbits,
                table_wf(qubits),
                table_wf(clbits),
                forall|j: int|
                    k <= j < all.len() ==> entry_in(#[trigger] all[j], self.pool()) == entries[j],
                forall|j: int|
                    0 <= j < entries.len() ==> entry_fits(
                        #[trigger] entries[j],
                        qubits.len(),
                        clbits.len(),
                    ),
                entries_fit(self@, qubits.len(), clbits.len()),
                self@.len() <= length + k,
                grown.shrinks_into(self.pool()),
                k <= overlap ==> self@ == overwritten(first, wanted.take(k as int), entries),
                k > overlap ==> self@ == written.take(at as int) + entries.subrange(
                    selected as int,
                    k as int,
                ) + written.skip(at as int),
        {
            let ghost rest = handles.skip(k + 1);
            let ghost earlier = self@;
            let ghost pool = self.pool();
            proof {
                assert(handles.skip(k as int) =~= rest.insert(
                    0,
                    (record.qubits_id, record.clbits_id),
                ));
                assert(entry_in(all[k as int], pool) == entries[k as int]);
                if k <= overlap {
                    lemma_overwritten_len(first, wanted.take(k as int), entries);
                }
            }
            if k < overlap {
                self.store_over(positions[k], record, Ghost(rest));
                proof {
                    grown.lemma_shrinks_on(pool, self.pool());
                    let shorter = wanted.take(k as int);
                    let longer = wanted.take(k + 1);
                    assert(longer.drop_last() =~= shorter);
                    assert(longer.last() == wanted[k as int]);
                    assert(self@ == overwritten(first, longer, entries));
                    lemma_in_use_is_occupied(self.pool());
                    assert forall|j: int| k + 1 <= j < all.len() implies entry_in(
                        #[trigger] all[j],
                        self.pool(),
                    ) == entries[j] by {
                        let pair = handles[j];
                        assert(rest[j - (k + 1)] == pair);
                        lemma_ref_count_positive(rest, pair.0);
                        lemma_ref_count_positive(rest, pair.1);
                        assert(weight(rest[j - (k + 1)], pair.0) >= 1);
                        assert(weight(rest[j - (k + 1)], pair.1) >= 1);
                        assert(self.pool().use_count(pair.0) == ref_count(
                            handles_of(self.data@),
                            pair.0,
                        ) + ref_count(rest, pair.0));
                        assert(self.pool().use_count(pair.1) == ref_count(
                            handles_of(self.data@),
                            pair.1,
                        ) + ref_count(rest, pair.1));
                        assert(entry_in(all[j], pool) == entries[j]);
                    }
                    assert forall|i: int| 0 <= i < self@.len() implies entry_fits(
                        #[trigger] self@[i],
                        qubits.len(),
                        clbits.len(),
                    ) by {
                        if i != wanted[k as int] {
                            assert(self@[i] == earlier[i]);
                        }
                    }
                }
            } else {
                proof {
                    if k == overlap {
                        assert(wanted.take(k as int) =~= wanted);
                        assert(earlier =~= written.take(at as int) + entries.subrange(
                            selected as int,
                            k as int,
                        ) + written.skip(at as int));
                    }
                }
                let position = at + (k - selected);
                self.store_before(position, record, Ghost(rest));
                proof {
                    assert(self@ =~= written.take(at as int) + entries.subrange(
                        selected as int,
                        k + 1,
                    ) + written.skip(at as int));
                    assert forall|i: int| 0 <= i < self@.len() implies entry_fits(
                        #[trigger] self@[i],
                        qubits.len(),
                        clbits.len(),
                    ) by {
                        if i < position {
                            assert(self@[i] == earlier[i]);
                        } else if i > position {
                            assert(self@[i] == earlier[i - 1]);
                        }
                    }
                }
            }
            k += 1;
        }
        proof {
            assert(handles.skip(given as int) =~= Seq::<HandlePair>::empty());
        }
        if selected > given {
            let marks = mark_positions(&positions, given, length, Ghost(wanted));
            proof {
                lemma_overwritten_len(first, wanted.take(given as int), entries);
            }
            let ghost written_pool = self.pool();
            self.remove_marked(&marks, Ghost(wanted.skip(given as int).to_set()));
            proof {
                grown.lemma_shrinks_on(written_pool, self.pool());
            }
        } else {
            proof {
                if selected == given {
                    assert(wanted.skip(given as int) =~= Seq::<int>::empty());
                    assert(wanted.skip(given as int).to_set() =~= Set::<int>::empty());
                    lemma_without_nothing(self@);
                } else {
                    assert(entries.skip(selected as int) =~= entries.subrange(
                        selected as int,
                        given as int,
                    ));
                }
            }
        }
        proof {
            before.lemma_grows_then_shrinks(grown, self.pool());
        }
        Ok(())
    }

    /// Removes what `index` selects: one instruction for a single index,
    /// those of the slice for a slice.
    pub fn delitem(&mut self, index: SliceOrInt) -> (done: Result<(), CircuitError>)
        requires
            old(self).wf(),
        ensures
            final(self).wf(),
            final(self).same_tables(old(self)),
            old(self).pool().shrinks_into(final(self).pool()),
            done is Err ==> final(self).pool() == old(self).pool(),
            match index {
                SliceOrInt::Int(i) => match done {
                    Ok(_) => index_in_range(i as int, old(self)@.len() as int) && final(self)@
                        == old(self)@.remove(wrap_index(i as int, old(self)@.len() as int)),
                    Err(e) => !index_in_range(i as int, old(self)@.len() as int) && e
                        == CircuitError::IndexOutOfRange && final(self)@ == old(self)@,
                },
                SliceOrInt::Slice { start, stop, step } => match done {
                    Ok(_) => slice_in_range(
                        start as int,
                        stop as int,
                        step as int,
                        old(self)@.len() as int,
                    ) && final(self)@ == slice_deleted(
                        old(self)@,
                        start as int,
                        stop as int,
                        step as int,
                    ),
                    Err(e) => !slice_in_range(
                        start as int,
                        stop as int,
                        step as int,
                        old(self)@.len() as int,
                    ) && e == CircuitError::IndexOutOfRange && final(self)@ == old(self)@,
                },
            },
    {
        match index {
            SliceOrInt::Int(i) => self.delete(i),
            SliceOrInt::Slice { start, stop, step } => self.delete_slice(start, stop, step),
        }
    }

    /// The pool holds the operand lists that occur in the sequence, each
    /// once: it has as many occupied slots as the instructions have
    /// distinct lists, and never more of them than there are handles.
    pub proof fn lemma_pool_holds_distinct_lists(&self)
        requires
            self.wf(),
        ensures
            self.pool().wf(),
            self.pool().keys() == keys_of(self@),
            keys_of(self@).finite(),
            self.pool().occupied_count() == keys_of(self@).len(),
            keys_of(self@).len() <= pool_limit(),
    {
        lemma_keys_agree(self.data@, self.intern_context@);
        self.intern_context@.lemma_keys_count();
    }

    /// A list that is still in use after instructions were removed is held
    /// under the handle it had: only the removal of the last instruction
    /// that names a list empties the list's slot.
    pub proof fn lemma_list_in_use_keeps_handle(&self, after: &CircuitData<Op>, handle: IndexType)
        requires
            self.wf(),
            after.wf(),
            self.pool().shrinks_into(after.pool()),
            self.pool().occupied(handle),
            keys_of(after@).contains(self.pool().operands(handle)),
        ensures
            after.pool().occupied(handle),
            after.pool().operands(handle) == self.pool().operands(handle),
    {
        self.lemma_pool_holds_distinct_lists();
        after.lemma_pool_holds_distinct_lists();
        self.pool().lemma_held_list_keeps_handle(after.pool(), handle);
    }

    /// Each operand list is in use as often as it occurs in the sequence.
    pub proof fn lemma_uses_are_occurrences(&self, key: Seq<BitType>)
        requires
            self.wf(),
        ensures
            self.pool().uses_of(key) == occurrences(self@, key),
    {
        let pool = self.intern_context@;
        lemma_keys_agree(self.data@, pool);
        if pool.holds(key) {
            let h = pool.handle_of(key);
            assert(pool.occupied(h) && pool.operands(h) == key);
            assert forall|i: int| 0 <= i < self.data@.len() implies pool.occupied(
                (#[trigger] self.data@[i]).qubits_id,
            ) && pool.occupied(self.data@[i].clbits_id) by {
                lemma_stored_occupied(self.data@, pool, Seq::empty(), i);
            }
            lemma_counts_by_key(self.data@, pool, h);
            assert(pool.use_count(h) == ref_count(handles_of(self.data@), h) + ref_count(
                Seq::<HandlePair>::empty(),
                h,
            ));
        } else {
            assert(!pool.keys().contains(key));
            lemma_occurrences_none(self@, key);
        }
    }

    /// Finds the indices of the resources of `value` and interns the two
    /// lists. The record that comes back is not stored yet.
    fn intern_instruction(&mut self, value: CircuitInstruction<Op>) -> (packed: Result<
        InternedInstruction<Op>,
        CircuitError,
    >)
        requires
            old(self).wf(),
        ensures
            final(self).data@ == old(self).data@,
            final(self).same_tables(old(self)),
            old(self).pool().grows_into(final(self).pool()),
            packed is Err ==> old(self).pool().shrinks_into(final(self).pool()),
            match packed {
                Ok(record) => old(self).refusal(seq![value]) is None && final(self)@ == old(self)@
                    && record.op == value.operation && final(self).inv_with(
                    seq![(record.qubits_id, record.clbits_id)],
                ) && grown_by(
                    old(self).pool(),
                    final(self).pool(),
                    seq![(record.qubits_id, record.clbits_id)],
                    seq![(old(self).entry_for(value).qubits, old(self).entry_for(value).clbits)],
                ) && entry_fits(
                    old(self).entry_for(value),
                    old(self).qubit_table().len(),
                    old(self).clbit_table().len(),
                ),
                Err(e) => old(self).refusal(seq![value]) == Some(e) && final(self).wf()
                    && final(self)@ == old(self)@,
            },
    {
        let ghost before = self.intern_context@;
        let ghost entry = self.entry_for(value);
        let ghost incoming = seq![value];
        proof {
            assert(incoming[0] == value);
            assert(key_pairs(self.entries_for(incoming)) =~= seq![(entry.qubits, entry.clbits)]);
            lemma_keys_agree(self.data@, before);
        }
        let qkey = match indices_of(&self.qubits, &value.qubits) {
            Ok(found) => found,
            Err(e) => {
                return Err(e);
            },
        };
        let ckey = match indices_of(&self.clbits, &value.clbits) {
            Ok(found) => found,
            Err(e) => {
                return Err(e);
            },
        };
        proof {
            assert(all_known(incoming, self.qubit_table(), self.clbit_table()));
            lemma_positions_fit(self.qubit_table(), value.qubits@);
            lemma_positions_fit(self.clbit_table(), value.clbits@);
            assert forall|h: IndexType| #[trigger] before.use_count(h) + 2 <= usize::MAX by {
                assert(before.use_count(h) == ref_count(handles_of(self.data@), h) + ref_count(
                    Seq::<HandlePair>::empty(),
                    h,
                ));
                lemma_counts_bounded(handles_of(self.data@), 1, h);
            }
        }
        match intern_pair(&mut self.intern_context, qkey, ckey) {
            Some(pair) => {
                proof {
                    self.intern_context@.lemma_keys_count();
                    lemma_ref_count_one(pair);
                    lemma_entries_kept(self.data@, before, self.intern_context@, Seq::empty());
                    lemma_grown_by_grows(
                        before,
                        self.intern_context@,
                        seq![pair],
                        seq![(entry.qubits, entry.clbits)],
                    );
                    assert forall|h: IndexType| #[trigger]
                        self.intern_context@.use_count(h) == ref_count(handles_of(self.data@), h)
                            + ref_count(seq![pair], h) by {
                        assert(before.use_count(h) == ref_count(handles_of(self.data@), h)
                            + ref_count(Seq::<HandlePair>::empty(), h));
                    }
                }
                Ok(
                    InternedInstruction {
                        op: value.operation,
                        qubits_id: pair.0,
                        clbits_id: pair.1,
                    },
                )
            },
            None => {
                proof {
                    assert forall|h: IndexType| #[trigger]
                        self.intern_context@.use_count(h) == ref_count(handles_of(self.data@), h)
                            + ref_count(Seq::<HandlePair>::empty(), h) by {
                        assert(before.use_count(h) == ref_count(handles_of(self.data@), h)
                            + ref_count(Seq::<HandlePair>::empty(), h));
                    }
                    lemma_entries_kept(self.data@, before, self.intern_context@, Seq::empty());
                    lemma_same_uses_keeps(before, self.intern_context@);
                }
                Err(CircuitError::PoolExhausted)
            },
        }
    }

    /// Finds the indices of the resources of each of `values` and interns
    /// all their lists. The records that come back are not stored yet.
    /// Where one of the values is refused, nothing is interned.
    fn intern_instructions(&mut self, values: Vec<CircuitInstruction<Op>>) -> (packed: Result<
        Vec<InternedInstruction<Op>>,
        CircuitError,
    >)
        requires
            old(self).wf(),
            old(self)@.len() + values@.len() <= isize::MAX,
        ensures
            final(self).data@ == old(self).data@,
            final(self).same_tables(old(self)),
            old(self).pool().grows_into(final(self).pool()),
            packed is Err ==> old(self).pool().shrinks_into(final(self).pool()),
            final(self)@ == old(self)@,
            match packed {
                Ok(records) => old(self).refusal(values@) is None && records@.len()
                    == values@.len() && final(self).inv_with(handles_of(records@))
                    && forall|j: int|
                    0 <= j < records@.len() ==> entry_in(
                        #[trigger] records@[j],
                        final(self).pool(),
                    ) == old(self).entries_for(values@)[j] && entry_fits(
                        old(self).entries_for(values@)[j],
                        old(self).qubit_table().len(),
                        old(self).clbit_table().len(),
                    ),
                Err(e) => old(self).refusal(values@) == Some(e) && final(self).wf(),
            },
    {
        let ghost before = self.intern_context@;
        let ghost given = values@;
        let ghost entries = self.entries_for(values@);
        let mut keys: Vec<(Vec<BitType>, Vec<BitType>)> = Vec::new();
        let mut k: usize = 0;
        while k < values.len()
            invariant
                self.wf(),
                given == values@,
                entries == self.entries_for(given),
                k <= values.len(),
                keys@.len() == k,
                forall|j: int|
                    0 <= j < k ==> is_known(
                        #[trigger] given[j],
                        self.qubit_table(),
                        self.clbit_table(),
                    ),
                forall|j: int|
                    0 <= j < k ==> (#[trigger] keys@[j]).0@ == entries[j].qubits && keys@[j].1@
                        == entries[j].clbits,
                forall|j: int|
                    0 <= j < k ==> entry_fits(
                        #[trigger] entries[j],
                        self.qubit_table().len(),
                        self.clbit_table().len(),
                    ),
            decreases values.len() - k,
        {
            let qkey = match indices_of(&self.qubits, &values[k].qubits) {
                Ok(found) => found,
                Err(e) => {
                    return Err(e);
                },
            };
            let ckey = match indices_of(&self.clbits, &values[k].clbits) {
                Ok(found) => found,
                Err(e) => {
                    return Err(e);
                },
            };
            proof {
                lemma_positions_fit(self.qubit_table(), given[k as int].qubits@);
                lemma_positions_fit(self.clbit_table(), given[k as int].clbits@);
            }
            keys.push((qkey, ckey));
            k += 1;
        }
        proof {
            assert(all_known(given, self.qubit_table(), self.clbit_table()));
            assert(key_views(keys@) =~= key_pairs(entries));
            lemma_keys_agree(self.data@, before);
            assert forall|h: IndexType| #[trigger]
                before.use_count(h) + 2 * keys@.len() <= usize::MAX by {
                assert(before.use_count(h) == ref_count(handles_of(self.data@), h) + ref_count(
                    Seq::<HandlePair>::empty(),
                    h,
                ));
                lemma_counts_bounded(handles_of(self.data@), keys@.len() as int, h);
            }
        }
        let handles = match intern_all(&mut self.intern_context, keys) {
            Some(handles) => handles,
            None => {
                proof {
                    assert forall|h: IndexType| #[trigger]
                        self.intern_context@.use_count(h) == ref_count(handles_of(self.data@), h)
                            + ref_count(Seq::<HandlePair>::empty(), h) by {
                        assert(before.use_count(h) == ref_count(handles_of(self.data@), h)
                            + ref_count(Seq::<HandlePair>::empty(), h));
                    }
                    lemma_entries_kept(self.data@, before, self.intern_context@, Seq::empty());
                    lemma_same_uses_keeps(before, self.intern_context@);
                }
                return Err(CircuitError::PoolExhausted);
            },
        };
        let ghost after = self.intern_context@;
        proof {
            after.lemma_keys_count();
            lemma_entries_kept(self.data@, before, after, Seq::empty());
            lemma_grown_by_grows(before, after, handles@, key_pairs(entries));
            assert forall|h: IndexType| #[trigger]
                after.use_count(h) == ref_count(handles_of(self.data@), h) + ref_count(
                    handles@,
                    h,
                ) by {
                assert(before.use_count(h) == ref_count(handles_of(self.data@), h) + ref_count(
                    Seq::<HandlePair>::empty(),
                    h,
                ));
            }
        }
        let mut records: Vec<InternedInstruction<Op>> = Vec::new();
        let total = handles.len();
        let mut j: usize = 0;
        for value in it: values
            invariant
                it.seq() == given,
                j == it.index(),
                total == given.len(),
                handles@.len() == given.len(),
                records@.len() == j,
                forall|i: int|
                    0 <= i < j ==> (#[trigger] records@[i]).op == given[i].operation
                        && records@[i].qubits_id == handles@[i].0 && records@[i].clbits_id
                        == handles@[i].1,
        {
            assert(j < total);
            let pair = handles[j];
            records.push(
                InternedInstruction { op: value.operation, qubits_id: pair.0, clbits_id: pair.1 },
            );
            j += 1;
        }
        proof {
            assert(handles_of(records@) =~= handles@);
            assert forall|j: int| 0 <= j < records@.len() implies entry_in(
                #[trigger] records@[j],
                after,
            ) == entries[j] by {
                assert(after.operands(handles@[j].0) == key_pairs(entries)[j].0);
            }
        }
        Ok(records)
    }

    /// Stores `record`, whose handles are interned already, before the
    /// instruction at `position`.
    fn store_before(
        &mut self,
        position: usize,
        record: InternedInstruction<Op>,
        Ghost(rest): Ghost<Seq<HandlePair>>,
    )
        requires
            old(self).inv_with(rest.insert(0, (record.qubits_id, record.clbits_id))),
            position <= old(self)@.len(),
        ensures
            final(self).inv_with(rest),
            final(self).same_tables(old(self)),
            final(self).pool() == old(self).pool(),
            final(self)@ == old(self)@.insert(position as int, entry_in(record, old(self).pool())),
    {
        let ghost stored = self.data@;
        let ghost pair = (record.qubits_id, record.clbits_id);
        self.data.insert(position, record);
        proof {
            assert(handles_of(self.data@) =~= handles_of(stored).insert(position as int, pair));
            lemma_ref_count_insert(handles_of(stored), position as int, pair);
            lemma_ref_count_insert(rest, 0, pair);
            assert forall|h: IndexType| #[trigger]
                self.pool().use_count(h) == ref_count(handles_of(self.data@), h) + ref_count(
                    rest,
                    h,
                ) by {
                assert(self.pool().use_count(h) == ref_count(handles_of(stored), h) + ref_count(
                    rest.insert(0, pair),
                    h,
                ));
            }
            assert(self@ =~= entries_in(stored, self.pool()).insert(
                position as int,
                entry_in(record, self.pool()),
            ));
        }
    }

    /// Stores `record`, whose handles are interned already, in the place of
    /// the instruction at `position`, and gives up the handles of that one.
    fn store_over(
        &mut self,
        position: usize,
        record: InternedInstruction<Op>,
        Ghost(rest): Ghost<Seq<HandlePair>>,
    )
        requires
            old(self).inv_with(rest.insert(0, (record.qubits_id, record.clbits_id))),
            position < old(self)@.len(),
        ensures
            final(self).inv_with(rest),
            final(self).same_tables(old(self)),
            old(self).pool().shrinks_into(final(self).pool()),
            final(self)@ == old(self)@.update(position as int, entry_in(record, old(self).pool())),
            forall|h: IndexType| #[trigger]
                final(self).pool().occupied(h) ==> final(self).pool().operands(h)
                    == old(self).pool().operands(h),
    {
        let ghost before = self.intern_context@;
        let ghost stored = self.data@;
        let ghost pair = (record.qubits_id, record.clbits_id);
        let ghost entry = entry_in(record, before);
        let replaced = (self.data[position].qubits_id, self.data[position].clbits_id);
        self.data[position] = record;
        proof {
            assert(handles_of(self.data@) =~= handles_of(stored).update(position as int, pair));
            assert(handles_of(stored)[position as int] == replaced);
            lemma_ref_count_update(handles_of(stored), position as int, pair);
            lemma_ref_count_insert(rest, 0, pair);
            assert forall|h: IndexType| #[trigger] before.use_count(h) >= weight(replaced, h) by {
                assert(before.use_count(h) == ref_count(handles_of(stored), h) + ref_count(
                    rest.insert(0, pair),
                    h,
                ));
                assert(ref_count(handles_of(self.data@), h) + weight(replaced, h) == ref_count(
                    handles_of(stored),
                    h,
                ) + weight(pair, h));
            }
        }
        release_pair(&mut self.intern_context, replaced);
        proof {
            let after = self.intern_context@;
            assert forall|h: IndexType| #[trigger]
                after.use_count(h) == ref_count(handles_of(self.data@), h) + ref_count(rest, h) by {
                assert(before.use_count(h) == ref_count(handles_of(stored), h) + ref_count(
                    rest.insert(0, pair),
                    h,
                ));
                assert(ref_count(handles_of(self.data@), h) + weight(replaced, h) == ref_count(
                    handles_of(stored),
                    h,
                ) + weight(pair, h));
                assert(after.use_count(h) + weight(replaced, h) == before.use_count(h));
            }
            assert forall|i: int| 0 <= i < self.data@.len() implies self@[i] == entries_in(
                stored,
                before,
            ).update(position as int, entry)[i] by {
                lemma_stored_occupied(self.data@, after, rest, i);
            }
            assert(self@ =~= entries_in(stored, before).update(position as int, entry));
        }
    }

    /// Takes the instruction at `position` out of the sequence and gives up
    /// its two handles.
    fn discard_at(&mut self, position: usize, Ghost(rest): Ghost<Seq<HandlePair>>) -> (record:
        InternedInstruction<Op>)
        requires
            old(self).inv_with(rest),
            position < old(self)@.len(),
        ensures
            final(self).inv_with(rest),
            final(self).same_tables(old(self)),
            old(self).pool().shrinks_into(final(self).pool()),
            final(self)@ == old(self)@.remove(position as int),
            record.op == old(self)@[position as int].op,
            forall|h: IndexType| #[trigger]
                final(self).pool().occupied(h) ==> final(self).pool().operands(h)
                    == old(self).pool().operands(h),
    {
        let ghost before = self.intern_context@;
        let ghost stored = self.data@;
        let record = self.data.remove(position);
        let pair = (record.qubits_id, record.clbits_id);
        proof {
            assert(handles_of(self.data@) =~= handles_of(stored).remove(position as int));
            assert(handles_of(stored)[position as int] == pair);
            lemma_ref_count_remove(handles_of(stored), position as int);
            assert forall|h: IndexType| #[trigger] before.use_count(h) >= weight(pair, h) by {
                assert(before.use_count(h) == ref_count(handles_of(stored), h) + ref_count(
                    rest,
                    h,
                ));
                assert(ref_count(handles_of(self.data@), h) + weight(pair, h) == ref_count(
                    handles_of(stored),
                    h,
                ));
            }
        }
        release_pair(&mut self.intern_context, pair);
        proof {
            let after = self.intern_context@;
            assert forall|h: IndexType| #[trigger]
                after.use_count(h) == ref_count(handles_of(self.data@), h) + ref_count(rest, h) by {
                assert(before.use_count(h) == ref_count(handles_of(stored), h) + ref_count(
                    rest,
                    h,
                ));
                assert(ref_count(handles_of(self.data@), h) + weight(pair, h) == ref_count(
                    handles_of(stored),
                    h,
                ));
                assert(after.use_count(h) + weight(pair, h) == before.use_count(h));
            }
            assert forall|i: int| 0 <= i < self.data@.len() implies self@[i] == entries_in(
                stored,
                before,
            ).remove(position as int)[i] by {
                lemma_stored_occupied(self.data@, after, rest, i);
            }
            assert(self@ =~= entries_in(stored, before).remove(position as int));
        }
        record
    }

    /// Stores `value` before the instruction at `index`, or behind the last
    /// one where `index` is the length.
    fn insert_at(&mut self, index: usize, value: CircuitInstruction<Op>) -> (done: Result<
        (),
        CircuitError,
    >)
        requires
            old(self).wf(),
            old(self)@.len() + 1 < isize::MAX,
            index <= old(self)@.len(),
        ensures
            final(self).wf(),
            final(self).same_tables(old(self)),
            old(self).pool().grows_into(final(self).pool()),
            done is Err ==> old(self).pool().shrinks_into(final(self).pool()),
            match done {
                Ok(_) => old(self).refusal(seq![value]) is None && final(self)@
                    == old(self)@.insert(index as int, old(self).entry_for(value)),
                Err(e) => old(self).refusal(seq![value]) == Some(e) && final(self)@ == old(self)@,
            },
    {
        let ghost entry = self.entry_for(value);
        let record = match self.intern_instruction(value) {
            Ok(record) => record,
            Err(e) => {
                return Err(e);
            },
        };
        proof {
            let pair = (record.qubits_id, record.clbits_id);
            assert(seq![pair] =~= Seq::<HandlePair>::empty().insert(0, pair));
            assert(seq![pair][0] == pair);
            assert(entry_in(record, self.pool()) == entry);
        }
        self.store_before(index, record, Ghost(Seq::empty()));
        Ok(())
    }

    /// Takes the instruction at `position` out of the sequence.
    fn remove_at(&mut self, position: usize) -> (record: InternedInstruction<Op>)
        requires
            old(self).wf(),
            position < old(self)@.len(),
        ensures
            final(self).wf(),
            final(self).same_tables(old(self)),
            old(self).pool().shrinks_into(final(self).pool()),
            final(self)@ == old(self)@.remove(position as int),
            record.op == old(self)@[position as int].op,
    {
        self.discard_at(position, Ghost(Seq::empty()))
    }

    /// Removes the instructions at the marked positions.
    fn remove_marked(&mut self, marks: &Vec<bool>, Ghost(targets): Ghost<Set<int>>)
        requires
            old(self).wf(),
            marks@.len() == old(self)@.len(),
            forall|p: int|
                0 <= p < marks@.len() ==> (#[trigger] marks@[p] <==> targets.contains(p)),
        ensures
            final(self).wf(),
            final(self).same_tables(old(self)),
            old(self).pool().shrinks_into(final(self).pool()),
            final(self)@ == without(old(self)@, targets),
    {
        let ghost start = self@;
        let ghost first = self.pool();
        let ghost qubits = self.qubit_table();
        let ghost clbits = self.clbit_table();
        let total = marks.len();
        let mut position: usize = 0;
        let mut removed: usize = 0;
        proof {
            assert(start.take(0) =~= Seq::<Entry<Op>>::empty());
            assert(without(start.take(0), targets) + start.skip(0) =~= start);
        }
        while position < total
            invariant
                self.wf(),
                self.qubit_table() == qubits,
                self.clbit_table() == clbits,
                total == marks@.len(),
                total == start.len(),
                forall|p: int|
                    0 <= p < marks@.len() ==> (#[trigger] marks@[p] <==> targets.contains(p)),
                position <= total,
                removed <= position,
                self@.len() == total - removed,
                self@ == without(start.take(position as int), targets) + start.skip(
                    position as int,
                ),
                first.shrinks_into(self.pool()),
            decreases total - position,
        {
            let ghost kept = without(start.take(position as int), targets);
            let ghost next = start.take(position + 1);
            proof {
                assert(next.drop_last() =~= start.take(position as int));
                assert(next.last() == start[position as int]);
                assert(kept.len() == position - removed);
            }
            if marks[position] {
                let ghost middle = self.pool();
                let _ = self.remove_at(position - removed);
                removed += 1;
                proof {
                    assert(self@ =~= kept + start.skip(position + 1));
                    first.lemma_shrinks_on(middle, self.pool());
                }
            } else {
                proof {
                    assert(self@ =~= kept.push(start[position as int]) + start.skip(position + 1));
                }
            }
            position += 1;
        }
        proof {
            assert(start.take(total as int) =~= start);
            assert(self@ =~= without(start, targets));
        }
    }

    /// The resources of the instruction at `position`, for each domain.
    fn resources_of(&self, position: usize) -> (found: (Vec<Resource>, Vec<Resource>))
        requires
            self.wf(),
            position < self@.len(),
        ensures
            found.0@ == resources_at(self.qubit_table(), self@[position as int].qubits),
            found.1@ == resources_at(self.clbit_table(), self@[position as int].clbits),
    {
        proof {
            lemma_stored_occupied(self.data@, self.intern_context@, Seq::empty(), position as int);
            assert(entry_fits(
                self@[position as int],
                self.qubit_table().len(),
                self.clbit_table().len(),
            ));
        }
        let record = &self.data[position];
        let qkey = self.intern_context.lookup(record.qubits_id);
        let ckey = self.intern_context.lookup(record.clbits_id);
        proof {
            assert(qkey@ == self@[position as int].qubits);
            assert(ckey@ == self@[position as int].clbits);
        }
        let qubits = resolve(&self.qubits, qkey);
        let clbits = resolve(&self.clbits, ckey);
        (qubits, clbits)
    }

    /// The operation of the instruction at `position`.
    pub(crate) fn operation_at(&self, position: usize) -> (operation: &Op)
        requires
            position < self@.len(),
        ensures
            *operation == self@[position as int].op,
    {
        &self.data[position].op
    }

    /// The operand lists of the instruction at `position`.
    pub(crate) fn operands_at(&self, position: usize) -> (lists: (&Vec<BitType>, &Vec<BitType>))
        requires
            self.wf(),
            position < self@.len(),
        ensures
            lists.0@ == self@[position as int].qubits,
            lists.1@ == self@[position as int].clbits,
    {
        proof {
            lemma_stored_occupied(self.data@, self.intern_context@, Seq::empty(), position as int);
        }
        let record = &self.data[position];
        (
            self.intern_context.lookup(record.qubits_id),
            self.intern_context.lookup(record.clbits_id),
        )
    }
}

impl<Op: Clone> CircuitData<Op> {
    /// The instruction at `position`, its operation cloned.
    fn materialize(&self, position: usize) -> (instruction: CircuitInstruction<Op>)
        requires
            self.wf(),
            position < self@.len(),
        ensures
            shows(instruction, self@[position as int], self.qubit_table(), self.clbit_table()),
    {
        let (qubits, clbits) = self.resources_of(position);
        CircuitInstruction { operation: self.data[position].op.clone(), qubits, clbits }
    }

    /// The instruction that `index` names, a negative index counting from
    /// the end; `IndexOutOfRange` where it names none.
    pub fn get(&self, index: isize) -> (found: Result<CircuitInstruction<Op>, CircuitError>)
        requires
            self.wf(),
        ensures
            match found {
                Ok(instruction) => index_in_range(index as int, self@.len() as int) && shows(
                    instruction,
                    self@[wrap_index(index as int, self@.len() as int)],
                    self.qubit_table(),
                    self.clbit_table(),
                ),
                Err(e) => !index_in_range(index as int, self@.len() as int) && e
                    == CircuitError::IndexOutOfRange,
            },
    {
        match normalize_index(index, self.data.len()) {
            Ok(position) => Ok(self.materialize(position)),
            Err(e) => Err(e),
        }
    }

    /// The instructions that the slice selects, in the order of the slice;
    /// `IndexOutOfRange` where one of its indices names no instruction.
    pub fn get_slice(&self, start: isize, stop: isize, step: isize) -> (found: Result<
        Vec<CircuitInstruction<Op>>,
        CircuitError,
    >)
        requires
            self.wf(),
        ensures
            match found {
                Ok(list) => slice_in_range(
                    start as int,
                    stop as int,
                    step as int,
                    self@.len() as int,
                ) && list@.len() == slice_len(start as int, stop as int, step as int)
                    && forall|k: int|
                    0 <= k < list@.len() ==> shows(
                        #[trigger] list@[k],
                        self@[slice_positions(
                            start as int,
                            stop as int,
                            step as int,
                            self@.len() as int,
                        )[k]],
                        self.qubit_table(),
                        self.clbit_table(),
                    ),
                Err(e) => !slice_in_range(
                    start as int,
                    stop as int,
                    step as int,
                    self@.len() as int,
                ) && e == CircuitError::IndexOutOfRange,
            },
    {
        let positions = match slice_to_positions(start, stop, step, self.data.len()) {
            Ok(positions) => positions,
            Err(e) => {
                return Err(e);
            },
        };
        let ghost wanted = slice_positions(
            start as int,
            stop as int,
            step as int,
            self@.len() as int,
        );
        let ghost indices = slice_indices(start as int, stop as int, step as int);
        let mut list: Vec<CircuitInstruction<Op>> = Vec::new();
        let mut k: usize = 0;
        while k < positions.len()
            invariant
                self.wf(),
                k <= positions.len(),
                list@.len() == k,
                positions@.len() == wanted.len(),
                wanted.len() == indices.len(),
                forall|j: int| 0 <= j < positions@.len() ==> #[trigger] positions@[j] == wanted[j],
                forall|j: int|
                    0 <= j < wanted.len() ==> index_in_range(
                        #[trigger] indices[j],
                        self@.len() as int,
                    ) && wanted[j] == wrap_index(indices[j], self@.len() as int),
                forall|j: int|
                    0 <= j < k ==> shows(
                        #[trigger] list@[j],
                        self@[wanted[j]],
                        self.qubit_table(),
                        self.clbit_table(),
                    ),
            decreases positions.len() - k,
        {
            proof {
                assert(positions@[k as int] == wanted[k as int]);
                assert(index_in_range(indices[k as int], self@.len() as int));
            }
            list.push(self.materialize(positions[k]));
            k += 1;
        }
        Ok(list)
    }

    /// What `index` selects: one instruction for a single index, a list for
    /// a slice.
    pub fn getitem(&self, index: SliceOrInt) -> (found: Result<Item<Op>, CircuitError>)
        requires
            self.wf(),
        ensures
            match index {
                SliceOrInt::Int(i) => match found {
                    Ok(Item::One(instruction)) => index_in_range(i as int, self@.len() as int)
                        && shows(
                        instruction,
                        self@[wrap_index(i as int, self@.len() as int)],
                        self.qubit_table(),
                        self.clbit_table(),
                    ),
                    Ok(Item::Many(_)) => false,
                    Err(e) => !index_in_range(i as int, self@.len() as int) && e
                        == CircuitError::IndexOutOfRange,
                },
                SliceOrInt::Slice { start, stop, step } => match found {
                    Ok(Item::Many(list)) => slice_in_range(
                        start as int,
                        stop as int,
                        step as int,
                        self@.len() as int,
                    ) && list@.len() == slice_len(start as int, stop as int, step as int)
                        && forall|k: int|
                        0 <= k < list@.len() ==> shows(
                            #[trigger] list@[k],
                            self@[slice_positions(
                                start as int,
                                stop as int,
                                step as int,
                                self@.len() as int,
                            )[k]],
                            self.qubit_table(),
                            self.clbit_table(),
                        ),
                    Ok(Item::One(_)) => false,
                    Err(e) => !slice_in_range(
                        start as int,
                        stop as int,
                        step as int,
                        self@.len() as int,
                    ) && e == CircuitError::IndexOutOfRange,
                },
            },
    {
        match index {
            SliceOrInt::Int(i) => match self.get(i) {
                Ok(instruction) => Ok(Item::One(instruction)),
                Err(e) => Err(e),
            },
            SliceOrInt::Slice { start, stop, step } => match self.get_slice(start, stop, step) {
                Ok(list) => Ok(Item::Many(list)),
                Err(e) => Err(e),
            },
        }
    }

    /// A sequence of its own with the same instructions, their operations
    /// cloned, a pool of its own and tables of its own.
    pub fn copy(&self) -> (duplicate: CircuitData<Op>)
        requires
            self.wf(),
        ensures
            duplicate.wf(),
            duplicate.same_tables(self),
            duplicate.pool() == self.pool(),
            duplicate@.len() == self@.len(),
            forall|i: int|
                0 <= i < self@.len() ==> cloned(self@[i].op, (#[trigger] duplicate@[i]).op)
                    && duplicate@[i].qubits == self@[i].qubits && duplicate@[i].clbits
                    == self@[i].clbits,
    {
        let mut data: Vec<InternedInstruction<Op>> = Vec::new();
        let mut i: usize = 0;
        while i < self.data.len()
            invariant
                i <= self.data.len(),
                data@.len() == i,
                forall|j: int|
                    0 <= j < i ==> cloned(self.data@[j].op, (#[trigger] data@[j]).op)
                        && data@[j].qubits_id == self.data@[j].qubits_id && data@[j].clbits_id
                        == self.data@[j].clbits_id,
            decreases self.data.len() - i,
        {
            let record = &self.data[i];
            data.push(
                InternedInstruction {
                    op: record.op.clone(),
                    qubits_id: record.qubits_id,
                    clbits_id: record.clbits_id,
                },
            );
            i += 1;
        }
        let duplicate = CircuitData {
            data,
            intern_context: self.intern_context.clone(),
            qubits: self.qubits.clone(),
            clbits: self.clbits.clone(),
        };
        proof {
            assert(handles_of(duplicate.data@) =~= handles_of(self.data@));
            assert forall|i: int| 0 <= i < self@.len() implies cloned(
                self@[i].op,
                (#[trigger] duplicate@[i]).op,
            ) && duplicate@[i].qubits == self@[i].qubits && duplicate@[i].clbits
                == self@[i].clbits by {}
            assert forall|i: int| 0 <= i < duplicate@.len() implies entry_fits(
                #[trigger] duplicate@[i],
                duplicate.qubit_table().len(),
                duplicate.clbit_table().len(),
            ) by {
                assert(entry_fits(self@[i], self.qubit_table().len(), self.clbit_table().len()));
            }
        }
        duplicate
    }
}

/// A mark for each of `len` positions: set for those that `positions` names
/// from its element `from` on.
fn mark_positions(
    positions: &Vec<usize>,
    from: usize,
    len: usize,
    Ghost(wanted): Ghost<Seq<int>>,
) -> (marks: Vec<bool>)
    requires
        from <= positions@.len(),
        positions@.len() == wanted.len(),
        forall|k: int| 0 <= k < positions@.len() ==> #[trigger] positions@[k] == wanted[k],
        forall|k: int| 0 <= k < wanted.len() ==> 0 <= #[trigger] wanted[k] < len,
    ensures
        marks@.len() == len,
        forall|p: int|
            0 <= p < len ==> (#[trigger] marks@[p] <==> wanted.skip(from as int).to_set().contains(
                p,
            )),
{
    let mut marks: Vec<bool> = vec![false; len];
    let mut k: usize = from;
    while k < positions.len()
        invariant
            from <= k <= positions@.len(),
            positions@.len() == wanted.len(),
            forall|j: int| 0 <= j < positions@.len() ==> #[trigger] positions@[j] == wanted[j],
            forall|j: int| 0 <= j < wanted.len() ==> 0 <= #[trigger] wanted[j] < len,
            marks@.len() == len,
            forall|p: int|
                0 <= p < len ==> (#[trigger] marks@[p] <==> exists|j: int|
                    from <= j < k && wanted[j] == p),
        decreases positions.len() - k,
    {
        let ghost earlier = marks@;
        let position = positions[k];
        marks[position] = true;
        proof {
            assert forall|p: int| 0 <= p < len implies (#[trigger] marks@[p] <==> exists|j: int|
                from <= j < k + 1 && wanted[j] == p) by {
                if p == position {
                    assert(wanted[k as int] == p);
                } else {
                    assert(marks@[p] == earlier[p]);
                    if exists|j: int| from <= j < k + 1 && wanted[j] == p {
                        let j = choose|j: int| from <= j < k + 1 && wanted[j] == p;
                        assert(j < k);
                    }
                }
            }
        }
        k += 1;
    }
    proof {
        let tail = wanted.skip(from as int);
        assert forall|p: int| 0 <= p < len implies (#[trigger] marks@[p]
            <==> tail.to_set().contains(p)) by {
            if marks@[p] {
                let j = choose|j: int| from <= j < k && wanted[j] == p;
                assert(tail[j - from] == p);
                assert(tail.contains(p));
            }
            if tail.to_set().contains(p) {
                assert(tail.contains(p));
                let i = choose|i: int| 0 <= i < tail.len() && tail[i] == p;
                assert(wanted[i + from] == p);
            }
        }
    }
    marks
}

/// The indices of `resources` in `table`, or `UnknownResource` where one of
/// them is not registered.
fn indices_of(table: &ResourceTable, resources: &Vec<Resource>) -> (indices: Result<
    Vec<BitType>,
    CircuitError,
>)
    requires
        table.wf(),
    ensures
        match indices {
            Ok(found) => all_registered(table@, resources@) && found@ == positions_of(
                table@,
                resources@,
            ),
            Err(e) => !all_registered(table@, resources@) && e == CircuitError::UnknownResource,
        },
{
    let mut found: Vec<BitType> = Vec::with_capacity(resources.len());
    let mut k: usize = 0;
    while k < resources.len()
        invariant
            table.wf(),
            k <= resources.len(),
            found@.len() == k,
            forall|j: int| 0 <= j < k ==> is_registered(table@, #[trigger] resources@[j]),
            forall|j: int|
                0 <= j < k ==> #[trigger] found@[j] == position_of(table@, resources@[j]),
        decreases resources.len() - k,
    {
        match table.index_of(&resources[k]) {
            Ok(index) => {
                found.push(index);
            },
            Err(e) => {
                return Err(e);
            },
        }
        k += 1;
    }
    assert(found@ =~= positions_of(table@, resources@));
    Ok(found)
}

/// The resources that stand at `indices` in `table`.
fn resolve(table: &ResourceTable, indices: &Vec<BitType>) -> (resources: Vec<Resource>)
    requires
        forall|k: int| 0 <= k < indices@.len() ==> #[trigger] indices@[k] < table@.len(),
    ensures
        resources@ == resources_at(table@, indices@),
{
    let mut resources: Vec<Resource> = Vec::with_capacity(indices.len());
    let mut k: usize = 0;
    while k < indices.len()
        invariant
            k <= indices.len(),
            resources@.len() == k,
            forall|j: int| 0 <= j < indices@.len() ==> #[trigger] indices@[j] < table@.len(),
            forall|j: int| 0 <= j < k ==> #[trigger] resources@[j] == table@[indices@[j] as int],
        decreases indices.len() - k,
    {
        let found = table.get(indices[k]);
        resources.push(found.unwrap().clone());
        k += 1;
    }
    assert(resources@ =~= resources_at(table@, indices@));
    resources
}

} // verus!
