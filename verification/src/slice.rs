//! Index arithmetic for sequences that accept negative positions and
//! slices with a step.

use crate::error::CircuitError;
use vstd::prelude::*;

verus! {

/// What selects elements of a sequence: one position, or the positions
/// `start`, `start + step`, ... short of `stop`.
#[derive(Clone, Copy, Debug, PartialEq, Eq, Structural)]
pub enum SliceOrInt {
    Slice { start: isize, stop: isize, step: isize },
    Int(isize),
}

/// The position that `index` names in a sequence of `len` elements: a
/// negative `index` counts from the end.
pub open spec fn wrap_index(index: int, len: int) -> int {
    if index < 0 {
        index + len
    } else {
        index
    }
}

/// Whether `index` names an element of a sequence of `len` elements.
pub open spec fn index_in_range(index: int, len: int) -> bool {
    0 <= wrap_index(index, len) < len
}

/// The position before which an insertion at `index` takes place: the
/// position that `index` names, brought into `0 ..= len`.
pub open spec fn clamp_index(index: int, len: int) -> int {
    let wrapped = wrap_index(index, len);
    if wrapped < 0 {
        0
    } else if wrapped > len {
        len
    } else {
        wrapped
    }
}

/// The number of indices that a slice selects.
pub open spec fn slice_len(start: int, stop: int, step: int) -> nat {
    if step > 0 && start < stop {
        ((stop - start - 1) / step + 1) as nat
    } else if step < 0 && start > stop {
        ((start - stop - 1) / (-step) + 1) as nat
    } else {
        0
    }
}

/// The indices that a slice selects, in the order of the slice.
pub open spec fn slice_indices(start: int, stop: int, step: int) -> Seq<int> {
    Seq::new(slice_len(start, stop, step), |k: int| start + k * step)
}

/// Whether each index of the slice names an element of a sequence of `len`
/// elements.
pub open spec fn slice_in_range(start: int, stop: int, step: int, len: int) -> bool {
    forall|k: int|
        0 <= k < slice_len(start, stop, step) ==> index_in_range(
            #[trigger] slice_indices(start, stop, step)[k],
            len,
        )
}

/// The positions that the indices of a slice name in a sequence of `len`
/// elements, in the order of the slice.
pub open spec fn slice_positions(start: int, stop: int, step: int, len: int) -> Seq<int> {
    Seq::new(slice_len(start, stop, step), |k: int| wrap_index(start + k * step, len))
}

/// `s` without the elements at the positions `targets`, the others in
/// their order.
pub open spec fn without<T>(s: Seq<T>, targets: Set<int>) -> Seq<T>
    decreases s.len(),
{
    if s.len() == 0 {
        s
    } else if targets.contains(s.len() - 1) {
        without(s.drop_last(), targets)
    } else {
        without(s.drop_last(), targets).push(s.last())
    }
}

/// `s` after `values[0]` has been written at `positions[0]`, then
/// `values[1]` at `positions[1]`, and so on for every position.
pub open spec fn overwritten<T>(s: Seq<T>, positions: Seq<int>, values: Seq<T>) -> Seq<T>
    decreases positions.len(),
{
    if positions.len() == 0 {
        s
    } else {
        overwritten(s, positions.drop_last(), values).update(
            positions.last(),
            values[positions.len() - 1],
        )
    }
}

/// `s` after the slice has been deleted from it.
pub open spec fn slice_deleted<T>(s: Seq<T>, start: int, stop: int, step: int) -> Seq<T> {
    without(s, slice_positions(start, stop, step, s.len() as int).to_set())
}

/// `s` after `values` have been assigned to the slice. The values are
/// written over the positions of the slice one by one, as far as both go.
/// Positions of the slice that are left over are deleted. Values that are
/// left over are inserted, in their order, before the position that `stop`
/// names.
pub open spec fn slice_assigned<T>(
    s: Seq<T>,
    start: int,
    stop: int,
    step: int,
    values: Seq<T>,
) -> Seq<T> {
    let positions = slice_positions(start, stop, step, s.len() as int);
    if positions.len() >= values.len() {
        without(
            overwritten(s, positions.take(values.len() as int), values),
            positions.skip(values.len() as int).to_set(),
        )
    } else {
        let written = overwritten(s, positions, values);
        let at = clamp_index(stop, s.len() as int);
        written.take(at) + values.skip(positions.len() as int) + written.skip(at)
    }
}

/// Writing over positions of a sequence leaves its length as it is.
pub proof fn lemma_overwritten_len<T>(s: Seq<T>, positions: Seq<int>, values: Seq<T>)
    requires
        forall|k: int| 0 <= k < positions.len() ==> 0 <= #[trigger] positions[k] < s.len(),
    ensures
        overwritten(s, positions, values).len() == s.len(),
    decreases positions.len(),
{
    if positions.len() > 0 {
        lemma_overwritten_len(s, positions.drop_last(), values);
    }
}

/// Deleting at no position leaves the sequence as it is.
pub proof fn lemma_without_nothing<T>(s: Seq<T>)
    ensures
        without(s, Set::<int>::empty()) == s,
    decreases s.len(),
{
    if s.len() > 0 {
        lemma_without_nothing(s.drop_last());
        assert(s.drop_last().push(s.last()) =~= s);
    }
}

/// Where each index of a slice names an element, each position of the
/// slice is a position of the sequence.
pub proof fn lemma_positions_in_range(start: int, stop: int, step: int, len: int)
    requires
        slice_in_range(start, stop, step, len),
    ensures
        forall|k: int|
            0 <= k < slice_len(start, stop, step) ==> 0 <= #[trigger] slice_positions(
                start,
                stop,
                step,
                len,
            )[k] < len,
{
    assert forall|k: int| 0 <= k < slice_len(start, stop, step) implies 0
        <= #[trigger] slice_positions(start, stop, step, len)[k] < len by {
        assert(index_in_range(slice_indices(start, stop, step)[k], len));
    }
}

/// What is deleted depends only on which positions of the sequence are
/// targets.
pub proof fn lemma_without_agree<T>(s: Seq<T>, targets: Set<int>, others: Set<int>)
    requires
        forall|i: int| 0 <= i < s.len() ==> (targets.contains(i) <==> others.contains(i)),
    ensures
        without(s, targets) == without(s, others),
    decreases s.len(),
{
    if s.len() > 0 {
        lemma_without_agree(s.drop_last(), targets, others);
    }
}

/// Deleting the positions `from .. to` leaves what stands before `from`,
/// followed by what stands from `to` on.
pub proof fn lemma_without_run<T>(s: Seq<T>, from: int, to: int)
    requires
        0 <= from <= to <= s.len(),
    ensures
        without(s, Set::new(|i: int| from <= i < to)) == s.take(from) + s.skip(to),
    decreases s.len(),
{
    let targets = Set::new(|i: int| from <= i < to);
    if s.len() > 0 {
        let front = s.drop_last();
        if to == s.len() && from < to {
            lemma_without_run(front, from, to - 1);
            lemma_without_agree(front, targets, Set::new(|i: int| from <= i < to - 1));
            assert(front.take(from) + front.skip(to - 1) =~= s.take(from) + s.skip(to));
        } else if to == s.len() {
            lemma_without_run(front, from - 1, to - 1);
            lemma_without_agree(front, targets, Set::new(|i: int| from - 1 <= i < to - 1));
            assert((front.take(from - 1) + front.skip(to - 1)).push(s.last()) =~= s.take(from)
                + s.skip(to));
        } else {
            lemma_without_run(front, from, to);
            assert((front.take(from) + front.skip(to)).push(s.last()) =~= s.take(from) + s.skip(
                to,
            ));
        }
    } else {
        assert(s.take(from) + s.skip(to) =~= s);
    }
}

/// Writing `count` values over the positions from `from` on replaces that
/// run by the values.
pub proof fn lemma_overwritten_run<T>(s: Seq<T>, from: int, count: int, values: Seq<T>)
    requires
        0 <= from,
        0 <= count <= values.len(),
        from + count <= s.len(),
    ensures
        overwritten(s, Seq::new(count as nat, |k: int| from + k), values) == s.take(from)
            + values.take(count) + s.skip(from + count),
    decreases count,
{
    let positions = Seq::new(count as nat, |k: int| from + k);
    if count == 0 {
        assert(s.take(from) + values.take(count) + s.skip(from + count) =~= s);
    } else {
        lemma_overwritten_run(s, from, count - 1, values);
        assert(positions.drop_last() =~= Seq::new((count - 1) as nat, |k: int| from + k));
        assert((s.take(from) + values.take(count - 1) + s.skip(from + count - 1)).update(
            from + count - 1,
            values[count - 1],
        ) =~= s.take(from) + values.take(count) + s.skip(from + count));
    }
}

/// The positions of a slice with step 1 that lies within the sequence are
/// `start`, `start + 1`, ... up to `stop`.
pub proof fn lemma_positions_of_run(start: int, stop: int, len: int)
    requires
        0 <= start <= stop <= len,
    ensures
        slice_positions(start, stop, 1, len) == Seq::new(
            (stop - start) as nat,
            |k: int| start + k,
        ),
        slice_in_range(start, stop, 1, len),
{
    assert forall|k: int| 0 <= k implies #[trigger] (k * 1) == k by {
        assert(k * 1 == k) by (nonlinear_arith);
    }
    assert(slice_len(start, stop, 1) == stop - start);
    assert forall|k: int| 0 <= k < stop - start implies slice_positions(start, stop, 1, len)[k]
        == start + k by {
        assert(k * 1 == k);
    }
    assert(slice_positions(start, stop, 1, len) =~= Seq::new(
        (stop - start) as nat,
        |k: int| start + k,
    ));
    assert forall|k: int| 0 <= k < slice_len(start, stop, 1) implies index_in_range(
        #[trigger] slice_indices(start, stop, 1)[k],
        len,
    ) by {
        assert(k * 1 == k);
    }
}

/// Deleting a slice with step 1 that lies within the sequence leaves what
/// stands before `start`, followed by what stands from `stop` on.
pub proof fn lemma_slice_deleted_run<T>(s: Seq<T>, start: int, stop: int)
    requires
        0 <= start <= stop <= s.len(),
    ensures
        slice_deleted(s, start, stop, 1) == s.take(start) + s.skip(stop),
{
    let positions = slice_positions(start, stop, 1, s.len() as int);
    lemma_positions_of_run(start, stop, s.len() as int);
    assert forall|i: int| 0 <= i < s.len() implies (positions.to_set().contains(i) <==> start <= i
        < stop) by {
        if start <= i < stop {
            assert(positions[i - start] == i);
            assert(positions.contains(i));
        }
        if positions.to_set().contains(i) {
            assert(positions.contains(i));
        }
    }
    lemma_without_agree(s, positions.to_set(), Set::new(|i: int| start <= i < stop));
    lemma_without_run(s, start, stop);
}

/// Assigning to a slice with step 1 that lies within the sequence puts the
/// values in the place of the run `start .. stop`, however many they are.
pub proof fn lemma_slice_assigned_run<T>(s: Seq<T>, start: int, stop: int, values: Seq<T>)
    requires
        0 <= start <= stop <= s.len(),
    ensures
        slice_assigned(s, start, stop, 1, values) == s.take(start) + values + s.skip(stop),
{
    let len = s.len() as int;
    let positions = slice_positions(start, stop, 1, len);
    let selected = stop - start;
    let given = values.len() as int;
    lemma_positions_of_run(start, stop, len);
    if selected >= given {
        let head = positions.take(given);
        let tail = positions.skip(given);
        assert(head =~= Seq::new(given as nat, |k: int| start + k));
        lemma_overwritten_run(s, start, given, values);
        let written = overwritten(s, head, values);
        assert(values.take(given) =~= values);
        assert(written.len() == s.len());
        assert forall|i: int| 0 <= i < written.len() implies (tail.to_set().contains(i) <==> start
            + given <= i < stop) by {
            if start + given <= i < stop {
                assert(tail[i - start - given] == i);
                assert(tail.contains(i));
            }
            if tail.to_set().contains(i) {
                assert(tail.contains(i));
            }
        }
        lemma_without_agree(written, tail.to_set(), Set::new(|i: int| start + given <= i < stop));
        lemma_without_run(written, start + given, stop);
        assert(written.take(start + given) + written.skip(stop) =~= s.take(start) + values
            + s.skip(stop));
    } else {
        lemma_overwritten_run(s, start, selected, values);
        let written = overwritten(s, positions, values);
        assert(clamp_index(stop, len) == stop);
        assert(written.take(stop) + values.skip(selected) + written.skip(stop) =~= s.take(start)
            + values + s.skip(stop));
    }
}

/// A slice with a positive step selects `start`, `start + step`, ... as long
/// as the index is below `stop`; one with a negative step as long as it is
/// above `stop`; no other slice selects anything.
pub proof fn lemma_slice_indices_stop_short(start: int, stop: int, step: int)
    ensures
        step > 0 ==> forall|k: int|
            0 <= k ==> (k < slice_len(start, stop, step) <==> #[trigger] (start + k * step) < stop),
        step < 0 ==> forall|k: int|
            0 <= k ==> (k < slice_len(start, stop, step) <==> #[trigger] (start + k * step) > stop),
        step == 0 ==> slice_len(start, stop, step) == 0,
{
    if step > 0 {
        assert forall|k: int| 0 <= k implies (k < slice_len(start, stop, step) <==> #[trigger] (
        start + k * step) < stop) by {
            lemma_count_below(stop - start, step, k);
        }
    }
    if step < 0 {
        assert forall|k: int| 0 <= k implies (k < slice_len(start, stop, step) <==> #[trigger] (
        start + k * step) > stop) by {
            lemma_count_below(start - stop, -step, k);
            assert(k * step == -(k * (-step))) by (nonlinear_arith);
        }
    }
}

/// Of the multiples `0, step, 2 * step, ...` of a positive `step`, those
/// below `distance` are the first `(distance - 1) / step + 1`, where
/// `distance` is positive, and none else.
proof fn lemma_count_below(distance: int, step: int, k: int)
    requires
        step > 0,
        k >= 0,
    ensures
        distance > 0 ==> (k < (distance - 1) / step + 1 <==> k * step < distance),
        distance <= 0 ==> k * step >= distance,
{
    if distance > 0 {
        let q = (distance - 1) / step;
        let r = (distance - 1) % step;
        assert(distance - 1 == q * step + r && 0 <= r < step) by {
            vstd::arithmetic::div_mod::lemma_fundamental_div_mod(distance - 1, step);
            vstd::arithmetic::div_mod::lemma_mod_bound(distance - 1, step);
            assert(step * q == q * step) by (nonlinear_arith);
        }
        if k <= q {
            assert(k * step <= q * step) by (nonlinear_arith)
                requires
                    0 <= k <= q,
                    step > 0,
            ;
        } else {
            assert(k * step >= (q + 1) * step) by (nonlinear_arith)
                requires
                    k >= q + 1,
                    step > 0,
            ;
            assert((q + 1) * step == q * step + step) by (nonlinear_arith);
        }
    } else {
        assert(k * step >= 0) by (nonlinear_arith)
            requires
                k >= 0,
                step > 0,
        ;
    }
}

/// The position that `index` names among `len` elements, or
/// `IndexOutOfRange` where it names none.
pub fn normalize_index(index: isize, len: usize) -> (position: Result<usize, CircuitError>)
    ensures
        match position {
            Ok(p) => index_in_range(index as int, len as int) && p == wrap_index(
                index as int,
                len as int,
            ),
            Err(e) => !index_in_range(index as int, len as int) && e
                == CircuitError::IndexOutOfRange,
        },
{
    let wrapped: i128 = if index < 0 {
        index as i128 + len as i128
    } else {
        index as i128
    };
    if wrapped < 0 || wrapped >= len as i128 {
        Err(CircuitError::IndexOutOfRange)
    } else {
        Ok(wrapped as usize)
    }
}

/// The position before which an insertion at `index` takes place among
/// `len` elements: no index is refused, one before the first element
/// stands for the front and one behind the last for the end.
pub fn clamped_index(index: isize, len: usize) -> (position: usize)
    ensures
        position == clamp_index(index as int, len as int),
        position <= len,
{
    let wrapped: i128 = if index < 0 {
        index as i128 + len as i128
    } else {
        index as i128
    };
    if wrapped < 0 {
        0
    } else if wrapped > len as i128 {
        len
    } else {
        wrapped as usize
    }
}

/// The number of indices that the slice selects.
pub fn slice_length(start: isize, stop: isize, step: isize) -> (n: usize)
    ensures
        n == slice_len(start as int, stop as int, step as int),
{
    if step > 0 && start < stop {
        let distance: i128 = stop as i128 - start as i128 - 1;
        let stride: i128 = step as i128;
        proof {
            vstd::arithmetic::div_mod::lemma_div_is_ordered_by_denominator(
                distance as int,
                1,
                stride as int,
            );
            vstd::arithmetic::div_mod::lemma_div_pos_is_pos(distance as int, stride as int);
        }
        (distance / stride + 1) as usize
    } else if step < 0 && start > stop {
        let distance: i128 = start as i128 - stop as i128 - 1;
        let stride: i128 = -(step as i128);
        proof {
            vstd::arithmetic::div_mod::lemma_div_is_ordered_by_denominator(
                distance as int,
                1,
                stride as int,
            );
            vstd::arithmetic::div_mod::lemma_div_pos_is_pos(distance as int, stride as int);
        }
        (distance / stride + 1) as usize
    } else {
        0
    }
}

/// The positions that the indices of the slice name among `len` elements,
/// in the order of the slice, or `IndexOutOfRange` where one of the indices
/// names no element.
pub fn slice_to_positions(start: isize, stop: isize, step: isize, len: usize) -> (positions: Result<
    Vec<usize>,
    CircuitError,
>)
    ensures
        match positions {
            Ok(p) => slice_in_range(start as int, stop as int, step as int, len as int)
                && p@.len() == slice_len(start as int, stop as int, step as int)
                && forall|k: int|
                0 <= k < p@.len() ==> #[trigger] p@[k] == slice_positions(
                    start as int,
                    stop as int,
                    step as int,
                    len as int,
                )[k],
            Err(e) => !slice_in_range(start as int, stop as int, step as int, len as int) && e
                == CircuitError::IndexOutOfRange,
        },
{
    let n = slice_length(start, stop, step);
    let ghost indices = slice_indices(start as int, stop as int, step as int);
    let mut positions: Vec<usize> = Vec::new();
    let mut k: usize = 0;
    let mut index: i128 = start as i128;
    while k < n
        invariant
            n == slice_len(start as int, stop as int, step as int),
            indices == slice_indices(start as int, stop as int, step as int),
            k <= n,
            index == start + k * step,
            positions@.len() == k,
            forall|j: int| 0 <= j < k ==> index_in_range(#[trigger] indices[j], len as int),
            forall|j: int|
                0 <= j < k ==> #[trigger] positions@[j] == wrap_index(start + j * step, len as int),
        decreases n - k,
    {
        proof {
            lemma_slice_indices_stop_short(start as int, stop as int, step as int);
            assert(step > 0 ==> (start + k * step) < stop);
            assert(step < 0 ==> (start + k * step) > stop);
            assert(step > 0 ==> k * step >= 0) by (nonlinear_arith)
                requires
                    k >= 0,
            ;
            assert(step < 0 ==> k * step <= 0) by (nonlinear_arith)
                requires
                    k >= 0,
            ;
        }
        match normalize_index(index as isize, len) {
            Ok(p) => {
                positions.push(p);
            },
            Err(e) => {
                proof {
                    assert(indices[k as int] == index);
                }
                return Err(e);
            },
        }
        proof {
            assert(indices[k as int] == index);
            assert((k + 1) * step == k * step + step) by (nonlinear_arith);
        }
        k += 1;
        index = index + step as i128;
    }
    Ok(positions)
}

} // verus!
