//! Handles in pairs: every instruction has two operand lists, so the pool
//! is asked for two handles at a time, for one instruction or for many.

use crate::intern_context::{BitType, IndexType, InternContext, Pool};
use vstd::prelude::*;

verus! {

/// The handles of an instruction: that of its first operand list and that
/// of its second.
pub type HandlePair = (IndexType, IndexType);

/// The operand lists of an instruction.
pub type KeyPair = (Seq<BitType>, Seq<BitType>);

/// The number of distinct operand lists that a pool can hold at a time: one
/// for each handle.
pub open spec fn pool_limit() -> nat {
    u32::MAX as nat
}

/// The operand lists that occur in `pairs`.
pub open spec fn keys_in(pairs: Seq<KeyPair>) -> Set<Seq<BitType>> {
    Set::new(
        |key: Seq<BitType>|
            exists|i: int|
                0 <= i < pairs.len() && ((#[trigger] pairs[i]).0 == key || pairs[i].1 == key),
    )
}

/// One more pair adds its two lists.
pub proof fn lemma_keys_in_push(pairs: Seq<KeyPair>, pair: KeyPair)
    ensures
        keys_in(pairs.push(pair)) == keys_in(pairs).insert(pair.0).insert(pair.1),
{
    let longer = pairs.push(pair);
    assert forall|key: Seq<BitType>| keys_in(longer).contains(key) implies keys_in(pairs).insert(
        pair.0,
    ).insert(pair.1).contains(key) by {
        let i = choose|i: int|
            0 <= i < longer.len() && ((#[trigger] longer[i]).0 == key || longer[i].1 == key);
        if i < pairs.len() {
            assert(pairs[i] == longer[i]);
        }
    }
    assert forall|key: Seq<BitType>|
        keys_in(pairs).insert(pair.0).insert(pair.1).contains(key) implies keys_in(
        longer,
    ).contains(key) by {
        if keys_in(pairs).contains(key) {
            let i = choose|i: int|
                0 <= i < pairs.len() && ((#[trigger] pairs[i]).0 == key || pairs[i].1 == key);
            assert(longer[i] == pairs[i]);
        } else {
            assert(longer[pairs.len() as int] == pair);
        }
    }
    assert(keys_in(longer) =~= keys_in(pairs).insert(pair.0).insert(pair.1));
}

/// Finitely many pairs hold finitely many lists.
pub proof fn lemma_keys_in_finite(pairs: Seq<KeyPair>)
    ensures
        keys_in(pairs).finite(),
    decreases pairs.len(),
{
    if pairs.len() == 0 {
        assert(keys_in(pairs) =~= Set::empty());
    } else {
        lemma_keys_in_finite(pairs.drop_last());
        lemma_keys_in_push(pairs.drop_last(), pairs.last());
        assert(pairs.drop_last().push(pairs.last()) =~= pairs);
    }
}

/// Each pair holds two lists at most.
pub proof fn lemma_keys_in_count(pairs: Seq<KeyPair>)
    ensures
        keys_in(pairs).finite(),
        keys_in(pairs).len() <= 2 * pairs.len(),
    decreases pairs.len(),
{
    if pairs.len() == 0 {
        assert(keys_in(pairs) =~= Set::empty());
    } else {
        let front = pairs.drop_last();
        lemma_keys_in_count(front);
        lemma_keys_in_push(front, pairs.last());
        assert(front.push(pairs.last()) =~= pairs);
    }
}

/// The lists of the first pairs are among the lists of all.
pub proof fn lemma_keys_in_take(pairs: Seq<KeyPair>, n: int)
    requires
        0 <= n <= pairs.len(),
    ensures
        keys_in(pairs.take(n)).subset_of(keys_in(pairs)),
{
    let front = pairs.take(n);
    assert forall|key: Seq<BitType>| keys_in(front).contains(key) implies keys_in(pairs).contains(
        key,
    ) by {
        let i = choose|i: int|
            0 <= i < front.len() && ((#[trigger] front[i]).0 == key || front[i].1 == key);
        assert(pairs[i] == front[i]);
    }
}

/// How often `pair` names `handle`.
pub open spec fn weight(pair: HandlePair, handle: IndexType) -> nat {
    (if pair.0 == handle {
        1nat
    } else {
        0nat
    }) + (if pair.1 == handle {
        1nat
    } else {
        0nat
    })
}

/// How often the pairs of `pairs` name `handle`.
pub open spec fn ref_count(pairs: Seq<HandlePair>, handle: IndexType) -> nat
    decreases pairs.len(),
{
    if pairs.len() == 0 {
        0
    } else {
        ref_count(pairs.drop_last(), handle) + weight(pairs.last(), handle)
    }
}

/// One more pair at the end counts for the handles it names.
pub proof fn lemma_ref_count_push(pairs: Seq<HandlePair>, pair: HandlePair)
    ensures
        forall|h: IndexType| #[trigger]
            ref_count(pairs.push(pair), h) == ref_count(pairs, h) + weight(pair, h),
{
    assert(pairs.push(pair).drop_last() =~= pairs);
}

/// One more pair counts for `h` as often as it names `h`, wherever it is
/// put.
proof fn lemma_ref_count_insert_at(pairs: Seq<HandlePair>, i: int, pair: HandlePair, h: IndexType)
    requires
        0 <= i <= pairs.len(),
    ensures
        ref_count(pairs.insert(i, pair), h) == ref_count(pairs, h) + weight(pair, h),
    decreases pairs.len(),
{
    if i == pairs.len() {
        assert(pairs.insert(i, pair) =~= pairs.push(pair));
        lemma_ref_count_push(pairs, pair);
    } else {
        lemma_ref_count_insert_at(pairs.drop_last(), i, pair, h);
        assert(pairs.insert(i, pair).drop_last() =~= pairs.drop_last().insert(i, pair));
        assert(pairs.insert(i, pair).last() == pairs.last());
    }
}

/// One more pair counts for the handles it names, wherever it is put.
pub proof fn lemma_ref_count_insert(pairs: Seq<HandlePair>, i: int, pair: HandlePair)
    requires
        0 <= i <= pairs.len(),
    ensures
        forall|h: IndexType| #[trigger]
            ref_count(pairs.insert(i, pair), h) == ref_count(pairs, h) + weight(pair, h),
{
    assert forall|h: IndexType| #[trigger]
        ref_count(pairs.insert(i, pair), h) == ref_count(pairs, h) + weight(pair, h) by {
        lemma_ref_count_insert_at(pairs, i, pair, h);
    }
}

/// A pair that is taken out no longer counts for `h`.
proof fn lemma_ref_count_remove_at(pairs: Seq<HandlePair>, i: int, h: IndexType)
    requires
        0 <= i < pairs.len(),
    ensures
        ref_count(pairs.remove(i), h) + weight(pairs[i], h) == ref_count(pairs, h),
    decreases pairs.len(),
{
    if i == pairs.len() - 1 {
        assert(pairs.remove(i) =~= pairs.drop_last());
    } else {
        lemma_ref_count_remove_at(pairs.drop_last(), i, h);
        assert(pairs.remove(i).drop_last() =~= pairs.drop_last().remove(i));
        assert(pairs.remove(i).last() == pairs.last());
    }
}

/// A pair that is taken out no longer counts for the handles it names.
pub proof fn lemma_ref_count_remove(pairs: Seq<HandlePair>, i: int)
    requires
        0 <= i < pairs.len(),
    ensures
        forall|h: IndexType| #[trigger]
            ref_count(pairs.remove(i), h) + weight(pairs[i], h) == ref_count(pairs, h),
{
    assert forall|h: IndexType| #[trigger]
        ref_count(pairs.remove(i), h) + weight(pairs[i], h) == ref_count(pairs, h) by {
        lemma_ref_count_remove_at(pairs, i, h);
    }
}

/// A pair put in the place of another counts for `h` in place of the
/// other.
proof fn lemma_ref_count_update_at(pairs: Seq<HandlePair>, i: int, pair: HandlePair, h: IndexType)
    requires
        0 <= i < pairs.len(),
    ensures
        ref_count(pairs.update(i, pair), h) + weight(pairs[i], h) == ref_count(pairs, h) + weight(
            pair,
            h,
        ),
    decreases pairs.len(),
{
    if i == pairs.len() - 1 {
        assert(pairs.update(i, pair).drop_last() =~= pairs.drop_last());
    } else {
        lemma_ref_count_update_at(pairs.drop_last(), i, pair, h);
        assert(pairs.update(i, pair).drop_last() =~= pairs.drop_last().update(i, pair));
        assert(pairs.update(i, pair).last() == pairs.last());
    }
}

/// A pair put in the place of another counts in place of the other.
pub proof fn lemma_ref_count_update(pairs: Seq<HandlePair>, i: int, pair: HandlePair)
    requires
        0 <= i < pairs.len(),
    ensures
        forall|h: IndexType| #[trigger]
            ref_count(pairs.update(i, pair), h) + weight(pairs[i], h) == ref_count(pairs, h)
                + weight(pair, h),
{
    assert forall|h: IndexType| #[trigger]
        ref_count(pairs.update(i, pair), h) + weight(pairs[i], h) == ref_count(pairs, h) + weight(
            pair,
            h,
        ) by {
        lemma_ref_count_update_at(pairs, i, pair, h);
    }
}

/// One pair names a handle as often as it holds it.
pub proof fn lemma_ref_count_one(pair: HandlePair)
    ensures
        forall|h: IndexType| #[trigger] ref_count(seq![pair], h) == weight(pair, h),
{
    lemma_ref_count_push(Seq::empty(), pair);
    assert(Seq::<HandlePair>::empty().push(pair) =~= seq![pair]);
}

/// No handle is named more than twice by each pair.
pub proof fn lemma_ref_count_bound(pairs: Seq<HandlePair>, handle: IndexType)
    ensures
        ref_count(pairs, handle) <= 2 * pairs.len(),
    decreases pairs.len(),
{
    if pairs.len() > 0 {
        lemma_ref_count_bound(pairs.drop_last(), handle);
    }
}

/// A handle is counted exactly if some pair names it.
pub proof fn lemma_ref_count_positive(pairs: Seq<HandlePair>, handle: IndexType)
    ensures
        ref_count(pairs, handle) >= 1 <==> exists|i: int|
            0 <= i < pairs.len() && weight(#[trigger] pairs[i], handle) >= 1,
    decreases pairs.len(),
{
    if pairs.len() > 0 {
        let front = pairs.drop_last();
        lemma_ref_count_positive(front, handle);
        if ref_count(pairs, handle) >= 1 {
            if weight(pairs.last(), handle) >= 1 {
                assert(weight(pairs[pairs.len() - 1], handle) >= 1);
            } else {
                let i = choose|i: int|
                    0 <= i < front.len() && weight(#[trigger] front[i], handle) >= 1;
                assert(pairs[i] == front[i]);
            }
        }
        if exists|i: int| 0 <= i < pairs.len() && weight(#[trigger] pairs[i], handle) >= 1 {
            let i = choose|i: int| 0 <= i < pairs.len() && weight(#[trigger] pairs[i], handle) >= 1;
            if i < front.len() {
                assert(front[i] == pairs[i]);
            }
        }
    }
}

/// Whether `after` has each handle in use as often as `before`, for the
/// same list.
pub open spec fn same_uses(before: Pool, after: Pool) -> bool {
    &&& forall|h: IndexType| #[trigger] after.use_count(h) == before.use_count(h)
    &&& forall|h: IndexType| #[trigger]
        before.occupied(h) ==> after.operands(h) == before.operands(h)
}

/// Whether `after` is `before` with the lists `keys` interned under the
/// handles `handles`, pair by pair.
pub open spec fn grown_by(
    before: Pool,
    after: Pool,
    handles: Seq<HandlePair>,
    keys: Seq<KeyPair>,
) -> bool {
    &&& handles.len() == keys.len()
    &&& forall|h: IndexType| #[trigger]
        after.use_count(h) == before.use_count(h) + ref_count(handles, h)
    &&& forall|h: IndexType| #[trigger]
        before.occupied(h) ==> after.operands(h) == before.operands(h)
    &&& forall|j: int|
        0 <= j < handles.len() ==> after.operands((#[trigger] handles[j]).0) == keys[j].0
            && after.operands(handles[j].1) == keys[j].1
    &&& after.keys() == before.keys() + keys_in(keys)
}

/// A pool grown by interned lists keeps what it held.
pub proof fn lemma_grown_by_grows(
    before: Pool,
    after: Pool,
    handles: Seq<HandlePair>,
    keys: Seq<KeyPair>,
)
    requires
        before.wf(),
        after.wf(),
        grown_by(before, after, handles, keys),
    ensures
        before.grows_into(after),
{
    assert forall|h: IndexType| #[trigger] before.occupied(h) implies after.occupied(h)
        && after.operands(h) == before.operands(h) && after.use_count(h) >= before.use_count(
        h,
    ) by {
        assert(after.use_count(h) == before.use_count(h) + ref_count(handles, h));
    }
}

/// Pools that have each handle in use as often, for the same list, hold
/// the same under the same handles.
pub proof fn lemma_same_uses_keeps(before: Pool, after: Pool)
    requires
        before.wf(),
        after.wf(),
        same_uses(before, after),
    ensures
        before.grows_into(after),
        before.shrinks_into(after),
{
    assert forall|h: IndexType| #[trigger] before.occupied(h) implies after.occupied(h)
        && after.operands(h) == before.operands(h) && after.use_count(h) >= before.use_count(
        h,
    ) by {
        assert(after.use_count(h) == before.use_count(h));
    }
    assert forall|h: IndexType| #[trigger] after.occupied(h) implies before.occupied(h)
        && after.operands(h) == before.operands(h) && after.use_count(h) <= before.use_count(
        h,
    ) by {
        assert(after.use_count(h) == before.use_count(h));
    }
}

/// A pool that keeps its invariant has a handle in use exactly if the
/// handle's slot is occupied.
pub proof fn lemma_in_use_is_occupied(pool: Pool)
    requires
        pool.wf(),
    ensures
        forall|h: IndexType| #[trigger] pool.occupied(h) <==> pool.use_count(h) >= 1,
{
}

/// Interning adds the list to those that the pool holds.
pub proof fn lemma_intern_keys(pool: Pool, key: Seq<BitType>)
    requires
        pool.wf(),
        pool.has_room(key),
    ensures
        pool.intern(key).keys() == pool.keys().insert(key),
{
    let after = pool.intern(key);
    let handle = pool.intern_handle(key);
    pool.lemma_intern(key);
    assert forall|k: Seq<BitType>| after.keys().contains(k) implies pool.keys().insert(
        key,
    ).contains(k) by {
        let h = after.handle_of(k);
        assert(after.occupied(h) && after.operands(h) == k);
        if h != handle {
            assert(pool.occupied(h));
            assert(after.operands(h) == pool.operands(h));
        }
    }
    assert forall|k: Seq<BitType>|
        pool.keys().insert(key).contains(k) implies after.keys().contains(k) by {
        if k == key {
            assert(after.occupied(handle) && after.operands(handle) == k);
        } else {
            let h = pool.handle_of(k);
            assert(pool.occupied(h) && pool.operands(h) == k);
            assert(after.operands(h) == pool.operands(h));
            if h != handle {
                assert(after.occupied(h));
            }
        }
    }
    assert(after.keys() =~= pool.keys().insert(key));
}

/// Interns `qkey` and then `ckey`. Where the pool has no handle left for
/// one of them, neither is interned.
pub(crate) fn intern_pair(ctx: &mut InternContext, qkey: Vec<BitType>, ckey: Vec<BitType>) -> (pair:
    Option<HandlePair>)
    requires
        old(ctx).wf(),
        forall|h: IndexType| #[trigger] old(ctx)@.use_count(h) + 2 <= usize::MAX,
    ensures
        final(ctx).wf(),
        match pair {
            Some(p) => grown_by(old(ctx)@, final(ctx)@, seq![p], seq![(qkey@, ckey@)]),
            None => same_uses(old(ctx)@, final(ctx)@) && (old(ctx)@.keys() + keys_in(
                seq![(qkey@, ckey@)],
            )).len() > pool_limit(),
        },
{
    let ghost before = ctx@;
    let ghost q = qkey@;
    let ghost c = ckey@;
    let ghost both = keys_in(seq![(q, c)]);
    proof {
        before.lemma_keys_count();
        lemma_keys_in_push(Seq::<KeyPair>::empty(), (q, c));
        assert(Seq::<KeyPair>::empty().push((q, c)) =~= seq![(q, c)]);
        assert(keys_in(Seq::<KeyPair>::empty()) =~= Set::empty());
        lemma_keys_in_finite(seq![(q, c)]);
        if before.holds(q) {
            assert(before.occupied(before.handle_of(q)));
        }
    }
    let first = match ctx.intern(qkey) {
        Some(h) => h,
        None => {
            proof {
                assert(!before.keys().contains(q) && before.keys().len() == pool_limit());
                vstd::set_lib::lemma_len_subset(before.keys().insert(q), before.keys() + both);
            }
            return None;
        },
    };
    let ghost middle = ctx@;
    proof {
        before.lemma_intern(q);
        lemma_intern_keys(before, q);
        middle.lemma_keys_count();
        if middle.holds(c) {
            assert(middle.occupied(middle.handle_of(c)));
        }
    }
    match ctx.intern(ckey) {
        Some(second) => {
            proof {
                let after = ctx@;
                middle.lemma_intern(c);
                lemma_intern_keys(middle, c);
                assert(after.keys() =~= before.keys() + both);
                lemma_ref_count_one((first, second));
                lemma_in_use_is_occupied(before);
                lemma_in_use_is_occupied(middle);
            }
            Some((first, second))
        },
        None => {
            ctx.drop_use(first);
            proof {
                let after = ctx@;
                middle.lemma_release(first);
                lemma_in_use_is_occupied(before);
                lemma_in_use_is_occupied(middle);
                lemma_in_use_is_occupied(after);
                assert forall|h: IndexType| #[trigger]
                    before.occupied(h) implies after.operands(h) == before.operands(h) by {
                    assert(after.use_count(h) == before.use_count(h));
                    assert(after.occupied(h));
                }
                assert(!middle.keys().contains(c) && middle.keys().len() == pool_limit());
                vstd::set_lib::lemma_len_subset(middle.keys().insert(c), before.keys() + both);
            }
            None
        },
    }
}

/// Gives up the two uses that `pair` stands for.
pub(crate) fn release_pair(ctx: &mut InternContext, pair: HandlePair)
    requires
        old(ctx).wf(),
        forall|h: IndexType| #[trigger] old(ctx)@.use_count(h) >= weight(pair, h),
    ensures
        final(ctx).wf(),
        forall|h: IndexType| #[trigger]
            final(ctx)@.use_count(h) + weight(pair, h) == old(ctx)@.use_count(h),
        forall|h: IndexType| #[trigger]
            final(ctx)@.occupied(h) ==> final(ctx)@.operands(h) == old(ctx)@.operands(h),
        old(ctx)@.shrinks_into(final(ctx)@),
{
    let ghost before = ctx@;
    proof {
        lemma_in_use_is_occupied(before);
        assert(before.use_count(pair.0) >= weight(pair, pair.0));
        before.lemma_release(pair.0);
    }
    ctx.drop_use(pair.0);
    let ghost middle = ctx@;
    proof {
        lemma_in_use_is_occupied(middle);
        assert(before.use_count(pair.1) >= weight(pair, pair.1));
        middle.lemma_release(pair.1);
    }
    ctx.drop_use(pair.1);
    proof {
        let after = ctx@;
        assert forall|h: IndexType| #[trigger] after.occupied(h) implies after.operands(h)
            == before.operands(h) by {
            assert(after.operands(h) == middle.operands(h));
            if h != pair.1 {
                assert(middle.occupied(h));
            } else {
                lemma_in_use_is_occupied(after);
            }
        }
    }
}

/// The operand lists of `keys`, as mathematical values.
pub open spec fn key_views(keys: Seq<(Vec<BitType>, Vec<BitType>)>) -> Seq<KeyPair> {
    Seq::new(keys.len(), |i: int| (keys[i].0@, keys[i].1@))
}

/// Gives up the uses that `handles` stand for, the last pair first.
fn release_all(ctx: &mut InternContext, handles: Vec<HandlePair>, Ghost(before): Ghost<Pool>)
    requires
        old(ctx).wf(),
        before.wf(),
        forall|h: IndexType| #[trigger]
            old(ctx)@.use_count(h) == before.use_count(h) + ref_count(handles@, h),
        forall|h: IndexType| #[trigger]
            before.occupied(h) ==> old(ctx)@.operands(h) == before.operands(h),
    ensures
        final(ctx).wf(),
        same_uses(before, final(ctx)@),
{
    let mut handles = handles;
    while handles.len() > 0
        invariant
            ctx.wf(),
            before.wf(),
            forall|h: IndexType| #[trigger]
                ctx@.use_count(h) == before.use_count(h) + ref_count(handles@, h),
            forall|h: IndexType| #[trigger]
                before.occupied(h) ==> ctx@.operands(h) == before.operands(h),
        decreases handles.len(),
    {
        let ghost middle = ctx@;
        let ghost longer = handles@;
        let pair = handles.pop().unwrap();
        proof {
            assert(handles@ =~= longer.drop_last());
            assert(pair == longer.last());
            assert forall|h: IndexType| #[trigger] middle.use_count(h) >= weight(pair, h) by {
                assert(middle.use_count(h) == before.use_count(h) + ref_count(longer, h));
            }
        }
        release_pair(ctx, pair);
        proof {
            lemma_in_use_is_occupied(before);
            lemma_in_use_is_occupied(ctx@);
            assert forall|h: IndexType| #[trigger]
                ctx@.use_count(h) == before.use_count(h) + ref_count(handles@, h) by {
                assert(middle.use_count(h) == before.use_count(h) + ref_count(longer, h));
                assert(ctx@.use_count(h) + weight(pair, h) == middle.use_count(h));
            }
            assert forall|h: IndexType| #[trigger] before.occupied(h) implies ctx@.operands(h)
                == before.operands(h) by {
                assert(ctx@.use_count(h) == before.use_count(h) + ref_count(handles@, h));
                assert(ctx@.occupied(h));
            }
        }
    }
    proof {
        assert(handles@ =~= Seq::<HandlePair>::empty());
        assert forall|h: IndexType| #[trigger] ctx@.use_count(h) == before.use_count(h) by {
            assert(ctx@.use_count(h) == before.use_count(h) + ref_count(handles@, h));
        }
    }
}

/// Interns the lists of `keys`, pair by pair in their order. Where the pool
/// has no handle left for one of them, none is interned.
pub(crate) fn intern_all(
    ctx: &mut InternContext,
    keys: Vec<(Vec<BitType>, Vec<BitType>)>,
) -> (handles: Option<Vec<HandlePair>>)
    requires
        old(ctx).wf(),
        forall|h: IndexType| #[trigger] old(ctx)@.use_count(h) + 2 * keys@.len() <= usize::MAX,
    ensures
        final(ctx).wf(),
        match handles {
            Some(found) => grown_by(old(ctx)@, final(ctx)@, found@, key_views(keys@)),
            None => same_uses(old(ctx)@, final(ctx)@) && (old(ctx)@.keys() + keys_in(
                key_views(keys@),
            )).len() > pool_limit(),
        },
{
    let ghost before = ctx@;
    let ghost given = keys@;
    let ghost all = key_views(keys@);
    let mut found: Vec<HandlePair> = Vec::with_capacity(keys.len());
    proof {
        assert(all.take(0) =~= Seq::<KeyPair>::empty());
        assert(keys_in(Seq::<KeyPair>::empty()) =~= Set::empty());
        assert(before.keys() + keys_in(all.take(0)) =~= before.keys());
    }
    for pair in it: keys
        invariant
            ctx.wf(),
            before.wf(),
            it.seq() == given,
            given == keys@,
            before == old(ctx)@,
            all == key_views(given),
            found@.len() == it.index(),
            grown_by(before, ctx@, found@, all.take(it.index() as int)),
            forall|h: IndexType| #[trigger] before.use_count(h) + 2 * given.len() <= usize::MAX,
    {
        let ghost done = it.index() as int;
        let ghost middle = ctx@;
        let ghost earlier = found@;
        let (qkey, ckey) = pair;
        proof {
            assert(all[done] == (qkey@, ckey@));
            assert forall|h: IndexType| #[trigger] middle.use_count(h) + 2 <= usize::MAX by {
                assert(middle.use_count(h) == before.use_count(h) + ref_count(earlier, h));
                assert(before.use_count(h) + 2 * given.len() <= usize::MAX);
                lemma_ref_count_bound(earlier, h);
            }
        }
        match intern_pair(ctx, qkey, ckey) {
            Some(p) => {
                found.push(p);
                proof {
                    let after = ctx@;
                    let next = all.take(done + 1);
                    assert(next =~= all.take(done).push(all[done]));
                    lemma_keys_in_push(all.take(done), all[done]);
                    lemma_keys_in_push(Seq::<KeyPair>::empty(), all[done]);
                    assert(Seq::<KeyPair>::empty().push(all[done]) =~= seq![all[done]]);
                    assert(keys_in(Seq::<KeyPair>::empty()) =~= Set::empty());
                    assert(after.keys() =~= before.keys() + keys_in(next));
                    lemma_ref_count_push(earlier, p);
                    lemma_ref_count_one(p);
                    lemma_in_use_is_occupied(before);
                    lemma_in_use_is_occupied(middle);
                    assert forall|h: IndexType| #[trigger]
                        after.use_count(h) == before.use_count(h) + ref_count(found@, h) by {
                        assert(middle.use_count(h) == before.use_count(h) + ref_count(earlier, h));
                        assert(after.use_count(h) == middle.use_count(h) + ref_count(seq![p], h));
                    }
                    assert forall|h: IndexType| #[trigger]
                        before.occupied(h) implies after.operands(h) == before.operands(h) by {
                        assert(middle.use_count(h) == before.use_count(h) + ref_count(earlier, h));
                        assert(middle.occupied(h));
                    }
                    assert forall|j: int| 0 <= j < found@.len() implies after.operands(
                        (#[trigger] found@[j]).0,
                    ) == next[j].0 && after.operands(found@[j].1) == next[j].1 by {
                        if j < done {
                            assert(found@[j] == earlier[j]);
                            assert(next[j] == all.take(done)[j]);
                            let h0 = earlier[j].0;
                            let h1 = earlier[j].1;
                            lemma_ref_count_positive(earlier, h0);
                            lemma_ref_count_positive(earlier, h1);
                            assert(weight(earlier[j], h0) >= 1);
                            assert(weight(earlier[j], h1) >= 1);
                            assert(middle.use_count(h0) == before.use_count(h0) + ref_count(
                                earlier,
                                h0,
                            ));
                            assert(middle.use_count(h1) == before.use_count(h1) + ref_count(
                                earlier,
                                h1,
                            ));
                            assert(middle.occupied(h0));
                            assert(middle.occupied(h1));
                        } else {
                            assert(found@[j] == seq![p][0]);
                        }
                    }
                }
            },
            None => {
                proof {
                    let one = seq![all[done]];
                    lemma_keys_in_take(all, done);
                    lemma_keys_in_finite(all);
                    before.lemma_keys_count();
                    assert forall|key: Seq<BitType>| keys_in(one).contains(key) implies keys_in(
                        all,
                    ).contains(key) by {
                        assert(one[0] == all[done]);
                    }
                    assert((middle.keys() + keys_in(one)).subset_of(before.keys() + keys_in(all)));
                    vstd::set_lib::lemma_len_subset(
                        middle.keys() + keys_in(one),
                        before.keys() + keys_in(all),
                    );
                    lemma_in_use_is_occupied(before);
                    lemma_in_use_is_occupied(middle);
                    assert forall|h: IndexType| #[trigger]
                        ctx@.use_count(h) == before.use_count(h) + ref_count(found@, h) by {
                        assert(middle.use_count(h) == before.use_count(h) + ref_count(found@, h));
                        assert(ctx@.use_count(h) == middle.use_count(h));
                    }
                    assert forall|h: IndexType| #[trigger] before.occupied(h) implies ctx@.operands(
                        h,
                    ) == before.operands(h) by {
                        assert(middle.use_count(h) == before.use_count(h) + ref_count(found@, h));
                        assert(middle.occupied(h));
                    }
                }
                release_all(ctx, found, Ghost(before));
                return None;
            },
        }
    }
    proof {
        assert(all.take(given.len() as int) =~= all);
    }
    Some(found)
}

} // verus!
