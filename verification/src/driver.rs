//! Animation driver — manages a collection of active animations.
//!
//! The [`AnimationDriver`] owns multiple animations, each under an
//! [`AnimationId`] that is never reused, and drops an animation once a tick
//! reports it completed or when it is cancelled.
use vstd::prelude::*;

verus! {

/// Opaque handle to a running animation inside an [`AnimationDriver`].
#[derive(Clone, Copy, PartialEq, Eq, Hash, Debug, Structural)]
pub struct AnimationId(u64);

impl AnimationId {
    /// The raw counter value of the handle.
    pub closed spec fn raw(self) -> u64 {
        self.0
    }

    /// Create an `AnimationId` from a raw counter value.
    ///
    /// This is public so that other drivers can mint IDs. End users should
    /// not need to call this directly.
    pub fn new(raw: u64) -> (id: Self)
        ensures
            id.raw() == raw,
    {
        AnimationId(raw)
    }
}

/// Two ids are the same exactly when they were made from the same raw value.
pub proof fn lemma_id_eq_iff_raw_eq(a: AnimationId, b: AnimationId)
    ensures
        (a == b) <==> (a.raw() == b.raw()),
{
}

/// `entries` without the entry filed under `id`, order kept.
pub open spec fn without_id<A>(entries: Seq<(AnimationId, A)>, id: AnimationId) -> Seq<(AnimationId, A)>
    decreases entries.len(),
{
    if entries.len() == 0 {
        entries
    } else {
        let rest = without_id(entries.drop_last(), id);
        if entries.last().0 == id {
            rest
        } else {
            rest.push(entries.last())
        }
    }
}

/// The entries whose flag is set, order kept.
pub open spec fn keep_flagged<A>(entries: Seq<(AnimationId, A)>, flags: Seq<bool>) -> Seq<(AnimationId, A)>
    decreases entries.len(),
{
    if entries.len() == 0 {
        entries
    } else {
        let rest = keep_flagged(entries.drop_last(), flags);
        if flags[entries.len() - 1] {
            rest.push(entries.last())
        } else {
            rest
        }
    }
}

/// `entries` with each animation replaced by the one in `animations`, ids kept.
pub open spec fn with_animations<A>(entries: Seq<(AnimationId, A)>, animations: Seq<A>) -> Seq<(AnimationId, A)> {
    Seq::new(entries.len(), |i: int| (entries[i].0, animations[i]))
}

/// The number of set flags among the first `n`.
pub open spec fn count_set(flags: Seq<bool>, n: int) -> nat
    decreases n,
{
    if n <= 0 {
        0
    } else {
        count_set(flags, n - 1) + if flags[n - 1] {
            1nat
        } else {
            0nat
        }
    }
}

/// A tick keeps one animation per set flag: keeping the flagged entries
/// leaves exactly as many as there are set flags, and each kept entry is an
/// entry whose flag is set, in the original order.
pub proof fn lemma_keep_flagged_count<A>(entries: Seq<(AnimationId, A)>, flags: Seq<bool>)
    requires
        flags.len() == entries.len(),
    ensures
        keep_flagged(entries, flags).len() == count_set(flags, entries.len() as int),
        forall|k: int|
            0 <= k < keep_flagged(entries, flags).len() ==> exists|i: int|
                0 <= i < entries.len() && flags[i] && entries[i] == #[trigger] keep_flagged(
                    entries,
                    flags,
                )[k],
    decreases entries.len(),
{
    if entries.len() > 0 {
        let init = entries.drop_last();
        let n = entries.len() as int;
        lemma_keep_flagged_count(init, flags.take(n - 1));
        lemma_keep_flagged_prefix_flags(init, flags, flags.take(n - 1));
        lemma_count_set_prefix(flags, flags.take(n - 1), n - 1);
        let r = keep_flagged(entries, flags);
        let ri = keep_flagged(init, flags);
        assert forall|k: int| 0 <= k < r.len() implies exists|i: int|
            0 <= i < entries.len() && flags[i] && entries[i] == #[trigger] r[k] by {
            if k < ri.len() {
                assert(r[k] == ri[k]);
                let i = choose|i: int|
                    0 <= i < init.len() && flags.take(n - 1)[i] && init[i] == #[trigger] ri[k];
                assert(entries[i] == init[i]);
            } else {
                assert(r[k] == entries[n - 1]);
            }
        }
    }
}

proof fn lemma_keep_flagged_prefix_flags<A>(entries: Seq<(AnimationId, A)>, f: Seq<bool>, g: Seq<bool>)
    requires
        entries.len() <= f.len(),
        entries.len() <= g.len(),
        forall|i: int| 0 <= i < entries.len() ==> f[i] == g[i],
    ensures
        keep_flagged(entries, f) == keep_flagged(entries, g),
    decreases entries.len(),
{
    if entries.len() > 0 {
        lemma_keep_flagged_prefix_flags(entries.drop_last(), f, g);
    }
}

proof fn lemma_count_set_prefix(f: Seq<bool>, g: Seq<bool>, n: int)
    requires
        0 <= n <= f.len(),
        n <= g.len(),
        forall|i: int| 0 <= i < n ==> f[i] == g[i],
    ensures
        count_set(f, n) == count_set(g, n),
    decreases n,
{
    if n > 0 {
        lemma_count_set_prefix(f, g, n - 1);
    }
}

/// The ids are strictly increasing and all below `next_id`.
pub open spec fn ids_ordered_below<A>(entries: Seq<(AnimationId, A)>, next_id: u64) -> bool {
    &&& forall|i: int, j: int|
        0 <= i < j < entries.len() ==> (#[trigger] entries[i]).0.raw() < (#[trigger] entries[j]).0.raw()
    &&& forall|i: int| 0 <= i < entries.len() ==> (#[trigger] entries[i]).0.raw() < next_id
}

/// An upper bound on the ids from position `k` of `entries` on.
pub open spec fn id_bound<A>(entries: Seq<(AnimationId, A)>, k: int, next_id: u64) -> u64 {
    if 0 <= k < entries.len() {
        entries[k].0.raw()
    } else {
        next_id
    }
}

proof fn lemma_bound_grows<A>(all: Seq<(AnimationId, A)>, k: int, next_id: u64)
    requires
        ids_ordered_below(all, next_id),
        0 <= k < all.len(),
    ensures
        all[k].0.raw() < id_bound(all, k + 1, next_id),
{
    if k + 1 < all.len() {
        assert(all[k].0.raw() < all[k + 1].0.raw());
    }
}

proof fn lemma_push_below_bound<A>(before: Seq<(AnimationId, A)>, all: Seq<(AnimationId, A)>, k: int, next_id: u64)
    requires
        ids_ordered_below(all, next_id),
        0 <= k < all.len(),
        ids_ordered_below(before, next_id),
        forall|m: int| 0 <= m < before.len() ==> (#[trigger] before[m]).0.raw() < id_bound(all, k, next_id),
    ensures
        ids_ordered_below(before.push(all[k]), next_id),
        forall|m: int|
            0 <= m < before.push(all[k]).len() ==> (#[trigger] before.push(all[k])[m]).0.raw()
                < id_bound(all, k + 1, next_id),
{
    lemma_bound_grows(all, k, next_id);
    let after = before.push(all[k]);
    assert forall|a: int, b: int| 0 <= a < b < after.len() implies (#[trigger] after[a]).0.raw()
        < (#[trigger] after[b]).0.raw() by {
        assert(after[a] == before[a]);
        if b < before.len() {
            assert(after[b] == before[b]);
        }
    }
    assert forall|m: int| 0 <= m < after.len() implies (#[trigger] after[m]).0.raw() < id_bound(
        all,
        k + 1,
        next_id,
    ) by {
        if m < before.len() {
            assert(after[m] == before[m]);
        }
    }
}

/// Manages a set of active animations.
///
/// Call [`AnimationDriver::retain_running`] once per frame with what each
/// animation's update reported. Completed animations are cleaned up there.
pub struct AnimationDriver<A> {
    animations: Vec<(AnimationId, A)>,
    next_id: u64,
}

impl<A> AnimationDriver<A> {
    /// The active animations with their ids, in the order they were added.
    pub closed spec fn entries(&self) -> Seq<(AnimationId, A)> {
        self.animations@
    }

    /// The raw value of the next id to hand out.
    pub closed spec fn next_raw_id(&self) -> u64 {
        self.next_id
    }

    /// Ids are handed out in increasing order and never reused.
    pub open spec fn wf(&self) -> bool {
        ids_ordered_below(self.entries(), self.next_raw_id())
    }

    /// Create an empty driver.
    pub fn new() -> (d: Self)
        ensures
            d.wf(),
            d.entries() == Seq::<(AnimationId, A)>::empty(),
            d.next_raw_id() == 0,
    {
        AnimationDriver { animations: Vec::new(), next_id: 0 }
    }

    /// Whether another id can be handed out (the id counter has not reached
    /// its maximum).
    pub fn can_add(&self) -> (r: bool)
        ensures
            r == (self.next_raw_id() < u64::MAX),
    {
        self.next_id < u64::MAX
    }

    /// Add an animation and receive an [`AnimationId`] to cancel it later.
    pub fn add(&mut self, animation: A) -> (id: AnimationId)
        requires
            old(self).wf(),
            old(self).next_raw_id() < u64::MAX,
        ensures
            final(self).wf(),
            id.raw() == old(self).next_raw_id(),
            final(self).entries() == old(self).entries().push((id, animation)),
            final(self).next_raw_id() == old(self).next_raw_id() + 1,
    {
        let id = AnimationId(self.next_id);
        self.next_id += 1;
        self.animations.push((id, animation));
        id
    }

    /// Cancel a specific animation by its [`AnimationId`].
    pub fn cancel(&mut self, id: AnimationId)
        requires
            old(self).wf(),
        ensures
            final(self).wf(),
            final(self).entries() == without_id(old(self).entries(), id),
            final(self).next_raw_id() == old(self).next_raw_id(),
    {
        let mut old_entries: Vec<(AnimationId, A)> = Vec::new();
        std::mem::swap(&mut old_entries, &mut self.animations);
        let ghost all = old_entries@;
        let mut kept: Vec<(AnimationId, A)> = Vec::new();
        for entry in iter: old_entries
            invariant
                all == iter.seq(),
                ids_ordered_below(all, self.next_id),
                kept@ == without_id(all.take(iter.index() as int), id),
                ids_ordered_below(kept@, self.next_id),
                forall|m: int|
                    0 <= m < kept@.len() ==> (#[trigger] kept@[m]).0.raw() < id_bound(
                        all,
                        iter.index() as int,
                        self.next_id,
                    ),
        {
            proof {
                assert(all.take(iter.index() + 1).drop_last() =~= all.take(iter.index() as int));
            }
            let ghost k = iter.index();
            proof {
                lemma_bound_grows(all, k as int, self.next_id);
            }
            if entry.0 != id {
                let ghost before = kept@;
                kept.push(entry);
                proof {
                    lemma_push_below_bound(before, all, k as int, self.next_id);
                }
            }
        }
        proof {
            assert(all.take(all.len() as int) =~= all);
        }
        self.animations = kept;
    }

    /// The animation at position `index`, to be stepped forward by the caller.
    pub fn animation_mut(&mut self, index: usize) -> (r: &mut A)
        requires
            old(self).wf(),
            index < old(self).entries().len(),
        ensures
            final(self).wf(),
            *r == old(self).entries()[index as int].1,
            final(self).entries() == old(self).entries().update(
                index as int,
                (old(self).entries()[index as int].0, *final(r)),
            ),
            final(self).next_raw_id() == old(self).next_raw_id(),
    {
        proof {
            let e = self.animations@;
            let id = e[index as int].0;
            assert forall|x: A| ids_ordered_below(
                #[trigger] e.update(index as int, (id, x)),
                self.next_id,
            ) by {
                let f = e.update(index as int, (id, x));
                assert forall|i: int| 0 <= i < f.len() implies (#[trigger] f[i]).0 == e[i].0 by {}
            }
        }
        &mut self.animations[index].1
    }

    /// Keep the animations whose update reported that they are still running
    /// (`still_running[i]` for the animation at position `i`) and drop the
    /// completed ones.
    pub fn retain_running(&mut self, still_running: &[bool])
        requires
            old(self).wf(),
            still_running@.len() == old(self).entries().len(),
        ensures
            final(self).wf(),
            final(self).entries() == keep_flagged(old(self).entries(), still_running@),
            final(self).next_raw_id() == old(self).next_raw_id(),
    {
        let mut old_entries: Vec<(AnimationId, A)> = Vec::new();
        std::mem::swap(&mut old_entries, &mut self.animations);
        let ghost all = old_entries@;
        let mut kept: Vec<(AnimationId, A)> = Vec::new();
        let mut i: usize = 0;
        for entry in iter: old_entries
            invariant
                all == iter.seq(),
                i == iter.index(),
                still_running@.len() == all.len(),
                ids_ordered_below(all, self.next_id),
                kept@ == keep_flagged(all.take(iter.index() as int), still_running@),
                ids_ordered_below(kept@, self.next_id),
                forall|m: int|
                    0 <= m < kept@.len() ==> (#[trigger] kept@[m]).0.raw() < id_bound(
                        all,
                        iter.index() as int,
                        self.next_id,
                    ),
        {
            proof {
                assert(all.take(iter.index() + 1).drop_last() =~= all.take(iter.index() as int));
            }
            let ghost k = iter.index();
            if still_running[i] {
                let ghost before = kept@;
                kept.push(entry);
                proof {
                    lemma_push_below_bound(before, all, k as int, self.next_id);
                }
            } else {
                proof {
                    lemma_bound_grows(all, k as int, self.next_id);
                }
            }
            i += 1;
        }
        proof {
            assert(all.take(all.len() as int) =~= all);
        }
        self.animations = kept;
    }

    /// Tick every active animation: `step` is applied once to each animation,
    /// in order, and reports whether it is still running; the stepped
    /// animations that are still running are kept, in order, and the others
    /// are dropped.
    pub fn tick_with<F: Fn(A) -> (A, bool)>(&mut self, step: F)
        requires
            old(self).wf(),
            forall|a: A| step.requires((a,)),
        ensures
            final(self).wf(),
            final(self).next_raw_id() == old(self).next_raw_id(),
            exists|stepped: Seq<A>, running: Seq<bool>|
                {
                    &&& stepped.len() == old(self).entries().len()
                    &&& running.len() == old(self).entries().len()
                    &&& forall|i: int|
                        0 <= i < stepped.len() ==> step.ensures(
                            (#[trigger] old(self).entries()[i].1,),
                            (stepped[i], running[i]),
                        )
                    &&& final(self).entries() == keep_flagged(
                        with_animations(old(self).entries(), stepped),
                        running,
                    )
                },
    {
        let mut old_entries: Vec<(AnimationId, A)> = Vec::new();
        std::mem::swap(&mut old_entries, &mut self.animations);
        let ghost all = old_entries@;
        let ghost mut stepped: Seq<A> = seq![];
        let ghost mut running: Seq<bool> = seq![];
        let mut kept: Vec<(AnimationId, A)> = Vec::new();
        for entry in iter: old_entries
            invariant
                all == iter.seq(),
                forall|a: A| step.requires((a,)),
                ids_ordered_below(all, self.next_id),
                stepped.len() == iter.index(),
                running.len() == iter.index(),
                forall|i: int|
                    0 <= i < stepped.len() ==> step.ensures(
                        (#[trigger] all[i].1,),
                        (stepped[i], running[i]),
                    ),
                kept@ == keep_flagged(
                    with_animations(all.take(iter.index() as int), stepped),
                    running,
                ),
                ids_ordered_below(kept@, self.next_id),
                forall|m: int|
                    0 <= m < kept@.len() ==> (#[trigger] kept@[m]).0.raw() < id_bound(
                        all,
                        iter.index() as int,
                        self.next_id,
                    ),
        {
            let ghost k = iter.index();
            let ghost prev = with_animations(all.take(k as int), stepped);
            proof {
                lemma_bound_grows(all, k as int, self.next_id);
            }
            let (id, animation) = entry;
            let (animation, still_running) = step(animation);
            proof {
                let stepped2 = stepped.push(animation);
                let running2 = running.push(still_running);
                let cur = with_animations(all.take(k + 1), stepped2);
                assert(cur.drop_last() =~= prev);
                assert(cur.last() == (id, animation));
                lemma_keep_flagged_prefix_flags(prev, running, running2);
                stepped = stepped2;
                running = running2;
            }
            if still_running {
                let ghost before = kept@;
                kept.push((id, animation));
                proof {
                    let e = (id, animation);
                    lemma_push_below_bound(before, all, k as int, self.next_id);
                    assert(before.push(all[k as int]) =~= before.push(all[k as int]));
                    assert forall|a: int, b: int|
                        0 <= a < b < kept@.len() implies (#[trigger] kept@[a]).0.raw()
                        < (#[trigger] kept@[b]).0.raw() by {
                        assert(before.push(all[k as int])[a].0 == kept@[a].0);
                        assert(before.push(all[k as int])[b].0 == kept@[b].0);
                    }
                    assert forall|m: int| 0 <= m < kept@.len() implies (#[trigger] kept@[m]).0.raw()
                        < id_bound(all, k + 1, self.next_id) by {
                        assert(before.push(all[k as int])[m].0 == kept@[m].0);
                    }
                }
            }
        }
        proof {
            assert(all.take(all.len() as int) =~= all);
        }
        self.animations = kept;
    }

    /// Cancel all active animations.
    pub fn cancel_all(&mut self)
        requires
            old(self).wf(),
        ensures
            final(self).wf(),
            final(self).entries() == Seq::<(AnimationId, A)>::empty(),
            final(self).next_raw_id() == old(self).next_raw_id(),
    {
        self.animations.clear();
    }

    /// Number of currently active (non-completed) animations.
    pub fn active_count(&self) -> (n: usize)
        ensures
            n == self.entries().len(),
    {
        self.animations.len()
    }
}


/// Cancelling an id that no active animation carries leaves the driver's
/// animations unchanged.
pub proof fn lemma_cancel_absent_is_noop<A>(entries: Seq<(AnimationId, A)>, id: AnimationId)
    requires
        forall|i: int| 0 <= i < entries.len() ==> (#[trigger] entries[i]).0 != id,
    ensures
        without_id(entries, id) == entries,
    decreases entries.len(),
{
    if entries.len() > 0 {
        let init = entries.drop_last();
        assert forall|i: int| 0 <= i < init.len() implies (#[trigger] init[i]).0 != id by {
            assert(init[i] == entries[i]);
        }
        lemma_cancel_absent_is_noop(init, id);
        assert(entries.last() == entries[entries.len() - 1]);
        assert(init.push(entries.last()) =~= entries);
    }
}

/// Cancelling removes every animation filed under the id and keeps all the
/// others, in order; the ids of a driver are distinct, so at most one goes.
pub proof fn lemma_cancel_removes_exactly<A>(entries: Seq<(AnimationId, A)>, id: AnimationId)
    ensures
        forall|i: int|
            0 <= i < without_id(entries, id).len() ==> (#[trigger] without_id(entries, id)[i]).0
                != id,
        without_id(entries, id).len() + entries.filter(|e: (AnimationId, A)| e.0 == id).len()
            == entries.len(),
    decreases entries.len(),
{
    reveal_with_fuel(Seq::filter, 1);
    if entries.len() > 0 {
        let init = entries.drop_last();
        lemma_cancel_removes_exactly(init, id);
        let r = without_id(entries, id);
        let ri = without_id(init, id);
        assert forall|i: int| 0 <= i < r.len() implies (#[trigger] r[i]).0 != id by {
            if i < ri.len() {
                assert(r[i] == ri[i]);
            }
        }
    }
}

/// The ids of a well-formed driver are pairwise distinct.
pub proof fn lemma_ids_distinct<A>(entries: Seq<(AnimationId, A)>, next_id: u64, i: int, j: int)
    requires
        ids_ordered_below(entries, next_id),
        0 <= i < entries.len(),
        0 <= j < entries.len(),
        i != j,
    ensures
        entries[i].0 != entries[j].0,
{
    if i < j {
        assert(entries[i].0.raw() < entries[j].0.raw());
    } else {
        assert(entries[j].0.raw() < entries[i].0.raw());
    }
}

/// Cancelling the id that `add` just returned undoes the addition.
pub proof fn lemma_cancel_undoes_add<A>(entries: Seq<(AnimationId, A)>, id: AnimationId, animation: A)
    requires
        ids_ordered_below(entries, id.raw()),
    ensures
        without_id(entries.push((id, animation)), id) == entries,
{
    let pushed = entries.push((id, animation));
    assert(pushed.drop_last() =~= entries);
    assert forall|i: int| 0 <= i < entries.len() implies (#[trigger] entries[i]).0 != id by {
        assert(entries[i].0.raw() < id.raw());
    }
    lemma_cancel_absent_is_noop(entries, id);
}

} // verus!
