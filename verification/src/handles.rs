//! Strong, weak and snapshot handles over the reclaimer's arena.
//!
//! A handle is an index into one reclaimer's arena together with what it
//! owns there: an [`Arc`] owns one strong count, a [`Weak`] one weak count,
//! and a [`Guard`] a registered snapshot record instead of a count. Handles
//! have no destructors in the model; each is given back explicitly
//! ([`Arc::retire`], [`Weak::retire`], [`Guard::release`]), which hands the
//! owned count to the reclaimer for deferred release. A handle must only be
//! used with the reclaimer it came from.

use crate::reclaimer::PtrGuard;
use crate::reclaimer::RetireKind;
use crate::reclaimer::StandardReclaimer;
use vstd::prelude::*;

verus! {

/// A strong handle: keeps the block's value alive.
pub struct Arc {
    pub(crate) block: usize,
}

/// A weak handle: keeps the block's memory reachable, but not its value.
/// It can be upgraded to a strong handle exactly while the strong counter
/// has not sealed.
pub struct Weak {
    pub(crate) block: usize,
}

/// A snapshot handle: a short-lived read-only view backed by reclaimer
/// protection, not by a count.
pub struct Guard {
    pub(crate) block: usize,
    pub(crate) guard: PtrGuard,
}

/// Extracting a handle's block index: the model's analogue of reading a
/// smart pointer's raw address.
pub trait AsPtr {
    /// The block index this handle refers to.
    spec fn ptr_spec(&self) -> usize;

    /// The block index, as a value.
    fn as_ptr(this: &Self) -> (p: usize)
        ensures
            p == this.ptr_spec(),
    ;
}

impl AsPtr for Arc {
    closed spec fn ptr_spec(&self) -> usize {
        self.block
    }

    fn as_ptr(this: &Self) -> (p: usize) {
        this.block
    }
}

impl AsPtr for Weak {
    closed spec fn ptr_spec(&self) -> usize {
        self.block
    }

    fn as_ptr(this: &Self) -> (p: usize) {
        this.block
    }
}

impl AsPtr for Guard {
    closed spec fn ptr_spec(&self) -> usize {
        self.block
    }

    fn as_ptr(this: &Self) -> (p: usize) {
        this.block
    }
}

impl Arc {
    /// Package a bare block index as a strong handle; the caller
    /// establishes that the ledger counts it.
    pub(crate) fn from_block(block: usize) -> (a: Arc)
        ensures
            a.ptr_spec() == block,
    {
        Arc { block }
    }

    /// The handle is valid for `r`: its block is in `r`'s arena and the
    /// ledger there counts at least this holder.
    pub open spec fn wf<T>(&self, r: StandardReclaimer<T>) -> bool {
        &&& (self.ptr_spec() as int) < r.n_blocks()
        &&& r.blk(self.ptr_spec() as int).s_owners@ >= 1
    }

    /// Allocate a fresh block holding `data` and return its first strong
    /// handle.
    pub fn new<T>(r: &mut StandardReclaimer<T>, data: T) -> (a: Arc)
        requires
            old(r).wf(),
        ensures
            final(r).wf(),
            a.wf(*final(r)),
            a.ptr_spec() as int == old(r).n_blocks(),
            final(r).n_blocks() == old(r).n_blocks() + 1,
            forall|i: int|
                0 <= i < old(r).n_blocks() ==> final(r).blocks@[i] == old(r).blocks@[i],
            final(r).blk(a.ptr_spec() as int).value == Some(data),
            final(r).blk(a.ptr_spec() as int).strong.count() == 1,
            final(r).blk(a.ptr_spec() as int).weak == 1,
            final(r).blk(a.ptr_spec() as int).s_owners@ == 1,
            final(r).blk(a.ptr_spec() as int).w_owners@ == 0,
            final(r).slots == old(r).slots,
            final(r).batches == old(r).batches,
            final(r).cells == old(r).cells,
            final(r).epoch == old(r).epoch,
            final(r).graveyard == old(r).graveyard,
    {
        let b = r.alloc_block(data);
        Arc { block: b }
    }

    /// Clone the handle: one more strong count on the same block.
    pub fn clone_in<T>(this: &Arc, r: &mut StandardReclaimer<T>) -> (a: Arc)
        requires
            old(r).wf(),
            this.wf(*old(r)),
            old(r).blk(this.ptr_spec() as int).strong.headroom(),
        ensures
            final(r).wf(),
            a.ptr_spec() == this.ptr_spec(),
            a.wf(*final(r)),
            this.wf(*final(r)),
            final(r).blocks@.len() == old(r).blocks@.len(),
            forall|i: int|
                0 <= i < old(r).n_blocks() && i != this.ptr_spec() as int ==> final(r).blocks@[i]
                    == old(r).blocks@[i],
            final(r).blk(this.ptr_spec() as int).s_owners@ == old(r).blk(
                this.ptr_spec() as int,
            ).s_owners@ + 1,
            final(r).blk(this.ptr_spec() as int).strong.count() == old(r).blk(
                this.ptr_spec() as int,
            ).strong.count() + 1,
            final(r).blk(this.ptr_spec() as int).w_owners == old(r).blk(
                this.ptr_spec() as int,
            ).w_owners,
            final(r).blk(this.ptr_spec() as int).weak == old(r).blk(this.ptr_spec() as int).weak,
            final(r).blk(this.ptr_spec() as int).value == old(r).blk(this.ptr_spec() as int).value,
            final(r).slots == old(r).slots,
            final(r).batches == old(r).batches,
            final(r).cells == old(r).cells,
            final(r).epoch == old(r).epoch,
            final(r).graveyard == old(r).graveyard,
    {
        proof {
            old(r).lemma_owner_live(this.ptr_spec() as int);
        }
        r.clone_strong(this.block);
        Arc { block: this.block }
    }

    /// Give the handle back: its strong count is retired through slot `s`
    /// and released once no protection from before the retirement's
    /// publication is still open.
    pub fn retire<T>(self, r: &mut StandardReclaimer<T>, s: usize)
        requires
            old(r).wf(),
            self.wf(*old(r)),
            (s as int) < old(r).slots@.len(),
            old(r).epoch < u64::MAX,
        ensures
            final(r).wf(),
            old(r).epoch <= final(r).epoch <= old(r).epoch + 1,
            final(r).graveyard == old(r).graveyard,
            final(r).blocks@.len() == old(r).blocks@.len(),
            final(r).cells == old(r).cells,
            final(r).slots@.len() == old(r).slots@.len(),
            forall|t: int|
                0 <= t < old(r).slots@.len() ==> {
                    &&& (#[trigger] final(r).slots@[t]).claimed == old(r).slots@[t].claimed
                    &&& final(r).slots@[t].depth == old(r).slots@[t].depth
                    &&& final(r).slots@[t].pin == old(r).slots@[t].pin
                    &&& final(r).slots@[t].snapshots == old(r).slots@[t].snapshots
                },
            forall|b: int|
                0 <= b < old(r).n_blocks() && b != self.ptr_spec() as int ==> final(r).blocks@[b]
                    == old(r).blocks@[b],
            final(r).blk(self.ptr_spec() as int).s_owners@ == old(r).blk(
                self.ptr_spec() as int,
            ).s_owners@ - 1,
            final(r).blk(self.ptr_spec() as int).w_owners == old(r).blk(
                self.ptr_spec() as int,
            ).w_owners,
            final(r).blk(self.ptr_spec() as int).strong == old(r).blk(
                self.ptr_spec() as int,
            ).strong,
            final(r).blk(self.ptr_spec() as int).value == old(r).blk(self.ptr_spec() as int).value,
            final(r).blk(self.ptr_spec() as int).weak == old(r).blk(self.ptr_spec() as int).weak,
            final(r).blk(self.ptr_spec() as int).allocated == old(r).blk(
                self.ptr_spec() as int,
            ).allocated,
            final(r).strong_pending(self.ptr_spec() as int) == old(r).strong_pending(
                self.ptr_spec() as int,
            ) + 1,
            final(r).slots@[s as int].batch@.len() as int == (if old(r).slots@[
                s as int].batch@.len() + 1 >= old(r).slots@.len() {
                0int
            } else {
                old(r).slots@[s as int].batch@.len() as int + 1
            }),
    {
        r.retire(s, self.block, RetireKind::Strong);
    }

    /// A weak handle to the same block: one more weak count.
    pub fn downgrade<T>(this: &Arc, r: &mut StandardReclaimer<T>) -> (w: Weak)
        requires
            old(r).wf(),
            this.wf(*old(r)),
            old(r).blk(this.ptr_spec() as int).weak < u64::MAX,
        ensures
            final(r).wf(),
            w.ptr_spec() == this.ptr_spec(),
            w.wf(*final(r)),
            this.wf(*final(r)),
            final(r).blocks@.len() == old(r).blocks@.len(),
            forall|i: int|
                0 <= i < old(r).n_blocks() && i != this.ptr_spec() as int ==> final(r).blocks@[i]
                    == old(r).blocks@[i],
            final(r).blk(this.ptr_spec() as int).w_owners@ == old(r).blk(
                this.ptr_spec() as int,
            ).w_owners@ + 1,
            final(r).blk(this.ptr_spec() as int).weak == old(r).blk(this.ptr_spec() as int).weak
                + 1,
            final(r).blk(this.ptr_spec() as int).s_owners == old(r).blk(
                this.ptr_spec() as int,
            ).s_owners,
            final(r).blk(this.ptr_spec() as int).strong == old(r).blk(
                this.ptr_spec() as int,
            ).strong,
            final(r).slots == old(r).slots,
            final(r).batches == old(r).batches,
            final(r).cells == old(r).cells,
            final(r).epoch == old(r).epoch,
            final(r).graveyard == old(r).graveyard,
    {
        proof {
            old(r).lemma_owner_live(this.ptr_spec() as int);
            assert(old(r).wf_block(this.ptr_spec() as int));
        }
        r.clone_weak(this.block);
        Weak { block: this.block }
    }

    /// Whether two strong handles point to the same block.
    pub fn ptr_eq(this: &Arc, other: &Arc) -> (eq: bool)
        ensures
            eq == (this.ptr_spec() == other.ptr_spec()),
    {
        this.block == other.block
    }

    /// Consume the handle without giving its count back: the count is
    /// leaked, exactly as forgetting a strong pointer would leak it. The
    /// returned index is the model's raw pointer.
    pub fn into_raw(this: Arc) -> (p: usize)
        ensures
            p == this.ptr_spec(),
    {
        this.block
    }

    /// Take back a strong count that `into_raw` leaked: mints the handle
    /// that owns it again. The ledger must still carry the leaked count;
    /// the caller is answerable for pairing each `from_raw` with one
    /// earlier `into_raw` on the same block, exactly as with raw-pointer
    /// round trips.
    pub fn from_raw<T>(r: &StandardReclaimer<T>, p: usize) -> (a: Arc)
        requires
            (p as int) < r.n_blocks(),
            r.blk(p as int).s_owners@ >= 1,
        ensures
            a.ptr_spec() == p,
            a.wf(*r),
    {
        Arc { block: p }
    }

    /// The block's current strong count. It may overestimate the number of
    /// live holders: counts relinquished to the reclaimer are still in it
    /// until their retirement executes.
    pub fn strong_count<T>(this: &Arc, r: &StandardReclaimer<T>) -> (n: u64)
        requires
            r.wf(),
            this.wf(*r),
        ensures
            n == r.blk(this.ptr_spec() as int).strong.count(),
            n >= 1,
    {
        proof {
            r.lemma_owner_live(this.ptr_spec() as int);
            assert(r.wf_block(this.ptr_spec() as int));
        }
        r.blocks[this.block].strong.load()
    }

    /// The block's current strong count, under the name the flat pointer
    /// API uses.
    pub fn ref_count<T>(this: &Arc, r: &StandardReclaimer<T>) -> (n: u64)
        requires
            r.wf(),
            this.wf(*r),
        ensures
            n == r.blk(this.ptr_spec() as int).strong.count(),
            n >= 1,
    {
        Arc::strong_count(this, r)
    }

    /// The block's weak count, without the strong holders' collective
    /// token.
    pub fn weak_count<T>(this: &Arc, r: &StandardReclaimer<T>) -> (n: u64)
        requires
            r.wf(),
            this.wf(*r),
        ensures
            n == r.blk(this.ptr_spec() as int).weak - 1,
    {
        proof {
            r.lemma_owner_live(this.ptr_spec() as int);
            assert(r.wf_block(this.ptr_spec() as int));
        }
        r.blocks[this.block].weak - 1
    }

    /// Read access to the value the handle keeps alive.
    pub fn deref<'a, T>(this: &Arc, r: &'a StandardReclaimer<T>) -> (v: &'a T)
        requires
            r.wf(),
            this.wf(*r),
        ensures
            *v == r.blk(this.ptr_spec() as int).value.unwrap(),
    {
        proof {
            r.lemma_owner_live(this.ptr_spec() as int);
        }
        r.block_value(this.block)
    }
}

impl Weak {
    /// The handle is valid for `r`: its block is in `r`'s arena and the
    /// ledger there counts at least this weak holder.
    pub open spec fn wf<T>(&self, r: StandardReclaimer<T>) -> bool {
        &&& (self.ptr_spec() as int) < r.n_blocks()
        &&& r.blk(self.ptr_spec() as int).w_owners@ >= 1
    }

    /// Try to obtain a strong handle: succeeds exactly while the block's
    /// strong counter has not sealed. Racing a final release, the upgrade
    /// either wins (the counter was still live and is incremented) or the
    /// counter has sealed and the upgrade fails; a sealed counter never
    /// revives.
    pub fn upgrade<T>(&self, r: &mut StandardReclaimer<T>) -> (a: Option<Arc>)
        requires
            old(r).wf(),
            self.wf(*old(r)),
            old(r).blk(self.ptr_spec() as int).strong.headroom(),
        ensures
            final(r).wf(),
            self.wf(*final(r)),
            a is Some <==> !old(r).blk(self.ptr_spec() as int).strong.sealed(),
            final(r).blocks@.len() == old(r).blocks@.len(),
            final(r).slots == old(r).slots,
            final(r).batches == old(r).batches,
            final(r).cells == old(r).cells,
            final(r).epoch == old(r).epoch,
            final(r).graveyard == old(r).graveyard,
            final(r).blk(self.ptr_spec() as int).weak == old(r).blk(self.ptr_spec() as int).weak,
            forall|i: int|
                0 <= i < old(r).n_blocks() && i != self.ptr_spec() as int ==> final(r).blocks@[i]
                    == old(r).blocks@[i],
            match a {
                Some(got) => {
                    &&& got.ptr_spec() == self.ptr_spec()
                    &&& got.wf(*final(r))
                    &&& final(r).blk(self.ptr_spec() as int).strong.count() == old(r).blk(
                        self.ptr_spec() as int,
                    ).strong.count() + 1
                    &&& final(r).blk(self.ptr_spec() as int).s_owners@ == old(r).blk(
                        self.ptr_spec() as int,
                    ).s_owners@ + 1
                    &&& final(r).blk(self.ptr_spec() as int).value == old(r).blk(
                        self.ptr_spec() as int,
                    ).value
                    &&& final(r).blk(self.ptr_spec() as int).value is Some
                },
                None => final(r).blocks@ == old(r).blocks@,
            },
    {
        proof {
            old(r).lemma_weak_owner_allocated(self.ptr_spec() as int);
            assert(old(r).wf_block(self.ptr_spec() as int));
        }
        if r.try_upgrade(self.block) {
            proof {
                r.lemma_owner_live(self.ptr_spec() as int);
            }
            Some(Arc { block: self.block })
        } else {
            None
        }
    }

    /// Clone the handle: one more weak count on the same block.
    pub fn clone_in<T>(this: &Weak, r: &mut StandardReclaimer<T>) -> (w: Weak)
        requires
            old(r).wf(),
            this.wf(*old(r)),
            old(r).blk(this.ptr_spec() as int).weak < u64::MAX,
        ensures
            final(r).wf(),
            w.ptr_spec() == this.ptr_spec(),
            w.wf(*final(r)),
            this.wf(*final(r)),
            final(r).blk(this.ptr_spec() as int).w_owners@ == old(r).blk(
                this.ptr_spec() as int,
            ).w_owners@ + 1,
            final(r).blk(this.ptr_spec() as int).weak == old(r).blk(this.ptr_spec() as int).weak
                + 1,
            final(r).slots == old(r).slots,
            final(r).batches == old(r).batches,
            final(r).cells == old(r).cells,
            final(r).epoch == old(r).epoch,
            final(r).graveyard == old(r).graveyard,
    {
        proof {
            old(r).lemma_weak_owner_allocated(this.ptr_spec() as int);
        }
        r.clone_weak(this.block);
        Weak { block: this.block }
    }

    /// Give the handle back: its weak count is retired through slot `s`.
    pub fn retire<T>(self, r: &mut StandardReclaimer<T>, s: usize)
        requires
            old(r).wf(),
            self.wf(*old(r)),
            (s as int) < old(r).slots@.len(),
            old(r).epoch < u64::MAX,
        ensures
            final(r).wf(),
            old(r).epoch <= final(r).epoch <= old(r).epoch + 1,
            final(r).graveyard == old(r).graveyard,
            final(r).blocks@.len() == old(r).blocks@.len(),
            final(r).cells == old(r).cells,
            final(r).slots@.len() == old(r).slots@.len(),
            forall|t: int|
                0 <= t < old(r).slots@.len() ==> {
                    &&& (#[trigger] final(r).slots@[t]).claimed == old(r).slots@[t].claimed
                    &&& final(r).slots@[t].depth == old(r).slots@[t].depth
                    &&& final(r).slots@[t].pin == old(r).slots@[t].pin
                    &&& final(r).slots@[t].snapshots == old(r).slots@[t].snapshots
                },
            forall|b: int|
                0 <= b < old(r).n_blocks() && b != self.ptr_spec() as int ==> final(r).blocks@[b]
                    == old(r).blocks@[b],
            final(r).blk(self.ptr_spec() as int).w_owners@ == old(r).blk(
                self.ptr_spec() as int,
            ).w_owners@ - 1,
            final(r).blk(self.ptr_spec() as int).s_owners == old(r).blk(
                self.ptr_spec() as int,
            ).s_owners,
            final(r).blk(self.ptr_spec() as int).strong == old(r).blk(
                self.ptr_spec() as int,
            ).strong,
            final(r).blk(self.ptr_spec() as int).value == old(r).blk(self.ptr_spec() as int).value,
            final(r).blk(self.ptr_spec() as int).weak == old(r).blk(self.ptr_spec() as int).weak,
            final(r).blk(self.ptr_spec() as int).allocated == old(r).blk(
                self.ptr_spec() as int,
            ).allocated,
            final(r).weak_pending(self.ptr_spec() as int) == old(r).weak_pending(
                self.ptr_spec() as int,
            ) + 1,
            final(r).slots@[s as int].batch@.len() as int == (if old(r).slots@[
                s as int].batch@.len() + 1 >= old(r).slots@.len() {
                0int
            } else {
                old(r).slots@[s as int].batch@.len() as int + 1
            }),
    {
        r.retire(s, self.block, RetireKind::Weak);
    }

    /// Consume the handle without giving its count back: the weak count is
    /// leaked. The returned index is the model's raw pointer.
    pub fn into_raw(self) -> (p: usize)
        ensures
            p == self.ptr_spec(),
    {
        self.block
    }

    /// Take back a weak count that `into_raw` leaked: mints the handle that
    /// owns it again. The ledger must still carry the leaked count; the
    /// caller is answerable for pairing each `from_raw` with one earlier
    /// `into_raw` on the same block.
    pub fn from_raw<T>(r: &StandardReclaimer<T>, p: usize) -> (w: Weak)
        requires
            (p as int) < r.n_blocks(),
            r.blk(p as int).w_owners@ >= 1,
        ensures
            w.ptr_spec() == p,
            w.wf(*r),
    {
        Weak { block: p }
    }
}

impl Guard {
    /// The slot whose snapshot table backs this handle.
    pub closed spec fn slot_spec(&self) -> usize {
        self.guard.slot_spec()
    }

    /// The index of this handle's snapshot record in that table.
    pub closed spec fn entry_spec(&self) -> usize {
        self.guard.entry_spec()
    }

    /// Package a registered snapshot record as a read handle.
    pub(crate) fn guard_new(block: usize, guard: PtrGuard) -> (g: Guard)
        ensures
            g.ptr_spec() == block,
            g.slot_spec() == guard.slot_spec(),
            g.entry_spec() == guard.entry_spec(),
    {
        Guard { block, guard }
    }

    /// The handle is valid for `r`: its snapshot record is registered on
    /// its block in `r`'s arena.
    pub open spec fn wf<T>(&self, r: StandardReclaimer<T>) -> bool {
        &&& (self.slot_spec() as int) < r.slots@.len()
        &&& (self.entry_spec() as int) < r.slots@[self.slot_spec() as int].snapshots@.len()
        &&& r.slots@[self.slot_spec() as int].snapshots@[self.entry_spec() as int].ptr == Some(
            self.ptr_spec(),
        )
        &&& (self.ptr_spec() as int) < r.n_blocks()
    }

    /// Read access to the protected value: while the snapshot is
    /// registered, the block's value cannot have been dropped.
    pub fn deref<'a, T>(this: &Guard, r: &'a StandardReclaimer<T>) -> (v: &'a T)
        requires
            r.wf(),
            this.wf(*r),
        ensures
            *v == r.blk(this.ptr_spec() as int).value.unwrap(),
    {
        proof {
            r.lemma_snap_live(this.slot_spec() as int, this.entry_spec() as int);
        }
        r.block_value(this.block)
    }

    /// A strong handle to the protected block: the snapshot's protection
    /// guarantees the strong counter is live, so the increment cannot race
    /// a seal.
    pub fn to_arc<T>(this: &Guard, r: &mut StandardReclaimer<T>) -> (a: Arc)
        requires
            old(r).wf(),
            this.wf(*old(r)),
            old(r).blk(this.ptr_spec() as int).strong.headroom(),
        ensures
            final(r).wf(),
            a.ptr_spec() == this.ptr_spec(),
            a.wf(*final(r)),
            this.wf(*final(r)),
            final(r).blk(this.ptr_spec() as int).strong.count() == old(r).blk(
                this.ptr_spec() as int,
            ).strong.count() + 1,
            final(r).blk(this.ptr_spec() as int).s_owners@ == old(r).blk(
                this.ptr_spec() as int,
            ).s_owners@ + 1,
            final(r).slots == old(r).slots,
            final(r).batches == old(r).batches,
            final(r).cells == old(r).cells,
            final(r).epoch == old(r).epoch,
            final(r).graveyard == old(r).graveyard,
            final(r).blocks@.len() == old(r).blocks@.len(),
            forall|i: int|
                0 <= i < old(r).n_blocks() && i != this.ptr_spec() as int ==> final(r).blocks@[i]
                    == old(r).blocks@[i],
    {
        proof {
            old(r).lemma_snap_live(this.slot_spec() as int, this.entry_spec() as int);
            assert(old(r).wf_block(this.ptr_spec() as int));
        }
        r.clone_strong(this.block);
        Arc { block: this.block }
    }

    /// A snapshot handle to the block a strong handle keeps alive,
    /// registered in slot `s`. It reads the value without touching the
    /// count, and keeps the value live even after the strong handle is
    /// given back.
    pub fn from_arc<T>(this: &Arc, r: &mut StandardReclaimer<T>, s: usize) -> (g: Guard)
        requires
            old(r).wf(),
            this.wf(*old(r)),
            (s as int) < old(r).slots@.len(),
        ensures
            final(r).wf(),
            g.ptr_spec() == this.ptr_spec(),
            g.slot_spec() == s,
            g.wf(*final(r)),
            this.wf(*final(r)),
            final(r).blocks == old(r).blocks,
            final(r).cells == old(r).cells,
            final(r).batches == old(r).batches,
            final(r).epoch == old(r).epoch,
            final(r).graveyard == old(r).graveyard,
            final(r).slots@.len() == old(r).slots@.len(),
            forall|t: int|
                0 <= t < old(r).slots@.len() && t != s as int ==> final(r).slots@[t] == old(
                    r,
                ).slots@[t],
            final(r).slots@[s as int].claimed == old(r).slots@[s as int].claimed,
            final(r).slots@[s as int].batch == old(r).slots@[s as int].batch,
            final(r).slots@[s as int].depth == old(r).slots@[s as int].depth,
            final(r).slots@[s as int].pin == old(r).slots@[s as int].pin,
            forall|j: int|
                0 <= j < old(r).slots@[s as int].snapshots@.len() && j != g.entry_spec() as int
                    ==> final(r).slots@[s as int].snapshots@[j] == old(r).slots@[
                    s as int].snapshots@[j],
            old(r).slots@[s as int].snapshots@.len() <= final(r).slots@[
                s as int].snapshots@.len() <= old(r).slots@[s as int].snapshots@.len() + 1,
            final(r).blk(this.ptr_spec() as int).value is Some,
    {
        proof {
            old(r).lemma_owner_live(this.ptr_spec() as int);
            assert(old(r).wf_block(this.ptr_spec() as int));
            crate::reclaimer::lemma_cells_nonneg(old(r).cells@, this.ptr_spec() as int);
            crate::reclaimer::lemma_private_nonneg(
                old(r).slots@,
                this.ptr_spec() as int,
                RetireKind::Strong,
            );
        }
        let pg = r.protect_ptr(s, AsPtr::as_ptr(this));
        proof {
            r.lemma_owner_live(this.ptr_spec() as int);
        }
        Guard::guard_new(AsPtr::as_ptr(this), pg)
    }

    /// Release the snapshot's protection and execute whatever the release
    /// unpinned.
    pub fn release<T>(self, r: &mut StandardReclaimer<T>)
        requires
            old(r).wf(),
            self.wf(*old(r)),
        ensures
            final(r).wf(),
            final(r).epoch == old(r).epoch,
            final(r).cells == old(r).cells,
            final(r).blocks@.len() == old(r).blocks@.len(),
            final(r).slots@.len() == old(r).slots@.len(),
            forall|t: int|
                0 <= t < old(r).slots@.len() && t != self.slot_spec() as int ==> final(r).slots@[t]
                    == old(r).slots@[t],
            final(r).slots@[self.slot_spec() as int].claimed == old(r).slots@[self.slot_spec() as int].claimed,
            final(r).slots@[self.slot_spec() as int].batch == old(r).slots@[self.slot_spec() as int].batch,
            final(r).slots@[self.slot_spec() as int].depth == old(r).slots@[self.slot_spec() as int].depth,
            final(r).slots@[self.slot_spec() as int].pin == old(r).slots@[self.slot_spec() as int].pin,
            final(r).slots@[self.slot_spec() as int].snapshots@.len() == old(r).slots@[self.slot_spec() as int].snapshots@.len(),
            forall|j: int|
                0 <= j < old(r).slots@[self.slot_spec() as int].snapshots@.len() && j
                    != self.entry_spec() as int ==> final(r).slots@[self.slot_spec() as int].snapshots@[j]
                    == old(r).slots@[self.slot_spec() as int].snapshots@[j],
            final(r).slots@[self.slot_spec() as int].snapshots@[self.entry_spec() as int].ptr
                is None,
            final(r).batches@.len() == old(r).batches@.len(),
            forall|t: int|
                0 <= t < old(r).batches@.len() ==> {
                    &&& (#[trigger] final(r).batches@[t]).items == old(r).batches@[t].items
                    &&& final(r).batches@[t].tag == old(r).batches@[t].tag
                    &&& (old(r).batches@[t].executed ==> final(r).batches@[t].executed)
                },
            forall|t: int|
                0 <= t < final(r).batches@.len() && !(#[trigger] final(r).batches@[t]).executed
                    ==> exists|s2: int|
                    0 <= s2 < final(r).slots@.len() && final(r).batch_blocked_by(t, s2),
            forall|b: int|
                0 <= b < old(r).n_blocks() ==> {
                    &&& (#[trigger] final(r).blk(b)).s_owners == old(r).blk(b).s_owners
                    &&& final(r).blk(b).w_owners == old(r).blk(b).w_owners
                    &&& (old(r).blk(b).strong.sealed() ==> final(r).blk(b).strong.sealed())
                    &&& (old(r).blk(b).value is None ==> final(r).blk(b).value is None)
                    &&& (final(r).blk(b).value == old(r).blk(b).value || final(r).blk(b).value
                        is None)
                    &&& (!old(r).blk(b).allocated ==> !final(r).blk(b).allocated)
                },
            old(r).graveyard@.is_prefix_of(final(r).graveyard@),
    {
        self.guard.release(r);
    }
}

} // verus!
