//! The reclaimer: slots, protected regions, snapshots, and batched deferred
//! retirements, gated by a global epoch.
//!
//! This is the epoch-based reclaimer flavor: each block records its birth
//! epoch, and protected regions and snapshots pin the epoch current when
//! they open. The alternative flavor chains retired batches onto
//! per-slot conflict lists; both enforce the same contract, that a
//! retirement runs only after every protection that was active when it was
//! published has been released.
//!
//! The [`StandardReclaimer`] owns the whole model state: the arena of
//! allocation blocks, the per-participant slots, and every published batch of
//! retirements. A retirement is deferred: it is appended to the retiring
//! slot's private batch, published under the epoch current at publication,
//! and executed only once every open protected region and every registered
//! snapshot carries a pin strictly newer than the batch's tag. Protected
//! regions pin the epoch at entry; each block records its birth epoch.
//!
//! The well-formedness predicate [`StandardReclaimer::wf`] carries the
//! lifecycle invariants: the strong counter of each block equals the
//! outstanding strong handles plus the cell references plus the pending
//! strong retirements; the weak counter equals the outstanding weak handles
//! plus pending weak retirements plus the strong holders' collective token;
//! a block's value is present exactly while its strong counter is unsealed;
//! and a block's memory is freed exactly when its weak counter reaches zero.

use crate::counter::StickyCounter;
use vstd::prelude::*;

verus! {

/// Which drop a deferred retirement performs: release one strong count or
/// one weak count of its block.
#[derive(Clone, Copy, PartialEq, Eq, Structural)]
pub enum RetireKind {
    Strong,
    Weak,
}

/// One deferred drop: a block index paired with the kind of count it
/// releases. This is the model's type-erased `(pointer, drop function)`
/// pair: the two drop operations are interned per kind rather than carried
/// as closures.
#[derive(Clone, Copy)]
pub struct Retirement {
    pub block: usize,
    pub kind: RetireKind,
}

/// A published group of retirements. `tag` is the epoch at publication; the
/// batch may execute only once every active pin is strictly newer than
/// `tag`. `executed` flips to true exactly once.
pub struct Batch {
    pub items: Vec<Retirement>,
    pub tag: u64,
    pub executed: bool,
}

/// A per-pointer protection record: while `ptr` is registered, no batch
/// published at or after `pin` may execute.
#[derive(Clone, Copy)]
pub struct SnapshotEntry {
    pub ptr: Option<usize>,
    pub pin: u64,
}

/// A participant's slot: its claim flag, the depth and pin of its open
/// critical sections, its private batch of not-yet-published retirements,
/// and its table of snapshot records.
pub struct Slot {
    pub claimed: bool,
    pub depth: u64,
    pub pin: u64,
    pub batch: Vec<Retirement>,
    pub snapshots: Vec<SnapshotEntry>,
}

/// One allocation block: the user value, the sticky-zero strong counter,
/// the plain weak counter, the allocation flag, and the birth epoch. The
/// two `Ghost` fields are the ledger of outstanding strong and weak
/// handles, against which the counters are audited.
pub struct Block<T> {
    pub value: Option<T>,
    pub strong: StickyCounter,
    pub weak: u64,
    pub allocated: bool,
    pub birth: u64,
    pub s_owners: Ghost<int>,
    pub w_owners: Ghost<int>,
}

/// A guard for an open critical section on one slot. Dropping it is
/// explicit: [`RegionGuard::leave`].
pub struct RegionGuard {
    pub(crate) slot: usize,
}

/// A guard for one registered snapshot record. Dropping it is explicit:
/// [`PtrGuard::release`].
pub struct PtrGuard {
    pub(crate) slot: usize,
    pub(crate) entry: usize,
}

/// The reclaimer and the arena it protects. A fresh reclaimer is its own
/// isolated domain: handles and cells carry indices into exactly one
/// reclaimer and must not be mixed across reclaimers.
pub struct StandardReclaimer<T> {
    pub epoch: u64,
    pub blocks: Vec<Block<T>>,
    pub slots: Vec<Slot>,
    pub batches: Vec<Batch>,
    pub cells: Vec<Option<usize>>,
    pub graveyard: Vec<T>,
}

/// How many retirements of block `b` with kind `k` a list holds.
pub open spec fn ret_count(items: Seq<Retirement>, b: int, k: RetireKind) -> int
    decreases items.len(),
{
    if items.len() == 0 {
        0
    } else {
        (if items[0].block as int == b && items[0].kind == k {
            1int
        } else {
            0int
        }) + ret_count(items.subrange(1, items.len() as int), b, k)
    }
}

/// Retirements of `b` with kind `k` across all slots' private batches.
pub open spec fn private_sum(slots: Seq<Slot>, b: int, k: RetireKind) -> int
    decreases slots.len(),
{
    if slots.len() == 0 {
        0
    } else {
        ret_count(slots[0].batch@, b, k) + private_sum(slots.subrange(1, slots.len() as int), b, k)
    }
}

/// What an unexecuted batch still owes to block `b` for kind `k`.
pub open spec fn batch_contrib(batch: Batch, b: int, k: RetireKind) -> int {
    if batch.executed {
        0
    } else {
        ret_count(batch.items@, b, k)
    }
}

/// Retirements of `b` with kind `k` across all published, unexecuted batches.
pub open spec fn unexec_sum(batches: Seq<Batch>, b: int, k: RetireKind) -> int
    decreases batches.len(),
{
    if batches.len() == 0 {
        0
    } else {
        batch_contrib(batches[0], b, k) + unexec_sum(
            batches.subrange(1, batches.len() as int),
            b,
            k,
        )
    }
}

/// What an unexecuted batch tagged at or after `e0` still owes to `b` in
/// strong counts.
pub open spec fn batch_contrib_ge(batch: Batch, b: int, e0: u64) -> int {
    if batch.executed || batch.tag < e0 {
        0
    } else {
        ret_count(batch.items@, b, RetireKind::Strong)
    }
}

/// Strong retirements of `b` across unexecuted batches tagged at or after
/// `e0`. A snapshot pinned at `e0` blocks every such batch, so these counts
/// cannot drain while the snapshot is registered.
pub open spec fn unexec_ge_sum(batches: Seq<Batch>, b: int, e0: u64) -> int
    decreases batches.len(),
{
    if batches.len() == 0 {
        0
    } else {
        batch_contrib_ge(batches[0], b, e0) + unexec_ge_sum(
            batches.subrange(1, batches.len() as int),
            b,
            e0,
        )
    }
}

/// Whether a cell currently stores block `b`.
pub open spec fn cell_is(c: Option<usize>, b: int) -> bool {
    match c {
        Some(x) => x as int == b,
        None => false,
    }
}

/// How many cells currently store block `b`.
pub open spec fn cells_sum(cells: Seq<Option<usize>>, b: int) -> int
    decreases cells.len(),
{
    if cells.len() == 0 {
        0
    } else {
        (if cell_is(cells[0], b) {
            1int
        } else {
            0int
        }) + cells_sum(cells.subrange(1, cells.len() as int), b)
    }
}

} // verus!

verus! {

impl<T> StandardReclaimer<T> {
    /// Number of blocks ever allocated in this arena.
    pub open spec fn n_blocks(self) -> int {
        self.blocks@.len() as int
    }

    /// The block at index `b`.
    pub open spec fn blk(self, b: int) -> Block<T> {
        self.blocks@[b]
    }

    /// Strong counts owed to `b` by retirements not yet executed.
    pub open spec fn strong_pending(self, b: int) -> int {
        private_sum(self.slots@, b, RetireKind::Strong) + unexec_sum(
            self.batches@,
            b,
            RetireKind::Strong,
        )
    }

    /// Weak counts owed to `b` by retirements not yet executed.
    pub open spec fn weak_pending(self, b: int) -> int {
        private_sum(self.slots@, b, RetireKind::Weak) + unexec_sum(
            self.batches@,
            b,
            RetireKind::Weak,
        )
    }

    /// Cell references currently held on `b`.
    pub open spec fn cell_refs(self, b: int) -> int {
        cells_sum(self.cells@, b)
    }

    /// Strong counts on `b` that a newly registered snapshot can rely on:
    /// live handles, cell references, and private retirements (which will be
    /// published under a tag no older than any pin registered now).
    pub open spec fn strong_support(self, b: int) -> int {
        self.blk(b).s_owners@ + self.cell_refs(b) + private_sum(
            self.slots@,
            b,
            RetireKind::Strong,
        )
    }

    /// The strong holders' collective weak token: held while the value is
    /// live.
    pub open spec fn weak_token(self, b: int) -> int {
        if self.blk(b).allocated && !self.blk(b).strong.sealed() {
            1
        } else {
            0
        }
    }

    /// Per-block coherence: the counter word is well-formed, the ledgers are
    /// nonnegative, the value is present exactly while the strong counter is
    /// unsealed, and a freed block is empty with both counters down.
    pub open spec fn block_basic(self, b: int) -> bool {
        let blk = self.blk(b);
        &&& blk.strong.wf()
        &&& blk.s_owners@ >= 0
        &&& blk.w_owners@ >= 0
        &&& blk.allocated ==> (blk.value is Some <==> !blk.strong.sealed())
        &&& blk.allocated ==> blk.weak >= 1
        &&& !blk.allocated ==> blk.value is None && blk.weak == 0 && blk.strong.sealed()
        &&& blk.birth <= self.epoch
    }

    /// Count audit for one block, with room for counts that an operation in
    /// progress has taken out of the lists but not yet applied.
    pub open spec fn audit(self, b: int, extra_s: int, extra_w: int) -> bool {
        &&& self.blk(b).strong.count() == self.blk(b).s_owners@ + self.cell_refs(b)
            + self.strong_pending(b) + extra_s
        &&& self.blk(b).weak as int == self.blk(b).w_owners@ + self.weak_pending(b)
            + self.weak_token(b) + extra_w
    }

    /// Per-block coherence and count audit.
    pub open spec fn wf_block(self, b: int) -> bool {
        self.block_basic(b) && self.audit(b, 0, 0)
    }

    /// A retirement refers to a block of this arena.
    pub open spec fn ret_wf(self, it: Retirement) -> bool {
        (it.block as int) < self.n_blocks()
    }

    /// Every retirement in a list refers to a block of this arena.
    pub open spec fn items_wf(self, items: Seq<Retirement>) -> bool {
        forall|i: int| 0 <= i < items.len() ==> self.ret_wf(#[trigger] items[i])
    }

    /// Per-slot coherence: retirements in range, and pins never ahead of the
    /// epoch.
    pub open spec fn wf_slot(self, s: int) -> bool {
        let slot = self.slots@[s];
        &&& self.items_wf(slot.batch@)
        &&& slot.depth > 0 ==> slot.pin <= self.epoch
        &&& forall|j: int|
            0 <= j < slot.snapshots@.len() && (#[trigger] slot.snapshots@[j]).ptr is Some
                ==> slot.snapshots@[j].pin <= self.epoch
    }

    /// Per-batch coherence: retirements in range, tag strictly before the
    /// epoch.
    pub open spec fn wf_batch(self, i: int) -> bool {
        &&& self.items_wf(self.batches@[i].items@)
        &&& self.batches@[i].tag < self.epoch
    }

    /// Cells hold block indices of this arena.
    pub open spec fn wf_cell(self, c: int) -> bool {
        match self.cells@[c] {
            Some(b) => (b as int) < self.n_blocks(),
            None => true,
        }
    }

    /// The snapshot at slot `s`, entry `j` is supported: while it is
    /// registered on a block of this arena, at least one strong count on
    /// that block is a live handle, a cell reference, a private retirement,
    /// or sits in an unexecuted batch the snapshot's pin blocks.
    pub open spec fn snap_supported(self, s: int, j: int) -> bool {
        let e = self.slots@[s].snapshots@[j];
        match e.ptr {
            Some(p) => (p as int) < self.n_blocks() ==> self.strong_support(p as int)
                + unexec_ge_sum(self.batches@, p as int, e.pin) >= 1,
            None => true,
        }
    }

    /// Whether slot `s` pins batch `i`: the slot has an open critical
    /// section, or a registered snapshot, pinned at or before the batch's
    /// tag.
    pub open spec fn batch_blocked_by(self, i: int, s: int) -> bool {
        let slot = self.slots@[s];
        let tag = self.batches@[i].tag;
        ||| (slot.depth > 0 && slot.pin <= tag)
        ||| (exists|j: int|
            0 <= j < slot.snapshots@.len() && (#[trigger] slot.snapshots@[j]).ptr is Some
                && slot.snapshots@[j].pin <= tag)
    }

    /// An executed batch is pinned by nothing: no protected region or
    /// snapshot that was open when the batch was published can still be
    /// open.
    pub open spec fn wf_executed(self) -> bool {
        forall|i: int, s: int|
            0 <= i < self.batches@.len() && 0 <= s < self.slots@.len()
                && (#[trigger] self.batches@[i]).executed ==> !(#[trigger] self.batch_blocked_by(
                i,
                s,
            ))
    }

    /// The reclaimer's invariant.
    pub open spec fn wf(self) -> bool {
        &&& forall|b: int| 0 <= b < self.n_blocks() ==> #[trigger] self.wf_block(b)
        &&& forall|s: int| 0 <= s < self.slots@.len() ==> #[trigger] self.wf_slot(s)
        &&& forall|i: int| 0 <= i < self.batches@.len() ==> #[trigger] self.wf_batch(i)
        &&& forall|c: int| 0 <= c < self.cells@.len() ==> #[trigger] self.wf_cell(c)
        &&& forall|s: int, j: int|
            0 <= s < self.slots@.len() && 0 <= j < self.slots@[s].snapshots@.len()
                ==> #[trigger] self.snap_supported(s, j)
        &&& self.wf_executed()
    }
}

} // verus!

verus! {

/// A list holds no negative number of retirements.
pub proof fn lemma_ret_count_nonneg(items: Seq<Retirement>, b: int, k: RetireKind)
    ensures
        ret_count(items, b, k) >= 0,
    decreases items.len(),
{
    if items.len() > 0 {
        lemma_ret_count_nonneg(items.subrange(1, items.len() as int), b, k);
    }
}

/// Appending one retirement adds its own contribution and nothing else.
pub proof fn lemma_ret_count_push(items: Seq<Retirement>, x: Retirement, b: int, k: RetireKind)
    ensures
        ret_count(items.push(x), b, k) == ret_count(items, b, k) + (if x.block as int == b
            && x.kind == k {
            1int
        } else {
            0int
        }),
    decreases items.len(),
{
    let n = items.len() as int;
    if n == 0 {
        assert(items.push(x)[0] == x);
        assert(items.push(x).subrange(1, 1) =~= Seq::<Retirement>::empty());
        assert(items.push(x).len() == 1);
        assert(ret_count(items.push(x), b, k) == (if items.push(x)[0].block as int == b
            && items.push(x)[0].kind == k {
            1int
        } else {
            0int
        }) + ret_count(items.push(x).subrange(1, 1), b, k));
    } else {
        assert(items.push(x)[0] == items[0]);
        assert(items.push(x).subrange(1, n + 1) =~= items.subrange(1, n).push(x));
        lemma_ret_count_push(items.subrange(1, n), x, b, k);
    }
}

/// Walking one step into the tail of a list peels off one contribution.
pub proof fn lemma_ret_count_step(items: Seq<Retirement>, i: int, b: int, k: RetireKind)
    requires
        0 <= i < items.len(),
    ensures
        ret_count(items.subrange(i, items.len() as int), b, k) == (if items[i].block as int == b
            && items[i].kind == k {
            1int
        } else {
            0int
        }) + ret_count(items.subrange(i + 1, items.len() as int), b, k),
{
    let n = items.len() as int;
    let sub = items.subrange(i, n);
    assert(sub[0] == items[i]);
    assert(sub.subrange(1, sub.len() as int) =~= items.subrange(i + 1, n));
}

/// Slots hold no negative number of private retirements.
pub proof fn lemma_private_nonneg(slots: Seq<Slot>, b: int, k: RetireKind)
    ensures
        private_sum(slots, b, k) >= 0,
    decreases slots.len(),
{
    if slots.len() > 0 {
        lemma_ret_count_nonneg(slots[0].batch@, b, k);
        lemma_private_nonneg(slots.subrange(1, slots.len() as int), b, k);
    }
}

/// Replacing one slot changes the private sum by the difference of that
/// slot's own contribution.
pub proof fn lemma_private_update(slots: Seq<Slot>, i: int, s2: Slot, b: int, k: RetireKind)
    requires
        0 <= i < slots.len(),
    ensures
        private_sum(slots.update(i, s2), b, k) == private_sum(slots, b, k) - ret_count(
            slots[i].batch@,
            b,
            k,
        ) + ret_count(s2.batch@, b, k),
    decreases slots.len(),
{
    let n = slots.len() as int;
    if i == 0 {
        assert(slots.update(0, s2).subrange(1, n) =~= slots.subrange(1, n));
    } else {
        assert(slots.update(i, s2).subrange(1, n) =~= slots.subrange(1, n).update(i - 1, s2));
        lemma_private_update(slots.subrange(1, n), i - 1, s2, b, k);
    }
}

/// Appending one slot adds that slot's own contribution.
pub proof fn lemma_private_push(slots: Seq<Slot>, s2: Slot, b: int, k: RetireKind)
    ensures
        private_sum(slots.push(s2), b, k) == private_sum(slots, b, k) + ret_count(s2.batch@, b, k),
    decreases slots.len(),
{
    let n = slots.len() as int;
    if n == 0 {
        assert(slots.push(s2)[0] == s2);
        assert(slots.push(s2).subrange(1, 1) =~= Seq::<Slot>::empty());
        assert(slots.push(s2).len() == 1);
        assert(private_sum(slots.push(s2), b, k) == ret_count(slots.push(s2)[0].batch@, b, k)
            + private_sum(slots.push(s2).subrange(1, 1), b, k));
    } else {
        assert(slots.push(s2)[0] == slots[0]);
        assert(slots.push(s2).subrange(1, n + 1) =~= slots.subrange(1, n).push(s2));
        lemma_private_push(slots.subrange(1, n), s2, b, k);
    }
}

/// Batches owe no negative number of retirements.
pub proof fn lemma_unexec_nonneg(batches: Seq<Batch>, b: int, k: RetireKind)
    ensures
        unexec_sum(batches, b, k) >= 0,
    decreases batches.len(),
{
    if batches.len() > 0 {
        lemma_ret_count_nonneg(batches[0].items@, b, k);
        lemma_unexec_nonneg(batches.subrange(1, batches.len() as int), b, k);
    }
}

/// Replacing one batch changes the unexecuted sum by the difference of that
/// batch's own contribution.
pub proof fn lemma_unexec_update(batches: Seq<Batch>, i: int, b2: Batch, b: int, k: RetireKind)
    requires
        0 <= i < batches.len(),
    ensures
        unexec_sum(batches.update(i, b2), b, k) == unexec_sum(batches, b, k) - batch_contrib(
            batches[i],
            b,
            k,
        ) + batch_contrib(b2, b, k),
    decreases batches.len(),
{
    let n = batches.len() as int;
    if i == 0 {
        assert(batches.update(0, b2).subrange(1, n) =~= batches.subrange(1, n));
    } else {
        assert(batches.update(i, b2).subrange(1, n) =~= batches.subrange(1, n).update(i - 1, b2));
        lemma_unexec_update(batches.subrange(1, n), i - 1, b2, b, k);
    }
}

/// Appending one batch adds that batch's own contribution.
pub proof fn lemma_unexec_push(batches: Seq<Batch>, b2: Batch, b: int, k: RetireKind)
    ensures
        unexec_sum(batches.push(b2), b, k) == unexec_sum(batches, b, k) + batch_contrib(b2, b, k),
    decreases batches.len(),
{
    let n = batches.len() as int;
    if n == 0 {
        assert(batches.push(b2)[0] == b2);
        assert(batches.push(b2).subrange(1, 1) =~= Seq::<Batch>::empty());
        assert(batches.push(b2).len() == 1);
        assert(unexec_sum(batches.push(b2), b, k) == batch_contrib(batches.push(b2)[0], b, k)
            + unexec_sum(batches.push(b2).subrange(1, 1), b, k));
    } else {
        assert(batches.push(b2)[0] == batches[0]);
        assert(batches.push(b2).subrange(1, n + 1) =~= batches.subrange(1, n).push(b2));
        lemma_unexec_push(batches.subrange(1, n), b2, b, k);
    }
}

/// The pin-filtered sum, under replacement of one batch.
pub proof fn lemma_unexec_ge_update(batches: Seq<Batch>, i: int, b2: Batch, b: int, e0: u64)
    requires
        0 <= i < batches.len(),
    ensures
        unexec_ge_sum(batches.update(i, b2), b, e0) == unexec_ge_sum(batches, b, e0)
            - batch_contrib_ge(batches[i], b, e0) + batch_contrib_ge(b2, b, e0),
    decreases batches.len(),
{
    let n = batches.len() as int;
    if i == 0 {
        assert(batches.update(0, b2).subrange(1, n) =~= batches.subrange(1, n));
    } else {
        assert(batches.update(i, b2).subrange(1, n) =~= batches.subrange(1, n).update(i - 1, b2));
        lemma_unexec_ge_update(batches.subrange(1, n), i - 1, b2, b, e0);
    }
}

/// The pin-filtered sum, under appending of one batch.
pub proof fn lemma_unexec_ge_push(batches: Seq<Batch>, b2: Batch, b: int, e0: u64)
    ensures
        unexec_ge_sum(batches.push(b2), b, e0) == unexec_ge_sum(batches, b, e0) + batch_contrib_ge(
            b2,
            b,
            e0,
        ),
    decreases batches.len(),
{
    let n = batches.len() as int;
    if n == 0 {
        assert(batches.push(b2)[0] == b2);
        assert(batches.push(b2).subrange(1, 1) =~= Seq::<Batch>::empty());
        assert(batches.push(b2).len() == 1);
        assert(unexec_ge_sum(batches.push(b2), b, e0) == batch_contrib_ge(
            batches.push(b2)[0],
            b,
            e0,
        ) + unexec_ge_sum(batches.push(b2).subrange(1, 1), b, e0));
    } else {
        assert(batches.push(b2)[0] == batches[0]);
        assert(batches.push(b2).subrange(1, n + 1) =~= batches.subrange(1, n).push(b2));
        lemma_unexec_ge_push(batches.subrange(1, n), b2, b, e0);
    }
}

/// The pin-filtered sum never exceeds the full unexecuted sum.
pub proof fn lemma_unexec_ge_le(batches: Seq<Batch>, b: int, e0: u64)
    ensures
        0 <= unexec_ge_sum(batches, b, e0),
        unexec_ge_sum(batches, b, e0) <= unexec_sum(batches, b, RetireKind::Strong),
    decreases batches.len(),
{
    if batches.len() > 0 {
        lemma_ret_count_nonneg(batches[0].items@, b, RetireKind::Strong);
        lemma_unexec_ge_le(batches.subrange(1, batches.len() as int), b, e0);
    }
}

/// Cells hold no negative number of references.
pub proof fn lemma_cells_nonneg(cells: Seq<Option<usize>>, b: int)
    ensures
        cells_sum(cells, b) >= 0,
    decreases cells.len(),
{
    if cells.len() > 0 {
        lemma_cells_nonneg(cells.subrange(1, cells.len() as int), b);
    }
}

/// Replacing one cell changes the sum by the difference of its indicator.
pub proof fn lemma_cells_update(cells: Seq<Option<usize>>, i: int, c2: Option<usize>, b: int)
    requires
        0 <= i < cells.len(),
    ensures
        cells_sum(cells.update(i, c2), b) == cells_sum(cells, b) - (if cell_is(cells[i], b) {
            1int
        } else {
            0int
        }) + (if cell_is(c2, b) {
            1int
        } else {
            0int
        }),
    decreases cells.len(),
{
    let n = cells.len() as int;
    if i == 0 {
        assert(cells.update(0, c2).subrange(1, n) =~= cells.subrange(1, n));
    } else {
        assert(cells.update(i, c2).subrange(1, n) =~= cells.subrange(1, n).update(i - 1, c2));
        lemma_cells_update(cells.subrange(1, n), i - 1, c2, b);
    }
}

/// Appending one cell adds its indicator.
pub proof fn lemma_cells_push(cells: Seq<Option<usize>>, c2: Option<usize>, b: int)
    ensures
        cells_sum(cells.push(c2), b) == cells_sum(cells, b) + (if cell_is(c2, b) {
            1int
        } else {
            0int
        }),
    decreases cells.len(),
{
    let n = cells.len() as int;
    if n == 0 {
        assert(cells.push(c2)[0] == c2);
        assert(cells.push(c2).subrange(1, 1) =~= Seq::<Option<usize>>::empty());
        assert(cells.push(c2).len() == 1);
        assert(cells_sum(cells.push(c2), b) == (if cell_is(cells.push(c2)[0], b) {
            1int
        } else {
            0int
        }) + cells_sum(cells.push(c2).subrange(1, 1), b));
    } else {
        assert(cells.push(c2)[0] == cells[0]);
        assert(cells.push(c2).subrange(1, n + 1) =~= cells.subrange(1, n).push(c2));
        lemma_cells_push(cells.subrange(1, n), c2, b);
    }
}

/// A cell that stores `b` witnesses at least one cell reference on `b`.
pub proof fn lemma_cells_at_least_one(cells: Seq<Option<usize>>, i: int, b: int)
    requires
        0 <= i < cells.len(),
        cell_is(cells[i], b),
    ensures
        cells_sum(cells, b) >= 1,
    decreases cells.len(),
{
    let n = cells.len() as int;
    lemma_cells_nonneg(cells.subrange(1, n), b);
    if i > 0 {
        lemma_cells_at_least_one(cells.subrange(1, n), i - 1, b);
    }
}

} // verus!

verus! {

impl<T> StandardReclaimer<T> {
    /// A block with an outstanding strong handle is live: its counter is
    /// unsealed and its value is present.
    pub proof fn lemma_owner_live(self, b: int)
        requires
            self.wf(),
            0 <= b < self.n_blocks(),
            self.blk(b).s_owners@ >= 1,
        ensures
            self.blk(b).allocated,
            !self.blk(b).strong.sealed(),
            self.blk(b).value is Some,
            self.blk(b).strong.count() >= 1,
    {
        assert(self.wf_block(b));
        crate::counter::lemma_counter_facts(self.blk(b).strong);
        lemma_cells_nonneg(self.cells@, b);
        lemma_private_nonneg(self.slots@, b, RetireKind::Strong);
        lemma_unexec_nonneg(self.batches@, b, RetireKind::Strong);
    }

    /// A block stored in some cell is live: the cell's own reference keeps
    /// the strong counter at one or more.
    pub proof fn lemma_cell_live(self, c: int)
        requires
            self.wf(),
            0 <= c < self.cells@.len(),
            self.cells@[c] is Some,
        ensures
            (self.cells@[c].unwrap() as int) < self.n_blocks(),
            self.blk(self.cells@[c].unwrap() as int).allocated,
            !self.blk(self.cells@[c].unwrap() as int).strong.sealed(),
            self.blk(self.cells@[c].unwrap() as int).value is Some,
            self.blk(self.cells@[c].unwrap() as int).strong.count() >= 1,
            self.strong_support(self.cells@[c].unwrap() as int) >= 1,
    {
        let b = self.cells@[c].unwrap() as int;
        assert(self.wf_cell(c));
        assert(self.wf_block(b));
        crate::counter::lemma_counter_facts(self.blk(b).strong);
        lemma_cells_at_least_one(self.cells@, c, b);
        lemma_private_nonneg(self.slots@, b, RetireKind::Strong);
        lemma_unexec_nonneg(self.batches@, b, RetireKind::Strong);
    }

    /// A block under a registered snapshot is live: some strong count on it
    /// is either still held or sits in a batch that the snapshot's pin
    /// blocks, so the counter cannot have sealed.
    pub proof fn lemma_snap_live(self, s: int, j: int)
        requires
            self.wf(),
            0 <= s < self.slots@.len(),
            0 <= j < self.slots@[s].snapshots@.len(),
            self.slots@[s].snapshots@[j].ptr is Some,
            (self.slots@[s].snapshots@[j].ptr.unwrap() as int) < self.n_blocks(),
        ensures
            self.blk(self.slots@[s].snapshots@[j].ptr.unwrap() as int).allocated,
            !self.blk(self.slots@[s].snapshots@[j].ptr.unwrap() as int).strong.sealed(),
            self.blk(self.slots@[s].snapshots@[j].ptr.unwrap() as int).value is Some,
            self.blk(self.slots@[s].snapshots@[j].ptr.unwrap() as int).strong.count() >= 1,
    {
        let b = self.slots@[s].snapshots@[j].ptr.unwrap() as int;
        assert(self.snap_supported(s, j));
        assert(self.wf_block(b));
        crate::counter::lemma_counter_facts(self.blk(b).strong);
        lemma_unexec_ge_le(self.batches@, b, self.slots@[s].snapshots@[j].pin);
        lemma_cells_nonneg(self.cells@, b);
        lemma_private_nonneg(self.slots@, b, RetireKind::Strong);
        lemma_unexec_nonneg(self.batches@, b, RetireKind::Strong);
    }

    /// A block with an outstanding weak handle still has its memory: the
    /// weak counter is at one or more, so the block is not freed.
    pub proof fn lemma_weak_owner_allocated(self, b: int)
        requires
            self.wf(),
            0 <= b < self.n_blocks(),
            self.blk(b).w_owners@ >= 1,
        ensures
            self.blk(b).allocated,
            self.blk(b).weak >= 1,
    {
        assert(self.wf_block(b));
        lemma_private_nonneg(self.slots@, b, RetireKind::Weak);
        lemma_unexec_nonneg(self.batches@, b, RetireKind::Weak);
    }

    /// A fresh, empty reclaimer: its own isolated domain, with no blocks,
    /// no slots, no cells and no retirements.
    pub fn new() -> (r: Self)
        ensures
            r.wf(),
            r.epoch == 0,
            r.blocks@.len() == 0,
            r.slots@.len() == 0,
            r.batches@.len() == 0,
            r.cells@.len() == 0,
            r.graveyard@.len() == 0,
    {
        StandardReclaimer {
            epoch: 0,
            blocks: Vec::new(),
            slots: Vec::new(),
            batches: Vec::new(),
            cells: Vec::new(),
            graveyard: Vec::new(),
        }
    }

    /// Run one strong retirement: release one strong count of `b`. If the
    /// count falls to zero it seals, the value is dropped to the graveyard,
    /// and the strong holders' collective weak token is released; if that
    /// takes the weak counter to zero, the block is freed.
    fn apply_strong(&mut self, b: usize)
        requires
            (b as int) < old(self).n_blocks(),
            old(self).blk(b as int).strong.wf(),
            !old(self).blk(b as int).strong.sealed(),
            old(self).blk(b as int).allocated,
            old(self).blk(b as int).value is Some,
            old(self).blk(b as int).weak >= 1,
        ensures
            final(self).blocks@.len() == old(self).blocks@.len(),
            final(self).slots == old(self).slots,
            final(self).batches == old(self).batches,
            final(self).cells == old(self).cells,
            final(self).epoch == old(self).epoch,
            forall|i: int|
                0 <= i < old(self).n_blocks() && i != b as int ==> final(self).blocks@[i] == old(
                    self,
                ).blocks@[i],
            final(self).blk(b as int).s_owners == old(self).blk(b as int).s_owners,
            final(self).blk(b as int).w_owners == old(self).blk(b as int).w_owners,
            final(self).blk(b as int).birth == old(self).blk(b as int).birth,
            final(self).blk(b as int).strong.wf(),
            old(self).blk(b as int).strong.count() > 1 ==> {
                &&& !final(self).blk(b as int).strong.sealed()
                &&& final(self).blk(b as int).strong.count() == old(self).blk(
                    b as int,
                ).strong.count() - 1
                &&& final(self).blk(b as int).value == old(self).blk(b as int).value
                &&& final(self).blk(b as int).weak == old(self).blk(b as int).weak
                &&& final(self).blk(b as int).allocated == old(self).blk(b as int).allocated
                &&& final(self).graveyard == old(self).graveyard
            },
            old(self).blk(b as int).strong.count() == 1 ==> {
                &&& final(self).blk(b as int).strong.sealed()
                &&& final(self).blk(b as int).value is None
                &&& final(self).blk(b as int).weak == old(self).blk(b as int).weak - 1
                &&& (final(self).blk(b as int).allocated <==> old(self).blk(b as int).weak > 1)
                &&& final(self).graveyard@ == old(self).graveyard@.push(
                    old(self).blk(b as int).value.unwrap(),
                )
            },
    {
        let blk = &mut self.blocks[b];
        let before = blk.strong.decrement();
        if before == 1 {
            // The count sealed at zero: drop the value in place, then release
            // the strong holders' collective weak token.
            let mut taken: Option<T> = None;
            core::mem::swap(&mut blk.value, &mut taken);
            blk.weak = blk.weak - 1;
            if blk.weak == 0 {
                // The last weak count is gone: free the block's memory.
                blk.allocated = false;
            }
            self.graveyard.push(taken.unwrap());
        }
    }

    /// Run one weak retirement: release one weak count of `b`; if the weak
    /// counter reaches zero, the block is freed.
    fn apply_weak(&mut self, b: usize)
        requires
            (b as int) < old(self).n_blocks(),
            old(self).blk(b as int).weak >= 1,
        ensures
            final(self).blocks@.len() == old(self).blocks@.len(),
            final(self).slots == old(self).slots,
            final(self).batches == old(self).batches,
            final(self).cells == old(self).cells,
            final(self).epoch == old(self).epoch,
            final(self).graveyard == old(self).graveyard,
            forall|i: int|
                0 <= i < old(self).n_blocks() && i != b as int ==> final(self).blocks@[i] == old(
                    self,
                ).blocks@[i],
            final(self).blk(b as int).s_owners == old(self).blk(b as int).s_owners,
            final(self).blk(b as int).w_owners == old(self).blk(b as int).w_owners,
            final(self).blk(b as int).birth == old(self).blk(b as int).birth,
            final(self).blk(b as int).strong == old(self).blk(b as int).strong,
            final(self).blk(b as int).value == old(self).blk(b as int).value,
            final(self).blk(b as int).weak == old(self).blk(b as int).weak - 1,
            final(self).blk(b as int).allocated == (old(self).blk(b as int).allocated && old(
                self,
            ).blk(b as int).weak > 1),
    {
        let blk = &mut self.blocks[b];
        blk.weak = blk.weak - 1;
        if blk.weak == 0 {
            // The last weak count is gone: free the block's memory.
            blk.allocated = false;
        }
    }
}

} // verus!

verus! {

impl<T> StandardReclaimer<T> {
    /// Run every retirement of batch `i`, which no open critical section or
    /// registered snapshot pins any more: mark the batch executed, then
    /// release its counts one by one.
    fn execute_batch(&mut self, i: usize)
        requires
            old(self).wf(),
            (i as int) < old(self).batches@.len(),
            !old(self).batches@[i as int].executed,
            forall|s: int|
                0 <= s < old(self).slots@.len() ==> !old(self).batch_blocked_by(i as int, s),
        ensures
            final(self).wf(),
            final(self).epoch == old(self).epoch,
            final(self).slots == old(self).slots,
            final(self).cells == old(self).cells,
            final(self).blocks@.len() == old(self).blocks@.len(),
            final(self).batches@.len() == old(self).batches@.len(),
            forall|t: int|
                0 <= t < old(self).batches@.len() && t != i as int ==> final(self).batches@[t]
                    == old(self).batches@[t],
            final(self).batches@[i as int].items == old(self).batches@[i as int].items,
            final(self).batches@[i as int].tag == old(self).batches@[i as int].tag,
            final(self).batches@[i as int].executed,
            old(self).graveyard@.is_prefix_of(final(self).graveyard@),
            forall|b: int|
                0 <= b < old(self).n_blocks() ==> {
                    &&& (#[trigger] final(self).blk(b)).s_owners == old(self).blk(b).s_owners
                    &&& final(self).blk(b).w_owners == old(self).blk(b).w_owners
                    &&& final(self).blk(b).birth == old(self).blk(b).birth
                    &&& (old(self).blk(b).strong.sealed() ==> final(self).blk(b).strong.sealed())
                    &&& (old(self).blk(b).value is None ==> final(self).blk(b).value is None)
                    &&& (final(self).blk(b).value == old(self).blk(b).value || final(self).blk(
                        b,
                    ).value is None)
                    &&& (!old(self).blk(b).allocated ==> !final(self).blk(b).allocated)
                },
    {
        let ghost orig: StandardReclaimer<T> = *self;
        let ghost items = orig.batches@[i as int].items@;

        // Mark the batch executed before running its drops: from here on it
        // owes nothing to the pending sums, and the loop below pays the
        // counts out one by one.
        let bt = &mut self.batches[i];
        bt.executed = true;

        proof {
            let marked = self.batches@[i as int];
            assert(items.subrange(0, items.len() as int) =~= items);
            assert forall|b: int| 0 <= b < orig.n_blocks() implies #[trigger] self.audit(
                b,
                ret_count(items.subrange(0, items.len() as int), b, RetireKind::Strong),
                ret_count(items.subrange(0, items.len() as int), b, RetireKind::Weak),
            ) by {
                assert(orig.wf_block(b));
                lemma_unexec_update(orig.batches@, i as int, marked, b, RetireKind::Strong);
                lemma_unexec_update(orig.batches@, i as int, marked, b, RetireKind::Weak);
            }
            assert forall|s: int, j: int|
                0 <= s < self.slots@.len() && 0 <= j
                    < self.slots@[s].snapshots@.len() implies #[trigger] self.snap_supported(
                s,
                j,
            ) by {
                assert(orig.snap_supported(s, j));
                assert(!orig.batch_blocked_by(i as int, s));
                match self.slots@[s].snapshots@[j].ptr {
                    Some(p) => {
                        let e0 = self.slots@[s].snapshots@[j].pin;
                        assert(e0 > orig.batches@[i as int].tag);
                        lemma_unexec_ge_update(orig.batches@, i as int, marked, p as int, e0);
                    },
                    None => {},
                }
            }
            assert forall|b: int| 0 <= b < orig.n_blocks() implies #[trigger] self.block_basic(
                b,
            ) by {
                assert(orig.wf_block(b));
            }
            assert forall|t: int| 0 <= t < self.batches@.len() implies #[trigger] self.wf_batch(
                t,
            ) by {
                assert(orig.wf_batch(t));
            }
            assert forall|s: int| 0 <= s < self.slots@.len() implies #[trigger] self.wf_slot(
                s,
            ) by {
                assert(orig.wf_slot(s));
            }
            assert forall|c: int| 0 <= c < self.cells@.len() implies #[trigger] self.wf_cell(
                c,
            ) by {
                assert(orig.wf_cell(c));
            }
            assert(self.wf_executed()) by {
                assert forall|t: int, s: int|
                    0 <= t < self.batches@.len() && 0 <= s < self.slots@.len() && (
                    #[trigger] self.batches@[t]).executed implies !(
                #[trigger] self.batch_blocked_by(t, s)) by {
                    if t != i as int {
                        assert(orig.batches@[t].executed);
                        assert(!orig.batch_blocked_by(t, s));
                    } else {
                        assert(!orig.batch_blocked_by(i as int, s));
                    }
                    assert(self.batch_blocked_by(t, s) == orig.batch_blocked_by(t, s));
                }
            }
        }

        let n = self.batches[i].items.len();
        let mut k: usize = 0;
        while k < n
            invariant
                (i as int) < self.batches@.len(),
                self.batches@.len() == orig.batches@.len(),
                n == items.len(),
                0 <= k <= n,
                self.slots == orig.slots,
                self.cells == orig.cells,
                self.epoch == orig.epoch,
                self.blocks@.len() == orig.blocks@.len(),
                forall|t: int|
                    0 <= t < orig.batches@.len() && t != i as int ==> self.batches@[t]
                        == orig.batches@[t],
                self.batches@[i as int].items == orig.batches@[i as int].items,
                self.batches@[i as int].items@ == items,
                self.batches@[i as int].tag == orig.batches@[i as int].tag,
                self.batches@[i as int].executed,
                orig.graveyard@.is_prefix_of(self.graveyard@),
                forall|b: int| 0 <= b < orig.n_blocks() ==> #[trigger] self.block_basic(b),
                forall|b: int|
                    0 <= b < orig.n_blocks() ==> #[trigger] self.audit(
                        b,
                        ret_count(items.subrange(k as int, items.len() as int), b, RetireKind::Strong),
                        ret_count(items.subrange(k as int, items.len() as int), b, RetireKind::Weak),
                    ),
                forall|b: int|
                    0 <= b < orig.n_blocks() ==> {
                        &&& (#[trigger] self.blk(b)).s_owners == orig.blk(b).s_owners
                        &&& self.blk(b).w_owners == orig.blk(b).w_owners
                        &&& self.blk(b).birth == orig.blk(b).birth
                        &&& (orig.blk(b).strong.sealed() ==> self.blk(b).strong.sealed())
                        &&& (orig.blk(b).value is None ==> self.blk(b).value is None)
                        &&& (self.blk(b).value == orig.blk(b).value || self.blk(b).value is None)
                        &&& (!orig.blk(b).allocated ==> !self.blk(b).allocated)
                    },
                forall|s: int| 0 <= s < self.slots@.len() ==> #[trigger] self.wf_slot(s),
                forall|t: int| 0 <= t < self.batches@.len() ==> #[trigger] self.wf_batch(t),
                forall|c: int| 0 <= c < self.cells@.len() ==> #[trigger] self.wf_cell(c),
                forall|s: int, j: int|
                    0 <= s < self.slots@.len() && 0 <= j < self.slots@[s].snapshots@.len()
                        ==> #[trigger] self.snap_supported(s, j),
                self.wf_executed(),
            decreases n - k,
        {
            let it = self.batches[i].items[k];
            let ghost pre: StandardReclaimer<T> = *self;
            proof {
                assert(self.wf_batch(i as int));
                assert(items[k as int] == it);
                assert(self.ret_wf(it));
                lemma_ret_count_step(items, k as int, it.block as int, RetireKind::Strong);
                lemma_ret_count_step(items, k as int, it.block as int, RetireKind::Weak);
                lemma_ret_count_nonneg(
                    items.subrange(k as int + 1, items.len() as int),
                    it.block as int,
                    RetireKind::Strong,
                );
                lemma_ret_count_nonneg(
                    items.subrange(k as int + 1, items.len() as int),
                    it.block as int,
                    RetireKind::Weak,
                );
                lemma_cells_nonneg(self.cells@, it.block as int);
                lemma_private_nonneg(self.slots@, it.block as int, RetireKind::Strong);
                lemma_unexec_nonneg(self.batches@, it.block as int, RetireKind::Strong);
                lemma_private_nonneg(self.slots@, it.block as int, RetireKind::Weak);
                lemma_unexec_nonneg(self.batches@, it.block as int, RetireKind::Weak);
                assert(self.block_basic(it.block as int));
                crate::counter::lemma_counter_facts(self.blk(it.block as int).strong);
                assert(self.audit(
                    it.block as int,
                    ret_count(items.subrange(k as int, items.len() as int), it.block as int, RetireKind::Strong),
                    ret_count(items.subrange(k as int, items.len() as int), it.block as int, RetireKind::Weak),
                ));
            }
            match it.kind {
                RetireKind::Strong => {
                    self.apply_strong(it.block);
                },
                RetireKind::Weak => {
                    self.apply_weak(it.block);
                },
            }
            proof {
                assert forall|b: int| 0 <= b < orig.n_blocks() implies #[trigger] self.audit(
                    b,
                    ret_count(items.subrange(k as int + 1, items.len() as int), b, RetireKind::Strong),
                    ret_count(items.subrange(k as int + 1, items.len() as int), b, RetireKind::Weak),
                ) by {
                    lemma_ret_count_step(items, k as int, b, RetireKind::Strong);
                    lemma_ret_count_step(items, k as int, b, RetireKind::Weak);
                    assert(pre.audit(
                        b,
                        ret_count(items.subrange(k as int, items.len() as int), b, RetireKind::Strong),
                        ret_count(items.subrange(k as int, items.len() as int), b, RetireKind::Weak),
                    ));
                    assert(pre.block_basic(b));
                    lemma_cells_nonneg(self.cells@, b);
                    lemma_private_nonneg(self.slots@, b, RetireKind::Strong);
                    lemma_unexec_nonneg(self.batches@, b, RetireKind::Strong);
                    lemma_private_nonneg(self.slots@, b, RetireKind::Weak);
                    lemma_unexec_nonneg(self.batches@, b, RetireKind::Weak);
                    lemma_ret_count_nonneg(
                        items.subrange(k as int + 1, items.len() as int),
                        b,
                        RetireKind::Strong,
                    );
                    lemma_ret_count_nonneg(
                        items.subrange(k as int + 1, items.len() as int),
                        b,
                        RetireKind::Weak,
                    );
                    if b == it.block as int {
                        crate::counter::lemma_counter_facts(pre.blk(b).strong);
                        crate::counter::lemma_counter_facts(self.blk(b).strong);
                    }
                }
                assert forall|b: int| 0 <= b < orig.n_blocks() implies #[trigger] self.block_basic(
                    b,
                ) by {
                    assert(pre.block_basic(b));
                    if b == it.block as int {
                        crate::counter::lemma_counter_facts(pre.blk(b).strong);
                        crate::counter::lemma_counter_facts(self.blk(b).strong);
                    }
                }
                assert forall|b: int|
                    0 <= b < orig.n_blocks() implies {
                    &&& (#[trigger] self.blk(b)).s_owners == orig.blk(b).s_owners
                    &&& self.blk(b).w_owners == orig.blk(b).w_owners
                    &&& self.blk(b).birth == orig.blk(b).birth
                    &&& (orig.blk(b).strong.sealed() ==> self.blk(b).strong.sealed())
                    &&& (orig.blk(b).value is None ==> self.blk(b).value is None)
                        &&& (self.blk(b).value == orig.blk(b).value || self.blk(b).value is None)
                    &&& (!orig.blk(b).allocated ==> !self.blk(b).allocated)
                } by {
                    assert(pre.block_basic(b));
                    if b == it.block as int {
                        crate::counter::lemma_counter_facts(pre.blk(b).strong);
                        crate::counter::lemma_counter_facts(self.blk(b).strong);
                    }
                }
                assert forall|c: int| 0 <= c < self.cells@.len() implies #[trigger] self.wf_cell(
                    c,
                ) by {
                    assert(pre.wf_cell(c));
                }
                assert forall|s: int, j: int|
                    0 <= s < self.slots@.len() && 0 <= j
                        < self.slots@[s].snapshots@.len() implies #[trigger] self.snap_supported(
                    s,
                    j,
                ) by {
                    assert(pre.snap_supported(s, j));
                }
                assert forall|s: int| 0 <= s < self.slots@.len() implies #[trigger] self.wf_slot(
                    s,
                ) by {
                    assert(pre.wf_slot(s));
                }
                assert forall|t: int| 0 <= t < self.batches@.len() implies #[trigger] self.wf_batch(
                    t,
                ) by {
                    assert(pre.wf_batch(t));
                }
                assert(self.wf_executed()) by {
                    assert forall|t: int, s: int|
                        0 <= t < self.batches@.len() && 0 <= s < self.slots@.len() && (
                        #[trigger] self.batches@[t]).executed implies !(
                    #[trigger] self.batch_blocked_by(t, s)) by {
                        assert(pre.batches@[t].executed);
                        assert(!pre.batch_blocked_by(t, s));
                        assert(self.batch_blocked_by(t, s) == pre.batch_blocked_by(t, s));
                    }
                }
                assert(orig.graveyard@.is_prefix_of(self.graveyard@));
            }
            k = k + 1;
        }
        proof {
            assert(items.subrange(n as int, items.len() as int) =~= Seq::<Retirement>::empty());
            assert forall|b: int| 0 <= b < self.n_blocks() implies #[trigger] self.wf_block(b) by {
                assert(self.audit(
                    b,
                    ret_count(items.subrange(n as int, items.len() as int), b, RetireKind::Strong),
                    ret_count(items.subrange(n as int, items.len() as int), b, RetireKind::Weak),
                ));
                assert(self.block_basic(b));
            }
        }
    }
}

} // verus!

verus! {

impl<T> StandardReclaimer<T> {
    /// Batch `i` is free to execute: no open critical section and no
    /// registered snapshot is pinned at or before its tag.
    pub open spec fn batch_gated(self, i: int) -> bool {
        forall|s: int| 0 <= s < self.slots@.len() ==> !self.batch_blocked_by(i, s)
    }

    /// Scan every slot for a pin at or before batch `i`'s tag.
    fn gate_open(&self, i: usize) -> (r: bool)
        requires
            (i as int) < self.batches@.len(),
        ensures
            r == self.batch_gated(i as int),
    {
        let tag = self.batches[i].tag;
        let mut s: usize = 0;
        while s < self.slots.len()
            invariant
                (i as int) < self.batches@.len(),
                tag == self.batches@[i as int].tag,
                0 <= s <= self.slots@.len(),
                forall|t: int| 0 <= t < s ==> !self.batch_blocked_by(i as int, t),
            decreases self.slots@.len() - s,
        {
            let slot = &self.slots[s];
            if slot.depth > 0 && slot.pin <= tag {
                proof {
                    assert(self.batch_blocked_by(i as int, s as int));
                }
                return false;
            }
            let mut j: usize = 0;
            while j < slot.snapshots.len()
                invariant
                    (i as int) < self.batches@.len(),
                    tag == self.batches@[i as int].tag,
                    0 <= s < self.slots@.len(),
                    slot == self.slots@[s as int],
                    0 <= j <= slot.snapshots@.len(),
                    forall|u: int|
                        0 <= u < j ==> !((#[trigger] slot.snapshots@[u]).ptr is Some
                            && slot.snapshots@[u].pin <= tag),
                decreases slot.snapshots@.len() - j,
            {
                let e = slot.snapshots[j];
                if e.ptr.is_some() && e.pin <= tag {
                    proof {
                        assert(self.batch_blocked_by(i as int, s as int));
                    }
                    return false;
                }
                j = j + 1;
            }
            proof {
                assert(!self.batch_blocked_by(i as int, s as int));
            }
            s = s + 1;
        }
        true
    }

    /// Execute every published batch whose tag is strictly older than every
    /// active pin. A batch that stays back is blocked by some open critical
    /// section or registered snapshot.
    pub fn collect(&mut self)
        requires
            old(self).wf(),
        ensures
            final(self).wf(),
            final(self).epoch == old(self).epoch,
            final(self).slots == old(self).slots,
            final(self).cells == old(self).cells,
            final(self).blocks@.len() == old(self).blocks@.len(),
            final(self).batches@.len() == old(self).batches@.len(),
            forall|t: int|
                0 <= t < old(self).batches@.len() ==> {
                    &&& (#[trigger] final(self).batches@[t]).items == old(self).batches@[t].items
                    &&& final(self).batches@[t].tag == old(self).batches@[t].tag
                    &&& (old(self).batches@[t].executed ==> final(self).batches@[t].executed)
                },
            forall|t: int|
                0 <= t < final(self).batches@.len()
                    && !(#[trigger] final(self).batches@[t]).executed ==> exists|s: int|
                    0 <= s < final(self).slots@.len() && final(self).batch_blocked_by(t, s),
            old(self).graveyard@.is_prefix_of(final(self).graveyard@),
            forall|b: int|
                0 <= b < old(self).n_blocks() ==> {
                    &&& (#[trigger] final(self).blk(b)).s_owners == old(self).blk(b).s_owners
                    &&& final(self).blk(b).w_owners == old(self).blk(b).w_owners
                    &&& final(self).blk(b).birth == old(self).blk(b).birth
                    &&& (old(self).blk(b).strong.sealed() ==> final(self).blk(b).strong.sealed())
                    &&& (old(self).blk(b).value is None ==> final(self).blk(b).value is None)
                    &&& (final(self).blk(b).value == old(self).blk(b).value || final(self).blk(
                        b,
                    ).value is None)
                    &&& (!old(self).blk(b).allocated ==> !final(self).blk(b).allocated)
                },
    {
        let ghost orig: StandardReclaimer<T> = *self;
        let mut idx: usize = 0;
        let n = self.batches.len();
        while idx < n
            invariant
                self.wf(),
                n == self.batches@.len(),
                0 <= idx <= n,
                self.epoch == orig.epoch,
                self.slots == orig.slots,
                self.cells == orig.cells,
                self.blocks@.len() == orig.blocks@.len(),
                self.batches@.len() == orig.batches@.len(),
                forall|t: int|
                    0 <= t < orig.batches@.len() ==> {
                        &&& (#[trigger] self.batches@[t]).items == orig.batches@[t].items
                        &&& self.batches@[t].tag == orig.batches@[t].tag
                        &&& (orig.batches@[t].executed ==> self.batches@[t].executed)
                    },
                forall|t: int|
                    0 <= t < idx && !(#[trigger] self.batches@[t]).executed ==> exists|s: int|
                        0 <= s < self.slots@.len() && self.batch_blocked_by(t, s),
                orig.graveyard@.is_prefix_of(self.graveyard@),
                forall|b: int|
                    0 <= b < orig.n_blocks() ==> {
                        &&& (#[trigger] self.blk(b)).s_owners == orig.blk(b).s_owners
                        &&& self.blk(b).w_owners == orig.blk(b).w_owners
                        &&& self.blk(b).birth == orig.blk(b).birth
                        &&& (orig.blk(b).strong.sealed() ==> self.blk(b).strong.sealed())
                        &&& (orig.blk(b).value is None ==> self.blk(b).value is None)
                        &&& (self.blk(b).value == orig.blk(b).value || self.blk(b).value is None)
                        &&& (!orig.blk(b).allocated ==> !self.blk(b).allocated)
                    },
            decreases n - idx,
        {
            let ghost pre: StandardReclaimer<T> = *self;
            if !self.batches[idx].executed {
                if self.gate_open(idx) {
                    self.execute_batch(idx);
                }
            }
            proof {
                assert forall|t: int|
                    0 <= t < idx as int + 1 && !(#[trigger] self.batches@[t]).executed implies
                exists|s: int| 0 <= s < self.slots@.len() && self.batch_blocked_by(t, s) by {
                    assert(!pre.batches@[t].executed);
                    if t < idx as int {
                        let s = choose|s: int|
                            0 <= s < pre.slots@.len() && pre.batch_blocked_by(t, s);
                        assert(self.batch_blocked_by(t, s) == pre.batch_blocked_by(t, s));
                    } else {
                        assert(!pre.batch_gated(idx as int));
                        let s = choose|s: int|
                            0 <= s < pre.slots@.len() && pre.batch_blocked_by(idx as int, s);
                        assert(self.batch_blocked_by(t, s) == pre.batch_blocked_by(t, s));
                    }
                }
            }
            idx = idx + 1;
        }
    }
}

} // verus!

verus! {

/// Once every published batch has executed, nothing is owed from that
/// side: with all private batches also empty, the count audit ties each
/// counter to its live holders alone.
pub proof fn lemma_all_executed_unexec_zero(batches: Seq<Batch>, b: int, k: RetireKind)
    requires
        forall|t: int| 0 <= t < batches.len() ==> (#[trigger] batches[t]).executed,
    ensures
        unexec_sum(batches, b, k) == 0,
    decreases batches.len(),
{
    if batches.len() > 0 {
        lemma_all_executed_unexec_zero(batches.subrange(1, batches.len() as int), b, k);
    }
}

/// A list that never mentions block `b` owes it nothing.
pub proof fn lemma_ret_count_zero(items: Seq<Retirement>, b: int, k: RetireKind)
    requires
        forall|i: int| 0 <= i < items.len() ==> ((#[trigger] items[i]).block as int) != b,
    ensures
        ret_count(items, b, k) == 0,
    decreases items.len(),
{
    if items.len() > 0 {
        lemma_ret_count_zero(items.subrange(1, items.len() as int), b, k);
    }
}

/// Slots whose private batches never mention `b` owe it nothing.
pub proof fn lemma_private_zero(slots: Seq<Slot>, b: int, k: RetireKind)
    requires
        forall|s: int, i: int|
            0 <= s < slots.len() && 0 <= i < (#[trigger] slots[s]).batch@.len() ==> ((
            #[trigger] slots[s].batch@[i]).block as int) != b,
    ensures
        private_sum(slots, b, k) == 0,
    decreases slots.len(),
{
    if slots.len() > 0 {
        lemma_ret_count_zero(slots[0].batch@, b, k);
        lemma_private_zero(slots.subrange(1, slots.len() as int), b, k);
    }
}

/// Batches that never mention `b` owe it nothing.
pub proof fn lemma_unexec_zero(batches: Seq<Batch>, b: int, k: RetireKind)
    requires
        forall|t: int, i: int|
            0 <= t < batches.len() && 0 <= i < (#[trigger] batches[t]).items@.len() ==> ((
            #[trigger] batches[t].items@[i]).block as int) != b,
    ensures
        unexec_sum(batches, b, k) == 0,
    decreases batches.len(),
{
    if batches.len() > 0 {
        lemma_ret_count_zero(batches[0].items@, b, k);
        lemma_unexec_zero(batches.subrange(1, batches.len() as int), b, k);
    }
}

/// Cells that never store `b` hold no reference on it.
pub proof fn lemma_cells_zero(cells: Seq<Option<usize>>, b: int)
    requires
        forall|c: int| 0 <= c < cells.len() ==> !cell_is(#[trigger] cells[c], b),
    ensures
        cells_sum(cells, b) == 0,
    decreases cells.len(),
{
    if cells.len() > 0 {
        lemma_cells_zero(cells.subrange(1, cells.len() as int), b);
    }
}

impl<T> StandardReclaimer<T> {
    /// Publish slot `s`'s private batch under the current epoch and advance
    /// the epoch, so that every protection registered from now on carries a
    /// strictly newer pin than the published batch's tag.
    fn publish(&mut self, s: usize)
        requires
            old(self).wf(),
            (s as int) < old(self).slots@.len(),
            old(self).epoch < u64::MAX,
        ensures
            final(self).wf(),
            final(self).epoch == old(self).epoch + 1,
            final(self).blocks == old(self).blocks,
            final(self).cells == old(self).cells,
            final(self).graveyard == old(self).graveyard,
            final(self).slots@.len() == old(self).slots@.len(),
            forall|t: int|
                0 <= t < old(self).slots@.len() && t != s as int ==> final(self).slots@[t] == old(
                    self,
                ).slots@[t],
            final(self).slots@[s as int].claimed == old(self).slots@[s as int].claimed,
            final(self).slots@[s as int].depth == old(self).slots@[s as int].depth,
            final(self).slots@[s as int].pin == old(self).slots@[s as int].pin,
            final(self).slots@[s as int].snapshots == old(self).slots@[s as int].snapshots,
            final(self).slots@[s as int].batch@.len() == 0,
            final(self).batches@.len() == old(self).batches@.len() + 1,
            forall|t: int|
                0 <= t < old(self).batches@.len() ==> final(self).batches@[t] == old(
                    self,
                ).batches@[t],
            final(self).batches@[old(self).batches@.len() as int].items == old(self).slots@[
                s as int].batch,
            final(self).batches@[old(self).batches@.len() as int].tag == old(self).epoch,
            !final(self).batches@[old(self).batches@.len() as int].executed,
            forall|b: int|
                #![trigger final(self).strong_pending(b)]
                #![trigger final(self).weak_pending(b)]
                final(self).strong_pending(b) == old(self).strong_pending(b)
                    && final(self).weak_pending(b) == old(self).weak_pending(b),
    {
        let ghost orig: StandardReclaimer<T> = *self;
        let mut items: Vec<Retirement> = Vec::new();
        let slot = &mut self.slots[s];
        core::mem::swap(&mut slot.batch, &mut items);
        let tag = self.epoch;
        self.epoch = tag + 1;
        self.batches.push(Batch { items, tag, executed: false });
        proof {
            let b2 = self.batches@[orig.batches@.len() as int];
            let moved = orig.slots@[s as int].batch@;
            assert(b2.items@ == moved);
            assert forall|b: int| 0 <= b < self.n_blocks() implies #[trigger] self.wf_block(b) by {
                assert(orig.wf_block(b));
                lemma_private_update(
                    orig.slots@,
                    s as int,
                    self.slots@[s as int],
                    b,
                    RetireKind::Strong,
                );
                lemma_private_update(
                    orig.slots@,
                    s as int,
                    self.slots@[s as int],
                    b,
                    RetireKind::Weak,
                );
                lemma_unexec_push(orig.batches@, b2, b, RetireKind::Strong);
                lemma_unexec_push(orig.batches@, b2, b, RetireKind::Weak);
                assert(self.slots@ =~= orig.slots@.update(s as int, self.slots@[s as int]));
                assert(self.batches@ =~= orig.batches@.push(b2));
            }
            assert forall|s2: int| 0 <= s2 < self.slots@.len() implies #[trigger] self.wf_slot(
                s2,
            ) by {
                assert(orig.wf_slot(s2));
            }
            assert forall|t: int| 0 <= t < self.batches@.len() implies #[trigger] self.wf_batch(
                t,
            ) by {
                if t < orig.batches@.len() {
                    assert(orig.wf_batch(t));
                } else {
                    assert(orig.wf_slot(s as int));
                    assert(self.items_wf(moved));
                }
            }
            assert forall|c: int| 0 <= c < self.cells@.len() implies #[trigger] self.wf_cell(
                c,
            ) by {
                assert(orig.wf_cell(c));
            }
            assert forall|s2: int, j: int|
                0 <= s2 < self.slots@.len() && 0 <= j
                    < self.slots@[s2].snapshots@.len() implies #[trigger] self.snap_supported(
                s2,
                j,
            ) by {
                assert(orig.snap_supported(s2, j));
                assert(orig.wf_slot(s2));
                match self.slots@[s2].snapshots@[j].ptr {
                    Some(p) => {
                        let e0 = self.slots@[s2].snapshots@[j].pin;
                        assert(orig.slots@[s2].snapshots@[j].pin == e0);
                        assert(e0 <= orig.epoch);
                        lemma_private_update(
                            orig.slots@,
                            s as int,
                            self.slots@[s as int],
                            p as int,
                            RetireKind::Strong,
                        );
                        lemma_unexec_ge_push(orig.batches@, b2, p as int, e0);
                        assert(self.slots@ =~= orig.slots@.update(s as int, self.slots@[s as int]));
                        assert(self.batches@ =~= orig.batches@.push(b2));
                        assert(batch_contrib_ge(b2, p as int, e0) == ret_count(
                            moved,
                            p as int,
                            RetireKind::Strong,
                        ));
                    },
                    None => {},
                }
            }
            assert(self.wf_executed()) by {
                assert forall|t: int, s2: int|
                    0 <= t < self.batches@.len() && 0 <= s2 < self.slots@.len() && (
                    #[trigger] self.batches@[t]).executed implies !(
                #[trigger] self.batch_blocked_by(t, s2)) by {
                    assert(t < orig.batches@.len());
                    assert(orig.batches@[t].executed);
                    assert(!orig.batch_blocked_by(t, s2));
                    assert(self.batch_blocked_by(t, s2) == orig.batch_blocked_by(t, s2));
                }
            }
            assert forall|b: int|
                #![trigger self.strong_pending(b)]
                #![trigger self.weak_pending(b)]
                self.strong_pending(b) == orig.strong_pending(b) && self.weak_pending(b)
                    == orig.weak_pending(b) by {
                lemma_private_update(
                    orig.slots@,
                    s as int,
                    self.slots@[s as int],
                    b,
                    RetireKind::Strong,
                );
                lemma_private_update(orig.slots@, s as int, self.slots@[s as int], b, RetireKind::Weak);
                lemma_unexec_push(orig.batches@, b2, b, RetireKind::Strong);
                lemma_unexec_push(orig.batches@, b2, b, RetireKind::Weak);
                assert(self.slots@ =~= orig.slots@.update(s as int, self.slots@[s as int]));
                assert(self.batches@ =~= orig.batches@.push(b2));
            }
        }
    }

    /// Hand one relinquished count of `block` to the reclaimer for deferred
    /// release: append it to slot `s`'s private batch, and publish and try
    /// to execute once the batch has grown to the table's capacity.
    pub(crate) fn retire(&mut self, s: usize, block: usize, kind: RetireKind)
        requires
            old(self).wf(),
            (s as int) < old(self).slots@.len(),
            (block as int) < old(self).n_blocks(),
            kind == RetireKind::Strong ==> old(self).blk(block as int).s_owners@ >= 1,
            kind == RetireKind::Weak ==> old(self).blk(block as int).w_owners@ >= 1,
            old(self).epoch < u64::MAX,
        ensures
            final(self).wf(),
            old(self).epoch <= final(self).epoch <= old(self).epoch + 1,
            final(self).cells == old(self).cells,
            final(self).graveyard == old(self).graveyard,
            final(self).blocks@.len() == old(self).blocks@.len(),
            final(self).slots@.len() == old(self).slots@.len(),
            forall|t: int|
                0 <= t < old(self).slots@.len() ==> {
                    &&& (#[trigger] final(self).slots@[t]).claimed == old(self).slots@[t].claimed
                    &&& final(self).slots@[t].depth == old(self).slots@[t].depth
                    &&& final(self).slots@[t].pin == old(self).slots@[t].pin
                    &&& final(self).slots@[t].snapshots == old(self).slots@[t].snapshots
                },
            forall|b: int|
                0 <= b < old(self).n_blocks() && b != block as int ==> final(self).blocks@[b]
                    == old(self).blocks@[b],
            final(self).blk(block as int).s_owners@ == old(self).blk(block as int).s_owners@ - (
            if kind == RetireKind::Strong {
                1int
            } else {
                0int
            }),
            final(self).blk(block as int).w_owners@ == old(self).blk(block as int).w_owners@ - (
            if kind == RetireKind::Weak {
                1int
            } else {
                0int
            }),
            final(self).blk(block as int).strong == old(self).blk(block as int).strong,
            final(self).blk(block as int).value == old(self).blk(block as int).value,
            final(self).blk(block as int).weak == old(self).blk(block as int).weak,
            final(self).blk(block as int).allocated == old(self).blk(block as int).allocated,
            final(self).blk(block as int).birth == old(self).blk(block as int).birth,
            forall|t: int|
                0 <= t < old(self).batches@.len() ==> final(self).batches@[t] == old(
                    self,
                ).batches@[t],
            final(self).strong_pending(block as int) == old(self).strong_pending(block as int) + (
            if kind == RetireKind::Strong {
                1int
            } else {
                0int
            }),
            final(self).weak_pending(block as int) == old(self).weak_pending(block as int) + (
            if kind == RetireKind::Weak {
                1int
            } else {
                0int
            }),
            forall|b: int|
                #![trigger final(self).strong_pending(b)]
                #![trigger final(self).weak_pending(b)]
                b != block as int ==> final(self).strong_pending(b) == old(self).strong_pending(b)
                    && final(self).weak_pending(b) == old(self).weak_pending(b),
            final(self).slots@[s as int].batch@.len() as int == (if old(self).slots@[
                s as int].batch@.len() + 1 >= old(self).slots@.len() {
                0int
            } else {
                old(self).slots@[s as int].batch@.len() as int + 1
            }),
    {
        let ghost orig: StandardReclaimer<T> = *self;
        let blk = &mut self.blocks[block];
        match kind {
            RetireKind::Strong => {
                blk.s_owners = Ghost(blk.s_owners@ - 1);
            },
            RetireKind::Weak => {
                blk.w_owners = Ghost(blk.w_owners@ - 1);
            },
        }
        let slot = &mut self.slots[s];
        slot.batch.push(Retirement { block, kind });
        proof {
            let it = Retirement { block, kind };
            assert(self.slots@[s as int].batch@ == orig.slots@[s as int].batch@.push(it));
            assert forall|b: int| 0 <= b < self.n_blocks() implies #[trigger] self.wf_block(b) by {
                assert(orig.wf_block(b));
                lemma_ret_count_push(orig.slots@[s as int].batch@, it, b, RetireKind::Strong);
                lemma_ret_count_push(orig.slots@[s as int].batch@, it, b, RetireKind::Weak);
                lemma_private_update(
                    orig.slots@,
                    s as int,
                    self.slots@[s as int],
                    b,
                    RetireKind::Strong,
                );
                lemma_private_update(
                    orig.slots@,
                    s as int,
                    self.slots@[s as int],
                    b,
                    RetireKind::Weak,
                );
                assert(self.slots@ =~= orig.slots@.update(s as int, self.slots@[s as int]));
            }
            assert forall|s2: int| 0 <= s2 < self.slots@.len() implies #[trigger] self.wf_slot(
                s2,
            ) by {
                assert(orig.wf_slot(s2));
            }
            assert forall|t: int| 0 <= t < self.batches@.len() implies #[trigger] self.wf_batch(
                t,
            ) by {
                assert(orig.wf_batch(t));
            }
            assert forall|c: int| 0 <= c < self.cells@.len() implies #[trigger] self.wf_cell(
                c,
            ) by {
                assert(orig.wf_cell(c));
            }
            assert forall|s2: int, j: int|
                0 <= s2 < self.slots@.len() && 0 <= j
                    < self.slots@[s2].snapshots@.len() implies #[trigger] self.snap_supported(
                s2,
                j,
            ) by {
                assert(orig.snap_supported(s2, j));
                match self.slots@[s2].snapshots@[j].ptr {
                    Some(p) => {
                        lemma_ret_count_push(
                            orig.slots@[s as int].batch@,
                            it,
                            p as int,
                            RetireKind::Strong,
                        );
                        lemma_private_update(
                            orig.slots@,
                            s as int,
                            self.slots@[s as int],
                            p as int,
                            RetireKind::Strong,
                        );
                        assert(self.slots@ =~= orig.slots@.update(s as int, self.slots@[s as int]));
                    },
                    None => {},
                }
            }
            assert(self.wf_executed()) by {
                assert forall|t: int, s2: int|
                    0 <= t < self.batches@.len() && 0 <= s2 < self.slots@.len() && (
                    #[trigger] self.batches@[t]).executed implies !(
                #[trigger] self.batch_blocked_by(t, s2)) by {
                    assert(orig.batches@[t].executed);
                    assert(!orig.batch_blocked_by(t, s2));
                    assert(self.batch_blocked_by(t, s2) == orig.batch_blocked_by(t, s2));
                }
            }
        }
        proof {
            let it = Retirement { block, kind };
            assert forall|b: int|
                #![trigger self.strong_pending(b)]
                #![trigger self.weak_pending(b)]
                self.strong_pending(b) == orig.strong_pending(b) + (if b == block as int && kind
                    == RetireKind::Strong {
                    1int
                } else {
                    0int
                }) && self.weak_pending(b) == orig.weak_pending(b) + (if b == block as int && kind
                    == RetireKind::Weak {
                    1int
                } else {
                    0int
                }) by {
                lemma_ret_count_push(orig.slots@[s as int].batch@, it, b, RetireKind::Strong);
                lemma_ret_count_push(orig.slots@[s as int].batch@, it, b, RetireKind::Weak);
                lemma_private_update(
                    orig.slots@,
                    s as int,
                    self.slots@[s as int],
                    b,
                    RetireKind::Strong,
                );
                lemma_private_update(orig.slots@, s as int, self.slots@[s as int], b, RetireKind::Weak);
                assert(self.slots@ =~= orig.slots@.update(s as int, self.slots@[s as int]));
            }
        }
        if self.slots[s].batch.len() >= self.slots.len() {
            // Publish now; the batch executes lazily, at the next point
            // where a protection is released or a cleanup runs.
            self.publish(s);
        }
    }
}

} // verus!

verus! {

impl<T> StandardReclaimer<T> {
    /// The parts of the invariant that do not mention block contents carry
    /// over unchanged whenever slots, batches, cells and the epoch are
    /// untouched and the arena has not shrunk.
    proof fn lemma_carry_non_block(pre: Self, post: Self)
        requires
            pre.wf(),
            post.slots == pre.slots,
            post.batches == pre.batches,
            post.cells == pre.cells,
            post.epoch == pre.epoch,
            post.n_blocks() >= pre.n_blocks(),
        ensures
            forall|s: int| 0 <= s < post.slots@.len() ==> #[trigger] post.wf_slot(s),
            forall|t: int| 0 <= t < post.batches@.len() ==> #[trigger] post.wf_batch(t),
            forall|c: int| 0 <= c < post.cells@.len() ==> #[trigger] post.wf_cell(c),
            post.wf_executed(),
    {
        assert forall|s: int| 0 <= s < post.slots@.len() implies #[trigger] post.wf_slot(s) by {
            assert(pre.wf_slot(s));
        }
        assert forall|t: int| 0 <= t < post.batches@.len() implies #[trigger] post.wf_batch(t) by {
            assert(pre.wf_batch(t));
        }
        assert forall|c: int| 0 <= c < post.cells@.len() implies #[trigger] post.wf_cell(c) by {
            assert(pre.wf_cell(c));
        }
        assert(post.wf_executed()) by {
            assert forall|t: int, s: int|
                0 <= t < post.batches@.len() && 0 <= s < post.slots@.len() && (
                #[trigger] post.batches@[t]).executed implies !(#[trigger] post.batch_blocked_by(
                t,
                s,
            )) by {
                assert(pre.batches@[t].executed);
                assert(!pre.batch_blocked_by(t, s));
                assert(post.batch_blocked_by(t, s) == pre.batch_blocked_by(t, s));
            }
        }
    }

    /// Nothing in the reclaimer's lists mentions a block index at or past
    /// the end of the arena.
    proof fn lemma_fresh_sums_zero(self, b: int)
        requires
            self.wf(),
            b >= self.n_blocks(),
        ensures
            cells_sum(self.cells@, b) == 0,
            private_sum(self.slots@, b, RetireKind::Strong) == 0,
            private_sum(self.slots@, b, RetireKind::Weak) == 0,
            unexec_sum(self.batches@, b, RetireKind::Strong) == 0,
            unexec_sum(self.batches@, b, RetireKind::Weak) == 0,
    {
        assert forall|c: int| 0 <= c < self.cells@.len() implies !cell_is(
            #[trigger] self.cells@[c],
            b,
        ) by {
            assert(self.wf_cell(c));
        }
        lemma_cells_zero(self.cells@, b);
        assert forall|s: int, i: int|
            0 <= s < self.slots@.len() && 0 <= i
                < (#[trigger] self.slots@[s]).batch@.len() implies ((#[trigger] self.slots@[
            s].batch@[i]).block as int) != b by {
            assert(self.wf_slot(s));
            assert(self.ret_wf(self.slots@[s].batch@[i]));
        }
        lemma_private_zero(self.slots@, b, RetireKind::Strong);
        lemma_private_zero(self.slots@, b, RetireKind::Weak);
        assert forall|t: int, i: int|
            0 <= t < self.batches@.len() && 0 <= i
                < (#[trigger] self.batches@[t]).items@.len() implies ((#[trigger] self.batches@[
            t].items@[i]).block as int) != b by {
            assert(self.wf_batch(t));
            assert(self.ret_wf(self.batches@[t].items@[i]));
        }
        lemma_unexec_zero(self.batches@, b, RetireKind::Strong);
        lemma_unexec_zero(self.batches@, b, RetireKind::Weak);
    }

    /// Allocate a fresh block holding `value`, born at the current epoch,
    /// with one strong count (owed to the handle the caller will hold) and
    /// the strong holders' collective weak token.
    pub(crate) fn alloc_block(&mut self, value: T) -> (b: usize)
        requires
            old(self).wf(),
        ensures
            final(self).wf(),
            b as int == old(self).n_blocks(),
            final(self).n_blocks() == old(self).n_blocks() + 1,
            forall|i: int|
                0 <= i < old(self).n_blocks() ==> final(self).blocks@[i] == old(self).blocks@[i],
            final(self).blk(b as int).value == Some(value),
            final(self).blk(b as int).strong.count() == 1,
            !final(self).blk(b as int).strong.sealed(),
            final(self).blk(b as int).strong.headroom(),
            final(self).blk(b as int).weak == 1,
            final(self).blk(b as int).allocated,
            final(self).blk(b as int).s_owners@ == 1,
            final(self).blk(b as int).w_owners@ == 0,
            final(self).blk(b as int).birth == old(self).epoch,
            final(self).slots == old(self).slots,
            final(self).batches == old(self).batches,
            final(self).cells == old(self).cells,
            final(self).epoch == old(self).epoch,
            final(self).graveyard == old(self).graveyard,
    {
        let ghost orig: StandardReclaimer<T> = *self;
        let b = self.blocks.len();
        let counter: StickyCounter = Default::default();
        self.blocks.push(
            Block {
                value: Some(value),
                strong: counter,
                weak: 1,
                allocated: true,
                birth: self.epoch,
                s_owners: Ghost(1),
                w_owners: Ghost(0),
            },
        );
        proof {
            orig.lemma_fresh_sums_zero(b as int);
            assert forall|i: int| 0 <= i < self.n_blocks() implies #[trigger] self.wf_block(i) by {
                if i < orig.n_blocks() {
                    assert(orig.wf_block(i));
                } else {
                    crate::counter::lemma_counter_facts(self.blk(i).strong);
                }
            }
            Self::lemma_carry_non_block(orig, *self);
            assert forall|s: int, j: int|
                0 <= s < self.slots@.len() && 0 <= j
                    < self.slots@[s].snapshots@.len() implies #[trigger] self.snap_supported(
                s,
                j,
            ) by {
                assert(orig.snap_supported(s, j));
                match self.slots@[s].snapshots@[j].ptr {
                    Some(p) => {
                        lemma_unexec_ge_le(
                            self.batches@,
                            p as int,
                            self.slots@[s].snapshots@[j].pin,
                        );
                    },
                    None => {},
                }
            }
        }
        b
    }

    /// Add one strong count on a live block for a new strong holder.
    pub(crate) fn clone_strong(&mut self, b: usize)
        requires
            old(self).wf(),
            (b as int) < old(self).n_blocks(),
            !old(self).blk(b as int).strong.sealed(),
            old(self).blk(b as int).strong.headroom(),
        ensures
            final(self).wf(),
            final(self).blocks@.len() == old(self).blocks@.len(),
            forall|i: int|
                0 <= i < old(self).n_blocks() && i != b as int ==> final(self).blocks@[i] == old(
                    self,
                ).blocks@[i],
            final(self).blk(b as int).s_owners@ == old(self).blk(b as int).s_owners@ + 1,
            final(self).blk(b as int).w_owners == old(self).blk(b as int).w_owners,
            final(self).blk(b as int).strong.count() == old(self).blk(b as int).strong.count() + 1,
            !final(self).blk(b as int).strong.sealed(),
            final(self).blk(b as int).value == old(self).blk(b as int).value,
            final(self).blk(b as int).weak == old(self).blk(b as int).weak,
            final(self).blk(b as int).allocated == old(self).blk(b as int).allocated,
            final(self).blk(b as int).birth == old(self).blk(b as int).birth,
            final(self).slots == old(self).slots,
            final(self).batches == old(self).batches,
            final(self).cells == old(self).cells,
            final(self).epoch == old(self).epoch,
            final(self).graveyard == old(self).graveyard,
    {
        let ghost orig: StandardReclaimer<T> = *self;
        proof {
            assert(orig.wf_block(b as int));
        }
        let blk = &mut self.blocks[b];
        blk.strong.increment();
        blk.s_owners = Ghost(blk.s_owners@ + 1);
        proof {
            assert forall|i: int| 0 <= i < self.n_blocks() implies #[trigger] self.wf_block(i) by {
                assert(orig.wf_block(i));
            }
            Self::lemma_carry_non_block(orig, *self);
            assert forall|s: int, j: int|
                0 <= s < self.slots@.len() && 0 <= j
                    < self.slots@[s].snapshots@.len() implies #[trigger] self.snap_supported(
                s,
                j,
            ) by {
                assert(orig.snap_supported(s, j));
            }
        }
    }

    /// Add one weak count on a block whose memory is still allocated, for a
    /// new weak holder.
    pub(crate) fn clone_weak(&mut self, b: usize)
        requires
            old(self).wf(),
            (b as int) < old(self).n_blocks(),
            old(self).blk(b as int).allocated,
            old(self).blk(b as int).weak < u64::MAX,
        ensures
            final(self).wf(),
            final(self).blocks@.len() == old(self).blocks@.len(),
            forall|i: int|
                0 <= i < old(self).n_blocks() && i != b as int ==> final(self).blocks@[i] == old(
                    self,
                ).blocks@[i],
            final(self).blk(b as int).w_owners@ == old(self).blk(b as int).w_owners@ + 1,
            final(self).blk(b as int).s_owners == old(self).blk(b as int).s_owners,
            final(self).blk(b as int).weak == old(self).blk(b as int).weak + 1,
            final(self).blk(b as int).strong == old(self).blk(b as int).strong,
            final(self).blk(b as int).value == old(self).blk(b as int).value,
            final(self).blk(b as int).allocated,
            final(self).blk(b as int).birth == old(self).blk(b as int).birth,
            final(self).slots == old(self).slots,
            final(self).batches == old(self).batches,
            final(self).cells == old(self).cells,
            final(self).epoch == old(self).epoch,
            final(self).graveyard == old(self).graveyard,
    {
        let ghost orig: StandardReclaimer<T> = *self;
        let blk = &mut self.blocks[b];
        blk.weak = blk.weak + 1;
        blk.w_owners = Ghost(blk.w_owners@ + 1);
        proof {
            assert forall|i: int| 0 <= i < self.n_blocks() implies #[trigger] self.wf_block(i) by {
                assert(orig.wf_block(i));
            }
            Self::lemma_carry_non_block(orig, *self);
            assert forall|s: int, j: int|
                0 <= s < self.slots@.len() && 0 <= j
                    < self.slots@[s].snapshots@.len() implies #[trigger] self.snap_supported(
                s,
                j,
            ) by {
                assert(orig.snap_supported(s, j));
            }
        }
    }

    /// Try to take a new strong count on `b`: succeeds exactly when the
    /// strong counter has not sealed. On failure the whole state is
    /// unchanged. This is the increment-if-not-zero step behind upgrading a
    /// weak handle.
    pub(crate) fn try_upgrade(&mut self, b: usize) -> (r: bool)
        requires
            old(self).wf(),
            (b as int) < old(self).n_blocks(),
            old(self).blk(b as int).strong.headroom(),
        ensures
            final(self).wf(),
            r == !old(self).blk(b as int).strong.sealed(),
            !r ==> {
                &&& final(self).blocks@ == old(self).blocks@
                &&& final(self).slots == old(self).slots
                &&& final(self).batches == old(self).batches
                &&& final(self).cells == old(self).cells
                &&& final(self).epoch == old(self).epoch
                &&& final(self).graveyard == old(self).graveyard
            },
            r ==> {
                &&& final(self).blocks@.len() == old(self).blocks@.len()
                &&& (forall|i: int|
                    0 <= i < old(self).n_blocks() && i != b as int ==> final(self).blocks@[i]
                        == old(self).blocks@[i])
                &&& final(self).blk(b as int).s_owners@ == old(self).blk(b as int).s_owners@ + 1
                &&& final(self).blk(b as int).w_owners == old(self).blk(b as int).w_owners
                &&& final(self).blk(b as int).strong.count() == old(self).blk(
                    b as int,
                ).strong.count() + 1
                &&& !final(self).blk(b as int).strong.sealed()
                &&& final(self).blk(b as int).value == old(self).blk(b as int).value
                &&& final(self).blk(b as int).weak == old(self).blk(b as int).weak
                &&& final(self).blk(b as int).allocated == old(self).blk(b as int).allocated
                &&& final(self).blk(b as int).birth == old(self).blk(b as int).birth
                &&& final(self).slots == old(self).slots
                &&& final(self).batches == old(self).batches
                &&& final(self).cells == old(self).cells
                &&& final(self).epoch == old(self).epoch
                &&& final(self).graveyard == old(self).graveyard
            },
    {
        let ghost orig: StandardReclaimer<T> = *self;
        proof {
            assert(orig.wf_block(b as int));
        }
        let blk = &mut self.blocks[b];
        let ok = blk.strong.try_increment().is_ok();
        if ok {
            blk.s_owners = Ghost(blk.s_owners@ + 1);
        }
        proof {
            if ok {
                assert forall|i: int| 0 <= i < self.n_blocks() implies #[trigger] self.wf_block(
                    i,
                ) by {
                    assert(orig.wf_block(i));
                }
                Self::lemma_carry_non_block(orig, *self);
                assert forall|s: int, j: int|
                    0 <= s < self.slots@.len() && 0 <= j
                        < self.slots@[s].snapshots@.len() implies #[trigger] self.snap_supported(
                    s,
                    j,
                ) by {
                    assert(orig.snap_supported(s, j));
                }
            } else {
                assert(self.blocks@ =~= orig.blocks@);
                assert forall|i: int| 0 <= i < self.n_blocks() implies #[trigger] self.wf_block(
                    i,
                ) by {
                    assert(orig.wf_block(i));
                }
                Self::lemma_carry_non_block(orig, *self);
                assert forall|s: int, j: int|
                    0 <= s < self.slots@.len() && 0 <= j
                        < self.slots@[s].snapshots@.len() implies #[trigger] self.snap_supported(
                    s,
                    j,
                ) by {
                    assert(orig.snap_supported(s, j));
                }
            }
        }
        ok
    }
}

} // verus!

verus! {

impl<T> StandardReclaimer<T> {
    /// Find an unclaimed slot and claim it, or append a fresh one: the
    /// find-or-append discipline of the append-only slot table.
    pub fn get_or_claim_slot(&mut self) -> (s: usize)
        requires
            old(self).wf(),
        ensures
            final(self).wf(),
            (s as int) < final(self).slots@.len(),
            final(self).slots@[s as int].claimed,
            final(self).blocks == old(self).blocks,
            final(self).batches == old(self).batches,
            final(self).cells == old(self).cells,
            final(self).epoch == old(self).epoch,
            final(self).graveyard == old(self).graveyard,
            old(self).slots@.len() <= final(self).slots@.len() <= old(self).slots@.len() + 1,
            forall|t: int|
                0 <= t < old(self).slots@.len() && t != s as int ==> final(self).slots@[t] == old(
                    self,
                ).slots@[t],
            (s as int) < old(self).slots@.len() ==> {
                &&& final(self).slots@.len() == old(self).slots@.len()
                &&& !old(self).slots@[s as int].claimed
                &&& final(self).slots@[s as int].depth == old(self).slots@[s as int].depth
                &&& final(self).slots@[s as int].pin == old(self).slots@[s as int].pin
                &&& final(self).slots@[s as int].batch == old(self).slots@[s as int].batch
                &&& final(self).slots@[s as int].snapshots == old(self).slots@[s as int].snapshots
            },
            (s as int) >= old(self).slots@.len() ==> {
                &&& s as int == old(self).slots@.len()
                &&& final(self).slots@.len() == old(self).slots@.len() + 1
                &&& final(self).slots@[s as int].depth == 0
                &&& final(self).slots@[s as int].batch@.len() == 0
                &&& final(self).slots@[s as int].snapshots@.len() == 0
            },
    {
        let ghost orig: StandardReclaimer<T> = *self;
        let n = self.slots.len();
        let mut s: usize = 0;
        while s < n
            invariant
                0 <= s <= n,
                n == self.slots@.len(),
                *self == orig,
                orig == *old(self),
                orig.wf(),
            decreases n - s,
        {
            if !self.slots[s].claimed {
                let slot = &mut self.slots[s];
                slot.claimed = true;
                proof {
                    assert forall|b: int| 0 <= b < self.n_blocks() implies #[trigger] self.wf_block(
                        b,
                    ) by {
                        assert(orig.wf_block(b));
                        lemma_private_update(
                            orig.slots@,
                            s as int,
                            self.slots@[s as int],
                            b,
                            RetireKind::Strong,
                        );
                        lemma_private_update(
                            orig.slots@,
                            s as int,
                            self.slots@[s as int],
                            b,
                            RetireKind::Weak,
                        );
                        assert(self.slots@ =~= orig.slots@.update(s as int, self.slots@[s as int]));
                    }
                    assert forall|s2: int|
                        0 <= s2 < self.slots@.len() implies #[trigger] self.wf_slot(s2) by {
                        assert(orig.wf_slot(s2));
                    }
                    assert forall|t: int|
                        0 <= t < self.batches@.len() implies #[trigger] self.wf_batch(t) by {
                        assert(orig.wf_batch(t));
                    }
                    assert forall|c: int|
                        0 <= c < self.cells@.len() implies #[trigger] self.wf_cell(c) by {
                        assert(orig.wf_cell(c));
                    }
                    assert forall|s2: int, j: int|
                        0 <= s2 < self.slots@.len() && 0 <= j
                            < self.slots@[s2].snapshots@.len() implies #[trigger] self.snap_supported(
                        s2,
                        j,
                    ) by {
                        assert(orig.snap_supported(s2, j));
                        match self.slots@[s2].snapshots@[j].ptr {
                            Some(p) => {
                                lemma_private_update(
                                    orig.slots@,
                                    s as int,
                                    self.slots@[s as int],
                                    p as int,
                                    RetireKind::Strong,
                                );
                                assert(self.slots@ =~= orig.slots@.update(
                                    s as int,
                                    self.slots@[s as int],
                                ));
                            },
                            None => {},
                        }
                    }
                    assert(self.wf_executed()) by {
                        assert forall|t: int, s2: int|
                            0 <= t < self.batches@.len() && 0 <= s2 < self.slots@.len() && (
                            #[trigger] self.batches@[t]).executed implies !(
                        #[trigger] self.batch_blocked_by(t, s2)) by {
                            assert(orig.batches@[t].executed);
                            assert(!orig.batch_blocked_by(t, s2));
                            assert(self.batch_blocked_by(t, s2) == orig.batch_blocked_by(t, s2));
                        }
                    }
                }
                return s;
            }
            s = s + 1;
        }
        self.slots.push(
            Slot { claimed: true, depth: 0, pin: 0, batch: Vec::new(), snapshots: Vec::new() },
        );
        proof {
            let fresh = self.slots@[n as int];
            assert(self.slots@ =~= orig.slots@.push(fresh));
            assert forall|b: int| 0 <= b < self.n_blocks() implies #[trigger] self.wf_block(b) by {
                assert(orig.wf_block(b));
                lemma_private_push(orig.slots@, fresh, b, RetireKind::Strong);
                lemma_private_push(orig.slots@, fresh, b, RetireKind::Weak);
            }
            assert forall|s2: int| 0 <= s2 < self.slots@.len() implies #[trigger] self.wf_slot(
                s2,
            ) by {
                if s2 < n as int {
                    assert(orig.wf_slot(s2));
                }
            }
            assert forall|t: int| 0 <= t < self.batches@.len() implies #[trigger] self.wf_batch(
                t,
            ) by {
                assert(orig.wf_batch(t));
            }
            assert forall|c: int| 0 <= c < self.cells@.len() implies #[trigger] self.wf_cell(
                c,
            ) by {
                assert(orig.wf_cell(c));
            }
            assert forall|s2: int, j: int|
                0 <= s2 < self.slots@.len() && 0 <= j
                    < self.slots@[s2].snapshots@.len() implies #[trigger] self.snap_supported(
                s2,
                j,
            ) by {
                assert(s2 < n as int);
                assert(orig.snap_supported(s2, j));
                match self.slots@[s2].snapshots@[j].ptr {
                    Some(p) => {
                        lemma_private_push(orig.slots@, fresh, p as int, RetireKind::Strong);
                    },
                    None => {},
                }
            }
            assert(self.wf_executed()) by {
                assert forall|t: int, s2: int|
                    0 <= t < self.batches@.len() && 0 <= s2 < self.slots@.len() && (
                    #[trigger] self.batches@[t]).executed implies !(
                #[trigger] self.batch_blocked_by(t, s2)) by {
                    assert(orig.batches@[t].executed);
                    if s2 < n as int {
                        assert(!orig.batch_blocked_by(t, s2));
                        assert(self.batch_blocked_by(t, s2) == orig.batch_blocked_by(t, s2));
                    }
                }
            }
        }
        n
    }

    /// Enter a critical section on slot `s`: when it is the outermost one,
    /// pin the current epoch. Every retirement published from now on gets a
    /// tag at or after this pin and cannot execute before the section ends.
    pub fn protect(&mut self, s: usize) -> (g: RegionGuard)
        requires
            old(self).wf(),
            (s as int) < old(self).slots@.len(),
            old(self).slots@[s as int].depth < u64::MAX,
        ensures
            final(self).wf(),
            g.slot_spec() == s,
            final(self).blocks == old(self).blocks,
            final(self).batches == old(self).batches,
            final(self).cells == old(self).cells,
            final(self).epoch == old(self).epoch,
            final(self).graveyard == old(self).graveyard,
            final(self).slots@.len() == old(self).slots@.len(),
            forall|t: int|
                0 <= t < old(self).slots@.len() && t != s as int ==> final(self).slots@[t] == old(
                    self,
                ).slots@[t],
            final(self).slots@[s as int].claimed == old(self).slots@[s as int].claimed,
            final(self).slots@[s as int].batch == old(self).slots@[s as int].batch,
            final(self).slots@[s as int].snapshots == old(self).slots@[s as int].snapshots,
            final(self).slots@[s as int].depth == old(self).slots@[s as int].depth + 1,
            old(self).slots@[s as int].depth == 0 ==> final(self).slots@[s as int].pin == old(
                self,
            ).epoch,
            old(self).slots@[s as int].depth >= 1 ==> final(self).slots@[s as int].pin == old(
                self,
            ).slots@[s as int].pin,
    {
        let ghost orig: StandardReclaimer<T> = *self;
        let e = self.epoch;
        let slot = &mut self.slots[s];
        if slot.depth == 0 {
            slot.pin = e;
        }
        slot.depth = slot.depth + 1;
        proof {
            assert forall|b: int| 0 <= b < self.n_blocks() implies #[trigger] self.wf_block(b) by {
                assert(orig.wf_block(b));
                lemma_private_update(
                    orig.slots@,
                    s as int,
                    self.slots@[s as int],
                    b,
                    RetireKind::Strong,
                );
                lemma_private_update(
                    orig.slots@,
                    s as int,
                    self.slots@[s as int],
                    b,
                    RetireKind::Weak,
                );
                assert(self.slots@ =~= orig.slots@.update(s as int, self.slots@[s as int]));
            }
            assert forall|s2: int| 0 <= s2 < self.slots@.len() implies #[trigger] self.wf_slot(
                s2,
            ) by {
                assert(orig.wf_slot(s2));
            }
            assert forall|t: int| 0 <= t < self.batches@.len() implies #[trigger] self.wf_batch(
                t,
            ) by {
                assert(orig.wf_batch(t));
            }
            assert forall|c: int| 0 <= c < self.cells@.len() implies #[trigger] self.wf_cell(
                c,
            ) by {
                assert(orig.wf_cell(c));
            }
            assert forall|s2: int, j: int|
                0 <= s2 < self.slots@.len() && 0 <= j
                    < self.slots@[s2].snapshots@.len() implies #[trigger] self.snap_supported(
                s2,
                j,
            ) by {
                assert(orig.snap_supported(s2, j));
                match self.slots@[s2].snapshots@[j].ptr {
                    Some(p) => {
                        lemma_private_update(
                            orig.slots@,
                            s as int,
                            self.slots@[s as int],
                            p as int,
                            RetireKind::Strong,
                        );
                        assert(self.slots@ =~= orig.slots@.update(s as int, self.slots@[s as int]));
                    },
                    None => {},
                }
            }
            assert(self.wf_executed()) by {
                assert forall|t: int, s2: int|
                    0 <= t < self.batches@.len() && 0 <= s2 < self.slots@.len() && (
                    #[trigger] self.batches@[t]).executed implies !(
                #[trigger] self.batch_blocked_by(t, s2)) by {
                    assert(orig.batches@[t].executed);
                    assert(!orig.batch_blocked_by(t, s2));
                    assert(orig.wf_batch(t));
                    if s2 != s as int {
                        assert(self.batch_blocked_by(t, s2) == orig.batch_blocked_by(t, s2));
                    }
                }
            }
        }
        RegionGuard { slot: s }
    }

    /// Register a snapshot record for `ptr` in slot `s`, reusing a free
    /// entry or appending one, pinned at the current epoch. While the record
    /// is registered, no strong count of the pointed-to block can drain
    /// away: the block's value stays live.
    pub fn protect_ptr(&mut self, s: usize, ptr: usize) -> (g: PtrGuard)
        requires
            old(self).wf(),
            (s as int) < old(self).slots@.len(),
            (ptr as int) < old(self).n_blocks() ==> old(self).strong_support(ptr as int) >= 1,
        ensures
            final(self).wf(),
            g.slot_spec() == s,
            (g.entry_spec() as int) < final(self).slots@[s as int].snapshots@.len(),
            final(self).slots@[s as int].snapshots@[g.entry_spec() as int].ptr == Some(ptr),
            final(self).slots@[s as int].snapshots@[g.entry_spec() as int].pin == old(self).epoch,
            final(self).blocks == old(self).blocks,
            final(self).batches == old(self).batches,
            final(self).cells == old(self).cells,
            final(self).epoch == old(self).epoch,
            final(self).graveyard == old(self).graveyard,
            final(self).slots@.len() == old(self).slots@.len(),
            forall|t: int|
                0 <= t < old(self).slots@.len() && t != s as int ==> final(self).slots@[t] == old(
                    self,
                ).slots@[t],
            final(self).slots@[s as int].claimed == old(self).slots@[s as int].claimed,
            final(self).slots@[s as int].batch == old(self).slots@[s as int].batch,
            final(self).slots@[s as int].depth == old(self).slots@[s as int].depth,
            final(self).slots@[s as int].pin == old(self).slots@[s as int].pin,
            forall|j: int|
                0 <= j < old(self).slots@[s as int].snapshots@.len() && j != g.entry_spec() as int
                    ==> final(self).slots@[s as int].snapshots@[j] == old(self).slots@[
                    s as int].snapshots@[j],
            (g.entry_spec() as int) < old(self).slots@[s as int].snapshots@.len() ==> {
                &&& final(self).slots@[s as int].snapshots@.len() == old(self).slots@[
                    s as int].snapshots@.len()
                &&& old(self).slots@[s as int].snapshots@[g.entry_spec() as int].ptr is None
            },
            (g.entry_spec() as int) >= old(self).slots@[s as int].snapshots@.len() ==> {
                &&& g.entry_spec() as int == old(self).slots@[s as int].snapshots@.len()
                &&& final(self).slots@[s as int].snapshots@.len() == old(self).slots@[
                    s as int].snapshots@.len() + 1
            },
    {
        let ghost orig: StandardReclaimer<T> = *self;
        let e = self.epoch;
        let n = self.slots[s].snapshots.len();
        let mut j: usize = 0;
        while j < n
            invariant
                0 <= j <= n,
                (s as int) < self.slots@.len(),
                n == self.slots@[s as int].snapshots@.len(),
                *self == orig,
                orig == *old(self),
                orig.wf(),
                (ptr as int) < orig.n_blocks() ==> orig.strong_support(ptr as int) >= 1,
                e == self.epoch,
            decreases n - j,
        {
            if self.slots[s].snapshots[j].ptr.is_none() {
                let slot = &mut self.slots[s];
                let entry = &mut slot.snapshots[j];
                entry.ptr = Some(ptr);
                entry.pin = e;
                proof {
                    self.protect_ptr_wf(orig, s as int, j as int, ptr);
                }
                return PtrGuard { slot: s, entry: j };
            }
            j = j + 1;
        }
        let slot = &mut self.slots[s];
        slot.snapshots.push(SnapshotEntry { ptr: Some(ptr), pin: e });
        proof {
            self.protect_ptr_wf(orig, s as int, n as int, ptr);
        }
        PtrGuard { slot: s, entry: n }
    }

    /// The re-establishment of the invariant after registering a snapshot:
    /// shared by the reuse and append paths of `protect_ptr`.
    proof fn protect_ptr_wf(self, orig: Self, s: int, j: int, ptr: usize)
        requires
            orig.wf(),
            0 <= s < orig.slots@.len(),
            (ptr as int) < orig.n_blocks() ==> orig.strong_support(ptr as int) >= 1,
            self.blocks == orig.blocks,
            self.batches == orig.batches,
            self.cells == orig.cells,
            self.epoch == orig.epoch,
            self.graveyard == orig.graveyard,
            self.slots@.len() == orig.slots@.len(),
            forall|t: int| 0 <= t < orig.slots@.len() && t != s ==> self.slots@[t] == orig.slots@[t],
            self.slots@[s].claimed == orig.slots@[s].claimed,
            self.slots@[s].batch == orig.slots@[s].batch,
            self.slots@[s].depth == orig.slots@[s].depth,
            self.slots@[s].pin == orig.slots@[s].pin,
            0 <= j < self.slots@[s].snapshots@.len(),
            self.slots@[s].snapshots@[j].ptr == Some(ptr),
            self.slots@[s].snapshots@[j].pin == orig.epoch,
            forall|u: int|
                0 <= u < orig.slots@[s].snapshots@.len() && u != j ==> self.slots@[s].snapshots@[u]
                    == orig.slots@[s].snapshots@[u],
            (self.slots@[s].snapshots@.len() == orig.slots@[s].snapshots@.len() && j
                < orig.slots@[s].snapshots@.len()) || (self.slots@[s].snapshots@.len()
                == orig.slots@[s].snapshots@.len() + 1 && j == orig.slots@[s].snapshots@.len()),
        ensures
            self.wf(),
    {
        assert forall|b: int| 0 <= b < self.n_blocks() implies #[trigger] self.wf_block(b) by {
            assert(orig.wf_block(b));
            lemma_private_update(orig.slots@, s, self.slots@[s], b, RetireKind::Strong);
            lemma_private_update(orig.slots@, s, self.slots@[s], b, RetireKind::Weak);
            assert(self.slots@ =~= orig.slots@.update(s, self.slots@[s]));
        }
        assert forall|s2: int| 0 <= s2 < self.slots@.len() implies #[trigger] self.wf_slot(s2) by {
            assert(orig.wf_slot(s2));
            if s2 == s {
                assert(self.slots@[s2].batch@ == orig.slots@[s2].batch@);
                assert forall|u: int|
                    0 <= u < self.slots@[s2].snapshots@.len() && (#[trigger] self.slots@[
                    s2].snapshots@[u]).ptr is Some implies self.slots@[s2].snapshots@[u].pin
                    <= self.epoch by {
                    if u != j {
                        assert(self.slots@[s2].snapshots@[u] == orig.slots@[s2].snapshots@[u]);
                    }
                }
            }
        }
        assert forall|t: int| 0 <= t < self.batches@.len() implies #[trigger] self.wf_batch(t) by {
            assert(orig.wf_batch(t));
        }
        assert forall|c: int| 0 <= c < self.cells@.len() implies #[trigger] self.wf_cell(c) by {
            assert(orig.wf_cell(c));
        }
        assert forall|s2: int, u: int|
            0 <= s2 < self.slots@.len() && 0 <= u
                < self.slots@[s2].snapshots@.len() implies #[trigger] self.snap_supported(
            s2,
            u,
        ) by {
            lemma_private_update(
                orig.slots@,
                s,
                self.slots@[s],
                match self.slots@[s2].snapshots@[u].ptr {
                    Some(p) => p as int,
                    None => 0,
                },
                RetireKind::Strong,
            );
            assert(self.slots@ =~= orig.slots@.update(s, self.slots@[s]));
            if s2 == s && u == j {
                match self.slots@[s2].snapshots@[u].ptr {
                    Some(p) => {
                        if (p as int) < self.n_blocks() {
                            lemma_unexec_ge_le(self.batches@, p as int, orig.epoch);
                        }
                    },
                    None => {},
                }
            } else {
                if s2 == s {
                    assert(self.slots@[s2].snapshots@[u] == orig.slots@[s2].snapshots@[u]);
                }
                assert(orig.snap_supported(s2, u));
            }
        }
        assert(self.wf_executed()) by {
            assert forall|t: int, s2: int|
                0 <= t < self.batches@.len() && 0 <= s2 < self.slots@.len() && (
                #[trigger] self.batches@[t]).executed implies !(#[trigger] self.batch_blocked_by(
                t,
                s2,
            )) by {
                assert(orig.batches@[t].executed);
                assert(!orig.batch_blocked_by(t, s2));
                assert(orig.wf_batch(t));
                if s2 != s {
                    assert(self.batch_blocked_by(t, s2) == orig.batch_blocked_by(t, s2));
                } else {
                    assert forall|u: int|
                        0 <= u < self.slots@[s2].snapshots@.len() && (#[trigger] self.slots@[
                        s2].snapshots@[u]).ptr is Some implies self.slots@[s2].snapshots@[u].pin
                        > self.batches@[t].tag by {
                        if u != j {
                            assert(self.slots@[s2].snapshots@[u] == orig.slots@[s2].snapshots@[u]);
                        }
                    }
                }
            }
        }
    }
}

} // verus!

verus! {

impl RegionGuard {
    /// The slot whose critical section this guard holds open.
    pub closed spec fn slot_spec(&self) -> usize {
        self.slot
    }

    /// The slot index this guard refers to.
    pub fn slot(&self) -> (s: usize)
        ensures
            s == self.slot_spec(),
    {
        self.slot
    }

    /// Leave the critical section. When the outermost section on the slot
    /// closes, every batch whose tag is no longer pinned anywhere is
    /// executed; whatever stays back is still pinned by some other open
    /// region or registered snapshot.
    pub fn leave<T>(self, r: &mut StandardReclaimer<T>)
        requires
            old(r).wf(),
            (self.slot_spec() as int) < old(r).slots@.len(),
            old(r).slots@[self.slot_spec() as int].depth >= 1,
        ensures
            final(r).wf(),
            final(r).epoch == old(r).epoch,
            final(r).cells == old(r).cells,
            final(r).blocks@.len() == old(r).blocks@.len(),
            final(r).slots@.len() == old(r).slots@.len(),
            forall|t: int|
                0 <= t < old(r).slots@.len() && t != self.slot_spec() as int ==> final(r).slots@[t]
                    == old(r).slots@[t],
            final(r).slots@[self.slot_spec() as int].claimed == old(r).slots@[self.slot_spec() as int].claimed,
            final(r).slots@[self.slot_spec() as int].batch == old(r).slots@[self.slot_spec() as int].batch,
            final(r).slots@[self.slot_spec() as int].snapshots == old(r).slots@[self.slot_spec() as int].snapshots,
            final(r).slots@[self.slot_spec() as int].pin == old(r).slots@[self.slot_spec() as int].pin,
            final(r).slots@[self.slot_spec() as int].depth == old(r).slots@[self.slot_spec() as int].depth
                - 1,
            final(r).batches@.len() == old(r).batches@.len(),
            forall|t: int|
                0 <= t < old(r).batches@.len() ==> {
                    &&& (#[trigger] final(r).batches@[t]).items == old(r).batches@[t].items
                    &&& final(r).batches@[t].tag == old(r).batches@[t].tag
                    &&& (old(r).batches@[t].executed ==> final(r).batches@[t].executed)
                },
            old(r).slots@[self.slot_spec() as int].depth == 1 ==> forall|t: int|
                0 <= t < final(r).batches@.len() && !(#[trigger] final(r).batches@[t]).executed
                    ==> exists|s2: int|
                    0 <= s2 < final(r).slots@.len() && final(r).batch_blocked_by(t, s2),
            old(r).graveyard@.is_prefix_of(final(r).graveyard@),
            forall|b: int|
                0 <= b < old(r).n_blocks() ==> {
                    &&& (#[trigger] final(r).blk(b)).s_owners == old(r).blk(b).s_owners
                    &&& final(r).blk(b).w_owners == old(r).blk(b).w_owners
                    &&& final(r).blk(b).birth == old(r).blk(b).birth
                    &&& (old(r).blk(b).strong.sealed() ==> final(r).blk(b).strong.sealed())
                    &&& (old(r).blk(b).value is None ==> final(r).blk(b).value is None)
                    &&& (final(r).blk(b).value == old(r).blk(b).value || final(r).blk(b).value
                        is None)
                    &&& (!old(r).blk(b).allocated ==> !final(r).blk(b).allocated)
                },
    {
        let ghost orig: StandardReclaimer<T> = *r;
        let s = self.slot;
        let slot = &mut r.slots[s];
        slot.depth = slot.depth - 1;
        let d = slot.depth;
        proof {
            assert forall|b: int| 0 <= b < r.n_blocks() implies #[trigger] r.wf_block(b) by {
                assert(orig.wf_block(b));
                lemma_private_update(orig.slots@, s as int, r.slots@[s as int], b, RetireKind::Strong);
                lemma_private_update(orig.slots@, s as int, r.slots@[s as int], b, RetireKind::Weak);
                assert(r.slots@ =~= orig.slots@.update(s as int, r.slots@[s as int]));
            }
            assert forall|s2: int| 0 <= s2 < r.slots@.len() implies #[trigger] r.wf_slot(s2) by {
                assert(orig.wf_slot(s2));
            }
            assert forall|t: int| 0 <= t < r.batches@.len() implies #[trigger] r.wf_batch(t) by {
                assert(orig.wf_batch(t));
            }
            assert forall|c: int| 0 <= c < r.cells@.len() implies #[trigger] r.wf_cell(c) by {
                assert(orig.wf_cell(c));
            }
            assert forall|s2: int, j: int|
                0 <= s2 < r.slots@.len() && 0 <= j
                    < r.slots@[s2].snapshots@.len() implies #[trigger] r.snap_supported(s2, j) by {
                assert(orig.snap_supported(s2, j));
                match r.slots@[s2].snapshots@[j].ptr {
                    Some(p) => {
                        lemma_private_update(
                            orig.slots@,
                            s as int,
                            r.slots@[s as int],
                            p as int,
                            RetireKind::Strong,
                        );
                        assert(r.slots@ =~= orig.slots@.update(s as int, r.slots@[s as int]));
                    },
                    None => {},
                }
            }
            assert(r.wf_executed()) by {
                assert forall|t: int, s2: int|
                    0 <= t < r.batches@.len() && 0 <= s2 < r.slots@.len() && (
                    #[trigger] r.batches@[t]).executed implies !(#[trigger] r.batch_blocked_by(
                    t,
                    s2,
                )) by {
                    assert(orig.batches@[t].executed);
                    assert(!orig.batch_blocked_by(t, s2));
                    if s2 != s as int {
                        assert(r.batch_blocked_by(t, s2) == orig.batch_blocked_by(t, s2));
                    }
                }
            }
        }
        if d == 0 {
            r.collect();
        }
    }
}

impl PtrGuard {
    /// The slot whose snapshot table holds this guard's record.
    pub closed spec fn slot_spec(&self) -> usize {
        self.slot
    }

    /// The index of this guard's record in that table.
    pub closed spec fn entry_spec(&self) -> usize {
        self.entry
    }

    /// The slot index this guard refers to.
    pub fn slot(&self) -> (s: usize)
        ensures
            s == self.slot_spec(),
    {
        self.slot
    }

    /// The snapshot entry index this guard refers to.
    pub fn entry(&self) -> (j: usize)
        ensures
            j == self.entry_spec(),
    {
        self.entry
    }

    /// Release the snapshot: clear the record and execute every batch that
    /// is no longer pinned anywhere.
    pub fn release<T>(self, r: &mut StandardReclaimer<T>)
        requires
            old(r).wf(),
            (self.slot_spec() as int) < old(r).slots@.len(),
            (self.entry_spec() as int) < old(r).slots@[self.slot_spec() as int].snapshots@.len(),
            old(r).slots@[self.slot_spec() as int].snapshots@[self.entry_spec() as int].ptr is Some,
        ensures
            final(r).wf(),
            final(r).epoch == old(r).epoch,
            final(r).cells == old(r).cells,
            final(r).blocks@.len() == old(r).blocks@.len(),
            final(r).slots@.len() == old(r).slots@.len(),
            forall|t: int|
                0 <= t < old(r).slots@.len() && t != self.slot_spec() as int ==> final(r).slots@[t]
                    == old(r).slots@[t],
            final(r).slots@[self.slot_spec() as int].claimed == old(r).slots@[self.slot_spec() as int].claimed,
            final(r).slots@[self.slot_spec() as int].batch == old(r).slots@[self.slot_spec() as int].batch,
            final(r).slots@[self.slot_spec() as int].depth == old(r).slots@[self.slot_spec() as int].depth,
            final(r).slots@[self.slot_spec() as int].pin == old(r).slots@[self.slot_spec() as int].pin,
            final(r).slots@[self.slot_spec() as int].snapshots@.len() == old(r).slots@[self.slot_spec() as int].snapshots@.len(),
            forall|j: int|
                0 <= j < old(r).slots@[self.slot_spec() as int].snapshots@.len() && j
                    != self.entry_spec() as int ==> final(r).slots@[self.slot_spec() as int].snapshots@[j]
                    == old(r).slots@[self.slot_spec() as int].snapshots@[j],
            final(r).slots@[self.slot_spec() as int].snapshots@[self.entry_spec() as int].ptr is None,
            final(r).batches@.len() == old(r).batches@.len(),
            forall|t: int|
                0 <= t < old(r).batches@.len() ==> {
                    &&& (#[trigger] final(r).batches@[t]).items == old(r).batches@[t].items
                    &&& final(r).batches@[t].tag == old(r).batches@[t].tag
                    &&& (old(r).batches@[t].executed ==> final(r).batches@[t].executed)
                },
            forall|t: int|
                0 <= t < final(r).batches@.len() && !(#[trigger] final(r).batches@[t]).executed
                    ==> exists|s2: int|
                    0 <= s2 < final(r).slots@.len() && final(r).batch_blocked_by(t, s2),
            old(r).graveyard@.is_prefix_of(final(r).graveyard@),
            forall|b: int|
                0 <= b < old(r).n_blocks() ==> {
                    &&& (#[trigger] final(r).blk(b)).s_owners == old(r).blk(b).s_owners
                    &&& final(r).blk(b).w_owners == old(r).blk(b).w_owners
                    &&& final(r).blk(b).birth == old(r).blk(b).birth
                    &&& (old(r).blk(b).strong.sealed() ==> final(r).blk(b).strong.sealed())
                    &&& (old(r).blk(b).value is None ==> final(r).blk(b).value is None)
                    &&& (final(r).blk(b).value == old(r).blk(b).value || final(r).blk(b).value
                        is None)
                    &&& (!old(r).blk(b).allocated ==> !final(r).blk(b).allocated)
                },
    {
        let ghost orig: StandardReclaimer<T> = *r;
        let s = self.slot;
        let j = self.entry;
        let slot = &mut r.slots[s];
        let entry = &mut slot.snapshots[j];
        entry.ptr = None;
        proof {
            assert forall|b: int| 0 <= b < r.n_blocks() implies #[trigger] r.wf_block(b) by {
                assert(orig.wf_block(b));
                lemma_private_update(orig.slots@, s as int, r.slots@[s as int], b, RetireKind::Strong);
                lemma_private_update(orig.slots@, s as int, r.slots@[s as int], b, RetireKind::Weak);
                assert(r.slots@ =~= orig.slots@.update(s as int, r.slots@[s as int]));
            }
            assert forall|s2: int| 0 <= s2 < r.slots@.len() implies #[trigger] r.wf_slot(s2) by {
                assert(orig.wf_slot(s2));
            }
            assert forall|t: int| 0 <= t < r.batches@.len() implies #[trigger] r.wf_batch(t) by {
                assert(orig.wf_batch(t));
            }
            assert forall|c: int| 0 <= c < r.cells@.len() implies #[trigger] r.wf_cell(c) by {
                assert(orig.wf_cell(c));
            }
            assert forall|s2: int, u: int|
                0 <= s2 < r.slots@.len() && 0 <= u
                    < r.slots@[s2].snapshots@.len() implies #[trigger] r.snap_supported(s2, u) by {
                match r.slots@[s2].snapshots@[u].ptr {
                    Some(p) => {
                        assert(!(s2 == s as int && u == j as int));
                        assert(r.slots@[s2].snapshots@[u] == orig.slots@[s2].snapshots@[u]);
                        assert(orig.snap_supported(s2, u));
                        lemma_private_update(
                            orig.slots@,
                            s as int,
                            r.slots@[s as int],
                            p as int,
                            RetireKind::Strong,
                        );
                        assert(r.slots@ =~= orig.slots@.update(s as int, r.slots@[s as int]));
                    },
                    None => {},
                }
            }
            assert(r.wf_executed()) by {
                assert forall|t: int, s2: int|
                    0 <= t < r.batches@.len() && 0 <= s2 < r.slots@.len() && (
                    #[trigger] r.batches@[t]).executed implies !(#[trigger] r.batch_blocked_by(
                    t,
                    s2,
                )) by {
                    assert(orig.batches@[t].executed);
                    assert(!orig.batch_blocked_by(t, s2));
                    if s2 != s as int {
                        assert(r.batch_blocked_by(t, s2) == orig.batch_blocked_by(t, s2));
                    } else {
                        assert forall|u: int|
                            0 <= u < r.slots@[s2].snapshots@.len() && (#[trigger] r.slots@[
                            s2].snapshots@[u]).ptr is Some implies r.slots@[s2].snapshots@[u].pin
                            > r.batches@[t].tag by {
                            assert(r.slots@[s2].snapshots@[u] == orig.slots@[s2].snapshots@[u]);
                        }
                    }
                }
            }
        }
        r.collect();
    }
}

} // verus!

verus! {

impl<T> StandardReclaimer<T> {
    /// Create a cell. `None` makes an empty cell; `Some(v)` allocates a
    /// fresh block for `v` whose single strong count is held by the cell
    /// itself.
    pub(crate) fn new_cell_with(&mut self, data: Option<T>) -> (c: usize)
        requires
            old(self).wf(),
        ensures
            final(self).wf(),
            c as int == old(self).cells@.len(),
            final(self).cells@.len() == old(self).cells@.len() + 1,
            forall|t: int|
                0 <= t < old(self).cells@.len() ==> final(self).cells@[t] == old(self).cells@[t],
            final(self).slots == old(self).slots,
            final(self).batches == old(self).batches,
            final(self).epoch == old(self).epoch,
            final(self).graveyard == old(self).graveyard,
            forall|i: int|
                0 <= i < old(self).n_blocks() ==> final(self).blocks@[i] == old(self).blocks@[i],
            old(self).graveyard == final(self).graveyard,
            data is None ==> final(self).blocks == old(self).blocks && final(self).cells@[c as int]
                is None,
            data is Some ==> {
                &&& final(self).n_blocks() == old(self).n_blocks() + 1
                &&& final(self).cells@[c as int] == Some((old(self).n_blocks()) as usize)
                &&& final(self).blk(old(self).n_blocks()).value == data
                &&& final(self).blk(old(self).n_blocks()).strong.count() == 1
                &&& !final(self).blk(old(self).n_blocks()).strong.sealed()
                &&& final(self).blk(old(self).n_blocks()).weak == 1
                &&& final(self).blk(old(self).n_blocks()).allocated
                &&& final(self).blk(old(self).n_blocks()).s_owners@ == 0
                &&& final(self).blk(old(self).n_blocks()).w_owners@ == 0
            },
    {
        let ghost orig: StandardReclaimer<T> = *self;
        match data {
            None => {
                let c = self.cells.len();
                self.cells.push(None);
                proof {
                    assert forall|b: int| 0 <= b < self.n_blocks() implies #[trigger] self.wf_block(
                        b,
                    ) by {
                        assert(orig.wf_block(b));
                        lemma_cells_push(orig.cells@, None, b);
                        assert(self.cells@ =~= orig.cells@.push(None));
                    }
                    Self::lemma_carry_non_block_cells(orig, *self);
                    assert forall|s: int, j: int|
                        0 <= s < self.slots@.len() && 0 <= j
                            < self.slots@[s].snapshots@.len() implies #[trigger] self.snap_supported(
                        s,
                        j,
                    ) by {
                        assert(orig.snap_supported(s, j));
                        match self.slots@[s].snapshots@[j].ptr {
                            Some(p) => {
                                lemma_cells_push(orig.cells@, None, p as int);
                                assert(self.cells@ =~= orig.cells@.push(None));
                            },
                            None => {},
                        }
                    }
                }
                c
            },
            Some(v) => {
                let b = self.blocks.len();
                let counter: StickyCounter = Default::default();
                self.blocks.push(
                    Block {
                        value: Some(v),
                        strong: counter,
                        weak: 1,
                        allocated: true,
                        birth: self.epoch,
                        s_owners: Ghost(0),
                        w_owners: Ghost(0),
                    },
                );
                let c = self.cells.len();
                self.cells.push(Some(b));
                proof {
                    orig.lemma_fresh_sums_zero(b as int);
                    assert forall|i: int| 0 <= i < self.n_blocks() implies #[trigger] self.wf_block(
                        i,
                    ) by {
                        assert(self.cells@ =~= orig.cells@.push(Some(b as usize)));
                        lemma_cells_push(orig.cells@, Some(b), i);
                        if i < orig.n_blocks() {
                            assert(orig.wf_block(i));
                        } else {
                            crate::counter::lemma_counter_facts(self.blk(i).strong);
                        }
                    }
                    Self::lemma_carry_non_block_cells(orig, *self);
                    assert forall|s: int, j: int|
                        0 <= s < self.slots@.len() && 0 <= j
                            < self.slots@[s].snapshots@.len() implies #[trigger] self.snap_supported(
                        s,
                        j,
                    ) by {
                        assert(orig.snap_supported(s, j));
                        match self.slots@[s].snapshots@[j].ptr {
                            Some(p) => {
                                lemma_cells_push(orig.cells@, Some(b), p as int);
                                assert(self.cells@ =~= orig.cells@.push(Some(b as usize)));
                                lemma_unexec_ge_le(
                                    self.batches@,
                                    p as int,
                                    self.slots@[s].snapshots@[j].pin,
                                );
                            },
                            None => {},
                        }
                    }
                }
                c
            },
        }
    }

    /// Create a cell that stores a live block, taking a fresh strong count
    /// on it for the cell.
    pub(crate) fn new_cell_from(&mut self, b: usize) -> (c: usize)
        requires
            old(self).wf(),
            (b as int) < old(self).n_blocks(),
            !old(self).blk(b as int).strong.sealed(),
            old(self).blk(b as int).strong.headroom(),
        ensures
            final(self).wf(),
            c as int == old(self).cells@.len(),
            final(self).cells@.len() == old(self).cells@.len() + 1,
            forall|t: int|
                0 <= t < old(self).cells@.len() ==> final(self).cells@[t] == old(self).cells@[t],
            final(self).cells@[c as int] == Some(b),
            final(self).slots == old(self).slots,
            final(self).batches == old(self).batches,
            final(self).epoch == old(self).epoch,
            final(self).graveyard == old(self).graveyard,
            final(self).blocks@.len() == old(self).blocks@.len(),
            forall|i: int|
                0 <= i < old(self).n_blocks() && i != b as int ==> final(self).blocks@[i] == old(
                    self,
                ).blocks@[i],
            final(self).blk(b as int).s_owners == old(self).blk(b as int).s_owners,
            final(self).blk(b as int).w_owners == old(self).blk(b as int).w_owners,
            final(self).blk(b as int).strong.count() == old(self).blk(b as int).strong.count() + 1,
            !final(self).blk(b as int).strong.sealed(),
            final(self).blk(b as int).value == old(self).blk(b as int).value,
            final(self).blk(b as int).weak == old(self).blk(b as int).weak,
            final(self).blk(b as int).allocated == old(self).blk(b as int).allocated,
            final(self).blk(b as int).birth == old(self).blk(b as int).birth,
    {
        let ghost orig: StandardReclaimer<T> = *self;
        proof {
            assert(orig.wf_block(b as int));
        }
        let blk = &mut self.blocks[b];
        blk.strong.increment();
        let c = self.cells.len();
        self.cells.push(Some(b));
        proof {
            assert forall|i: int| 0 <= i < self.n_blocks() implies #[trigger] self.wf_block(i) by {
                assert(orig.wf_block(i));
                lemma_cells_push(orig.cells@, Some(b), i);
                assert(self.cells@ =~= orig.cells@.push(Some(b as usize)));
            }
            Self::lemma_carry_non_block_cells(orig, *self);
            assert forall|s: int, j: int|
                0 <= s < self.slots@.len() && 0 <= j
                    < self.slots@[s].snapshots@.len() implies #[trigger] self.snap_supported(
                s,
                j,
            ) by {
                assert(orig.snap_supported(s, j));
                match self.slots@[s].snapshots@[j].ptr {
                    Some(p) => {
                        lemma_cells_push(orig.cells@, Some(b), p as int);
                        assert(self.cells@ =~= orig.cells@.push(Some(b as usize)));
                    },
                    None => {},
                }
            }
        }
        c
    }

    /// Like `lemma_carry_non_block`, but allowing the cell table to have
    /// changed: everything except `wf_cell` and the cell-dependent parts.
    proof fn lemma_carry_non_block_cells(pre: Self, post: Self)
        requires
            pre.wf(),
            post.slots == pre.slots,
            post.batches == pre.batches,
            post.epoch == pre.epoch,
            post.n_blocks() >= pre.n_blocks(),
            post.cells@.len() >= pre.cells@.len(),
            forall|c: int| 0 <= c < pre.cells@.len() ==> post.cells@[c] == pre.cells@[c],
            forall|c: int|
                pre.cells@.len() <= c < post.cells@.len() ==> (match #[trigger] post.cells@[c] {
                    Some(p) => (p as int) < post.n_blocks(),
                    None => true,
                }),
        ensures
            forall|s: int| 0 <= s < post.slots@.len() ==> #[trigger] post.wf_slot(s),
            forall|t: int| 0 <= t < post.batches@.len() ==> #[trigger] post.wf_batch(t),
            forall|c: int| 0 <= c < post.cells@.len() ==> #[trigger] post.wf_cell(c),
            post.wf_executed(),
    {
        assert forall|s: int| 0 <= s < post.slots@.len() implies #[trigger] post.wf_slot(s) by {
            assert(pre.wf_slot(s));
        }
        assert forall|t: int| 0 <= t < post.batches@.len() implies #[trigger] post.wf_batch(t) by {
            assert(pre.wf_batch(t));
        }
        assert forall|c: int| 0 <= c < post.cells@.len() implies #[trigger] post.wf_cell(c) by {
            if c < pre.cells@.len() {
                assert(pre.wf_cell(c));
            }
        }
        assert(post.wf_executed()) by {
            assert forall|t: int, s: int|
                0 <= t < post.batches@.len() && 0 <= s < post.slots@.len() && (
                #[trigger] post.batches@[t]).executed implies !(#[trigger] post.batch_blocked_by(
                t,
                s,
            )) by {
                assert(pre.batches@[t].executed);
                assert(!pre.batch_blocked_by(t, s));
                assert(post.batch_blocked_by(t, s) == pre.batch_blocked_by(t, s));
            }
        }
    }

    /// What cell `c` currently stores.
    pub(crate) fn cell_ptr(&self, c: usize) -> (p: Option<usize>)
        requires
            (c as int) < self.cells@.len(),
        ensures
            p == self.cells@[c as int],
    {
        self.cells[c]
    }
}

} // verus!

verus! {

impl<T> StandardReclaimer<T> {
    /// Store `new` into cell `c`: take a fresh strong count for the cell on
    /// the incoming block, and retire the displaced block's count through
    /// slot `s` for deferred release.
    pub(crate) fn cell_store(&mut self, s: usize, c: usize, new: Option<usize>)
        requires
            old(self).wf(),
            (s as int) < old(self).slots@.len(),
            (c as int) < old(self).cells@.len(),
            match new {
                Some(nb) => (nb as int) < old(self).n_blocks() && !old(self).blk(
                    nb as int,
                ).strong.sealed() && old(self).blk(nb as int).strong.headroom(),
                None => true,
            },
            old(self).epoch < u64::MAX,
        ensures
            final(self).wf(),
            old(self).epoch <= final(self).epoch <= old(self).epoch + 1,
            final(self).graveyard == old(self).graveyard,
            final(self).cells@.len() == old(self).cells@.len(),
            forall|t: int|
                0 <= t < old(self).cells@.len() && t != c as int ==> final(self).cells@[t] == old(
                    self,
                ).cells@[t],
            final(self).cells@[c as int] == new,
            final(self).blocks@.len() == old(self).blocks@.len(),
            final(self).slots@.len() == old(self).slots@.len(),
            forall|t: int|
                0 <= t < old(self).slots@.len() ==> {
                    &&& (#[trigger] final(self).slots@[t]).claimed == old(self).slots@[t].claimed
                    &&& final(self).slots@[t].depth == old(self).slots@[t].depth
                    &&& final(self).slots@[t].pin == old(self).slots@[t].pin
                    &&& final(self).slots@[t].snapshots == old(self).slots@[t].snapshots
                },
            forall|t: int|
                0 <= t < old(self).batches@.len() ==> final(self).batches@[t] == old(
                    self,
                ).batches@[t],
            forall|b: int|
                0 <= b < old(self).n_blocks() ==> {
                    &&& (#[trigger] final(self).blk(b)).s_owners == old(self).blk(b).s_owners
                    &&& final(self).blk(b).w_owners == old(self).blk(b).w_owners
                    &&& final(self).blk(b).birth == old(self).blk(b).birth
                    &&& final(self).blk(b).strong.count() == old(self).blk(b).strong.count() + (
                    if cell_is(new, b) {
                        1int
                    } else {
                        0int
                    })
                    &&& final(self).blk(b).strong.sealed() == old(self).blk(b).strong.sealed()
                    &&& final(self).blk(b).value == old(self).blk(b).value
                    &&& final(self).blk(b).weak == old(self).blk(b).weak
                    &&& final(self).blk(b).allocated == old(self).blk(b).allocated
                },
            forall|b: int|
                #![trigger final(self).strong_pending(b)]
                #![trigger final(self).weak_pending(b)]
                final(self).strong_pending(b) == old(self).strong_pending(b) + (if cell_is(
                    old(self).cells@[c as int],
                    b,
                ) {
                    1int
                } else {
                    0int
                }) && final(self).weak_pending(b) == old(self).weak_pending(b),
    {
        let ghost orig: StandardReclaimer<T> = *self;
        match new {
            Some(nb) => {
                proof {
                    assert(orig.wf_block(nb as int));
                }
                let blk = &mut self.blocks[nb];
                blk.strong.increment();
            },
            None => {},
        }
        let prev = self.cells[c];
        self.cells.set(c, new);
        let ghost mid: StandardReclaimer<T> = *self;
        match prev {
            Some(ob) => {
                proof {
                    assert(orig.wf_cell(c as int));
                }
                let slot = &mut self.slots[s];
                slot.batch.push(Retirement { block: ob, kind: RetireKind::Strong });
            },
            None => {},
        }
        proof {
            let it = Retirement {
                block: match prev {
                    Some(ob) => ob,
                    None => 0,
                },
                kind: RetireKind::Strong,
            };
            assert forall|b: int| 0 <= b < self.n_blocks() implies #[trigger] self.wf_block(b) by {
                assert(orig.wf_block(b));
                lemma_cells_update(orig.cells@, c as int, new, b);
                assert(self.cells@ =~= orig.cells@.update(c as int, new));
                match prev {
                    Some(ob) => {
                        lemma_ret_count_push(
                            orig.slots@[s as int].batch@,
                            it,
                            b,
                            RetireKind::Strong,
                        );
                        lemma_ret_count_push(orig.slots@[s as int].batch@, it, b, RetireKind::Weak);
                        lemma_private_update(
                            orig.slots@,
                            s as int,
                            self.slots@[s as int],
                            b,
                            RetireKind::Strong,
                        );
                        lemma_private_update(
                            orig.slots@,
                            s as int,
                            self.slots@[s as int],
                            b,
                            RetireKind::Weak,
                        );
                        assert(self.slots@ =~= orig.slots@.update(s as int, self.slots@[s as int]));
                    },
                    None => {},
                }
            }
            assert forall|s2: int| 0 <= s2 < self.slots@.len() implies #[trigger] self.wf_slot(
                s2,
            ) by {
                assert(orig.wf_slot(s2));
            }
            assert forall|t: int| 0 <= t < self.batches@.len() implies #[trigger] self.wf_batch(
                t,
            ) by {
                assert(orig.wf_batch(t));
            }
            assert forall|c2: int| 0 <= c2 < self.cells@.len() implies #[trigger] self.wf_cell(
                c2,
            ) by {
                assert(orig.wf_cell(c2));
            }
            assert forall|s2: int, j: int|
                0 <= s2 < self.slots@.len() && 0 <= j
                    < self.slots@[s2].snapshots@.len() implies #[trigger] self.snap_supported(
                s2,
                j,
            ) by {
                assert(orig.snap_supported(s2, j));
                match self.slots@[s2].snapshots@[j].ptr {
                    Some(p) => {
                        lemma_cells_update(orig.cells@, c as int, new, p as int);
                        assert(self.cells@ =~= orig.cells@.update(c as int, new));
                        match prev {
                            Some(ob) => {
                                lemma_ret_count_push(
                                    orig.slots@[s as int].batch@,
                                    it,
                                    p as int,
                                    RetireKind::Strong,
                                );
                                lemma_private_update(
                                    orig.slots@,
                                    s as int,
                                    self.slots@[s as int],
                                    p as int,
                                    RetireKind::Strong,
                                );
                                assert(self.slots@ =~= orig.slots@.update(
                                    s as int,
                                    self.slots@[s as int],
                                ));
                            },
                            None => {},
                        }
                    },
                    None => {},
                }
            }
            assert(self.wf_executed()) by {
                assert forall|t: int, s2: int|
                    0 <= t < self.batches@.len() && 0 <= s2 < self.slots@.len() && (
                    #[trigger] self.batches@[t]).executed implies !(
                #[trigger] self.batch_blocked_by(t, s2)) by {
                    assert(orig.batches@[t].executed);
                    assert(!orig.batch_blocked_by(t, s2));
                    assert(self.batch_blocked_by(t, s2) == orig.batch_blocked_by(t, s2));
                }
            }
        }
        proof {
            let it = Retirement {
                block: match prev {
                    Some(ob) => ob,
                    None => 0,
                },
                kind: RetireKind::Strong,
            };
            assert forall|b: int|
                #![trigger self.strong_pending(b)]
                #![trigger self.weak_pending(b)]
                self.strong_pending(b) == orig.strong_pending(b) + (if cell_is(
                    orig.cells@[c as int],
                    b,
                ) {
                    1int
                } else {
                    0int
                }) && self.weak_pending(b) == orig.weak_pending(b) by {
                match prev {
                    Some(ob) => {
                        lemma_ret_count_push(
                            orig.slots@[s as int].batch@,
                            it,
                            b,
                            RetireKind::Strong,
                        );
                        lemma_ret_count_push(orig.slots@[s as int].batch@, it, b, RetireKind::Weak);
                        lemma_private_update(
                            orig.slots@,
                            s as int,
                            self.slots@[s as int],
                            b,
                            RetireKind::Strong,
                        );
                        lemma_private_update(
                            orig.slots@,
                            s as int,
                            self.slots@[s as int],
                            b,
                            RetireKind::Weak,
                        );
                        assert(self.slots@ =~= orig.slots@.update(s as int, self.slots@[s as int]));
                    },
                    None => {},
                }
            }
        }
        if self.slots[s].batch.len() >= self.slots.len() {
            // Publish now; the batch executes lazily, at the next point
            // where a protection is released or a cleanup runs.
            self.publish(s);
        }
    }

    /// Swap `new` into cell `c`, handing the displaced block's strong count
    /// to the caller, who will hold it as a strong handle.
    pub(crate) fn cell_swap(&mut self, c: usize, new: Option<usize>) -> (prev: Option<usize>)
        requires
            old(self).wf(),
            (c as int) < old(self).cells@.len(),
            match new {
                Some(nb) => (nb as int) < old(self).n_blocks() && !old(self).blk(
                    nb as int,
                ).strong.sealed() && old(self).blk(nb as int).strong.headroom(),
                None => true,
            },
        ensures
            final(self).wf(),
            prev == old(self).cells@[c as int],
            final(self).cells@.len() == old(self).cells@.len(),
            forall|t: int|
                0 <= t < old(self).cells@.len() && t != c as int ==> final(self).cells@[t] == old(
                    self,
                ).cells@[t],
            final(self).cells@[c as int] == new,
            final(self).slots == old(self).slots,
            final(self).batches == old(self).batches,
            final(self).epoch == old(self).epoch,
            final(self).graveyard == old(self).graveyard,
            final(self).blocks@.len() == old(self).blocks@.len(),
            prev is Some ==> (prev.unwrap() as int) < old(self).n_blocks(),
            forall|b: int|
                0 <= b < old(self).n_blocks() ==> {
                    &&& (#[trigger] final(self).blk(b)).s_owners@ == old(self).blk(b).s_owners@ + (
                    if cell_is(old(self).cells@[c as int], b) {
                        1int
                    } else {
                        0int
                    })
                    &&& final(self).blk(b).w_owners == old(self).blk(b).w_owners
                    &&& final(self).blk(b).birth == old(self).blk(b).birth
                    &&& final(self).blk(b).strong.count() == old(self).blk(b).strong.count() + (
                    if cell_is(new, b) {
                        1int
                    } else {
                        0int
                    })
                    &&& final(self).blk(b).strong.sealed() == old(self).blk(b).strong.sealed()
                    &&& final(self).blk(b).value == old(self).blk(b).value
                    &&& final(self).blk(b).weak == old(self).blk(b).weak
                    &&& final(self).blk(b).allocated == old(self).blk(b).allocated
                },
    {
        let ghost orig: StandardReclaimer<T> = *self;
        match new {
            Some(nb) => {
                proof {
                    assert(orig.wf_block(nb as int));
                }
                let blk = &mut self.blocks[nb];
                blk.strong.increment();
            },
            None => {},
        }
        let prev = self.cells[c];
        self.cells.set(c, new);
        match prev {
            Some(ob) => {
                proof {
                    assert(orig.wf_cell(c as int));
                }
                let blk = &mut self.blocks[ob];
                blk.s_owners = Ghost(blk.s_owners@ + 1);
            },
            None => {},
        }
        proof {
            assert forall|b: int| 0 <= b < self.n_blocks() implies #[trigger] self.wf_block(b) by {
                assert(orig.wf_block(b));
                lemma_cells_update(orig.cells@, c as int, new, b);
                assert(self.cells@ =~= orig.cells@.update(c as int, new));
            }
            assert forall|s2: int| 0 <= s2 < self.slots@.len() implies #[trigger] self.wf_slot(
                s2,
            ) by {
                assert(orig.wf_slot(s2));
            }
            assert forall|t: int| 0 <= t < self.batches@.len() implies #[trigger] self.wf_batch(
                t,
            ) by {
                assert(orig.wf_batch(t));
            }
            assert forall|c2: int| 0 <= c2 < self.cells@.len() implies #[trigger] self.wf_cell(
                c2,
            ) by {
                assert(orig.wf_cell(c2));
            }
            assert(self.wf_executed()) by {
                assert forall|t: int, s2: int|
                    0 <= t < self.batches@.len() && 0 <= s2 < self.slots@.len() && (
                    #[trigger] self.batches@[t]).executed implies !(
                #[trigger] self.batch_blocked_by(t, s2)) by {
                    assert(orig.batches@[t].executed);
                    assert(!orig.batch_blocked_by(t, s2));
                    assert(self.batch_blocked_by(t, s2) == orig.batch_blocked_by(t, s2));
                }
            }
            assert forall|s2: int, j: int|
                0 <= s2 < self.slots@.len() && 0 <= j
                    < self.slots@[s2].snapshots@.len() implies #[trigger] self.snap_supported(
                s2,
                j,
            ) by {
                assert(orig.snap_supported(s2, j));
                match self.slots@[s2].snapshots@[j].ptr {
                    Some(p) => {
                        lemma_cells_update(orig.cells@, c as int, new, p as int);
                        assert(self.cells@ =~= orig.cells@.update(c as int, new));
                    },
                    None => {},
                }
            }
        }
        prev
    }
}

} // verus!

verus! {

impl<T> StandardReclaimer<T> {
    /// How many critical sections slot `s` currently has open.
    pub fn critical_sections(&self, s: usize) -> (d: u64)
        requires
            (s as int) < self.slots@.len(),
        ensures
            d == self.slots@[s as int].depth,
    {
        self.slots[s].depth
    }

    /// What snapshot entry `j` of slot `s` currently protects.
    pub fn snapshot_ptr(&self, s: usize, j: usize) -> (p: Option<usize>)
        requires
            (s as int) < self.slots@.len(),
            (j as int) < self.slots@[s as int].snapshots@.len(),
        ensures
            p == self.slots@[s as int].snapshots@[j as int].ptr,
    {
        self.slots[s].snapshots[j].ptr
    }

    /// Whether block `b`'s memory is still allocated.
    pub fn is_allocated(&self, b: usize) -> (a: bool)
        requires
            (b as int) < self.n_blocks(),
        ensures
            a == self.blk(b as int).allocated,
    {
        self.blocks[b].allocated
    }

    /// Whether block `b`'s value has not been dropped yet.
    pub fn value_live(&self, b: usize) -> (a: bool)
        requires
            (b as int) < self.n_blocks(),
        ensures
            a == (self.blk(b as int).value is Some),
    {
        self.blocks[b].value.is_some()
    }

    /// Read access to a live block's value.
    pub(crate) fn block_value(&self, b: usize) -> (v: &T)
        requires
            (b as int) < self.n_blocks(),
            self.blk(b as int).value is Some,
        ensures
            *v == self.blk(b as int).value.unwrap(),
    {
        self.blocks[b].value.as_ref().unwrap()
    }

    /// Take every value whose drop has run. The drops themselves cannot run
    /// user code in the model, so the dropped values are surfaced here; a
    /// caller plays the role of the user `Drop` implementations, for
    /// example by retiring handles the values carried.
    pub fn take_graveyard(&mut self) -> (g: Vec<T>)
        requires
            old(self).wf(),
        ensures
            final(self).wf(),
            g == old(self).graveyard,
            final(self).graveyard@.len() == 0,
            final(self).epoch == old(self).epoch,
            final(self).blocks == old(self).blocks,
            final(self).slots == old(self).slots,
            final(self).batches == old(self).batches,
            final(self).cells == old(self).cells,
    {
        let ghost orig: StandardReclaimer<T> = *self;
        let mut g: Vec<T> = Vec::new();
        core::mem::swap(&mut self.graveyard, &mut g);
        proof {
            assert forall|b: int| 0 <= b < self.n_blocks() implies #[trigger] self.wf_block(b) by {
                assert(orig.wf_block(b));
            }
            Self::lemma_carry_non_block(orig, *self);
            assert forall|s: int, j: int|
                0 <= s < self.slots@.len() && 0 <= j
                    < self.slots@[s].snapshots@.len() implies #[trigger] self.snap_supported(
                s,
                j,
            ) by {
                assert(orig.snap_supported(s, j));
            }
        }
        g
    }

    /// Unclaim slot `s` on a participant's way out: publish whatever its
    /// private batch still holds and execute everything no longer pinned.
    /// The slot itself stays in the table for the next claimant.
    pub fn leave_slot(&mut self, s: usize)
        requires
            old(self).wf(),
            (s as int) < old(self).slots@.len(),
            old(self).slots@[s as int].depth == 0,
            old(self).epoch < u64::MAX,
        ensures
            final(self).wf(),
            old(self).epoch <= final(self).epoch <= old(self).epoch + 1,
            final(self).slots@.len() == old(self).slots@.len(),
            !final(self).slots@[s as int].claimed,
            final(self).slots@[s as int].batch@.len() == 0,
            final(self).cells == old(self).cells,
            final(self).blocks@.len() == old(self).blocks@.len(),
            forall|t: int|
                0 <= t < final(self).batches@.len()
                    && !(#[trigger] final(self).batches@[t]).executed ==> exists|s2: int|
                    0 <= s2 < final(self).slots@.len() && final(self).batch_blocked_by(t, s2),
            forall|b: int|
                0 <= b < old(self).n_blocks() ==> {
                    &&& (#[trigger] final(self).blk(b)).s_owners == old(self).blk(b).s_owners
                    &&& final(self).blk(b).w_owners == old(self).blk(b).w_owners
                    &&& (old(self).blk(b).strong.sealed() ==> final(self).blk(b).strong.sealed())
                    &&& (old(self).blk(b).value is None ==> final(self).blk(b).value is None)
                    &&& (final(self).blk(b).value == old(self).blk(b).value || final(self).blk(
                        b,
                    ).value is None)
                    &&& (!old(self).blk(b).allocated ==> !final(self).blk(b).allocated)
                },
            old(self).graveyard@.is_prefix_of(final(self).graveyard@),
    {
        let ghost orig: StandardReclaimer<T> = *self;
        let slot = &mut self.slots[s];
        slot.claimed = false;
        proof {
            assert forall|b: int| 0 <= b < self.n_blocks() implies #[trigger] self.wf_block(b) by {
                assert(orig.wf_block(b));
                lemma_private_update(
                    orig.slots@,
                    s as int,
                    self.slots@[s as int],
                    b,
                    RetireKind::Strong,
                );
                lemma_private_update(
                    orig.slots@,
                    s as int,
                    self.slots@[s as int],
                    b,
                    RetireKind::Weak,
                );
                assert(self.slots@ =~= orig.slots@.update(s as int, self.slots@[s as int]));
            }
            assert forall|s2: int| 0 <= s2 < self.slots@.len() implies #[trigger] self.wf_slot(
                s2,
            ) by {
                assert(orig.wf_slot(s2));
            }
            assert forall|t: int| 0 <= t < self.batches@.len() implies #[trigger] self.wf_batch(
                t,
            ) by {
                assert(orig.wf_batch(t));
            }
            assert forall|c: int| 0 <= c < self.cells@.len() implies #[trigger] self.wf_cell(
                c,
            ) by {
                assert(orig.wf_cell(c));
            }
            assert forall|s2: int, j: int|
                0 <= s2 < self.slots@.len() && 0 <= j
                    < self.slots@[s2].snapshots@.len() implies #[trigger] self.snap_supported(
                s2,
                j,
            ) by {
                assert(orig.snap_supported(s2, j));
                match self.slots@[s2].snapshots@[j].ptr {
                    Some(p) => {
                        lemma_private_update(
                            orig.slots@,
                            s as int,
                            self.slots@[s as int],
                            p as int,
                            RetireKind::Strong,
                        );
                        assert(self.slots@ =~= orig.slots@.update(s as int, self.slots@[s as int]));
                    },
                    None => {},
                }
            }
            assert(self.wf_executed()) by {
                assert forall|t: int, s2: int|
                    0 <= t < self.batches@.len() && 0 <= s2 < self.slots@.len() && (
                    #[trigger] self.batches@[t]).executed implies !(
                #[trigger] self.batch_blocked_by(t, s2)) by {
                    assert(orig.batches@[t].executed);
                    assert(!orig.batch_blocked_by(t, s2));
                    assert(self.batch_blocked_by(t, s2) == orig.batch_blocked_by(t, s2));
                }
            }
        }
        if self.slots[s].batch.len() > 0 {
            self.publish(s);
        }
        self.collect();
    }

    /// Publish and try to execute the retirements of slot `s` without
    /// leaving it.
    pub fn cleanup_owned_slot(&mut self, s: usize)
        requires
            old(self).wf(),
            (s as int) < old(self).slots@.len(),
            old(self).epoch < u64::MAX,
        ensures
            final(self).wf(),
            old(self).epoch <= final(self).epoch <= old(self).epoch + 1,
            final(self).slots@.len() == old(self).slots@.len(),
            final(self).slots@[s as int].batch@.len() == 0,
            forall|t: int|
                0 <= t < old(self).slots@.len() ==> {
                    &&& (#[trigger] final(self).slots@[t]).claimed == old(self).slots@[t].claimed
                    &&& final(self).slots@[t].depth == old(self).slots@[t].depth
                    &&& final(self).slots@[t].pin == old(self).slots@[t].pin
                    &&& final(self).slots@[t].snapshots == old(self).slots@[t].snapshots
                },
            forall|t: int|
                0 <= t < old(self).slots@.len() && t != s as int
                    ==> (#[trigger] final(self).slots@[t]).batch == old(self).slots@[t].batch,
            final(self).cells == old(self).cells,
            final(self).blocks@.len() == old(self).blocks@.len(),
            forall|t: int|
                0 <= t < final(self).batches@.len()
                    && !(#[trigger] final(self).batches@[t]).executed ==> exists|s2: int|
                    0 <= s2 < final(self).slots@.len() && final(self).batch_blocked_by(t, s2),
            forall|b: int|
                0 <= b < old(self).n_blocks() ==> {
                    &&& (#[trigger] final(self).blk(b)).s_owners == old(self).blk(b).s_owners
                    &&& final(self).blk(b).w_owners == old(self).blk(b).w_owners
                    &&& (old(self).blk(b).strong.sealed() ==> final(self).blk(b).strong.sealed())
                    &&& (old(self).blk(b).value is None ==> final(self).blk(b).value is None)
                    &&& (final(self).blk(b).value == old(self).blk(b).value || final(self).blk(
                        b,
                    ).value is None)
                    &&& (!old(self).blk(b).allocated ==> !final(self).blk(b).allocated)
                },
            old(self).graveyard@.is_prefix_of(final(self).graveyard@),
    {
        if self.slots[s].batch.len() > 0 {
            self.publish(s);
        }
        self.collect();
    }

    /// Publish every slot's private batch and execute everything that no
    /// open critical section or registered snapshot still pins.
    pub fn cleanup(&mut self)
        requires
            old(self).wf(),
            old(self).epoch + old(self).slots@.len() < u64::MAX,
        ensures
            final(self).wf(),
            old(self).epoch <= final(self).epoch,
            final(self).epoch <= old(self).epoch + old(self).slots@.len(),
            final(self).slots@.len() == old(self).slots@.len(),
            forall|t: int|
                0 <= t < old(self).slots@.len()
                    ==> (#[trigger] final(self).slots@[t]).batch@.len() == 0,
            forall|t: int|
                0 <= t < old(self).slots@.len() ==> {
                    &&& (#[trigger] final(self).slots@[t]).claimed == old(self).slots@[t].claimed
                    &&& final(self).slots@[t].depth == old(self).slots@[t].depth
                    &&& final(self).slots@[t].pin == old(self).slots@[t].pin
                    &&& final(self).slots@[t].snapshots == old(self).slots@[t].snapshots
                },
            final(self).cells == old(self).cells,
            final(self).blocks@.len() == old(self).blocks@.len(),
            forall|t: int|
                0 <= t < final(self).batches@.len()
                    && !(#[trigger] final(self).batches@[t]).executed ==> exists|s2: int|
                    0 <= s2 < final(self).slots@.len() && final(self).batch_blocked_by(t, s2),
            forall|b: int|
                0 <= b < old(self).n_blocks() ==> {
                    &&& (#[trigger] final(self).blk(b)).s_owners == old(self).blk(b).s_owners
                    &&& final(self).blk(b).w_owners == old(self).blk(b).w_owners
                    &&& (old(self).blk(b).strong.sealed() ==> final(self).blk(b).strong.sealed())
                    &&& (old(self).blk(b).value is None ==> final(self).blk(b).value is None)
                    &&& (final(self).blk(b).value == old(self).blk(b).value || final(self).blk(
                        b,
                    ).value is None)
                    &&& (!old(self).blk(b).allocated ==> !final(self).blk(b).allocated)
                },
            old(self).graveyard@.is_prefix_of(final(self).graveyard@),
    {
        let ghost orig: StandardReclaimer<T> = *self;
        let n = self.slots.len();
        let mut s: usize = 0;
        while s < n
            invariant
                self.wf(),
                0 <= s <= n,
                n == self.slots@.len(),
                n == orig.slots@.len(),
                orig.epoch <= self.epoch,
                self.epoch <= orig.epoch + s,
                orig.epoch + orig.slots@.len() < u64::MAX,
                forall|t: int|
                    0 <= t < s ==> (#[trigger] self.slots@[t]).batch@.len() == 0,
                forall|t: int|
                    0 <= t < n ==> {
                        &&& (#[trigger] self.slots@[t]).depth == orig.slots@[t].depth
                        &&& self.slots@[t].claimed == orig.slots@[t].claimed
                        &&& self.slots@[t].pin == orig.slots@[t].pin
                        &&& self.slots@[t].snapshots == orig.slots@[t].snapshots
                    },
                self.cells == orig.cells,
                self.blocks == orig.blocks,
                self.graveyard == orig.graveyard,
            decreases n - s,
        {
            if self.slots[s].batch.len() > 0 {
                self.publish(s);
            }
            s = s + 1;
        }
        self.collect();
    }

    /// Quiescence: once reclamation has caught up - every open protection
    /// is gone, every private batch has been published and every published
    /// batch has executed - the audit collapses, and each counter equals
    /// its live holders alone: the strong counter counts handles and cells,
    /// the weak counter counts weak handles plus the strong holders' token.
    /// Balanced pairs of operations (a clone paired with a retire) have
    /// then left every count where it started.
    pub proof fn law_quiescent_counts(self, b: int)
        requires
            self.wf(),
            0 <= b < self.n_blocks(),
            forall|t: int|
                0 <= t < self.batches@.len() && !(#[trigger] self.batches@[t]).executed
                    ==> exists|s2: int| 0 <= s2 < self.slots@.len() && self.batch_blocked_by(t, s2),
            forall|s: int| 0 <= s < self.slots@.len() ==> (#[trigger] self.slots@[s]).depth == 0,
            forall|s: int, j: int|
                0 <= s < self.slots@.len() && 0 <= j < self.slots@[s].snapshots@.len() ==> (
                #[trigger] self.slots@[s].snapshots@[j]).ptr is None,
            forall|s: int| 0 <= s < self.slots@.len() ==> (#[trigger] self.slots@[s]).batch@.len()
                == 0,
        ensures
            self.blk(b).strong.count() == self.blk(b).s_owners@ + self.cell_refs(b),
            self.blk(b).weak as int == self.blk(b).w_owners@ + self.weak_token(b),
    {
        assert forall|t: int| 0 <= t < self.batches@.len() implies (#[trigger] self.batches@[
        t]).executed by {
            if !self.batches@[t].executed {
                let s2 = choose|s2: int|
                    0 <= s2 < self.slots@.len() && self.batch_blocked_by(t, s2);
                assert(!self.batch_blocked_by(t, s2));
            }
        }
        lemma_all_executed_unexec_zero(self.batches@, b, RetireKind::Strong);
        lemma_all_executed_unexec_zero(self.batches@, b, RetireKind::Weak);
        lemma_private_zero(self.slots@, b, RetireKind::Strong);
        lemma_private_zero(self.slots@, b, RetireKind::Weak);
        assert(self.wf_block(b));
    }

    /// A value is dropped exactly when its strong counter seals: while a
    /// block is allocated, its value is present if and only if the counter
    /// has not sealed at zero. Together with the one-way movement of the
    /// seal (no operation unseals a counter), the drop runs at most once.
    pub proof fn law_value_dropped_iff_sealed(self, b: int)
        requires
            self.wf(),
            0 <= b < self.n_blocks(),
            self.blk(b).allocated,
        ensures
            self.blk(b).value is Some <==> !self.blk(b).strong.sealed(),
    {
        assert(self.wf_block(b));
    }

    /// Memory is freed exactly once and only at the end: a freed block has
    /// its weak counter at zero, its strong counter sealed and its value
    /// already dropped, and an allocated block still holds at least one
    /// weak count.
    pub proof fn law_freed_only_after_counts_drain(self, b: int)
        requires
            self.wf(),
            0 <= b < self.n_blocks(),
        ensures
            !self.blk(b).allocated ==> self.blk(b).weak == 0 && self.blk(b).strong.sealed()
                && self.blk(b).value is None,
            self.blk(b).allocated ==> self.blk(b).weak >= 1,
    {
        assert(self.wf_block(b));
    }

    /// No use after free: while a snapshot is registered on a block, the
    /// block's strong counter cannot have sealed, so its value has not been
    /// dropped and a reader behind the snapshot never sees freed state.
    pub proof fn law_snapshot_sees_live_value(self, s: int, j: int)
        requires
            self.wf(),
            0 <= s < self.slots@.len(),
            0 <= j < self.slots@[s].snapshots@.len(),
            self.slots@[s].snapshots@[j].ptr is Some,
            (self.slots@[s].snapshots@[j].ptr.unwrap() as int) < self.n_blocks(),
        ensures
            self.blk(self.slots@[s].snapshots@[j].ptr.unwrap() as int).value is Some,
            !self.blk(self.slots@[s].snapshots@[j].ptr.unwrap() as int).strong.sealed(),
    {
        self.lemma_snap_live(s, j);
    }

    /// Deferral: a batch that any open critical section or registered
    /// snapshot pins (its pin is at or before the batch's tag) has not
    /// executed. A protected region that was active when a retirement was
    /// published carries such a pin, so the retirement cannot run until
    /// that region has closed.
    pub proof fn law_retirement_deferred(self, i: int, s: int)
        requires
            self.wf(),
            0 <= i < self.batches@.len(),
            0 <= s < self.slots@.len(),
            self.batch_blocked_by(i, s),
        ensures
            !self.batches@[i].executed,
    {
    }

    /// The count audit: every strong count of a block is owned by exactly
    /// one holder - a strong handle, a cell, or a pending retirement - and
    /// likewise each weak count, plus the strong holders' collective token
    /// while the value is live. Balanced operations (a clone paired with a
    /// retire) therefore leave the counts unchanged once the pending side
    /// has drained.
    pub proof fn law_counts_audited(self, b: int)
        requires
            self.wf(),
            0 <= b < self.n_blocks(),
        ensures
            self.blk(b).strong.count() == self.blk(b).s_owners@ + self.cell_refs(b)
                + self.strong_pending(b),
            self.blk(b).weak as int == self.blk(b).w_owners@ + self.weak_pending(b)
                + self.weak_token(b),
    {
        assert(self.wf_block(b));
    }

    /// A strong cycle never reclaims: a block stored in some cell keeps a
    /// strong count through that cell, so its counter cannot seal and its
    /// value is never dropped - even if no handle points to it. Cycles must
    /// be broken with weak references.
    pub proof fn law_cell_reference_keeps_value(self, c: int)
        requires
            self.wf(),
            0 <= c < self.cells@.len(),
            self.cells@[c] is Some,
        ensures
            self.blk(self.cells@[c].unwrap() as int).value is Some,
            !self.blk(self.cells@[c].unwrap() as int).strong.sealed(),
    {
        self.lemma_cell_live(c);
    }

    /// A weak handle keeps the block's memory, not its value: while a weak
    /// count is held the block stays allocated, though the value may
    /// already have been dropped.
    pub proof fn law_weak_handle_keeps_memory(self, b: int)
        requires
            self.wf(),
            0 <= b < self.n_blocks(),
            self.blk(b).w_owners@ >= 1,
        ensures
            self.blk(b).allocated,
    {
        self.lemma_weak_owner_allocated(b);
    }
}

} // verus!
