//! Atomically updatable cells holding a strong reference.
//!
//! An [`AtomicArc`] names one cell of its reclaimer. The cell stores at
//! most one block and owns one strong count on it; an empty cell stores
//! nothing (the null pointer is intrinsic to the cell, not an outer
//! wrapper). Writes that displace a stored block retire the displaced
//! count; reads hand out snapshot-backed [`Guard`]s, never touching the
//! count.

use crate::handles::Arc;
use crate::handles::AsPtr;
use crate::handles::Guard;
use crate::reclaimer::cell_is;
use crate::reclaimer::StandardReclaimer;
use vstd::prelude::*;

verus! {

/// A cell with an atomically updatable strong reference.
pub struct AtomicArc {
    pub(crate) cell: usize,
}

/// Reads agree with the most recent write: two read handles obtained from
/// the same cell with no intervening write refer to the same block and
/// observe the same, still-live value - the one the cell's last write
/// stored. The premises are exactly what `load`'s contract establishes for
/// each handle, and `store`'s contract pins the cell to the written block.
pub proof fn law_loads_agree<T>(r: StandardReclaimer<T>, c: AtomicArc, g1: Guard, g2: Guard)
    requires
        r.wf(),
        c.wf(r),
        g1.wf(r),
        g2.wf(r),
        Some(g1.ptr_spec()) == r.cells@[c.cell_spec() as int],
        Some(g2.ptr_spec()) == r.cells@[c.cell_spec() as int],
    ensures
        g1.ptr_spec() == g2.ptr_spec(),
        r.blk(g1.ptr_spec() as int).value is Some,
        r.blk(g1.ptr_spec() as int).value == r.blk(g2.ptr_spec() as int).value,
{
    r.lemma_cell_live(c.cell_spec() as int);
}

/// Equality of two stored-pointer values.
fn opt_eq(a: Option<usize>, b: Option<usize>) -> (r: bool)
    ensures
        r == (a == b),
{
    match (a, b) {
        (None, None) => true,
        (Some(x), Some(y)) => x == y,
        _ => false,
    }
}

impl AtomicArc {
    /// The handle is valid for `r`: it names a cell of `r`.
    pub closed spec fn cell_spec(&self) -> usize {
        self.cell
    }

    /// The handle is valid for `r`.
    pub open spec fn wf<T>(&self, r: StandardReclaimer<T>) -> bool {
        (self.cell_spec() as int) < r.cells@.len()
    }

    /// What the cell currently stores.
    pub open spec fn ptr_of<T>(&self, r: StandardReclaimer<T>) -> Option<usize> {
        r.cells@[self.cell_spec() as int]
    }

    /// Create a cell. `None` leaves it empty; `Some(v)` allocates a fresh
    /// block for `v`, whose single strong count the cell holds.
    pub fn new<T>(r: &mut StandardReclaimer<T>, data: Option<T>) -> (c: AtomicArc)
        requires
            old(r).wf(),
        ensures
            final(r).wf(),
            c.wf(*final(r)),
            data is None ==> c.ptr_of(*final(r)) is None && final(r).blocks == old(r).blocks,
            data is Some ==> {
                &&& c.ptr_of(*final(r)) == Some((old(r).n_blocks()) as usize)
                &&& final(r).n_blocks() == old(r).n_blocks() + 1
                &&& final(r).blk(old(r).n_blocks()).value == data
                &&& final(r).blk(old(r).n_blocks()).strong.count() == 1
            },
            forall|i: int|
                0 <= i < old(r).n_blocks() ==> final(r).blocks@[i] == old(r).blocks@[i],
            final(r).slots == old(r).slots,
            final(r).batches == old(r).batches,
            final(r).epoch == old(r).epoch,
            final(r).graveyard == old(r).graveyard,
            final(r).cells@.len() == old(r).cells@.len() + 1,
            forall|t: int| 0 <= t < old(r).cells@.len() ==> final(r).cells@[t] == old(r).cells@[t],
    {
        let c = r.new_cell_with(data);
        AtomicArc { cell: c }
    }

    /// Create a cell storing the same block as an existing strong handle,
    /// with a fresh strong count for the cell.
    pub fn from_arc<T>(r: &mut StandardReclaimer<T>, a: &Arc) -> (c: AtomicArc)
        requires
            old(r).wf(),
            a.wf(*old(r)),
            old(r).blk(a.ptr_spec() as int).strong.headroom(),
        ensures
            final(r).wf(),
            c.wf(*final(r)),
            a.wf(*final(r)),
            c.ptr_of(*final(r)) == Some(a.ptr_spec()),
            final(r).blk(a.ptr_spec() as int).strong.count() == old(r).blk(
                a.ptr_spec() as int,
            ).strong.count() + 1,
            final(r).slots == old(r).slots,
            final(r).batches == old(r).batches,
            final(r).epoch == old(r).epoch,
            final(r).graveyard == old(r).graveyard,
            forall|t: int| 0 <= t < old(r).cells@.len() ==> final(r).cells@[t] == old(r).cells@[t],
    {
        proof {
            old(r).lemma_owner_live(a.ptr_spec() as int);
        }
        let c = r.new_cell_from(AsPtr::as_ptr(a));
        AtomicArc { cell: c }
    }

    /// Load a read handle to the stored block, registering a snapshot in
    /// slot `s`; `None` when the cell is empty. The handle does not touch
    /// the strong count, and the block's value stays live while the handle
    /// is held.
    pub fn load<T>(&self, r: &mut StandardReclaimer<T>, s: usize) -> (g: Option<Guard>)
        requires
            old(r).wf(),
            self.wf(*old(r)),
            (s as int) < old(r).slots@.len(),
        ensures
            final(r).wf(),
            self.wf(*final(r)),
            g is Some <==> old(r).cells@[self.cell_spec() as int] is Some,
            final(r).blocks == old(r).blocks,
            final(r).cells == old(r).cells,
            final(r).batches == old(r).batches,
            final(r).epoch == old(r).epoch,
            final(r).graveyard == old(r).graveyard,
            final(r).slots@.len() == old(r).slots@.len(),
            forall|t: int|
                0 <= t < old(r).slots@.len() && t != s as int ==> final(r).slots@[t] == old(
                    r,
                ).slots@[t],
            final(r).slots@[s as int].claimed == old(r).slots@[s as int].claimed,
            final(r).slots@[s as int].batch == old(r).slots@[s as int].batch,
            final(r).slots@[s as int].depth == old(r).slots@[s as int].depth,
            final(r).slots@[s as int].pin == old(r).slots@[s as int].pin,
            old(r).slots@[s as int].snapshots@.len() <= final(r).slots@[
                s as int].snapshots@.len() <= old(r).slots@[s as int].snapshots@.len() + 1,
            match g {
                Some(got) => {
                    &&& Some(got.ptr_spec()) == old(r).cells@[self.cell_spec() as int]
                    &&& got.slot_spec() == s
                    &&& got.wf(*final(r))
                    &&& final(r).blk(got.ptr_spec() as int).value is Some
                    &&& forall|j: int|
                        0 <= j < old(r).slots@[s as int].snapshots@.len() && j != got.entry_spec()
                            as int ==> final(r).slots@[s as int].snapshots@[j] == old(r).slots@[
                            s as int].snapshots@[j]
                },
                None => final(r).slots == old(r).slots,
            },
    {
        let p = r.cell_ptr(self.cell);
        match p {
            None => None,
            Some(b) => {
                proof {
                    old(r).lemma_cell_live(self.cell_spec() as int);
                }
                let pg = r.protect_ptr(s, b);
                proof {
                    r.lemma_cell_live(self.cell_spec() as int);
                }
                Some(Guard::guard_new(b, pg))
            },
        }
    }

    /// Store `new`'s block (or empty the cell): the cell takes a fresh
    /// strong count on the incoming block and retires its count on the
    /// displaced one through slot `s`.
    pub fn store<T>(&self, r: &mut StandardReclaimer<T>, s: usize, new: Option<&Arc>)
        requires
            old(r).wf(),
            self.wf(*old(r)),
            (s as int) < old(r).slots@.len(),
            match new {
                Some(a) => a.wf(*old(r)) && old(r).blk(a.ptr_spec() as int).strong.headroom(),
                None => true,
            },
            old(r).epoch < u64::MAX,
        ensures
            final(r).wf(),
            self.wf(*final(r)),
            final(r).cells@.len() == old(r).cells@.len(),
            final(r).slots@.len() == old(r).slots@.len(),
            forall|t: int|
                0 <= t < old(r).slots@.len() ==> {
                    &&& (#[trigger] final(r).slots@[t]).claimed == old(r).slots@[t].claimed
                    &&& final(r).slots@[t].depth == old(r).slots@[t].depth
                    &&& final(r).slots@[t].pin == old(r).slots@[t].pin
                    &&& final(r).slots@[t].snapshots == old(r).slots@[t].snapshots
                },
            self.ptr_of(*final(r)) == (match new {
                Some(a) => Some(a.ptr_spec()),
                None => None::<usize>,
            }),
            forall|t: int|
                0 <= t < old(r).cells@.len() && t != self.cell_spec() as int ==> final(r).cells@[t]
                    == old(r).cells@[t],
            final(r).blocks@.len() == old(r).blocks@.len(),
            old(r).epoch <= final(r).epoch <= old(r).epoch + 1,
            final(r).graveyard == old(r).graveyard,
            forall|b: int|
                0 <= b < old(r).n_blocks() ==> {
                    &&& (#[trigger] final(r).blk(b)).s_owners == old(r).blk(b).s_owners
                    &&& final(r).blk(b).w_owners == old(r).blk(b).w_owners
                    &&& final(r).blk(b).strong.count() == old(r).blk(b).strong.count() + (
                    if cell_is(
                        match new {
                            Some(a) => Some(a.ptr_spec()),
                            None => None::<usize>,
                        },
                        b,
                    ) {
                        1int
                    } else {
                        0int
                    })
                    &&& final(r).blk(b).strong.sealed() == old(r).blk(b).strong.sealed()
                    &&& final(r).blk(b).value == old(r).blk(b).value
                    &&& final(r).blk(b).weak == old(r).blk(b).weak
                    &&& final(r).blk(b).allocated == old(r).blk(b).allocated
                },
            forall|b: int|
                #![trigger final(r).strong_pending(b)]
                final(r).strong_pending(b) == old(r).strong_pending(b) + (if cell_is(
                    old(r).cells@[self.cell_spec() as int],
                    b,
                ) {
                    1int
                } else {
                    0int
                }),
    {
        let new_ptr: Option<usize> = match new {
            Some(a) => {
                proof {
                    old(r).lemma_owner_live(a.ptr_spec() as int);
                }
                Some(AsPtr::as_ptr(a))
            },
            None => None,
        };
        r.cell_store(s, self.cell, new_ptr);
    }

    /// Swap `new`'s block into the cell and hand the displaced block's
    /// strong count out as a strong handle; `None` when the cell was
    /// empty. No count is retired: ownership moves to the caller.
    pub fn swap<T>(&self, r: &mut StandardReclaimer<T>, new: Option<&Arc>) -> (prev: Option<Arc>)
        requires
            old(r).wf(),
            self.wf(*old(r)),
            match new {
                Some(a) => a.wf(*old(r)) && old(r).blk(a.ptr_spec() as int).strong.headroom(),
                None => true,
            },
        ensures
            final(r).wf(),
            self.wf(*final(r)),
            final(r).cells@.len() == old(r).cells@.len(),
            self.ptr_of(*final(r)) == (match new {
                Some(a) => Some(a.ptr_spec()),
                None => None::<usize>,
            }),
            forall|t: int|
                0 <= t < old(r).cells@.len() && t != self.cell_spec() as int ==> final(r).cells@[t]
                    == old(r).cells@[t],
            (prev is Some) <==> (old(r).cells@[self.cell_spec() as int] is Some),
            match prev {
                Some(got) => {
                    &&& Some(got.ptr_spec()) == old(r).cells@[self.cell_spec() as int]
                    &&& got.wf(*final(r))
                    &&& final(r).blk(got.ptr_spec() as int).value is Some
                },
                None => true,
            },
            final(r).slots == old(r).slots,
            final(r).batches == old(r).batches,
            final(r).epoch == old(r).epoch,
            final(r).graveyard == old(r).graveyard,
            final(r).blocks@.len() == old(r).blocks@.len(),
            forall|b: int|
                0 <= b < old(r).n_blocks() ==> {
                    &&& (#[trigger] final(r).blk(b)).s_owners@ == old(r).blk(b).s_owners@ + (
                    if cell_is(old(r).cells@[self.cell_spec() as int], b) {
                        1int
                    } else {
                        0int
                    })
                    &&& final(r).blk(b).w_owners == old(r).blk(b).w_owners
                    &&& final(r).blk(b).strong.count() == old(r).blk(b).strong.count() + (
                    if cell_is(
                        match new {
                            Some(a) => Some(a.ptr_spec()),
                            None => None::<usize>,
                        },
                        b,
                    ) {
                        1int
                    } else {
                        0int
                    })
                    &&& final(r).blk(b).strong.sealed() == old(r).blk(b).strong.sealed()
                    &&& final(r).blk(b).value == old(r).blk(b).value
                    &&& final(r).blk(b).weak == old(r).blk(b).weak
                    &&& final(r).blk(b).allocated == old(r).blk(b).allocated
                },
    {
        let new_ptr: Option<usize> = match new {
            Some(a) => {
                proof {
                    old(r).lemma_owner_live(a.ptr_spec() as int);
                }
                Some(AsPtr::as_ptr(a))
            },
            None => None,
        };
        proof {
            if old(r).cells@[self.cell_spec() as int] is Some {
                old(r).lemma_cell_live(self.cell_spec() as int);
            }
        }
        let prev = r.cell_swap(self.cell, new_ptr);
        match prev {
            Some(ob) => {
                proof {
                    assert(old(r).wf_block(ob as int));
                    assert(cell_is(old(r).cells@[self.cell_spec() as int], ob as int));
                    r.lemma_owner_live(ob as int);
                }
                Some(Arc::from_block(ob))
            },
            None => None,
        }
    }

    /// Compare-and-exchange: when the cell stores exactly `current`, store
    /// `new` (taking and retiring counts as `store` does) and succeed with
    /// empty `Ok`. Otherwise fail, packaging the pointer observed by the
    /// failed exchange as a snapshot handle (`None` for an empty cell).
    pub fn compare_exchange<T>(
        &self,
        r: &mut StandardReclaimer<T>,
        s: usize,
        current: Option<usize>,
        new: Option<&Arc>,
    ) -> (res: Result<(), Option<Guard>>)
        requires
            old(r).wf(),
            self.wf(*old(r)),
            (s as int) < old(r).slots@.len(),
            match new {
                Some(a) => a.wf(*old(r)) && old(r).blk(a.ptr_spec() as int).strong.headroom(),
                None => true,
            },
            old(r).epoch < u64::MAX,
        ensures
            final(r).wf(),
            self.wf(*final(r)),
            res is Ok <==> old(r).cells@[self.cell_spec() as int] == current,
            final(r).cells@.len() == old(r).cells@.len(),
            forall|t: int|
                0 <= t < old(r).cells@.len() && t != self.cell_spec() as int ==> final(r).cells@[t]
                    == old(r).cells@[t],
            res is Ok ==> self.ptr_of(*final(r)) == (match new {
                Some(a) => Some(a.ptr_spec()),
                None => None::<usize>,
            }),
            res is Err ==> final(r).cells == old(r).cells,
            final(r).blocks@.len() == old(r).blocks@.len(),
            final(r).slots@.len() == old(r).slots@.len(),
            old(r).epoch <= final(r).epoch <= old(r).epoch + 1,
            final(r).graveyard == old(r).graveyard,
            forall|t: int|
                0 <= t < old(r).slots@.len() ==> {
                    &&& (#[trigger] final(r).slots@[t]).claimed == old(r).slots@[t].claimed
                    &&& final(r).slots@[t].depth == old(r).slots@[t].depth
                    &&& final(r).slots@[t].pin == old(r).slots@[t].pin
                },
            match res {
                Ok(u) => {
                    // Exchanging the stored pointer for itself moves no
                    // counts at all; otherwise the counts move exactly as
                    // in `store`.
                    &&& (old(r).cells@[self.cell_spec() as int] == (match new {
                        Some(a) => Some(a.ptr_spec()),
                        None => None::<usize>,
                    }) ==> final(r).blocks@ == old(r).blocks@ && final(r).epoch == old(r).epoch)
                    &&& forall|b: int|
                        0 <= b < old(r).n_blocks() ==> {
                            &&& (#[trigger] final(r).blk(b)).s_owners == old(r).blk(b).s_owners
                            &&& final(r).blk(b).w_owners == old(r).blk(b).w_owners
                            &&& final(r).blk(b).strong.sealed() == old(r).blk(b).strong.sealed()
                            &&& final(r).blk(b).value == old(r).blk(b).value
                            &&& final(r).blk(b).weak == old(r).blk(b).weak
                            &&& final(r).blk(b).allocated == old(r).blk(b).allocated
                            &&& (old(r).cells@[self.cell_spec() as int] != (match new {
                                Some(a) => Some(a.ptr_spec()),
                                None => None::<usize>,
                            }) ==> final(r).blk(b).strong.count() == old(r).blk(b).strong.count()
                                + (if cell_is(
                                match new {
                                    Some(a) => Some(a.ptr_spec()),
                                    None => None::<usize>,
                                },
                                b,
                            ) {
                                1int
                            } else {
                                0int
                            }))
                        }
                },
                Err(observed) => {
                    &&& final(r).blocks@ == old(r).blocks@
                    &&& final(r).epoch == old(r).epoch
                    &&& (observed is Some <==> old(r).cells@[self.cell_spec() as int] is Some)
                    &&& match observed {
                        Some(got) => {
                            &&& Some(got.ptr_spec()) == old(r).cells@[self.cell_spec() as int]
                            &&& got.wf(*final(r))
                            &&& final(r).blk(got.ptr_spec() as int).value is Some
                        },
                        None => true,
                    }
                },
            },
    {
        let cur = r.cell_ptr(self.cell);
        let new_ptr: Option<usize> = match new {
            Some(a) => Some(AsPtr::as_ptr(a)),
            None => None,
        };
        if opt_eq(cur, current) {
            if !opt_eq(cur, new_ptr) {
                match new {
                    Some(a) => {
                        proof {
                            old(r).lemma_owner_live(a.ptr_spec() as int);
                        }
                    },
                    None => {},
                }
                r.cell_store(s, self.cell, new_ptr);
            }
            Ok(())
        } else {
            match cur {
                Some(ob) => {
                    proof {
                        old(r).lemma_cell_live(self.cell_spec() as int);
                    }
                    let pg = r.protect_ptr(s, ob);
                    proof {
                        r.lemma_cell_live(self.cell_spec() as int);
                    }
                    Err(Some(Guard::guard_new(ob, pg)))
                },
                None => Err(None),
            }
        }
    }

    /// Clone the cell: a fresh cell storing the same block, with its own
    /// strong count; an empty cell clones to an empty cell.
    pub fn clone_in<T>(&self, r: &mut StandardReclaimer<T>) -> (c: AtomicArc)
        requires
            old(r).wf(),
            self.wf(*old(r)),
            match old(r).cells@[self.cell_spec() as int] {
                Some(b) => old(r).blk(b as int).strong.headroom(),
                None => true,
            },
        ensures
            final(r).wf(),
            c.wf(*final(r)),
            self.wf(*final(r)),
            c.ptr_of(*final(r)) == old(r).cells@[self.cell_spec() as int],
            self.ptr_of(*final(r)) == old(r).cells@[self.cell_spec() as int],
            final(r).slots == old(r).slots,
            final(r).batches == old(r).batches,
            final(r).epoch == old(r).epoch,
            final(r).graveyard == old(r).graveyard,
            final(r).blocks@.len() == old(r).blocks@.len(),
            final(r).cells@.len() == old(r).cells@.len() + 1,
            forall|t: int| 0 <= t < old(r).cells@.len() ==> final(r).cells@[t] == old(r).cells@[t],
            forall|b: int|
                0 <= b < old(r).n_blocks() ==> {
                    &&& (#[trigger] final(r).blk(b)).s_owners == old(r).blk(b).s_owners
                    &&& final(r).blk(b).w_owners == old(r).blk(b).w_owners
                    &&& final(r).blk(b).strong.count() == old(r).blk(b).strong.count() + (
                    if cell_is(old(r).cells@[self.cell_spec() as int], b) {
                        1int
                    } else {
                        0int
                    })
                    &&& final(r).blk(b).strong.sealed() == old(r).blk(b).strong.sealed()
                    &&& final(r).blk(b).value == old(r).blk(b).value
                    &&& final(r).blk(b).weak == old(r).blk(b).weak
                    &&& final(r).blk(b).allocated == old(r).blk(b).allocated
                },
    {
        let p = r.cell_ptr(self.cell);
        match p {
            None => {
                let c = r.new_cell_with(None);
                AtomicArc { cell: c }
            },
            Some(b) => {
                proof {
                    old(r).lemma_cell_live(self.cell_spec() as int);
                }
                let c = r.new_cell_from(b);
                AtomicArc { cell: c }
            },
        }
    }

    /// A second handle to the same cell, as sharing a reference to the
    /// cell does. The cell itself owns its count, so aliases are harmless:
    /// whichever handle empties the cell first retires the stored count,
    /// and the others then see an empty cell.
    pub fn alias(&self) -> (c: AtomicArc)
        ensures
            c.cell_spec() == self.cell_spec(),
    {
        AtomicArc { cell: self.cell }
    }

    /// Give the cell back: empty it, retiring its count on the stored
    /// block (if any) through slot `s`. The cell's entry stays in the
    /// arena, permanently empty.
    pub fn retire<T>(self, r: &mut StandardReclaimer<T>, s: usize)
        requires
            old(r).wf(),
            self.wf(*old(r)),
            (s as int) < old(r).slots@.len(),
            old(r).epoch < u64::MAX,
        ensures
            final(r).wf(),
            final(r).cells@.len() == old(r).cells@.len(),
            final(r).cells@[self.cell_spec() as int] is None,
            forall|t: int|
                0 <= t < old(r).cells@.len() && t != self.cell_spec() as int ==> final(r).cells@[t]
                    == old(r).cells@[t],
            final(r).blocks@.len() == old(r).blocks@.len(),
            final(r).slots@.len() == old(r).slots@.len(),
            old(r).epoch <= final(r).epoch <= old(r).epoch + 1,
            final(r).graveyard == old(r).graveyard,
            forall|t: int|
                0 <= t < old(r).slots@.len() ==> {
                    &&& (#[trigger] final(r).slots@[t]).claimed == old(r).slots@[t].claimed
                    &&& final(r).slots@[t].depth == old(r).slots@[t].depth
                    &&& final(r).slots@[t].pin == old(r).slots@[t].pin
                    &&& final(r).slots@[t].snapshots == old(r).slots@[t].snapshots
                },
            forall|b: int|
                0 <= b < old(r).n_blocks() ==> {
                    &&& (#[trigger] final(r).blk(b)).s_owners == old(r).blk(b).s_owners
                    &&& final(r).blk(b).w_owners == old(r).blk(b).w_owners
                    &&& final(r).blk(b).strong.count() == old(r).blk(b).strong.count()
                    &&& final(r).blk(b).strong.sealed() == old(r).blk(b).strong.sealed()
                    &&& final(r).blk(b).value == old(r).blk(b).value
                    &&& final(r).blk(b).weak == old(r).blk(b).weak
                    &&& final(r).blk(b).allocated == old(r).blk(b).allocated
                },
            forall|b: int|
                #![trigger final(r).strong_pending(b)]
                final(r).strong_pending(b) == old(r).strong_pending(b) + (if cell_is(
                    old(r).cells@[self.cell_spec() as int],
                    b,
                ) {
                    1int
                } else {
                    0int
                }),
    {
        r.cell_store(s, self.cell, None);
    }
}

} // verus!
