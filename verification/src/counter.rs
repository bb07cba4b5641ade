//! The sticky-zero strong counter.
//!
//! A single word holds either a live count or, once the count has fallen to
//! zero and the fall has been sealed, the zero bit alone. Sealing is sticky:
//! after it, every `try_increment` fails, so a reader that once observed zero
//! can rely on the value never coming back to life.

use vstd::prelude::*;

verus! {

/// High bit of the counter word; set exactly when the counter is sealed.
pub const ZERO_BIT: u64 = 0x8000_0000_0000_0000;

/// A counter with the wait-free "increment-if-not-zero" discipline.
pub struct StickyCounter {
    word: u64,
}

impl StickyCounter {
    /// The counter has been taken to zero and sealed there.
    pub closed spec fn sealed(self) -> bool {
        self.word == ZERO_BIT
    }

    /// The current count; a sealed counter counts as zero.
    pub closed spec fn count(self) -> int {
        if self.sealed() {
            0
        } else {
            self.word as int
        }
    }

    /// Well-formed: the word is a positive live count below the zero bit, or
    /// the seal mark itself. A plain zero is transient inside `decrement` and
    /// never rests at an operation boundary.
    pub closed spec fn wf(self) -> bool {
        (0 < self.word && self.word < ZERO_BIT) || self.word == ZERO_BIT
    }

    /// Room for one more increment without touching the zero bit.
    pub open spec fn headroom(self) -> bool {
        self.count() + 1 < ZERO_BIT
    }

    /// Whether a raw counter word carries the seal mark.
    pub fn is_zero(val: u64) -> (r: bool)
        ensures
            r == (val >= ZERO_BIT),
    {
        let r = (val & ZERO_BIT) != 0;
        proof {
            assert(((val & 0x8000_0000_0000_0000u64) != 0) == (val
                >= 0x8000_0000_0000_0000u64)) by (bit_vector);
        }
        r
    }

    /// Add one to the count unless the counter is sealed. Returns the count
    /// observed before the increment; on a sealed counter, restores the word
    /// and fails, leaving the counter unchanged.
    pub fn try_increment(&mut self) -> (r: Result<u64, ()>)
        requires
            old(self).wf(),
            old(self).headroom(),
        ensures
            final(self).wf(),
            old(self).sealed() ==> r is Err && *final(self) == *old(self) && final(self).count()
                == 0,
            !old(self).sealed() ==> r == Ok::<u64, ()>(old(self).count() as u64)
                && !final(self).sealed() && final(self).count() == old(self).count() + 1,
    {
        let before = self.word;
        self.word = self.word + 1;
        if Self::is_zero(before) {
            // The counter is dead; undo the add and report failure.
            self.word = self.word - 1;
            Err(())
        } else if before == 0 {
            // A decrement observed zero but has not yet sealed it; it will act
            // as if this increment came first, so report the count as one.
            // Under `wf` the word never rests at plain zero, so this arm is
            // kept only for fidelity to the word-level protocol.
            Ok(1)
        } else {
            Ok(before)
        }
    }

    /// Add one to the count of a counter known to be live. This is the
    /// plain increment used when the caller already holds a count and so the
    /// counter cannot be sealed underneath it.
    pub fn increment(&mut self)
        requires
            old(self).wf(),
            !old(self).sealed(),
            old(self).headroom(),
        ensures
            final(self).wf(),
            !final(self).sealed(),
            final(self).count() == old(self).count() + 1,
    {
        self.word = self.word + 1;
    }

    /// Subtract one from the count; if the count falls to zero, seal it.
    /// Returns the count observed before the decrement.
    pub fn decrement(&mut self) -> (r: u64)
        requires
            old(self).wf(),
            !old(self).sealed(),
        ensures
            final(self).wf(),
            r == old(self).count(),
            old(self).count() == 1 ==> final(self).sealed() && final(self).count() == 0,
            old(self).count() > 1 ==> !final(self).sealed() && final(self).count() == old(
                self,
            ).count() - 1,
    {
        let before = self.word;
        self.word = self.word - 1;
        if before == 1 {
            // The count fell to zero: seal it by writing the zero bit over the
            // bare zero. In the model a whole operation is one step, so no
            // concurrent increment can slip in between and the seal always
            // lands.
            self.word = ZERO_BIT;
            1
        } else {
            before
        }
    }

    /// Read the count; the seal mark reads as zero.
    pub fn load(&self) -> (r: u64)
        requires
            self.wf(),
        ensures
            r == self.count(),
            r == 0 ==> self.sealed(),
    {
        let val = self.word;
        // A bare zero would mean a decrement in flight that has not sealed
        // yet; the reader would help by writing the zero bit itself. Under
        // `wf` the word never rests at bare zero, so no help is ever owed.
        if Self::is_zero(val) {
            0
        } else {
            val
        }
    }
}

impl Default for StickyCounter {
    /// A fresh counter holds one count, for the holder that created it.
    fn default() -> (r: Self)
        ensures
            r.wf(),
            !r.sealed(),
            r.count() == 1,
    {
        StickyCounter { word: 1 }
    }
}

/// Facts every well-formed counter satisfies: the count is nonnegative and
/// reads zero exactly when the counter is sealed.
pub proof fn lemma_counter_facts(c: StickyCounter)
    requires
        c.wf(),
    ensures
        c.count() >= 0,
        c.sealed() <==> c.count() == 0,
{
}

/// Sticky zero: once `load` returns zero the counter is sealed, and by the
/// contract of `try_increment` a sealed counter refuses every later
/// increment and is left unchanged by the attempt.
pub proof fn law_sticky_zero(c: StickyCounter)
    requires
        c.wf(),
        c.count() == 0,
    ensures
        c.sealed(),
{
}

} // verus!
