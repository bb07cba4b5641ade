//! Atomic, strongly- and weakly-referenced shared pointers with deferred safe
//! memory reclamation, stated and verified over an explicit arena model.
//!
//! A [`StandardReclaimer`] owns every allocation block, every per-participant
//! slot and every retired batch. Handles ([`Arc`], [`Weak`], [`Guard`]) and
//! atomic cells ([`AtomicArc`]) are indices into that state; all operations go
//! through the reclaimer, which maintains the lifecycle invariants: a value is
//! dropped exactly when its strong counter seals at zero, a block is freed
//! exactly when its weak counter reaches zero, and no retirement runs while a
//! protected region or snapshot that could observe it is still open.

pub use cells::AtomicArc;
pub use counter::StickyCounter;
pub use handles::Arc;
pub use handles::AsPtr;
pub use handles::Guard;
pub use handles::Weak;
pub use reclaimer::PtrGuard;
pub use reclaimer::RegionGuard;
pub use reclaimer::RetireKind;
pub use reclaimer::StandardReclaimer;

pub mod cells;
pub mod counter;
pub mod handles;
pub mod reclaimer;
