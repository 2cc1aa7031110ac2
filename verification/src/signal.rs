//! The signal by which a background thread is told to stop.

use std::sync::atomic::{AtomicBool, Ordering};
use std::sync::Arc;
use vstd::prelude::*;

verus! {

/// The end of a stop signal that raises it. What it has stored is on record, and it
/// has no way to take the signal back.
pub struct StopSignal {
    flag: Arc<AtomicBool>,
    stored: Ghost<Seq<bool>>,
}

impl StopSignal {
    /// The flag that the background thread watches.
    pub closed spec fn flag(&self) -> Arc<AtomicBool> {
        self.flag
    }

    /// What has been stored in the flag from this end, in order.
    pub closed spec fn stored(&self) -> Seq<bool> {
        self.stored@
    }

    /// Nothing but `true` is ever stored from this end.
    #[verifier::type_invariant]
    spec fn only_raised(self) -> bool {
        forall|i: int| 0 <= i < self.stored@.len() ==> #[trigger] self.stored@[i]
    }

    /// The signal on `flag`, in which nothing has been stored from this end.
    pub(crate) fn new(flag: Arc<AtomicBool>) -> (r: StopSignal)
        ensures
            r.flag() == flag,
            r.stored() == Seq::<bool>::empty(),
    {
        StopSignal { flag, stored: Ghost(Seq::empty()) }
    }

    /// Stores `true` in the flag, once.
    pub(crate) fn raise(&mut self)
        ensures
            final(self).flag() == old(self).flag(),
            final(self).stored() == old(self).stored().push(true),
            crate::reader::stop_raised(old(self).flag()),
    {
        proof {
            use_type_invariant(&*self);
        }
        self.flag.store(true, Ordering::Relaxed);
        self.stored = Ghost(self.stored@.push(true));
    }
}

} // verus!
