//! The life of a group member: created, then connected by the rendezvous
//! (once), then finalized, after which its transport is released.
use vstd::prelude::*;

verus! {

/// Where a group member is in its life.
#[derive(Clone, Copy, Debug, PartialEq, Eq, Structural)]
pub enum Phase {
    /// Built, not yet connected.
    Created,
    /// Connected to every other rank.
    Running,
    /// Transport released.
    Finalized,
}

/// Why a lifecycle step was refused.
#[derive(Clone, Copy, Debug, PartialEq, Eq, Structural)]
pub enum LifecycleError {
    /// The rendezvous already ran, or the member was finalized.
    NotCreated,
}

/// Whether a finalize in phase `p` must release the transport.
pub open spec fn releases(p: Phase) -> bool {
    p != Phase::Finalized
}

/// The life of one group member.
pub struct Lifecycle {
    pub phase: Phase,
}

impl Lifecycle {
    /// A member that is built and not yet connected.
    pub fn new() -> (r: Lifecycle)
        ensures
            r.phase == Phase::Created,
    {
        Lifecycle { phase: Phase::Created }
    }

    /// Records that the rendezvous runs now; it may run only once, and not
    /// after a finalize.
    pub fn begin(&mut self) -> (r: Result<(), LifecycleError>)
        ensures
            old(self).phase == Phase::Created ==> r is Ok && final(self).phase == Phase::Running,
            old(self).phase != Phase::Created ==> r == Err::<(), LifecycleError>(
                LifecycleError::NotCreated,
            ) && final(self).phase == old(self).phase,
    {
        match self.phase {
            Phase::Created => {
                self.phase = Phase::Running;
                Ok(())
            },
            _ => Err(LifecycleError::NotCreated),
        }
    }

    /// Finalizes the member; returns whether the caller must release the
    /// transport now, which is so only the first time.
    pub fn finalize(&mut self) -> (release: bool)
        ensures
            final(self).phase == Phase::Finalized,
            release == releases(old(self).phase),
    {
        let release = match self.phase {
            Phase::Finalized => false,
            _ => true,
        };
        self.phase = Phase::Finalized;
        release
    }
}

/// Finalizing twice is harmless: after a finalize, whatever the phase before
/// it, a second finalize releases nothing.
pub proof fn lemma_finalize_idempotent(p: Phase)
    ensures
        releases(p) == (p != Phase::Finalized),
        !releases(Phase::Finalized),
{
}

} // verus!
