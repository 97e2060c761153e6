//! The lease manager: one holder per run of the scheduler.

use vstd::prelude::*;
use crate::ident::ChannelId;
use crate::registry::{
    lease_answer, release_step, with_lease_request, LeaseOutcome, Registry, RegistryError,
    ReleaseOutcome,
};

verus! {

/// Takes and returns leases in the name of one run of the scheduler. A run
/// that starts after another has a larger holder, so that it never takes a
/// lease that the earlier run left behind for its own.
#[derive(Clone, Copy, Debug, PartialEq, Eq)]
pub struct LeaseManager {
    holder: u64,
}

impl LeaseManager {
    /// The holder in whose name leases are taken.
    pub closed spec fn holder_id(&self) -> u64 {
        self.holder
    }

    /// The manager of the run that started with `nonce`.
    pub fn new(nonce: u64) -> (manager: Self)
        ensures
            manager.holder_id() == nonce,
    {
        LeaseManager { holder: nonce }
    }

    /// The holder in whose name leases are taken.
    pub fn holder(&self) -> (holder: u64)
        ensures
            holder == self.holder_id(),
    {
        self.holder
    }

    /// The manager of the run that starts next, while holders last.
    pub fn successor(&self) -> (next: Option<LeaseManager>)
        ensures
            match next {
                Some(manager) => manager.holder_id() == self.holder_id() + 1,
                None => self.holder_id() == u64::MAX,
            },
    {
        if self.holder == u64::MAX {
            None
        } else {
            Some(LeaseManager { holder: self.holder + 1 })
        }
    }

    /// Asks the registry for a lease on `id`, from `now` for `ttl`.
    pub fn acquire(&self, registry: &mut Registry, id: &ChannelId, now: u64, ttl: u64) -> (outcome:
        Result<LeaseOutcome, RegistryError>)
        requires
            old(registry).wf(),
        ensures
            final(registry).wf(),
            outcome == lease_answer(old(registry)@, *id, self.holder_id(), now, ttl),
            final(registry)@ == with_lease_request(
                old(registry)@,
                *id,
                self.holder_id(),
                now,
                ttl,
            ),
    {
        registry.try_acquire_lease(id, self.holder, now, ttl)
    }

    /// Gives back this run's lease on `id`.
    pub fn release(&self, registry: &mut Registry, id: &ChannelId) -> (outcome: Result<
        ReleaseOutcome,
        RegistryError,
    >)
        requires
            old(registry).wf(),
        ensures
            final(registry).wf(),
            match outcome {
                Ok(released) => old(registry)@.contains_key(*id) && released == release_step(
                    old(registry)@[*id],
                    self.holder_id(),
                ).1 && final(registry)@ == old(registry)@.insert(
                    *id,
                    release_step(old(registry)@[*id], self.holder_id()).0,
                ),
                Err(_) => !old(registry)@.contains_key(*id) && final(registry)@ == old(registry)@,
            },
    {
        registry.release_lease(id, self.holder)
    }
}

} // verus!
