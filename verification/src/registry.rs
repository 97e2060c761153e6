//! The channel registry: every known channel with its due time and its lease.

use vstd::prelude::*;
use crate::assoc::{assoc, lemma_assoc_at, lemma_assoc_insert, lemma_assoc_update};
use crate::digest::{calculate_keccak_address, owner_of};
use crate::event::EventKey;
use crate::ident::{bytes_eq, Address, ChannelId};

verus! {

/// Who may work on a channel right now.
#[derive(Clone, Copy, Debug, PartialEq, Eq)]
pub enum LeaseState {
    Free,
    Leased { holder: u64, acquired_at: u64, expires_at: u64 },
}

/// Whether a channel still takes part in scheduling.
#[derive(Clone, Copy, Debug, PartialEq, Eq)]
pub enum ChannelStatus {
    Active,
    Closed,
    Stuck,
}

/// One row of the registry.
#[derive(Clone, Copy, Debug, PartialEq, Eq)]
pub struct Channel {
    pub id: ChannelId,
    pub owner: Address,
    pub due_at: u64,
    pub lease: LeaseState,
    pub status: ChannelStatus,
    /// Executions that have failed since the last one that succeeded.
    pub failures: u32,
    /// The last event that was applied to the channel.
    pub cursor: Option<EventKey>,
}

/// Answer to a request for a lease.
#[derive(Clone, Copy, Debug, PartialEq, Eq)]
pub enum LeaseOutcome {
    LeaseGranted,
    AlreadyLeased,
}

/// Answer to the return of a lease.
#[derive(Clone, Copy, Debug, PartialEq, Eq)]
pub enum ReleaseOutcome {
    Released,
    NotHolder,
}

/// Why the registry could not do what was asked.
#[derive(Clone, Copy, Debug, PartialEq, Eq)]
pub enum RegistryError {
    /// The registry has no row for the channel.
    UnknownChannel,
    /// The lease would end after the last moment there is.
    TimeOutOfRange,
}

/// A lease counts from the moment it is taken up to, not including, the
/// moment it expires; from then on it is as good as absent.
pub open spec fn lease_live(lease: LeaseState, now: u64) -> bool {
    lease matches LeaseState::Leased { expires_at, .. } && now < expires_at
}

/// The row of a channel that has just been opened.
pub open spec fn opened(id: ChannelId, due_at: u64, cursor: Option<EventKey>) -> Channel {
    Channel {
        id,
        owner: owner_of(id),
        due_at,
        lease: LeaseState::Free,
        status: ChannelStatus::Active,
        failures: 0,
        cursor,
    }
}

/// Whether a lease on `c` can be had at `now` for `ttl`: no lease is live,
/// and the new one would end at a moment that there is.
pub open spec fn grantable(c: Channel, now: u64, ttl: u64) -> bool {
    !lease_live(c.lease, now) && now + ttl <= u64::MAX
}

/// A request for a lease at `now`: refused while a lease is live, whoever
/// holds it; otherwise granted from `now` for `ttl`, unless the lease would
/// end after the last moment there is, which is an error and changes nothing.
pub open spec fn acquire_step(c: Channel, holder: u64, now: u64, ttl: u64) -> (
    Channel,
    Result<LeaseOutcome, RegistryError>,
) {
    if lease_live(c.lease, now) {
        (c, Ok(LeaseOutcome::AlreadyLeased))
    } else if now + ttl > u64::MAX {
        (c, Err(RegistryError::TimeOutOfRange))
    } else {
        (
            Channel {
                lease: LeaseState::Leased {
                    holder,
                    acquired_at: now,
                    expires_at: (now + ttl) as u64,
                },
                ..c
            },
            Ok(LeaseOutcome::LeaseGranted),
        )
    }
}

/// The return of a lease: it ends the lease that `holder` has, live or not,
/// and does nothing to anyone else's.
pub open spec fn release_step(c: Channel, holder: u64) -> (Channel, ReleaseOutcome) {
    if c.lease matches LeaseState::Leased { holder: h, .. } && h == holder {
        (Channel { lease: LeaseState::Free, ..c }, ReleaseOutcome::Released)
    } else {
        (c, ReleaseOutcome::NotHolder)
    }
}

/// A due time only moves forward when a channel is rescheduled.
pub open spec fn rescheduled(c: Channel, new_due_at: u64) -> Channel {
    Channel { due_at: if new_due_at > c.due_at { new_due_at } else { c.due_at }, ..c }
}

impl Channel {
    /// The row of a channel that has just been opened. Its owner is derived
    /// from the identifier.
    pub fn open(id: ChannelId, due_at: u64, cursor: Option<EventKey>) -> (c: Channel)
        ensures
            c == opened(id, due_at, cursor),
    {
        Channel {
            id,
            owner: calculate_keccak_address(&id),
            due_at,
            lease: LeaseState::Free,
            status: ChannelStatus::Active,
            failures: 0,
            cursor,
        }
    }

    /// Whether a lease on the channel is live at `now`.
    pub fn is_leased_at(&self, now: u64) -> (live: bool)
        ensures
            live == lease_live(self.lease, now),
    {
        match self.lease {
            LeaseState::Free => false,
            LeaseState::Leased { expires_at, .. } => now < expires_at,
        }
    }

    /// Asks for a lease for `holder`, from `now` for `ttl`.
    pub fn try_acquire_lease(&mut self, holder: u64, now: u64, ttl: u64) -> (outcome: Result<
        LeaseOutcome,
        RegistryError,
    >)
        ensures
            (*final(self), outcome) == acquire_step(*old(self), holder, now, ttl),
    {
        if self.is_leased_at(now) {
            Ok(LeaseOutcome::AlreadyLeased)
        } else if ttl > u64::MAX - now {
            Err(RegistryError::TimeOutOfRange)
        } else {
            self.lease = LeaseState::Leased { holder, acquired_at: now, expires_at: now + ttl };
            Ok(LeaseOutcome::LeaseGranted)
        }
    }

    /// Gives back the lease that `holder` has on the channel.
    pub fn release_lease(&mut self, holder: u64) -> (outcome: ReleaseOutcome)
        ensures
            (*final(self), outcome) == release_step(*old(self), holder),
    {
        match self.lease {
            LeaseState::Leased { holder: h, .. } => {
                if h == holder {
                    self.lease = LeaseState::Free;
                    ReleaseOutcome::Released
                } else {
                    ReleaseOutcome::NotHolder
                }
            },
            LeaseState::Free => ReleaseOutcome::NotHolder,
        }
    }

    /// Moves the due time forward to `new_due_at`; an earlier time is ignored.
    pub fn reschedule(&mut self, new_due_at: u64)
        ensures
            *final(self) == rescheduled(*old(self), new_due_at),
    {
        if new_due_at > self.due_at {
            self.due_at = new_due_at;
        }
    }

    /// Whether the channel takes part in scheduling.
    pub fn is_active(&self) -> (active: bool)
        ensures
            active == (self.status is Active),
    {
        match self.status {
            ChannelStatus::Active => true,
            _ => false,
        }
    }
}

/// A lease that was granted shuts out every later request until it has
/// expired: of two leases granted on a channel, the second starts no earlier
/// than the first ends, whatever else became of the row in between, as long
/// as the first lease was not given back.
pub proof fn lemma_granted_leases_do_not_overlap(
    c: Channel,
    holder1: u64,
    now1: u64,
    ttl1: u64,
    later: Channel,
    holder2: u64,
    now2: u64,
    ttl2: u64,
)
    requires
        acquire_step(c, holder1, now1, ttl1).1 == Ok::<LeaseOutcome, RegistryError>(
            LeaseOutcome::LeaseGranted,
        ),
        later.lease == acquire_step(c, holder1, now1, ttl1).0.lease,
        acquire_step(later, holder2, now2, ttl2).1 == Ok::<LeaseOutcome, RegistryError>(
            LeaseOutcome::LeaseGranted,
        ),
    ensures
        now1 + ttl1 <= now2,
{
}

/// While the first of two leases is live, a second request is refused and
/// changes nothing.
pub proof fn lemma_second_request_is_refused(
    c: Channel,
    holder1: u64,
    holder2: u64,
    now: u64,
    ttl: u64,
)
    requires
        0 < ttl,
        acquire_step(c, holder1, now, ttl).1 == Ok::<LeaseOutcome, RegistryError>(
            LeaseOutcome::LeaseGranted,
        ),
    ensures
        acquire_step(acquire_step(c, holder1, now, ttl).0, holder2, now, ttl) == (
            acquire_step(c, holder1, now, ttl).0,
            Ok::<LeaseOutcome, RegistryError>(LeaseOutcome::AlreadyLeased),
        ),
{
}

/// A lease that has run out stands in nobody's way, and the one who held it
/// finds on return that it is no longer theirs.
pub proof fn lemma_expired_lease_is_overwritten(
    c: Channel,
    stale: u64,
    holder: u64,
    now: u64,
    ttl: u64,
)
    requires
        c.lease matches LeaseState::Leased { holder: h, expires_at, .. } && h == stale
            && expires_at <= now,
        stale != holder,
        now + ttl <= u64::MAX,
    ensures
        acquire_step(c, holder, now, ttl).1 == Ok::<LeaseOutcome, RegistryError>(
            LeaseOutcome::LeaseGranted,
        ),
        release_step(acquire_step(c, holder, now, ttl).0, stale) == (
            acquire_step(c, holder, now, ttl).0,
            ReleaseOutcome::NotHolder,
        ),
{
}

/// The answer to a request for a lease on `id`.
pub open spec fn lease_answer(
    channels: Map<ChannelId, Channel>,
    id: ChannelId,
    holder: u64,
    now: u64,
    ttl: u64,
) -> Result<LeaseOutcome, RegistryError> {
    if channels.contains_key(id) {
        acquire_step(channels[id], holder, now, ttl).1
    } else {
        Err(RegistryError::UnknownChannel)
    }
}

/// The channels after a request for a lease on `id`.
pub open spec fn with_lease_request(
    channels: Map<ChannelId, Channel>,
    id: ChannelId,
    holder: u64,
    now: u64,
    ttl: u64,
) -> Map<ChannelId, Channel> {
    if channels.contains_key(id) {
        channels.insert(id, acquire_step(channels[id], holder, now, ttl).0)
    } else {
        channels
    }
}

/// The channels of the rows, in their order.
pub open spec fn row_ids(rows: Seq<Channel>) -> Seq<ChannelId> {
    rows.map_values(|c: Channel| c.id)
}

/// The table of channels, one row for each identifier.
pub struct Registry {
    rows: Vec<Channel>,
}

impl View for Registry {
    type V = Map<ChannelId, Channel>;

    /// The row of every channel that the registry knows.
    closed spec fn view(&self) -> Map<ChannelId, Channel> {
        assoc(row_ids(self.rows@), self.rows@)
    }
}

impl Registry {
    /// No identifier has two rows.
    pub closed spec fn wf(&self) -> bool {
        row_ids(self.rows@).no_duplicates()
    }

    /// Every row is kept under its own identifier.
    pub proof fn lemma_keyed_by_id(&self)
        requires
            self.wf(),
        ensures
            forall|id: ChannelId| self@.contains_key(id) ==> (#[trigger] self@[id]).id == id,
    {
        assert forall|id: ChannelId| self@.contains_key(id) implies (#[trigger] self@[id]).id
            == id by {
            let i = row_ids(self.rows@).index_of(id);
            lemma_assoc_at(row_ids(self.rows@), self.rows@, i);
        }
    }

    /// A registry without channels.
    pub fn new() -> (registry: Self)
        ensures
            registry.wf(),
            registry@ == Map::<ChannelId, Channel>::empty(),
    {
        let registry = Registry { rows: Vec::new() };
        assert(registry@ =~= Map::<ChannelId, Channel>::empty());
        registry
    }

    /// Where the row of `id` stands, if there is one.
    fn find(&self, id: &ChannelId) -> (at: Option<usize>)
        requires
            self.wf(),
        ensures
            match at {
                Some(i) => i < self.rows@.len() && self.rows@[i as int].id == *id
                    && self@.contains_key(*id) && self@[*id] == self.rows@[i as int],
                None => !self@.contains_key(*id),
            },
    {
        let mut i: usize = 0;
        while i < self.rows.len()
            invariant
                self.wf(),
                i <= self.rows@.len(),
                forall|j: int| 0 <= j < i ==> self.rows@[j].id != *id,
            decreases self.rows@.len() - i,
        {
            if bytes_eq(&self.rows[i].id, id) {
                proof {
                    assert(row_ids(self.rows@)[i as int] == *id);
                    lemma_assoc_at(row_ids(self.rows@), self.rows@, i as int);
                }
                return Some(i);
            }
            i = i + 1;
        }
        None
    }

    /// The number of channels.
    pub fn len(&self) -> (n: usize)
        requires
            self.wf(),
        ensures
            self@.dom().finite(),
            n == self@.len(),
    {
        proof {
            let ids = row_ids(self.rows@);
            assert(self@.dom() =~= ids.to_set());
            ids.unique_seq_to_set();
            vstd::seq_lib::seq_to_set_is_finite(ids);
        }
        self.rows.len()
    }

    /// The row of `id`.
    pub fn get(&self, id: &ChannelId) -> (row: Option<Channel>)
        requires
            self.wf(),
        ensures
            row == (if self@.contains_key(*id) {
                Some(self@[*id])
            } else {
                None
            }),
    {
        match self.find(id) {
            Some(i) => Some(self.rows[i]),
            None => None,
        }
    }

    /// Stores `row` under its identifier, in place of the row that was there.
    pub fn put(&mut self, row: Channel)
        requires
            old(self).wf(),
        ensures
            final(self).wf(),
            final(self)@ == old(self)@.insert(row.id, row),
    {
        match self.find(&row.id) {
            Some(i) => {
                proof {
                    let rows = self.rows@;
                    assert(row_ids(rows.update(i as int, row)) =~= row_ids(rows));
                    lemma_assoc_update(row_ids(rows), rows, i as int, row);
                }
                self.rows.set(i, row);
            },
            None => {
                proof {
                    let rows = self.rows@;
                    let n = rows.len() as int;
                    assert(rows.push(row) =~= rows.insert(n, row));
                    assert(row_ids(rows.push(row)) =~= row_ids(rows).insert(n, row.id));
                    lemma_assoc_insert(row_ids(rows), rows, n, row.id, row);
                }
                self.rows.push(row);
            },
        }
    }

    /// A registry that holds `rows`, unless two of them have one identifier.
    pub fn from_rows(rows: Vec<Channel>) -> (registry: Option<Registry>)
        ensures
            match registry {
                Some(r) => r.wf() && row_ids(rows@).no_duplicates() && r@ == assoc(
                    row_ids(rows@),
                    rows@,
                ),
                None => !row_ids(rows@).no_duplicates(),
            },
    {
        let mut i: usize = 0;
        while i < rows.len()
            invariant
                i <= rows@.len(),
                forall|p: int, q: int| 0 <= p < q < i ==> rows@[p].id != rows@[q].id,
            decreases rows@.len() - i,
        {
            let mut j: usize = 0;
            while j < i
                invariant
                    j <= i,
                    i < rows@.len(),
                    forall|p: int| 0 <= p < j ==> rows@[p].id != rows@[i as int].id,
                decreases i - j,
            {
                if bytes_eq(&rows[j].id, &rows[i].id) {
                    proof {
                        let ids = row_ids(rows@);
                        assert(ids[j as int] == ids[i as int]);
                    }
                    return None;
                }
                j = j + 1;
            }
            i = i + 1;
        }
        proof {
            let ids = row_ids(rows@);
            assert forall|p: int, q: int| 0 <= p < ids.len() && 0 <= q < ids.len() && p
                != q implies ids[p] != ids[q] by {
                if p < q {
                    assert(rows@[p].id != rows@[q].id);
                } else {
                    assert(rows@[q].id != rows@[p].id);
                }
            }
        }
        Some(Registry { rows })
    }

    /// The rows of the registry, each channel once.
    pub fn channels(&self) -> (rows: Vec<Channel>)
        requires
            self.wf(),
        ensures
            row_ids(rows@).no_duplicates(),
            assoc(row_ids(rows@), rows@) == self@,
    {
        let mut rows: Vec<Channel> = Vec::new();
        let mut i: usize = 0;
        while i < self.rows.len()
            invariant
                i <= self.rows@.len(),
                rows@ == self.rows@.subrange(0, i as int),
            decreases self.rows@.len() - i,
        {
            rows.push(self.rows[i]);
            assert(rows@ =~= self.rows@.subrange(0, i + 1));
            i = i + 1;
        }
        assert(rows@ =~= self.rows@);
        rows
    }

    /// Sets the due time of `id`. A channel that the registry does not know
    /// yet gets a row of its own: open, free, with no failure on record.
    pub fn upsert_due(&mut self, id: ChannelId, due_at: u64)
        requires
            old(self).wf(),
        ensures
            final(self).wf(),
            final(self)@ == old(self)@.insert(
                id,
                if old(self)@.contains_key(id) {
                    Channel { due_at, ..old(self)@[id] }
                } else {
                    opened(id, due_at, None)
                },
            ),
    {
        proof {
            self.lemma_keyed_by_id();
        }
        let row = match self.get(&id) {
            Some(known) => Channel { due_at, ..known },
            None => Channel::open(id, due_at, None),
        };
        self.put(row);
    }

    /// Asks for a lease on `id` for `holder`, from `now` for `ttl`. The
    /// request is refused while any lease on the channel is live. A lease
    /// that has expired is overwritten. A channel that is not known, or a
    /// lease that would end after the last moment there is, is an error and
    /// changes nothing.
    pub fn try_acquire_lease(&mut self, id: &ChannelId, holder: u64, now: u64, ttl: u64) -> (outcome:
        Result<LeaseOutcome, RegistryError>)
        requires
            old(self).wf(),
        ensures
            final(self).wf(),
            outcome == lease_answer(old(self)@, *id, holder, now, ttl),
            final(self)@ == with_lease_request(old(self)@, *id, holder, now, ttl),
    {
        proof {
            self.lemma_keyed_by_id();
        }
        match self.get(id) {
            Some(known) => {
                let mut row = known;
                let outcome = row.try_acquire_lease(holder, now, ttl);
                self.put(row);
                outcome
            },
            None => {
                Err(RegistryError::UnknownChannel)
            },
        }
    }

    /// Gives back the lease that `holder` has on `id`. Where the lease is
    /// someone else's by now, or there is none, nothing changes.
    pub fn release_lease(&mut self, id: &ChannelId, holder: u64) -> (outcome: Result<
        ReleaseOutcome,
        RegistryError,
    >)
        requires
            old(self).wf(),
        ensures
            final(self).wf(),
            match outcome {
                Ok(released) => old(self)@.contains_key(*id) && released == release_step(
                    old(self)@[*id],
                    holder,
                ).1 && final(self)@ == old(self)@.insert(
                    *id,
                    release_step(old(self)@[*id], holder).0,
                ),
                Err(_) => !old(self)@.contains_key(*id) && final(self)@ == old(self)@,
            },
    {
        proof {
            self.lemma_keyed_by_id();
        }
        match self.get(id) {
            Some(known) => {
                let mut row = known;
                let released = row.release_lease(holder);
                self.put(row);
                Ok(released)
            },
            None => Err(RegistryError::UnknownChannel),
        }
    }

    /// Moves the due time of `id` forward to `new_due_at`; a time that is not
    /// later than the one on record is ignored.
    pub fn reschedule(&mut self, id: &ChannelId, new_due_at: u64) -> (outcome: Result<
        (),
        RegistryError,
    >)
        requires
            old(self).wf(),
        ensures
            final(self).wf(),
            match outcome {
                Ok(_) => old(self)@.contains_key(*id) && final(self)@ == old(self)@.insert(
                    *id,
                    rescheduled(old(self)@[*id], new_due_at),
                ),
                Err(_) => !old(self)@.contains_key(*id) && final(self)@ == old(self)@,
            },
    {
        proof {
            self.lemma_keyed_by_id();
        }
        match self.get(id) {
            Some(known) => {
                let mut row = known;
                row.reschedule(new_due_at);
                self.put(row);
                Ok(())
            },
            None => Err(RegistryError::UnknownChannel),
        }
    }
}

} // verus!
