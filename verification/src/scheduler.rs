//! The scheduler loop: ticks, leases, dispatch and the way back.

use vstd::prelude::*;
use crate::backoff::retry_backoff;
use crate::cache::{due_order, is_due_order, DueCache};
use crate::config::SchedulerConfig;
use crate::event::{decode_log, Event, EventBody, EventKind, RawLog};
use crate::ident::{bytes_eq, ChannelId};
use crate::laws::{
    lemma_abandon_consistent, lemma_begin_tick_consistent, lemma_candidates_are_in_order, lemma_complete_consistent, lemma_dispatch_consistent,
    lemma_finish_tick_consistent, lemma_ingest_consistent, lemma_plan_facts,
    lemma_promote_consistent, lemma_started_consistent,
};
use crate::lease::LeaseManager;
use crate::model::{
    abandon_step, batch_counts, begin_tick_step, cached_right, complete_step, consistent,
    dispatch_step, dispatch_targets, finish_tick_step, free_places, held_back,
    ingest_logs_step, ingest_step, leased, not_held_back, plan, promotable, promote_step,
    recached, started, waiting, BatchReport, Completion, LoopState, Model, WorkerOutcome,
};
use crate::registry::{Channel, ChannelStatus, LeaseOutcome, Registry, ReleaseOutcome};
use crate::seqs::{lemma_index_of_unique, lemma_push_contains};
use crate::time::after;
use crate::store::{ingest_outcome, EventStore, IngestOutcome};

verus! {

/// The scheduler with all it knows: the registry and the event store, the
/// cache of due times, and the executions that are in flight.
pub struct Scheduler {
    config: SchedulerConfig,
    leases: LeaseManager,
    registry: Registry,
    store: EventStore,
    cache: DueCache,
    in_flight: Vec<ChannelId>,
    pending: Vec<ChannelId>,
    state: LoopState,
    tick_time: u64,
}

impl View for Scheduler {
    type V = Model;

    closed spec fn view(&self) -> Model {
        Model {
            config: self.config,
            holder: self.leases.holder_id(),
            channels: self.registry@,
            events: self.store.events(),
            providers: self.store.providers(),
            cache: self.cache@,
            in_flight: self.in_flight@,
            pending: self.pending@,
            state: self.state,
            tick_time: self.tick_time,
        }
    }
}

/// What is in the cache while a tick looks through the channels that left it
/// as due: what was not due, and those of the channels `seen` so far that are
/// held back.
spec fn still_waiting(
    cache: Map<ChannelId, u64>,
    channels: Map<ChannelId, Channel>,
    now: u64,
    seen: Seq<ChannelId>,
) -> Map<ChannelId, u64> {
    Map::new(
        |id: ChannelId|
            cache.contains_key(id) && (cache[id] > now || (seen.contains(id) && held_back(
                channels,
                now,
                id,
            ))),
        |id: ChannelId| cache[id],
    )
}

/// Where `id` stands among `ids`.
fn position(ids: &Vec<ChannelId>, id: &ChannelId) -> (at: Option<usize>)
    ensures
        match at {
            Some(i) => i < ids@.len() && ids@[i as int] == *id,
            None => !ids@.contains(*id),
        },
{
    let mut i: usize = 0;
    while i < ids.len()
        invariant
            i <= ids@.len(),
            forall|j: int| 0 <= j < i ==> ids@[j] != *id,
        decreases ids@.len() - i,
    {
        if bytes_eq(&ids[i], id) {
            return Some(i);
        }
        i = i + 1;
    }
    None
}

impl Scheduler {
    /// The tables are well kept and the scheduler is consistent.
    pub closed spec fn wf(&self) -> bool {
        &&& self.registry.wf()
        &&& self.store.wf()
        &&& self.cache.wf()
        &&& consistent(self@)
    }

    /// A scheduler that is well kept is consistent.
    pub proof fn lemma_consistent(&self)
        requires
            self.wf(),
        ensures
            consistent(self@),
    {
    }

    /// The due channels of the scheduler's cache can be put in order,
    /// whatever the time.
    pub proof fn lemma_cache_has_due_order(&self, now: u64)
        requires
            self.wf(),
        ensures
            is_due_order(self@.cache, now, due_order(self@.cache, now)),
    {
        self.cache.lemma_has_due_order(now);
    }

    /// Starts a run of the scheduler on what the last run left behind. The
    /// cache is built from the registry; nothing is in flight.
    pub fn start(config: SchedulerConfig, nonce: u64, registry: Registry, store: EventStore) -> (scheduler:
        Self)
        requires
            registry.wf(),
            store.wf(),
        ensures
            scheduler.wf(),
            scheduler@ == started(config, nonce, registry@, store.events(), store.providers()),
    {
        let cache = DueCache::rebuild(&registry);
        proof {
            registry.lemma_keyed_by_id();
            lemma_started_consistent(
                config,
                nonce,
                registry@,
                store.events(),
                store.providers(),
            );
        }
        let scheduler = Scheduler {
            config,
            leases: LeaseManager::new(nonce),
            registry,
            store,
            cache,
            in_flight: Vec::new(),
            pending: Vec::new(),
            state: LoopState::Idle,
            tick_time: 0,
        };
        assert(scheduler@ =~= started(
            config,
            nonce,
            registry@,
            store.events(),
            store.providers(),
        ));
        scheduler
    }

    /// Where the loop stands.
    pub fn state(&self) -> (state: LoopState)
        ensures
            state == self@.state,
    {
        self.state
    }

    /// The settings of this run.
    pub fn config(&self) -> (config: SchedulerConfig)
        ensures
            config == self@.config,
    {
        self.config
    }

    /// The holder in whose name this run takes leases.
    pub fn holder(&self) -> (holder: u64)
        ensures
            holder == self@.holder,
    {
        self.leases.holder()
    }

    /// The registry.
    pub fn registry(&self) -> (registry: &Registry)
        requires
            self.wf(),
        ensures
            registry.wf(),
            registry@ == self@.channels,
    {
        &self.registry
    }

    /// The event store.
    pub fn store(&self) -> (store: &EventStore)
        requires
            self.wf(),
        ensures
            store.wf(),
            store.events() == self@.events,
            store.providers() == self@.providers,
    {
        &self.store
    }

    /// The due-time cache.
    pub fn cache(&self) -> (cache: &DueCache)
        requires
            self.wf(),
        ensures
            cache.wf(),
            cache@ == self@.cache,
    {
        &self.cache
    }

    /// The channels that are being executed, in the order of their dispatch.
    pub fn in_flight(&self) -> (ids: Vec<ChannelId>)
        ensures
            ids@ == self@.in_flight,
    {
        let mut ids: Vec<ChannelId> = Vec::new();
        let mut i: usize = 0;
        while i < self.in_flight.len()
            invariant
                i <= self.in_flight@.len(),
                ids@ == self.in_flight@.subrange(0, i as int),
            decreases self.in_flight@.len() - i,
        {
            ids.push(self.in_flight[i]);
            assert(ids@ =~= self.in_flight@.subrange(0, i + 1));
            i = i + 1;
        }
        assert(ids@ =~= self.in_flight@);
        ids
    }

    /// The candidates of the current tick, in the order in which they fell
    /// due.
    pub fn candidates(&self) -> (ids: Vec<ChannelId>)
        ensures
            ids@ == self@.pending,
    {
        let mut ids: Vec<ChannelId> = Vec::new();
        let mut i: usize = 0;
        while i < self.pending.len()
            invariant
                i <= self.pending@.len(),
                ids@ == self.pending@.subrange(0, i as int),
            decreases self.pending@.len() - i,
        {
            ids.push(self.pending[i]);
            assert(ids@ =~= self.pending@.subrange(0, i + 1));
            i = i + 1;
        }
        assert(ids@ =~= self.pending@);
        ids
    }

    /// Begins a tick at `now`: the channels that are due and on which no
    /// lease is live leave the cache and become the candidates of the tick,
    /// in ascending order of due time, equal due times in order of
    /// identifier. A due channel under a live lease stays in the cache until
    /// a tick finds the lease ended, and then takes its place by its due
    /// time. Tells whether a tick began; none does while another is under
    /// way.
    pub fn begin_tick(&mut self, now: u64) -> (begun: bool)
        requires
            old(self).wf(),
        ensures
            final(self).wf(),
            final(self)@ == begin_tick_step(old(self)@, now),
            begun == (old(self)@.state is Idle),
    {
        match self.state {
            LoopState::Idle => {},
            _ => {
                return false;
            },
        }
        let ghost m0 = self@;
        proof {
            self.cache.lemma_has_due_order(now);
        }
        let popped = self.cache.pop_due(now);
        let mut candidates: Vec<ChannelId> = Vec::new();
        let n = popped.len();
        let mut i: usize = 0;
        assert(self.cache@ =~= still_waiting(m0.cache, m0.channels, now, popped@.take(0)));
        while i < n
            invariant
                consistent(m0),
                is_due_order(m0.cache, now, popped@),
                self.registry.wf(),
                self.cache.wf(),
                self.store.wf(),
                n == popped@.len(),
                i <= n,
                candidates@ == not_held_back(popped@.take(i as int), m0.channels, now),
                self@ == (Model {
                    cache: still_waiting(m0.cache, m0.channels, now, popped@.take(i as int)),
                    ..m0
                }),
            decreases n - i,
        {
            let id = popped[i];
            proof {
                let seen = popped@.take(i as int);
                lemma_push_contains(seen, id);
                assert(popped@.take(i + 1) =~= seen.push(id));
                assert(popped@.take(i + 1).drop_last() =~= seen);
                assert(popped@.contains(id));
                assert(cached_right(m0, id));
            }
            let held = match self.registry.get(&id) {
                Some(row) => if row.is_leased_at(now) {
                    Some(row.due_at)
                } else {
                    None
                },
                None => None,
            };
            match held {
                Some(due_at) => {
                    self.cache.upsert(id, due_at);
                },
                None => {
                    candidates.push(id);
                },
            }
            assert(self.cache@ =~= still_waiting(
                m0.cache,
                m0.channels,
                now,
                popped@.take(i + 1),
            ));
            i = i + 1;
        }
        self.pending = candidates;
        self.state = LoopState::Ticking;
        self.tick_time = now;
        proof {
            assert(popped@.take(n as int) =~= popped@);
            lemma_candidates_are_in_order(m0.cache, m0.channels, now, popped@);
            lemma_begin_tick_consistent(m0, now);
            assert(self.cache@ =~= waiting(m0.cache, m0.channels, now));
            assert(self@ =~= begin_tick_step(m0, now));
        }
        true
    }

    /// Ends a tick once its executions are started. Tells whether there was
    /// a dispatch to end.
    pub fn finish_tick(&mut self) -> (ended: bool)
        requires
            old(self).wf(),
        ensures
            final(self).wf(),
            final(self)@ == finish_tick_step(old(self)@),
            ended == (old(self)@.state is Dispatching),
    {
        match self.state {
            LoopState::Dispatching => {
                self.state = LoopState::Idle;
                proof {
                    lemma_finish_tick_consistent(old(self)@);
                    assert(self@ =~= finish_tick_step(old(self)@));
                }
                true
            },
            _ => false,
        }
    }

    /// Moves `id` to the earlier due time `due_at`, so that it is executed
    /// before its turn. Only a channel that takes part in scheduling and is
    /// due later than `due_at` is moved. Tells whether it was.
    pub fn promote(&mut self, id: &ChannelId, due_at: u64) -> (moved: bool)
        requires
            old(self).wf(),
        ensures
            final(self).wf(),
            final(self)@ == promote_step(old(self)@, *id, due_at),
            moved == promotable(old(self)@, *id, due_at),
    {
        match self.registry.get(id) {
            Some(row) => {
                if row.is_active() && due_at < row.due_at {
                    self.registry.upsert_due(*id, due_at);
                    if self.cache.due_of(id).is_some() {
                        self.cache.upsert(*id, due_at);
                    }
                    proof {
                        lemma_promote_consistent(old(self)@, *id, due_at);
                        assert(self@ =~= promote_step(old(self)@, *id, due_at));
                    }
                    true
                } else {
                    false
                }
            },
            None => false,
        }
    }

    /// Takes in an event at `now`. One that is stored already changes
    /// nothing. A new one is stored, and a channel that it opens is known to
    /// the registry and the cache from then on, due after the offset of the
    /// settings.
    pub fn ingest(&mut self, event: Event, now: u64) -> (outcome: IngestOutcome)
        requires
            old(self).wf(),
        ensures
            final(self).wf(),
            final(self)@ == ingest_step(old(self)@, event, now),
            outcome == ingest_outcome(old(self)@.events, event),
    {
        let fresh = match event.body {
            EventBody::ChannelOpened { channel_id } => self.registry.get(&channel_id).is_none(),
            EventBody::ProviderRegistered { .. } => false,
        };
        let outcome = self.store.ingest(
            &mut self.registry,
            event,
            now,
            self.config.initial_due_offset,
        );
        match outcome {
            IngestOutcome::Inserted => {
                if fresh {
                    match event.body {
                        EventBody::ChannelOpened { channel_id } => {
                            self.cache.upsert(
                                channel_id,
                                after(now, self.config.initial_due_offset),
                            );
                        },
                        EventBody::ProviderRegistered { .. } => {},
                    }
                }
            },
            IngestOutcome::AlreadyPresent => {},
        }
        proof {
            lemma_ingest_consistent(old(self)@, event, now);
            assert(self@ =~= ingest_step(old(self)@, event, now));
        }
        outcome
    }

    /// Looks at the candidates of the tick in order. A candidate whose lease
    /// can be had gets it, from the time of the tick, and is sent out, as
    /// long as fewer executions are in flight than the settings allow. Every
    /// other candidate goes back into the cache with its due time, so that
    /// the next tick takes it up again. Returns the channels to execute, in
    /// order.
    pub fn dispatch(&mut self) -> (sent: Vec<ChannelId>)
        requires
            old(self).wf(),
        ensures
            final(self).wf(),
            final(self)@ == dispatch_step(old(self)@),
            sent@ == dispatch_targets(old(self)@),
    {
        let mut sent: Vec<ChannelId> = Vec::new();
        match self.state {
            LoopState::Ticking => {},
            _ => {
                return sent;
            },
        }
        let ghost m0 = self@;
        let ghost free = free_places(m0);
        let n = self.pending.len();
        let mut i: usize = 0;
        while i < n
            invariant
                consistent(m0),
                m0.state is Ticking,
                free == free_places(m0),
                self.registry.wf(),
                self.cache.wf(),
                self.store.wf(),
                n == m0.pending.len(),
                i <= n,
                sent@ == plan(
                    m0.pending.take(i as int),
                    m0.channels,
                    m0.tick_time,
                    m0.config.lease_ttl,
                    free,
                ),
                self@ == (Model {
                    channels: leased(
                        m0.channels,
                        sent@,
                        m0.holder,
                        m0.tick_time,
                        m0.config.lease_ttl,
                    ),
                    cache: recached(m0.cache, m0.channels, m0.pending.take(i as int), sent@),
                    in_flight: m0.in_flight + sent@,
                    ..m0
                }),
            decreases n - i,
        {
            let id = self.pending[i];
            let ghost seen = m0.pending.take(i as int);
            let ghost go = sent@;
            proof {
                lemma_plan_facts(seen, m0.channels, m0.tick_time, m0.config.lease_ttl, free);
                lemma_push_contains(seen, id);
                lemma_push_contains(go, id);
                assert(m0.pending.take(i + 1) =~= seen.push(id));
                assert(m0.pending.take(i + 1).drop_last() =~= seen);
                if seen.contains(id) {
                    let j = seen.index_of(id);
                    assert(m0.pending[j] == m0.pending[i as int]);
                }
                assert(!go.contains(id));
            }
            let mut placed = false;
            if self.in_flight.len() < self.config.max_concurrent_workers {
                match self.leases.acquire(
                    &mut self.registry,
                    &id,
                    self.tick_time,
                    self.config.lease_ttl,
                ) {
                    Ok(LeaseOutcome::LeaseGranted) => {
                        self.in_flight.push(id);
                        sent.push(id);
                        placed = true;
                        proof {
                            assert(self.in_flight@ =~= m0.in_flight + sent@);
                            assert(self.registry@ =~= leased(
                                m0.channels,
                                sent@,
                                m0.holder,
                                m0.tick_time,
                                m0.config.lease_ttl,
                            ));
                            assert(self.cache@ =~= recached(
                                m0.cache,
                                m0.channels,
                                m0.pending.take(i + 1),
                                sent@,
                            ));
                        }
                    },
                    _ => {
                        assert(self.registry@ =~= leased(
                            m0.channels,
                            sent@,
                            m0.holder,
                            m0.tick_time,
                            m0.config.lease_ttl,
                        ));
                    },
                }
            }
            if !placed {
                match self.registry.get(&id) {
                    Some(row) => {
                        self.cache.upsert(id, row.due_at);
                    },
                    None => {},
                }
                assert(self.cache@ =~= recached(
                    m0.cache,
                    m0.channels,
                    m0.pending.take(i + 1),
                    sent@,
                ));
            }
            i = i + 1;
        }
        self.pending = Vec::new();
        self.state = LoopState::Dispatching;
        proof {
            assert(m0.pending.take(n as int) =~= m0.pending);
            lemma_dispatch_consistent(m0);
            assert(self@ =~= dispatch_step(m0));
        }
        sent
    }

    /// Takes in what a worker reports of the execution of `id` at `now`. The
    /// lease is given back. After a success the channel waits for its next
    /// due time and its failures are forgotten. After a failure it is tried
    /// again later, the delay growing with every failure in a row, or, once
    /// it has failed as often as the settings allow, it is marked stuck and
    /// left for an operator.
    pub fn complete(&mut self, id: &ChannelId, outcome: WorkerOutcome, now: u64) -> (done: Completion)
        requires
            old(self).wf(),
        ensures
            final(self).wf(),
            (final(self)@, done) == complete_step(old(self)@, *id, outcome, now),
    {
        let at = match position(&self.in_flight, id) {
            Some(at) => at,
            None => {
                return Completion::NotInFlight;
            },
        };
        proof {
            lemma_index_of_unique(self.in_flight@, at as int);
            lemma_complete_consistent(old(self)@, *id, outcome, now);
            self.registry.lemma_keyed_by_id();
        }
        let _ = self.in_flight.remove(at);
        match self.leases.release(&mut self.registry, id) {
            Ok(ReleaseOutcome::Released) => {},
            _ => {
                assert(self@ =~= complete_step(old(self)@, *id, outcome, now).0);
                return Completion::LeaseLost;
            },
        }
        let mut row = self.registry.get(id).unwrap();
        match outcome {
            WorkerOutcome::Completed { next_due_at } => {
                row.reschedule(next_due_at);
                row.failures = 0;
                self.registry.put(row);
                self.cache.upsert(*id, row.due_at);
                assert(self@ =~= complete_step(old(self)@, *id, outcome, now).0);
                Completion::Rescheduled { due_at: row.due_at }
            },
            WorkerOutcome::Failed(_) => {
                let failures: u32 = if row.failures < u32::MAX {
                    row.failures + 1
                } else {
                    row.failures
                };
                row.failures = failures;
                if failures >= self.config.max_attempts {
                    row.status = ChannelStatus::Stuck;
                    self.registry.put(row);
                    assert(self@ =~= complete_step(old(self)@, *id, outcome, now).0);
                    Completion::Stuck { failures }
                } else {
                    let delay = retry_backoff(
                        failures,
                        self.config.retry_backoff_base,
                        self.config.retry_backoff_cap,
                    );
                    row.reschedule(after(now, delay));
                    self.registry.put(row);
                    self.cache.upsert(*id, row.due_at);
                    assert(self@ =~= complete_step(old(self)@, *id, outcome, now).0);
                    Completion::Retrying { due_at: row.due_at, failures }
                }
            },
        }
    }

    /// Calls off the execution of `id` before it began, as when the dispatch
    /// could not be written down. The lease is given back, no failure is
    /// counted, and the channel waits in the cache with the due time it had,
    /// so that the next tick takes it up again.
    pub fn abandon(&mut self, id: &ChannelId) -> (done: Completion)
        requires
            old(self).wf(),
        ensures
            final(self).wf(),
            (final(self)@, done) == abandon_step(old(self)@, *id),
    {
        let at = match position(&self.in_flight, id) {
            Some(at) => at,
            None => {
                return Completion::NotInFlight;
            },
        };
        proof {
            lemma_index_of_unique(self.in_flight@, at as int);
            lemma_abandon_consistent(old(self)@, *id);
            self.registry.lemma_keyed_by_id();
        }
        let _ = self.in_flight.remove(at);
        match self.leases.release(&mut self.registry, id) {
            Ok(ReleaseOutcome::Released) => {},
            _ => {
                assert(self@ =~= abandon_step(old(self)@, *id).0);
                return Completion::LeaseLost;
            },
        }
        let row = self.registry.get(id).unwrap();
        self.cache.upsert(*id, row.due_at);
        assert(self@ =~= abandon_step(old(self)@, *id).0);
        Completion::Withdrawn { due_at: row.due_at }
    }

    /// Takes in a batch of logs of one class at `now`, one after the other.
    /// A log that cannot be decoded is skipped and counted, and the batch
    /// goes on with the next.
    pub fn ingest_logs(&mut self, kind: EventKind, logs: &Vec<RawLog>, now: u64) -> (report:
        BatchReport)
        requires
            old(self).wf(),
        ensures
            final(self).wf(),
            final(self)@ == ingest_logs_step(old(self)@, kind, logs@, now),
            (report.inserted as int, report.duplicates as int, report.malformed as int)
                == batch_counts(old(self)@, kind, logs@, now),
    {
        let mut report = BatchReport { inserted: 0, duplicates: 0, malformed: 0 };
        let mut i: usize = 0;
        while i < logs.len()
            invariant
                i <= logs@.len(),
                self.wf(),
                self@ == ingest_logs_step(old(self)@, kind, logs@.take(i as int), now),
                (report.inserted as int, report.duplicates as int, report.malformed as int)
                    == batch_counts(old(self)@, kind, logs@.take(i as int), now),
                report.inserted + report.duplicates + report.malformed == i,
            decreases logs@.len() - i,
        {
            proof {
                assert(logs@.take(i + 1).drop_last() =~= logs@.take(i as int));
                assert(logs@.take(i + 1).last() == logs@[i as int]);
            }
            match decode_log(kind, &logs[i]) {
                Ok(event) => {
                    match self.ingest(event, now) {
                        IngestOutcome::Inserted => {
                            report.inserted = report.inserted + 1;
                        },
                        IngestOutcome::AlreadyPresent => {
                            report.duplicates = report.duplicates + 1;
                        },
                    }
                },
                Err(_) => {
                    report.malformed = report.malformed + 1;
                },
            }
            i = i + 1;
        }
        assert(logs@.take(logs@.len() as int) =~= logs@);
        report
    }
}

} // verus!
